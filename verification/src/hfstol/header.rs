//! The header of an HFST 3.x optimized-lookup file: the `HFST\0` magic, the
//! property section, and the fixed fields that follow it.
use crate::metadata::{
    encode_properties, law_encoded_properties_utf8, law_pieces_utf8_iff_body_utf8, law_properties_round_trip,
    nul_free, property_pairs, pieces_are_utf8, split_properties,
};
use vstd::utf8::{decode_utf8, valid_utf8};
use vstd::prelude::*;

verus! {

/// The five bytes that open a property-based header: `HFST` and a NUL.
pub open spec fn hfst_magic() -> Seq<u8> {
    seq![0x48u8, 0x46u8, 0x53u8, 0x54u8, 0x00u8]
}

/// The unsigned 16-bit little-endian number at `at`.
pub open spec fn le_u16(b: Seq<u8>, at: int) -> int {
    b[at] + 256 * b[at + 1]
}

/// The unsigned 32-bit little-endian number at `at`.
pub open spec fn le_u32(b: Seq<u8>, at: int) -> int {
    b[at] + 256 * b[at + 1] + 65536 * b[at + 2] + 16777216 * b[at + 3]
}

/// One name/value pair of the property section.
#[derive(Debug)]
pub struct HfstolMetadata {
    name: String,
    value: String,
}

impl View for HfstolMetadata {
    type V = (Seq<char>, Seq<char>);

    closed spec fn view(&self) -> (Seq<char>, Seq<char>) {
        (self.name@, self.value@)
    }
}

impl HfstolMetadata {
    /// The property's name.
    pub fn name(&self) -> (res: &str)
        ensures
            res@ == self@.0,
    {
        self.name.as_str()
    }

    /// The property's value.
    pub fn value(&self) -> (res: &str)
        ensures
            res@ == self@.1,
    {
        self.value.as_str()
    }
}

/// The fixed fields that follow the property section: 56 bytes of
/// little-endian numbers, the last nine of them flags that are 0 or 1.
#[derive(Debug)]
pub struct HfstolProperties {
    pub num_input_symbols: u16,
    pub num_symbols: u16,
    pub transition_index_size: u32,
    pub transition_table_size: u32,
    pub num_states: u32,
    pub num_transitions: u32,
    pub weighted: u32,
    pub deterministic: u32,
    pub input_deterministic: u32,
    pub minimized: u32,
    pub cyclic: u32,
    pub has_epsilon_epsilon_transitions: u32,
    pub has_input_epsilon_transitions: u32,
    pub has_input_epsilon_cycles: u32,
    pub has_unweighted_input_epsilon_cycles: u32,
}

/// The fields of `HfstolProperties`, in the order they are stored.
pub struct PropertiesModel {
    pub num_input_symbols: int,
    pub num_symbols: int,
    pub transition_index_size: int,
    pub transition_table_size: int,
    pub num_states: int,
    pub num_transitions: int,
    pub weighted: int,
    pub deterministic: int,
    pub input_deterministic: int,
    pub minimized: int,
    pub cyclic: int,
    pub has_epsilon_epsilon_transitions: int,
    pub has_input_epsilon_transitions: int,
    pub has_input_epsilon_cycles: int,
    pub has_unweighted_input_epsilon_cycles: int,
}

impl View for HfstolProperties {
    type V = PropertiesModel;

    open spec fn view(&self) -> PropertiesModel {
        PropertiesModel {
            num_input_symbols: self.num_input_symbols as int,
            num_symbols: self.num_symbols as int,
            transition_index_size: self.transition_index_size as int,
            transition_table_size: self.transition_table_size as int,
            num_states: self.num_states as int,
            num_transitions: self.num_transitions as int,
            weighted: self.weighted as int,
            deterministic: self.deterministic as int,
            input_deterministic: self.input_deterministic as int,
            minimized: self.minimized as int,
            cyclic: self.cyclic as int,
            has_epsilon_epsilon_transitions: self.has_epsilon_epsilon_transitions as int,
            has_input_epsilon_transitions: self.has_input_epsilon_transitions as int,
            has_input_epsilon_cycles: self.has_input_epsilon_cycles as int,
            has_unweighted_input_epsilon_cycles: self.has_unweighted_input_epsilon_cycles as int,
        }
    }
}

/// The number of bytes the fixed fields take.
pub const FIXED_HEADER_LEN: usize = 56;

/// The fixed fields stored little-endian in the first 56 bytes of `b`.
pub open spec fn properties_at(b: Seq<u8>) -> PropertiesModel {
    PropertiesModel {
        num_input_symbols: le_u16(b, 0),
        num_symbols: le_u16(b, 2),
        transition_index_size: le_u32(b, 4),
        transition_table_size: le_u32(b, 8),
        num_states: le_u32(b, 12),
        num_transitions: le_u32(b, 16),
        weighted: le_u32(b, 20),
        deterministic: le_u32(b, 24),
        input_deterministic: le_u32(b, 28),
        minimized: le_u32(b, 32),
        cyclic: le_u32(b, 36),
        has_epsilon_epsilon_transitions: le_u32(b, 40),
        has_input_epsilon_transitions: le_u32(b, 44),
        has_input_epsilon_cycles: le_u32(b, 48),
        has_unweighted_input_epsilon_cycles: le_u32(b, 52),
    }
}

/// Where each fixed field lies: the little-endian number at the offset the
/// format gives it (two bytes at 0 and 2, then four bytes each from 4 to 52),
/// read from those bytes alone.
pub proof fn law_fixed_fields_at_documented_offsets(b: Seq<u8>)
    requires
        b.len() >= 56,
    ensures
        properties_at(b).num_input_symbols == b[0] + 256 * b[1],
        properties_at(b).num_symbols == b[2] + 256 * b[3],
        properties_at(b).transition_index_size == b[4] + 256 * b[5] + 65536 * b[6] + 16777216 * b[7],
        properties_at(b).transition_table_size == b[8] + 256 * b[9] + 65536 * b[10] + 16777216 * b[11],
        properties_at(b).num_states == b[12] + 256 * b[13] + 65536 * b[14] + 16777216 * b[15],
        properties_at(b).num_transitions == b[16] + 256 * b[17] + 65536 * b[18] + 16777216 * b[19],
        properties_at(b).weighted == b[20] + 256 * b[21] + 65536 * b[22] + 16777216 * b[23],
        properties_at(b).deterministic == b[24] + 256 * b[25] + 65536 * b[26] + 16777216 * b[27],
        properties_at(b).input_deterministic == b[28] + 256 * b[29] + 65536 * b[30] + 16777216 * b[31],
        properties_at(b).minimized == b[32] + 256 * b[33] + 65536 * b[34] + 16777216 * b[35],
        properties_at(b).cyclic == b[36] + 256 * b[37] + 65536 * b[38] + 16777216 * b[39],
        properties_at(b).has_epsilon_epsilon_transitions == b[40] + 256 * b[41] + 65536 * b[42] + 16777216 * b[43],
        properties_at(b).has_input_epsilon_transitions == b[44] + 256 * b[45] + 65536 * b[46] + 16777216 * b[47],
        properties_at(b).has_input_epsilon_cycles == b[48] + 256 * b[49] + 65536 * b[50] + 16777216 * b[51],
        properties_at(b).has_unweighted_input_epsilon_cycles == b[52] + 256 * b[53] + 65536 * b[54] + 16777216 * b[55],
{
}

/// A header laid out as the format stores it: the magic, the body length in
/// two little-endian bytes, a NUL separator, the body, then the fixed
/// fields.
pub open spec fn header_bytes(body: Seq<u8>, fixed: Seq<u8>) -> Seq<u8> {
    hfst_magic() + seq![(body.len() % 256) as u8, (body.len() / 256) as u8, 0u8] + body + fixed
}

/// Reading back what was written: a header whose body is laid out from
/// NUL-free, valid UTF-8 names and values, of any length that fits the
/// length field, followed by 56 bytes of fixed fields, is read whole: it is
/// not cut short, it is well framed, its pairs are the ones written, its
/// fixed fields are read from those 56 bytes, and it takes
/// `5 + 3 + body length + 56` bytes.
pub proof fn law_header_round_trip(pairs: Seq<(Seq<u8>, Seq<u8>)>, fixed: Seq<u8>, bytes: Seq<u8>)
    requires
        forall|i: int|
            0 <= i < pairs.len() ==> nul_free(#[trigger] pairs[i].0) && nul_free(pairs[i].1) && valid_utf8(pairs[i].0)
                && valid_utf8(pairs[i].1),
        encode_properties(pairs).len() <= 0xffff,
        fixed.len() == 56,
        bytes == header_bytes(encode_properties(pairs), fixed),
    ensures
        !header_cut_short(bytes),
        bytes.len() >= 5 && bytes.take(5) == hfst_magic(),
        bytes.skip(5).len() > 0,
        metadata_framed(bytes.skip(5)),
        pieces_are_utf8(metadata_body(bytes.skip(5))),
        property_pairs(metadata_body(bytes.skip(5))) == pairs.map_values(
            |p: (Seq<u8>, Seq<u8>)| (decode_utf8(p.0), decode_utf8(p.1)),
        ),
        properties_at(bytes.skip(5).skip(metadata_len(bytes.skip(5)))) == properties_at(fixed),
        5 + metadata_len(bytes.skip(5)) + 56 == 5 + 3 + encode_properties(pairs).len() + 56,
{
    let body = encode_properties(pairs);
    let n = body.len();
    let rest = bytes.skip(5);
    assert forall|i: int| 0 <= i < pairs.len() implies valid_utf8(#[trigger] pairs[i].0) && valid_utf8(pairs[i].1) by {
        assert(nul_free(pairs[i].0));
    }
    law_encoded_properties_utf8(pairs);
    law_pieces_utf8_iff_body_utf8(body);
    assert forall|i: int| 0 <= i < pairs.len() implies nul_free(#[trigger] pairs[i].0) && nul_free(pairs[i].1) by {}
    law_properties_round_trip(pairs);
    let l0 = (n % 256) as u8;
    let l1 = (n / 256) as u8;
    assert(l0 + 256 * l1 == n) by (nonlinear_arith)
        requires
            n <= 0xffff,
            l0 == n % 256,
            l1 == n / 256,
    ;
    assert(bytes.take(5) =~= hfst_magic());
    assert(rest =~= seq![l0, l1, 0u8] + body + fixed);
    assert(le_u16(rest, 0) == n);
    assert(metadata_len(rest) == n + 3);
    assert(metadata_body(rest) =~= body);
    assert(rest.skip(metadata_len(rest)) =~= fixed);
    if n > 0 {
        assert(rest[n as int + 2] == body[n as int - 1]);
    }
}

/// Why a header could not be read.
#[derive(Debug, PartialEq, Eq, Structural)]
pub enum HfstolError {
    /// Fewer than five bytes: no room for the magic.
    Truncated,
    /// The file does not open with `HFST\0`; it predates HFST 3.1.
    NotModern,
    /// Nothing follows the magic.
    EmptyMetadata,
    /// The byte after the length field is not NUL, or the body does not end
    /// in NUL.
    MalformedMetadata,
    /// A property string is not valid UTF-8.
    InvalidUtf8,
}

impl HfstolError {
    /// The text reported for the error.
    pub fn message(&self) -> (res: &'static str)
        ensures
            *self == HfstolError::Truncated ==> res@ == "failed to fill whole buffer"@,
            *self == HfstolError::NotModern ==> res@
                == "Could not parse the HFST-OL file as version 3.1+; it's probably an older version that's not supported."@,
            *self == HfstolError::EmptyMetadata ==> res@
                == "The file buffer was empty when decoding metadata; is the file correct?"@,
            *self == HfstolError::MalformedMetadata ==> res@
                == "The property section is malformed: its separator or its final byte is not NUL."@,
            *self == HfstolError::InvalidUtf8 ==> res@ == "invalid utf-8 sequence in the property section"@,
    {
        match self {
            HfstolError::Truncated => "failed to fill whole buffer",
            HfstolError::NotModern => {
                "Could not parse the HFST-OL file as version 3.1+; it's probably an older version that's not supported."
            },
            HfstolError::EmptyMetadata => "The file buffer was empty when decoding metadata; is the file correct?",
            HfstolError::MalformedMetadata => {
                "The property section is malformed: its separator or its final byte is not NUL."
            },
            HfstolError::InvalidUtf8 => "invalid utf-8 sequence in the property section",
        }
    }
}

/// The number of bytes the property section takes, length field and
/// separator included, for the bytes `b` that follow the magic.
pub open spec fn metadata_len(b: Seq<u8>) -> int {
    le_u16(b, 0) + 3
}

/// The property body in the bytes `b` that follow the magic.
pub open spec fn metadata_body(b: Seq<u8>) -> Seq<u8> {
    b.subrange(3, metadata_len(b))
}

/// Whether the property section starting `b` is cut short, so that its
/// length field or its body runs past the end.
pub open spec fn metadata_cut_short(b: Seq<u8>) -> bool {
    b.len() == 1 || (b.len() >= 2 && metadata_len(b) > b.len())
}

/// Whether the property section starting `b` is laid out as the format
/// prescribes: a NUL separator after the length field, and a body that is
/// empty or ends in NUL.
pub open spec fn metadata_framed(b: Seq<u8>) -> bool {
    b[2] == 0 && (le_u16(b, 0) == 0 || b[metadata_len(b) - 1] == 0)
}

/// Whether `bytes` holds a header that breaks off inside a field that the
/// reader indexes: the property section, or the fixed fields after it.
pub open spec fn header_cut_short(bytes: Seq<u8>) -> bool {
    let rest = bytes.skip(5);
    &&& bytes.len() >= 5
    &&& bytes.take(5) == hfst_magic()
    &&& rest.len() > 0
    &&& (metadata_cut_short(rest) || (metadata_framed(rest) && pieces_are_utf8(metadata_body(rest))
        && rest.len() - metadata_len(rest) < 56))
}

/// Whether the first five bytes are the `HFST\0` magic of a property-based
/// header.
pub fn is_modern_hfstol(bytes: &[u8]) -> (res: bool)
    ensures
        res == (bytes@.len() >= 5 && bytes@.take(5) == hfst_magic()),
{
    let res = bytes.len() >= 5 && bytes[0] == 0x48 && bytes[1] == 0x46 && bytes[2] == 0x53
        && bytes[3] == 0x54 && bytes[4] == 0x00;
    proof {
        if bytes@.len() >= 5 {
            if res {
                assert(bytes@.take(5) =~= hfst_magic());
            } else if bytes@.take(5) == hfst_magic() {
                assert(bytes@.take(5)[0] == bytes@[0]);
                assert(bytes@.take(5)[1] == bytes@[1]);
                assert(bytes@.take(5)[2] == bytes@[2]);
                assert(bytes@.take(5)[3] == bytes@[3]);
                assert(bytes@.take(5)[4] == bytes@[4]);
            }
        }
    }
    res
}

/// Whether `read_hfstol_header` can read `bytes` without running past their
/// end, that is, whether the header is not cut short.
pub fn hfstol_header_fits(bytes: &[u8]) -> (res: bool)
    ensures
        res == !header_cut_short(bytes@),
{
    if !is_modern_hfstol(bytes) {
        return true;
    }
    let rest = vstd::slice::slice_subrange(bytes, 5, bytes.len());
    proof {
        assert(rest@ =~= bytes@.skip(5));
    }
    if rest.len() == 0 {
        return true;
    }
    if rest.len() == 1 {
        return false;
    }
    let len = rest[0] as usize + rest[1] as usize * 256 + 3;
    if len > rest.len() {
        return false;
    }
    if rest[2] != 0 || (len > 3 && rest[len - 1] != 0) {
        return true;
    }
    let body = vstd::slice::slice_subrange(rest, 3, len);
    match split_properties(body) {
        None => true,
        Some(_) => rest.len() - len >= FIXED_HEADER_LEN,
    }
}

/// Reads the property section at the start of `buffer`: a 16-bit body
/// length, a NUL separator, and the body of NUL-terminated name and value
/// strings. Returns the pairs and the number of bytes the section takes.
fn decode_hfstol_metadata(buffer: &[u8]) -> (res: Result<(Vec<HfstolMetadata>, usize), HfstolError>)
    requires
        !metadata_cut_short(buffer@),
    ensures
        buffer@.len() == 0 ==> res == Err::<(Vec<HfstolMetadata>, usize), HfstolError>(
            HfstolError::EmptyMetadata,
        ),
        buffer@.len() > 0 && !metadata_framed(buffer@) ==> res == Err::<(Vec<HfstolMetadata>, usize), HfstolError>(
            HfstolError::MalformedMetadata,
        ),
        buffer@.len() > 0 && metadata_framed(buffer@) ==> match res {
            Err(e) => e == HfstolError::InvalidUtf8 && !pieces_are_utf8(metadata_body(buffer@)),
            Ok((v, used)) => {
                &&& pieces_are_utf8(metadata_body(buffer@))
                &&& used == metadata_len(buffer@)
                &&& v@.map_values(|m: HfstolMetadata| m@) == property_pairs(metadata_body(buffer@))
            },
        },
{
    if buffer.len() == 0 {
        return Err(HfstolError::EmptyMetadata);
    }
    let index = buffer[0] as usize + buffer[1] as usize * 256;
    if buffer[2] != 0 || (index > 0 && buffer[index + 2] != 0) {
        return Err(HfstolError::MalformedMetadata);
    }
    let properties = vstd::slice::slice_subrange(buffer, 3, index + 3);
    let pairs = match split_properties(properties) {
        Some(p) => p,
        None => {
            return Err(HfstolError::InvalidUtf8);
        },
    };
    let mut result: Vec<HfstolMetadata> = Vec::new();
    let mut i: usize = 0;
    while i < pairs.len()
        invariant
            i <= pairs@.len(),
            result@.len() == i,
            forall|k: int| 0 <= k < i ==> (#[trigger] result@[k])@ == (pairs@[k].0@, pairs@[k].1@),
        decreases pairs.len() - i,
    {
        let name = pairs[i].0.clone();
        let value = pairs[i].1.clone();
        result.push(HfstolMetadata { name, value });
        i += 1;
    }
    proof {
        assert(result@.map_values(|m: HfstolMetadata| m@) =~= property_pairs(metadata_body(buffer@)));
    }
    Ok((result, index + 3))
}

/// Decodes the 56 bytes of fixed fields at the start of `buffer`.
fn decode_hfstol_properties(buffer: &[u8]) -> (res: HfstolProperties)
    requires
        buffer@.len() >= 56,
    ensures
        res@ == properties_at(buffer@),
{
    HfstolProperties {
        num_input_symbols: read_u16(buffer, 0),
        num_symbols: read_u16(buffer, 2),
        transition_index_size: read_u32(buffer, 4),
        transition_table_size: read_u32(buffer, 8),
        num_states: read_u32(buffer, 12),
        num_transitions: read_u32(buffer, 16),
        weighted: read_u32(buffer, 20),
        deterministic: read_u32(buffer, 24),
        input_deterministic: read_u32(buffer, 28),
        minimized: read_u32(buffer, 32),
        cyclic: read_u32(buffer, 36),
        has_epsilon_epsilon_transitions: read_u32(buffer, 40),
        has_input_epsilon_transitions: read_u32(buffer, 44),
        has_input_epsilon_cycles: read_u32(buffer, 48),
        has_unweighted_input_epsilon_cycles: read_u32(buffer, 52),
    }
}

/// The little-endian 16-bit number at `at`.
fn read_u16(b: &[u8], at: usize) -> (res: u16)
    requires
        at + 2 <= b@.len(),
    ensures
        res == le_u16(b@, at as int),
{
    b[at] as u16 + b[at + 1] as u16 * 256
}

/// The little-endian 32-bit number at `at`.
fn read_u32(b: &[u8], at: usize) -> (res: u32)
    requires
        at + 4 <= b@.len(),
    ensures
        res == le_u32(b@, at as int),
{
    b[at] as u32 + b[at + 1] as u32 * 256 + b[at + 2] as u32 * 65536 + b[at + 3] as u32 * 16777216
}

/// Reads the header at the start of `bytes`: the magic, the property
/// section, and the fixed fields. Returns the properties, the fixed fields,
/// and the number of bytes the header takes.
pub fn read_hfstol_header(bytes: &[u8]) -> (res: Result<(Vec<HfstolMetadata>, HfstolProperties, usize), HfstolError>)
    requires
        !header_cut_short(bytes@),
    ensures
        bytes@.len() < 5 ==> res is Err && res->Err_0 == HfstolError::Truncated,
        bytes@.len() >= 5 && bytes@.take(5) != hfst_magic() ==> res is Err && res->Err_0 == HfstolError::NotModern,
        bytes@.len() >= 5 && bytes@.take(5) == hfst_magic() ==> {
            let rest = bytes@.skip(5);
            &&& rest.len() == 0 ==> res is Err && res->Err_0 == HfstolError::EmptyMetadata
            &&& rest.len() > 0 && !metadata_framed(rest) ==> res is Err && res->Err_0
                == HfstolError::MalformedMetadata
            &&& rest.len() > 0 && metadata_framed(rest) && !pieces_are_utf8(metadata_body(rest)) ==> res is Err
                && res->Err_0 == HfstolError::InvalidUtf8
            &&& rest.len() > 0 && metadata_framed(rest) && pieces_are_utf8(metadata_body(rest)) ==> (res matches Ok(
                (meta, props, used),
            ) && {
                &&& meta@.map_values(|m: HfstolMetadata| m@) == property_pairs(metadata_body(rest))
                &&& props@ == properties_at(rest.skip(metadata_len(rest)))
                &&& used == 5 + metadata_len(rest) + 56
            })
        },
{
    if bytes.len() < 5 {
        return Err(HfstolError::Truncated);
    }
    let magic = vstd::slice::slice_subrange(bytes, 0, 5);
    let is_modern = is_modern_hfstol(magic);
    proof {
        assert(magic@ =~= bytes@.take(5));
        assert(magic@.take(5) =~= magic@);
    }
    if !is_modern {
        return Err(HfstolError::NotModern);
    }
    let rest = vstd::slice::slice_subrange(bytes, 5, bytes.len());
    proof {
        assert(rest@ =~= bytes@.skip(5));
    }
    let (header_property, used) = match decode_hfstol_metadata(rest) {
        Ok(r) => r,
        Err(e) => {
            return Err(e);
        },
    };
    let fixed = vstd::slice::slice_subrange(rest, used, rest.len());
    let hfst_header = decode_hfstol_properties(fixed);
    proof {
        assert(fixed@ =~= rest@.skip(used as int));
        assert(properties_at(fixed@) == properties_at(rest@.skip(metadata_len(rest@))));
    }
    Ok((header_property, hfst_header, 5 + used + FIXED_HEADER_LEN))
}

} // verus!
