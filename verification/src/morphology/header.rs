//! The magic and the property section at the start of an HFST file.
use crate::hfstol::header::{is_modern_hfstol, le_u16, hfst_magic};
use crate::metadata::{
    encode_properties, law_encoded_properties_utf8, law_pieces_utf8_iff_body_utf8, law_properties_round_trip,
    nul_free, property_pairs, pieces_are_utf8, split_properties,
};
use vstd::utf8::{decode_utf8, valid_utf8};
use vstd::prelude::*;

verus! {

/// One name/value pair of the property section.
#[derive(Debug)]
pub struct HfstMetadata {
    name: String,
    value: String,
}

impl View for HfstMetadata {
    type V = (Seq<char>, Seq<char>);

    closed spec fn view(&self) -> (Seq<char>, Seq<char>) {
        (self.name@, self.value@)
    }
}

impl HfstMetadata {
    /// The property's name.
    pub fn name(&self) -> (res: &str)
        ensures
            res@ == self@.0,
    {
        self.name.as_str()
    }

    /// The property's value.
    pub fn value(&self) -> (res: &str)
        ensures
            res@ == self@.1,
    {
        self.value.as_str()
    }
}

/// Why a property section could not be read.
#[derive(Debug, PartialEq, Eq, Structural)]
pub enum MetadataError {
    /// The byte after the length field is not NUL, or the body does not end
    /// in NUL.
    Malformed,
    /// A property string is not valid UTF-8.
    InvalidUtf8,
}

/// The offset just past the property section starting `b`: the body length
/// plus three bytes of length field and separator.
pub open spec fn section_end(b: Seq<u8>) -> int {
    le_u16(b, 0) + 3
}

/// Whether the property section starting `b` is laid out as the format
/// prescribes: a NUL separator after the length field, and a body that is
/// empty or ends in NUL.
pub open spec fn section_framed(b: Seq<u8>) -> bool {
    b[2] == 0 && (le_u16(b, 0) == 0 || b[section_end(b) - 1] == 0)
}

/// Reading back what was written: a property section laid out from
/// NUL-free, valid UTF-8 names and values, of any length that fits the
/// length field, fits, is well framed, and reads back as those pairs, taking
/// `3 + body length` bytes, whatever follows it.
pub proof fn law_section_round_trip(pairs: Seq<(Seq<u8>, Seq<u8>)>, tail: Seq<u8>, buffer: Seq<u8>)
    requires
        forall|i: int|
            0 <= i < pairs.len() ==> nul_free(#[trigger] pairs[i].0) && nul_free(pairs[i].1) && valid_utf8(pairs[i].0)
                && valid_utf8(pairs[i].1),
        encode_properties(pairs).len() <= 0xffff,
        buffer == seq![
            (encode_properties(pairs).len() % 256) as u8,
            (encode_properties(pairs).len() / 256) as u8,
            0u8,
        ] + encode_properties(pairs) + tail,
    ensures
        buffer.len() >= 2,
        section_end(buffer) == 3 + encode_properties(pairs).len(),
        section_end(buffer) <= buffer.len(),
        section_framed(buffer),
        pieces_are_utf8(buffer.subrange(3, section_end(buffer))),
        property_pairs(buffer.subrange(3, section_end(buffer))) == pairs.map_values(
            |p: (Seq<u8>, Seq<u8>)| (decode_utf8(p.0), decode_utf8(p.1)),
        ),
{
    let body = encode_properties(pairs);
    let n = body.len();
    assert forall|i: int| 0 <= i < pairs.len() implies valid_utf8(#[trigger] pairs[i].0) && valid_utf8(pairs[i].1) by {
        assert(nul_free(pairs[i].0));
    }
    law_encoded_properties_utf8(pairs);
    law_pieces_utf8_iff_body_utf8(body);
    law_properties_round_trip(pairs);
    let l0 = (n % 256) as u8;
    let l1 = (n / 256) as u8;
    assert(l0 + 256 * l1 == n) by (nonlinear_arith)
        requires
            n <= 0xffff,
            l0 == n % 256,
            l1 == n / 256,
    ;
    assert(buffer[0] == l0 && buffer[1] == l1 && buffer[2] == 0);
    assert(section_end(buffer) == n + 3);
    assert(buffer.subrange(3, section_end(buffer)) =~= body);
    if n > 0 {
        assert(buffer[n as int + 2] == body[n as int - 1]);
    }
}

/// Whether the first five bytes are the `HFST\0` magic.
pub fn is_modern_hfst(bytes: &[u8]) -> (res: bool)
    ensures
        res == (bytes@.len() >= 5 && bytes@.take(5) == hfst_magic()),
{
    is_modern_hfstol(bytes)
}

/// Whether `decode_hfst_metadata_header` can read `buffer`: its length field
/// is there, and the section it announces fits in the buffer.
pub fn hfst_section_fits(buffer: &[u8]) -> (res: bool)
    ensures
        res == (buffer@.len() >= 2 && section_end(buffer@) <= buffer@.len()),
{
    if buffer.len() < 2 {
        return false;
    }
    let end = buffer[0] as usize + buffer[1] as usize * 256 + 3;
    end <= buffer.len()
}

/// Reads the property section at the start of `buffer`, up to the end of
/// its body. Returns the name/value pairs and the number of bytes read.
pub fn decode_hfst_metadata_header(buffer: &[u8]) -> (res: Result<(Vec<HfstMetadata>, usize), MetadataError>)
    requires
        buffer@.len() >= 2,
        section_end(buffer@) <= buffer@.len(),
    ensures
        !section_framed(buffer@) ==> res == Err::<(Vec<HfstMetadata>, usize), MetadataError>(
            MetadataError::Malformed,
        ),
        section_framed(buffer@) ==> match res {
            Err(e) => e == MetadataError::InvalidUtf8 && !pieces_are_utf8(
                buffer@.subrange(3, section_end(buffer@)),
            ),
            Ok((v, used)) => {
                &&& pieces_are_utf8(buffer@.subrange(3, section_end(buffer@)))
                &&& used == section_end(buffer@)
                &&& v@.map_values(|m: HfstMetadata| m@) == property_pairs(
                    buffer@.subrange(3, section_end(buffer@)),
                )
            },
        },
{
    let length: usize = buffer[0] as usize + buffer[1] as usize * 256;
    let offset: usize = length + 3;
    if buffer[2] != 0 || (length > 0 && buffer[offset - 1] != 0) {
        return Err(MetadataError::Malformed);
    }
    let properties = vstd::slice::slice_subrange(buffer, 3, offset);
    let pairs = match split_properties(properties) {
        Some(p) => p,
        None => {
            return Err(MetadataError::InvalidUtf8);
        },
    };
    let mut result: Vec<HfstMetadata> = Vec::new();
    let mut i: usize = 0;
    while i < pairs.len()
        invariant
            i <= pairs@.len(),
            result@.len() == i,
            forall|k: int| 0 <= k < i ==> (#[trigger] result@[k])@ == (pairs@[k].0@, pairs@[k].1@),
        decreases pairs.len() - i,
    {
        let name = pairs[i].0.clone();
        let value = pairs[i].1.clone();
        result.push(HfstMetadata { name, value });
        i += 1;
    }
    proof {
        assert(result@.map_values(|m: HfstMetadata| m@) =~= property_pairs(properties@));
    }
    Ok((result, offset))
}

} // verus!
