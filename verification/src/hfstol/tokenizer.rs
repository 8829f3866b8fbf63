//! The alphabet section of an HFST optimized-lookup file: the symbol
//! strings, each terminated by a NUL byte.
use crate::hfstol::header::HfstolProperties;
use crate::metadata::str_from_utf8;
use vstd::prelude::*;
use vstd::string::StringExecFns;
use vstd::utf8::{valid_utf8, decode_utf8};

verus! {

/// The first position at or after `from` where `s` holds `b`; the length of
/// `s` when there is none.
pub open spec fn find_from(s: Seq<u8>, b: u8, from: int) -> int
    decreases s.len() - from,
{
    if from < 0 || from >= s.len() {
        s.len() as int
    } else if s[from] == b {
        from
    } else {
        find_from(s, b, from + 1)
    }
}

/// Where `find_from` stops.
proof fn lemma_find_from(s: Seq<u8>, b: u8, from: int)
    requires
        0 <= from <= s.len(),
    ensures
        from <= find_from(s, b, from) <= s.len(),
        forall|k: int| from <= k < find_from(s, b, from) ==> s[k] != b,
        find_from(s, b, from) < s.len() ==> s[find_from(s, b, from)] == b,
    decreases s.len() - from,
{
    if from < s.len() && s[from] != b {
        lemma_find_from(s, b, from + 1);
    }
}

/// `count` NUL-terminated, non-empty symbols read from `pos` on; `None` when
/// a terminator is missing or a symbol is empty.
pub open spec fn symbols_from(s: Seq<u8>, pos: int, count: nat) -> Option<Seq<Seq<u8>>>
    decreases count,
{
    if count == 0 {
        Some(Seq::empty())
    } else {
        let z = find_from(s, 0, pos);
        if z >= s.len() || z == pos {
            None
        } else {
            match symbols_from(s, z + 1, (count - 1) as nat) {
                Some(rest) => Some(seq![s.subrange(pos, z)] + rest),
                None => None,
            }
        }
    }
}

/// `symbols_from` yields as many symbols as asked for.
pub proof fn lemma_symbols_len(s: Seq<u8>, pos: int, count: nat)
    ensures
        symbols_from(s, pos, count) matches Some(r) ==> r.len() == count,
    decreases count,
{
    if count > 0 {
        let z = find_from(s, 0, pos);
        lemma_symbols_len(s, z + 1, (count - 1) as nat);
    }
}

/// The `count` symbols of the alphabet in `s`, which starts at its first
/// `@` byte.
pub open spec fn symbol_table(s: Seq<u8>, count: nat) -> Option<Seq<Seq<u8>>> {
    let start = find_from(s, 0x40, 0);
    if start >= s.len() {
        None
    } else {
        symbols_from(s, start, count)
    }
}

/// Special symbols (flag diacritics and the like) start with `@` or `^`.
pub open spec fn is_special(sym: Seq<u8>) -> bool {
    sym[0] == 0x40 || sym[0] == 0x5e
}

/// The ordinary symbols and the special ones, each in their order.
pub open spec fn partition_symbols(syms: Seq<Seq<u8>>) -> (Seq<Seq<u8>>, Seq<Seq<u8>>) {
    (syms.filter(|x: Seq<u8>| !is_special(x)), syms.filter(|x: Seq<u8>| is_special(x)))
}

/// Every symbol read from a table is non-empty and holds no NUL byte.
pub proof fn law_symbols_are_nonempty(s: Seq<u8>, pos: int, count: nat)
    requires
        0 <= pos,
    ensures
        symbols_from(s, pos, count) matches Some(r) ==> forall|i: int| 0 <= i < r.len() ==> (#[trigger] r[i]).len() > 0
            && forall|k: int| 0 <= k < r[i].len() ==> r[i][k] != 0,
    decreases count,
{
    if count > 0 {
        let z = find_from(s, 0, pos);
        if pos <= s.len() {
            lemma_find_from(s, 0, pos);
        }
        if z < s.len() && z != pos {
            law_symbols_are_nonempty(s, z + 1, (count - 1) as nat);
            if let Some(rest) = symbols_from(s, z + 1, (count - 1) as nat) {
                let r = seq![s.subrange(pos, z)] + rest;
                assert forall|i: int| 0 <= i < r.len() implies (#[trigger] r[i]).len() > 0 && forall|k: int|
                    0 <= k < r[i].len() ==> r[i][k] != 0 by {
                    if i > 0 {
                        assert(r[i] == rest[i - 1]);
                    } else {
                        assert(r[0] == s.subrange(pos, z));
                        assert forall|k: int| 0 <= k < r[0].len() implies r[0][k] != 0 by {
                            assert(r[0][k] == s[pos + k]);
                        }
                    }
                }
            }
        }
    }
}

/// What a sequence holds once `x0` is pushed on it.
proof fn lemma_push_contains(a: Seq<Seq<u8>>, x0: Seq<u8>)
    ensures
        forall|x: Seq<u8>| #[trigger] a.push(x0).contains(x) == (a.contains(x) || x == x0),
{
    assert forall|x: Seq<u8>| #[trigger] a.push(x0).contains(x) == (a.contains(x) || x == x0) by {
        if a.push(x0).contains(x) {
            let i = choose|i: int| 0 <= i < a.push(x0).len() && a.push(x0)[i] == x;
            if i < a.len() {
                assert(a[i] == x);
            }
        }
        if a.contains(x) {
            let i = choose|i: int| 0 <= i < a.len() && a[i] == x;
            assert(a.push(x0)[i] == x);
        }
        if x == x0 {
            assert(a.push(x0)[a.len() as int] == x0);
        }
    }
}

/// How symbols are sorted: of the non-empty symbols `syms`, those whose
/// first byte is `@` (0x40) or `^` (0x5e) are the special ones and every
/// other one is ordinary; none is lost and none is added.
pub proof fn law_special_by_first_byte(syms: Seq<Seq<u8>>)
    requires
        forall|i: int| 0 <= i < syms.len() ==> (#[trigger] syms[i]).len() > 0,
    ensures
        forall|x: Seq<u8>| #[trigger] partition_symbols(syms).1.contains(x) <==> syms.contains(x) && (x[0] == 0x40
            || x[0] == 0x5e),
        forall|x: Seq<u8>| #[trigger] partition_symbols(syms).0.contains(x) <==> syms.contains(x) && x[0] != 0x40
            && x[0] != 0x5e,
        partition_symbols(syms).0.len() + partition_symbols(syms).1.len() == syms.len(),
    decreases syms.len(),
{
    reveal_with_fuel(Seq::<_>::filter, 1);
    if syms.len() > 0 {
        let init = syms.drop_last();
        assert forall|i: int| 0 <= i < init.len() implies (#[trigger] init[i]).len() > 0 by {
            assert(init[i] == syms[i]);
        }
        law_special_by_first_byte(init);
        let x0 = syms.last();
        assert(syms =~= init.push(x0));
        let (a, b) = partition_symbols(init);
        if x0[0] == 0x40 || x0[0] == 0x5e {
            assert(partition_symbols(syms).1 =~= b.push(x0));
            assert(partition_symbols(syms).0 =~= a);
        } else {
            assert(partition_symbols(syms).0 =~= a.push(x0));
            assert(partition_symbols(syms).1 =~= b);
        }
        lemma_push_contains(a, x0);
        lemma_push_contains(b, x0);
        assert forall|x: Seq<u8>| syms.contains(x) <==> init.contains(x) || x == x0 by {
            if syms.contains(x) {
                let i = choose|i: int| 0 <= i < syms.len() && syms[i] == x;
                if i < init.len() {
                    assert(init[i] == x);
                }
            }
            if init.contains(x) {
                let i = choose|i: int| 0 <= i < init.len() && init[i] == x;
                assert(syms[i] == x);
            }
            if x == x0 {
                assert(syms[syms.len() - 1] == x);
            }
        }
    }
}

/// What `parse_symbols` and `Tokenizer::new` return for a table of `n`
/// symbols: the symbols whose first byte is `@` or `^` are the special
/// ones, all the others are ordinary, and together they are the `n` symbols.
pub proof fn law_parse_symbols_sorts_by_first_byte(s: Seq<u8>, n: nat)
    requires
        symbol_table(s, n) is Some,
    ensures
        forall|x: Seq<u8>| #[trigger] partition_symbols(symbol_table(s, n)->0).1.contains(x) <==> symbol_table(
            s,
            n,
        )->0.contains(x) && (x[0] == 0x40 || x[0] == 0x5e),
        forall|x: Seq<u8>| #[trigger] partition_symbols(symbol_table(s, n)->0).0.contains(x) <==> symbol_table(
            s,
            n,
        )->0.contains(x) && x[0] != 0x40 && x[0] != 0x5e,
        partition_symbols(symbol_table(s, n)->0).0.len() + partition_symbols(symbol_table(s, n)->0).1.len() == n,
{
    lemma_find_from(s, 0x40, 0);
    let start = find_from(s, 0x40, 0);
    law_symbols_are_nonempty(s, start, n);
    lemma_symbols_len(s, start, n);
    law_special_by_first_byte(symbol_table(s, n)->0);
}

/// Symbols laid out as the file stores them: each followed by a NUL byte.
pub open spec fn encode_symbols(syms: Seq<Seq<u8>>) -> Seq<u8>
    decreases syms.len(),
{
    if syms.len() == 0 {
        Seq::empty()
    } else {
        syms[0] + seq![0u8] + encode_symbols(syms.drop_first())
    }
}

/// The search for `b` from `from` runs over bytes that differ from `b` up to
/// the first that equals it.
proof fn lemma_find_over(s: Seq<u8>, b: u8, from: int, stop: int)
    requires
        0 <= from <= stop < s.len(),
        s[stop] == b,
        forall|k: int| from <= k < stop ==> s[k] != b,
    ensures
        find_from(s, b, from) == stop,
    decreases stop - from,
{
    if from < stop {
        lemma_find_over(s, b, from + 1, stop);
    }
}

/// Reading the symbols laid out at `pos` gives them back.
proof fn lemma_symbols_read_back(s: Seq<u8>, pos: int, syms: Seq<Seq<u8>>)
    requires
        0 <= pos,
        pos + encode_symbols(syms).len() <= s.len(),
        s.subrange(pos, pos + encode_symbols(syms).len()) == encode_symbols(syms),
        forall|i: int| 0 <= i < syms.len() ==> (#[trigger] syms[i]).len() > 0 && forall|k: int|
            0 <= k < syms[i].len() ==> syms[i][k] != 0,
    ensures
        symbols_from(s, pos, syms.len()) == Some(syms),
    decreases syms.len(),
{
    if syms.len() > 0 {
        let x = syms[0];
        let rest = syms.drop_first();
        let e = encode_symbols(syms);
        let er = encode_symbols(rest);
        assert(e == x + seq![0u8] + er);
        let z = pos + x.len();
        assert forall|k: int| pos <= k < z implies s[k] != 0 by {
            assert(s[k] == e[k - pos]);
            assert(e[k - pos] == x[k - pos]);
        }
        assert(s[z] == e[x.len() as int]);
        lemma_find_over(s, 0, pos, z);
        assert forall|i: int| 0 <= i < rest.len() implies (#[trigger] rest[i]).len() > 0 && forall|k: int|
            0 <= k < rest[i].len() ==> rest[i][k] != 0 by {
            assert(rest[i] == syms[i + 1]);
        }
        assert(s.subrange(z + 1, z + 1 + er.len()) =~= er) by {
            assert forall|k: int| 0 <= k < er.len() implies s.subrange(z + 1, z + 1 + er.len())[k] == er[k] by {
                assert(s[z + 1 + k] == e[x.len() + 1 + k]);
            }
        }
        lemma_symbols_read_back(s, z + 1, rest);
        assert(s.subrange(pos, z) =~= x) by {
            assert forall|k: int| 0 <= k < x.len() implies s.subrange(pos, z)[k] == x[k] by {
                assert(s[pos + k] == e[k]);
            }
        }
        assert(seq![x] + rest =~= syms);
    }
}

/// Reading back what was written: after bytes that hold no `@`, a table of
/// non-empty, NUL-free symbols, the first of them starting with `@`, each
/// followed by a NUL byte, reads back as exactly those symbols, whatever
/// follows them.
pub proof fn law_symbol_table_round_trip(head: Seq<u8>, syms: Seq<Seq<u8>>, tail: Seq<u8>)
    requires
        forall|k: int| 0 <= k < head.len() ==> head[k] != 0x40,
        syms.len() > 0,
        syms[0].len() > 0 && syms[0][0] == 0x40,
        forall|i: int| 0 <= i < syms.len() ==> (#[trigger] syms[i]).len() > 0 && forall|k: int|
            0 <= k < syms[i].len() ==> syms[i][k] != 0,
    ensures
        symbol_table(head + encode_symbols(syms) + tail, syms.len()) == Some(syms),
{
    let e = encode_symbols(syms);
    let s = head + e + tail;
    assert(e == syms[0] + seq![0u8] + encode_symbols(syms.drop_first()));
    assert(s[head.len() as int] == e[0]);
    assert forall|k: int| 0 <= k < head.len() implies s[k] != 0x40 by {
        assert(s[k] == head[k]);
    }
    lemma_find_over(s, 0x40, 0, head.len() as int);
    assert(s.subrange(head.len() as int, head.len() + e.len() as int) =~= e);
    lemma_symbols_read_back(s, head.len() as int, syms);
}

/// The symbols of a transducer's alphabet, split into ordinary and special
/// ones.
pub struct Tokenizer {
    pub alphabet: Vec<Vec<u8>>,
    pub special_symbols: Vec<Vec<u8>>,
}

/// What `format!("{:?}", ..)` writes for a list of strings: each quoted and
/// escaped, separated by commas, in square brackets.
pub uninterp spec fn debug_str_list(items: Seq<Seq<char>>) -> Seq<char>;

/// Formats `items` with `format!("{:?}", items)`; the text is named by
/// `debug_str_list` and depends on the strings alone.
#[verifier::external_body]
fn format_str_list(items: &Vec<&str>) -> (res: String)
    ensures
        res@ == debug_str_list(items@.map_values(|x: &str| x@)),
{
    format!("{:?}", items)
}

/// Whether every symbol is valid UTF-8.
pub open spec fn all_utf8(syms: Seq<Seq<u8>>) -> bool {
    forall|i: int| 0 <= i < syms.len() ==> valid_utf8(#[trigger] syms[i])
}

/// The symbols decoded from UTF-8.
pub open spec fn decode_all(syms: Seq<Seq<u8>>) -> Seq<Seq<char>> {
    syms.map_values(|x: Seq<u8>| decode_utf8(x))
}

/// The symbols as strings; every one must be valid UTF-8.
fn symbols_as_strs(syms: &Vec<Vec<u8>>) -> (res: Vec<&str>)
    requires
        all_utf8(syms.deep_view()),
    ensures
        res@.map_values(|x: &str| x@) == decode_all(syms.deep_view()),
{
    let mut res: Vec<&str> = Vec::new();
    let mut i: usize = 0;
    while i < syms.len()
        invariant
            i <= syms@.len(),
            all_utf8(syms.deep_view()),
            res@.len() == i,
            forall|k: int| 0 <= k < i ==> (#[trigger] res@[k])@ == decode_utf8(syms.deep_view()[k]),
        decreases syms.len() - i,
    {
        proof {
            assert(syms@[i as int].deep_view() =~= syms@[i as int]@);
            assert(valid_utf8(syms.deep_view()[i as int]));
        }
        match str_from_utf8(syms[i].as_slice()) {
            Some(x) => res.push(x),
            None => {},
        }
        i += 1;
    }
    proof {
        assert(res@.map_values(|x: &str| x@) =~= decode_all(syms.deep_view()));
    }
    res
}

/// The text shown for a tokenizer, given its two symbol lists as already
/// formatted.
pub fn display_text(alphabet: &str, special_symbols: &str) -> (res: String)
    ensures
        res@ == "Alphabet: "@ + alphabet@ + ", special_symbols: "@ + special_symbols@,
{
    let mut res = String::from_str("Alphabet: ");
    res.append(alphabet);
    res.append(", special_symbols: ");
    res.append(special_symbols);
    res
}

impl Tokenizer {
    /// The text `Alphabet: [..], special_symbols: [..]`, each list written as
    /// `format!("{:?}", ..)` writes a list of strings; every symbol must be
    /// valid UTF-8.
    pub fn to_display_string(&self) -> (res: String)
        requires
            all_utf8(self.alphabet.deep_view()),
            all_utf8(self.special_symbols.deep_view()),
        ensures
            res@ == "Alphabet: "@ + debug_str_list(decode_all(self.alphabet.deep_view()))
                + ", special_symbols: "@ + debug_str_list(decode_all(self.special_symbols.deep_view())),
    {
        let alphabet = symbols_as_strs(&self.alphabet);
        let symbols = symbols_as_strs(&self.special_symbols);
        let a = format_str_list(&alphabet);
        let b = format_str_list(&symbols);
        display_text(a.as_str(), b.as_str())
    }

    /// Reads the alphabet of `hfstol_properties.num_symbols` symbols from
    /// `bytes`, which hold the file from the end of the header on.
    pub fn new(bytes: &[u8], hfstol_properties: HfstolProperties) -> (res: Tokenizer)
        requires
            symbol_table(bytes@, hfstol_properties.num_symbols as nat) is Some,
        ensures
            (res.alphabet.deep_view(), res.special_symbols.deep_view()) == partition_symbols(
                symbol_table(bytes@, hfstol_properties.num_symbols as nat)->0,
            ),
    {
        let (alphabet, special_symbols) = parse_symbols(bytes, hfstol_properties);
        Tokenizer { alphabet, special_symbols }
    }
}

/// Whether `bytes` hold an alphabet of `num_symbols` symbols that
/// `parse_symbols` can read: an `@` byte, and from there that many non-empty
/// NUL-terminated symbols.
pub fn symbol_table_fits(bytes: &[u8], num_symbols: u16) -> (res: bool)
    ensures
        res == symbol_table(bytes@, num_symbols as nat) is Some,
{
    let ghost s = bytes@;
    let ghost n = num_symbols as nat;
    let mut start: usize = 0;
    while start < bytes.len() && bytes[start] != 0x40
        invariant
            s == bytes@,
            start <= s.len(),
            find_from(s, 0x40, 0) == find_from(s, 0x40, start as int),
        decreases bytes.len() - start,
    {
        start += 1;
    }
    if start >= bytes.len() {
        return false;
    }
    let mut pos: usize = start;
    let mut count: u16 = 0;
    while count < num_symbols
        invariant
            s == bytes@,
            n == num_symbols,
            count <= n,
            pos <= s.len(),
            symbol_table(s, n) is Some <==> symbols_from(s, pos as int, (n - count) as nat) is Some,
        decreases n - count,
    {
        let mut null_byte: usize = pos;
        while null_byte < bytes.len() && bytes[null_byte] != 0
            invariant
                s == bytes@,
                pos <= null_byte <= s.len(),
                find_from(s, 0, pos as int) == find_from(s, 0, null_byte as int),
            decreases bytes.len() - null_byte,
        {
            null_byte += 1;
        }
        if null_byte >= bytes.len() || null_byte == pos {
            return false;
        }
        pos = null_byte + 1;
        count += 1;
    }
    true
}

/// Reads the alphabet: skips to the first `@` byte, then reads
/// `hfstol_properties.num_symbols` NUL-terminated symbols, sorting those
/// that start with `@` or `^` into the special ones.
pub fn parse_symbols(bytes: &[u8], hfstol_properties: HfstolProperties) -> (res: (Vec<Vec<u8>>, Vec<Vec<u8>>))
    requires
        symbol_table(bytes@, hfstol_properties.num_symbols as nat) is Some,
    ensures
        (res.0.deep_view(), res.1.deep_view()) == partition_symbols(
            symbol_table(bytes@, hfstol_properties.num_symbols as nat)->0,
        ),
{
    let ghost s = bytes@;
    let ghost n = hfstol_properties.num_symbols as nat;
    let mut count: u16 = 0;
    let mut alphabet: Vec<Vec<u8>> = Vec::new();
    let mut special_symbols: Vec<Vec<u8>> = Vec::new();
    let mut start: usize = 0;
    while start < bytes.len() && bytes[start] != 0x40
        invariant
            s == bytes@,
            start <= s.len(),
            find_from(s, 0x40, 0) == find_from(s, 0x40, start as int),
        decreases bytes.len() - start,
    {
        start += 1;
    }
    let mut pos: usize = start;
    let ghost syms = symbol_table(s, n)->0;
    proof {
        reveal_with_fuel(Seq::<_>::filter, 1);
        lemma_symbols_len(s, find_from(s, 0x40, 0), n);
        assert(syms.take(0) =~= Seq::<Seq<u8>>::empty());
        assert(syms.skip(0) =~= syms);
    }
    while count < hfstol_properties.num_symbols
        invariant
            s == bytes@,
            n == hfstol_properties.num_symbols,
            symbol_table(s, n) == Some(syms),
            count <= n,
            pos <= s.len(),
            syms.len() == n,
            symbols_from(s, pos as int, (n - count) as nat) == Some(syms.skip(count as int)),
            (alphabet.deep_view(), special_symbols.deep_view()) == partition_symbols(syms.take(count as int)),
        decreases n - count,
    {
        let mut null_byte: usize = pos;
        while null_byte < bytes.len() && bytes[null_byte] != 0
            invariant
                s == bytes@,
                pos <= null_byte <= s.len(),
                find_from(s, 0, pos as int) == find_from(s, 0, null_byte as int),
            decreases bytes.len() - null_byte,
        {
            null_byte += 1;
        }
        let symbol = vstd::slice::slice_to_vec(vstd::slice::slice_subrange(bytes, pos, null_byte));
        proof {
            let rest = symbols_from(s, null_byte + 1, (n - count - 1) as nat);
            assert(syms.skip(count as int) == seq![s.subrange(pos as int, null_byte as int)] + rest->0);
            assert(syms[count as int] == syms.skip(count as int)[0]);
            assert(syms.skip(count + 1) =~= syms.skip(count as int).drop_first());
            assert(syms.take(count + 1).drop_last() =~= syms.take(count as int));
            assert(syms.take(count + 1).last() == syms[count as int]);
        }
        let ghost a0 = alphabet.deep_view();
        let ghost sp0 = special_symbols.deep_view();
        proof {
            assert(symbol.deep_view() =~= symbol@);
        }
        if symbol[0] == 0x40 || symbol[0] == 0x5e {
            special_symbols.push(symbol);
        } else {
            alphabet.push(symbol);
        }
        proof {
            reveal_with_fuel(Seq::<_>::filter, 1);
            if is_special(symbol@) {
                assert(special_symbols.deep_view() =~= sp0.push(symbol@));
                assert(alphabet.deep_view() =~= a0);
            } else {
                assert(alphabet.deep_view() =~= a0.push(symbol@));
                assert(special_symbols.deep_view() =~= sp0);
            }
            assert(alphabet.deep_view() =~= partition_symbols(syms.take(count + 1)).0);
            assert(special_symbols.deep_view() =~= partition_symbols(syms.take(count + 1)).1);
        }
        pos = null_byte + 1;
        count += 1;
    }
    proof {
        assert(syms.take(n as int) =~= syms);
    }
    (alphabet, special_symbols)
}

} // verus!
