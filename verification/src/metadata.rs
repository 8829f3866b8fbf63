//! The property section of an HFST header: NUL-terminated UTF-8 strings,
//! read two at a time as name/value pairs.
use vstd::prelude::*;
use vstd::utf8::*;

verus! {

/// The position of the first NUL byte of `s`; its length when it has none.
pub open spec fn nul_pos(s: Seq<u8>) -> int
    decreases s.len(),
{
    if s.len() == 0 {
        0
    } else if s[0] == 0 {
        0
    } else {
        1 + nul_pos(s.drop_first())
    }
}

/// Where the first NUL byte of `s` lies, and that none comes before it.
pub proof fn lemma_nul_pos(s: Seq<u8>)
    ensures
        0 <= nul_pos(s) <= s.len(),
        forall|k: int| 0 <= k < nul_pos(s) ==> s[k] != 0,
        nul_pos(s) < s.len() ==> s[nul_pos(s)] == 0,
    decreases s.len(),
{
    if s.len() > 0 && s[0] != 0 {
        lemma_nul_pos(s.drop_first());
        assert forall|k: int| 0 <= k < nul_pos(s) implies s[k] != 0 by {
            if k > 0 {
                assert(s[k] == s.drop_first()[k - 1]);
            }
        }
    }
}

/// The pieces of `s` between its NUL bytes, as `str::split('\0')` yields
/// them: one more piece than there are NUL bytes.
pub open spec fn nul_split(s: Seq<u8>) -> Seq<Seq<u8>>
    decreases s.len(),
{
    let i = nul_pos(s);
    if i >= s.len() {
        seq![s]
    } else {
        proof {
            lemma_nul_pos(s);
        }
        seq![s.take(i)] + nul_split(s.skip(i + 1))
    }
}

/// Whether every piece of `body` between NUL bytes is valid UTF-8.
pub open spec fn pieces_are_utf8(body: Seq<u8>) -> bool {
    forall|k: int| 0 <= k < nul_split(body).len() ==> valid_utf8(#[trigger] nul_split(body)[k])
}

/// The name/value pairs of a property body: its pieces between NUL bytes,
/// decoded as UTF-8 and taken two at a time; a last unpaired piece is
/// dropped.
pub open spec fn property_pairs(body: Seq<u8>) -> Seq<(Seq<char>, Seq<char>)> {
    let p = nul_split(body);
    Seq::new(
        (p.len() / 2) as nat,
        |i: int| (decode_utf8(p[2 * i]), decode_utf8(p[2 * i + 1])),
    )
}

/// A NUL byte on its own is a whole UTF-8 scalar.
proof fn lemma_nul_scalar(b: Seq<u8>)
    requires
        b.len() > 0,
        b[0] == 0,
    ensures
        valid_first_scalar(b),
        length_of_first_scalar(b) == 1,
        pop_first_scalar(b) =~= b.drop_first(),
{
    let z: u8 = b[0];
    assert((z & 0x7F) as u32 == 0) by (bit_vector)
        requires
            z == 0,
    ;
}

/// A NUL byte splits UTF-8 validity: the bytes around it are valid UTF-8
/// together exactly when each side is.
proof fn lemma_utf8_around_nul(a: Seq<u8>, b: Seq<u8>)
    ensures
        valid_utf8(a + seq![0u8] + b) <==> valid_utf8(a) && valid_utf8(b),
{
    let s = a + seq![0u8] + b;
    let zb = seq![0u8] + b;
    assert(s =~= a + zb);
    lemma_nul_scalar(zb);
    assert(zb.drop_first() =~= b);
    if valid_utf8(a) && valid_utf8(b) {
        assert(valid_utf8(zb));
        valid_utf8_concat(a, zb);
    }
    if valid_utf8(s) {
        assert(s[a.len() as int] == 0);
        is_char_boundary_iff_is_leading_byte(s, a.len() as int);
        valid_utf8_split(s, a.len() as int);
        assert(s.subrange(0, a.len() as int) =~= a);
        assert(s.subrange(a.len() as int, s.len() as int) =~= zb);
        assert(valid_utf8(zb));
        assert(valid_utf8(pop_first_scalar(zb)));
    }
}

/// Checking each piece between NUL bytes is checking the whole: the pieces
/// are all valid UTF-8 exactly when the body is, as `str::from_utf8` on the
/// whole body finds.
pub proof fn law_pieces_utf8_iff_body_utf8(body: Seq<u8>)
    ensures
        pieces_are_utf8(body) <==> valid_utf8(body),
    decreases body.len(),
{
    lemma_nul_pos(body);
    let i = nul_pos(body);
    if i >= body.len() {
        assert(nul_split(body) == seq![body]);
        assert(nul_split(body)[0] == body);
    } else {
        let a = body.take(i);
        let b = body.skip(i + 1);
        assert(body =~= a + seq![0u8] + b);
        lemma_utf8_around_nul(a, b);
        law_pieces_utf8_iff_body_utf8(b);
        let p = nul_split(body);
        assert(p == seq![a] + nul_split(b));
        if pieces_are_utf8(body) {
            assert(valid_utf8(p[0]));
            assert forall|k: int| 0 <= k < nul_split(b).len() implies valid_utf8(#[trigger] nul_split(b)[k]) by {
                assert(p[k + 1] == nul_split(b)[k]);
            }
        }
        if valid_utf8(body) {
            assert forall|k: int| 0 <= k < p.len() implies valid_utf8(#[trigger] p[k]) by {
                if k > 0 {
                    assert(p[k] == nul_split(b)[k - 1]);
                }
            }
        }
    }
}

/// Property strings laid out as the format stores them: each name and each
/// value followed by a NUL byte.
pub open spec fn encode_properties(pairs: Seq<(Seq<u8>, Seq<u8>)>) -> Seq<u8>
    decreases pairs.len(),
{
    if pairs.len() == 0 {
        Seq::empty()
    } else {
        pairs[0].0 + seq![0u8] + pairs[0].1 + seq![0u8] + encode_properties(pairs.drop_first())
    }
}

/// Whether `s` holds no NUL byte.
pub open spec fn nul_free(s: Seq<u8>) -> bool {
    forall|k: int| 0 <= k < s.len() ==> s[k] != 0
}

proof fn lemma_nul_pos_after(a: Seq<u8>, rest: Seq<u8>)
    requires
        nul_free(a),
    ensures
        nul_pos(a + seq![0u8] + rest) == a.len(),
    decreases a.len(),
{
    let s = a + seq![0u8] + rest;
    if a.len() > 0 {
        assert(s[0] == a[0]);
        assert(s.drop_first() =~= a.drop_first() + seq![0u8] + rest);
        lemma_nul_pos_after(a.drop_first(), rest);
    }
}

proof fn lemma_nul_split_after(a: Seq<u8>, rest: Seq<u8>)
    requires
        nul_free(a),
    ensures
        nul_split(a + seq![0u8] + rest) == seq![a] + nul_split(rest),
{
    let s = a + seq![0u8] + rest;
    lemma_nul_pos_after(a, rest);
    assert(s.take(a.len() as int) =~= a);
    assert(s.skip(a.len() as int + 1) =~= rest);
}

/// A property body laid out from NUL-free, valid UTF-8 names and values is
/// valid UTF-8, and when it holds any pair its last byte is the NUL that
/// ends the last value.
pub proof fn law_encoded_properties_utf8(pairs: Seq<(Seq<u8>, Seq<u8>)>)
    requires
        forall|i: int| 0 <= i < pairs.len() ==> valid_utf8(#[trigger] pairs[i].0) && valid_utf8(pairs[i].1),
    ensures
        valid_utf8(encode_properties(pairs)),
        pairs.len() > 0 ==> encode_properties(pairs).len() > 0 && encode_properties(pairs).last() == 0,
    decreases pairs.len(),
{
    if pairs.len() > 0 {
        let rest = pairs.drop_first();
        assert forall|i: int| 0 <= i < rest.len() implies valid_utf8(#[trigger] rest[i].0) && valid_utf8(rest[i].1) by {
            assert(rest[i] == pairs[i + 1]);
        }
        law_encoded_properties_utf8(rest);
        let er = encode_properties(rest);
        let (n0, v0) = pairs[0];
        let e = encode_properties(pairs);
        assert(e =~= n0 + seq![0u8] + (v0 + seq![0u8] + er));
        lemma_utf8_around_nul(v0, er);
        lemma_utf8_around_nul(n0, v0 + seq![0u8] + er);
        if rest.len() == 0 {
            assert(er =~= Seq::<u8>::empty());
            assert(e.last() == 0);
        } else {
            assert(e.last() == er.last());
        }
    }
}

/// Reading back what was written: a property body laid out from name/value
/// pairs without NUL bytes splits into those pairs again (the final NUL
/// leaves one empty piece, which has no partner and is dropped).
pub proof fn law_properties_round_trip(pairs: Seq<(Seq<u8>, Seq<u8>)>)
    requires
        forall|i: int| 0 <= i < pairs.len() ==> nul_free(#[trigger] pairs[i].0) && nul_free(pairs[i].1),
    ensures
        nul_split(encode_properties(pairs)).len() == 2 * pairs.len() + 1,
        forall|i: int| 0 <= i < pairs.len() ==> nul_split(encode_properties(pairs))[2 * i] == #[trigger] pairs[i].0
            && nul_split(encode_properties(pairs))[2 * i + 1] == pairs[i].1,
        property_pairs(encode_properties(pairs)) == pairs.map_values(
            |p: (Seq<u8>, Seq<u8>)| (decode_utf8(p.0), decode_utf8(p.1)),
        ),
    decreases pairs.len(),
{
    let e = encode_properties(pairs);
    if pairs.len() == 0 {
        lemma_nul_pos(e);
        assert(nul_split(e) == seq![e]);
    } else {
        let rest = pairs.drop_first();
        assert forall|i: int| 0 <= i < rest.len() implies nul_free(#[trigger] rest[i].0) && nul_free(rest[i].1) by {
            assert(rest[i] == pairs[i + 1]);
        }
        law_properties_round_trip(rest);
        let er = encode_properties(rest);
        let (n0, v0) = pairs[0];
        assert(e =~= n0 + seq![0u8] + (v0 + seq![0u8] + er));
        lemma_nul_split_after(n0, v0 + seq![0u8] + er);
        lemma_nul_split_after(v0, er);
        let p = nul_split(e);
        assert(p =~= seq![n0, v0] + nul_split(er));
        assert forall|i: int| 0 <= i < pairs.len() implies p[2 * i] == #[trigger] pairs[i].0 && p[2 * i + 1] == pairs[i].1 by {
            if i > 0 {
                assert(pairs[i] == rest[i - 1]);
                assert(rest[i - 1].0 == pairs[i].0);
                assert(nul_split(er)[2 * (i - 1)] == rest[i - 1].0);
                assert(p[2 * i] == nul_split(er)[2 * (i - 1)]);
                assert(p[2 * i + 1] == nul_split(er)[2 * (i - 1) + 1]);
            }
        }
    }
    let p = nul_split(e);
    assert(property_pairs(e) =~= pairs.map_values(
        |q: (Seq<u8>, Seq<u8>)| (decode_utf8(q.0), decode_utf8(q.1)),
    )) by {
        assert forall|i: int| 0 <= i < pairs.len() implies #[trigger] property_pairs(e)[i] == (decode_utf8(pairs[i].0), decode_utf8(pairs[i].1)) by {
            assert(p[2 * i] == pairs[i].0);
        }
    }
}

/// The position of the first NUL character of `cs`; its length when it has
/// none.
pub open spec fn char_nul_pos(cs: Seq<char>) -> int
    decreases cs.len(),
{
    if cs.len() == 0 {
        0
    } else if cs[0] == '\0' {
        0
    } else {
        1 + char_nul_pos(cs.drop_first())
    }
}

proof fn lemma_char_nul_pos_after(a: Seq<char>, rest: Seq<char>)
    requires
        forall|k: int| 0 <= k < a.len() ==> a[k] != '\0',
    ensures
        char_nul_pos(a + seq!['\0'] + rest) == a.len(),
    decreases a.len(),
{
    let s = a + seq!['\0'] + rest;
    if a.len() > 0 {
        assert(s[0] == a[0]);
        assert(s.drop_first() =~= a.drop_first() + seq!['\0'] + rest);
        lemma_char_nul_pos_after(a.drop_first(), rest);
    }
}

proof fn lemma_char_nul_pos_none(a: Seq<char>)
    requires
        forall|k: int| 0 <= k < a.len() ==> a[k] != '\0',
    ensures
        char_nul_pos(a) == a.len(),
    decreases a.len(),
{
    if a.len() > 0 {
        lemma_char_nul_pos_none(a.drop_first());
    }
}

/// The pieces of a text between its NUL characters, as `str::split('\0')`
/// yields them.
pub open spec fn char_split(cs: Seq<char>) -> Seq<Seq<char>>
    decreases cs.len(),
{
    let i = char_nul_pos(cs);
    if i < 0 || i >= cs.len() {
        seq![cs]
    } else {
        seq![cs.take(i)] + char_split(cs.skip(i + 1))
    }
}

/// Valid UTF-8 without NUL bytes decodes to text without NUL characters.
proof fn lemma_decode_nul_free(a: Seq<u8>)
    requires
        valid_utf8(a),
        nul_free(a),
    ensures
        forall|k: int| 0 <= k < decode_utf8(a).len() ==> decode_utf8(a)[k] != '\0',
    decreases a.len(),
{
    if a.len() > 0 {
        let rest = pop_first_scalar(a);
        let l = length_of_first_scalar(a);
        assert(rest.len() < a.len());
        assert forall|k: int| 0 <= k < rest.len() implies rest[k] != 0 by {
            assert(rest[k] == a[k + l]);
        }
        lemma_decode_nul_free(rest);
        let v = decode_first_scalar(a);
        decode_utf8_first_scalar(a);
        if (v as char) == '\0' {
            let zero: u32 = 0;
            assert(('\0' as u32) == zero);
            assert((zero & 0x7F) as u8 == 0) by (bit_vector)
                requires
                    zero == 0,
            ;
            assert(encode_scalar(zero) == seq![0u8]);
            assert(take_first_scalar(a)[0] == a[0]);
        }
        assert((v as char) != '\0');
        let d = decode_utf8(a);
        assert(d == seq![v as char] + decode_utf8(rest));
        assert forall|k: int| 0 <= k < d.len() implies d[k] != '\0' by {
            if k > 0 {
                assert(d[k] == decode_utf8(rest)[k - 1]);
            }
        }
    }
}

/// Decoding the whole body and splitting the text at its NUL characters, as
/// `str::split('\0')` does, gives the decoded pieces between the NUL bytes.
pub proof fn law_split_after_decoding(body: Seq<u8>)
    requires
        valid_utf8(body),
    ensures
        char_split(decode_utf8(body)) == nul_split(body).map_values(|p: Seq<u8>| decode_utf8(p)),
    decreases body.len(),
{
    lemma_nul_pos(body);
    let i = nul_pos(body);
    let d = decode_utf8(body);
    if i >= body.len() {
        lemma_decode_nul_free(body);
        lemma_char_nul_pos_none(d);
        assert(nul_split(body) == seq![body]);
        assert(nul_split(body).map_values(|p: Seq<u8>| decode_utf8(p)) =~= seq![d]);
    } else {
        let a = body.take(i);
        let b = body.skip(i + 1);
        assert(body =~= a + seq![0u8] + b);
        lemma_utf8_around_nul(a, b);
        let zb = seq![0u8] + b;
        assert(body =~= a + zb);
        assert(body[a.len() as int] == 0);
        is_char_boundary_iff_is_leading_byte(body, a.len() as int);
        decode_utf8_split(body, a.len() as int);
        assert(body.subrange(0, a.len() as int) =~= a);
        assert(body.subrange(a.len() as int, body.len() as int) =~= zb);
        lemma_nul_scalar(zb);
        assert(zb.drop_first() =~= b);
        assert(decode_utf8(zb) == seq![decode_first_scalar(zb) as char] + decode_utf8(b));
        let z: u8 = zb[0];
        assert((z & 0x7F) as u32 == 0) by (bit_vector)
            requires
                z == 0,
        ;
        assert((0u32 as char) == '\0');
        assert(d =~= decode_utf8(a) + seq!['\0'] + decode_utf8(b));
        lemma_decode_nul_free(a);
        lemma_char_nul_pos_after(decode_utf8(a), decode_utf8(b));
        let da = decode_utf8(a);
        assert(d.take(da.len() as int) =~= da);
        assert(d.skip(da.len() as int + 1) =~= decode_utf8(b));
        law_split_after_decoding(b);
        assert(nul_split(body) == seq![a] + nul_split(b));
        assert(nul_split(body).map_values(|p: Seq<u8>| decode_utf8(p)) =~= seq![da] + nul_split(b).map_values(
            |p: Seq<u8>| decode_utf8(p),
        ));
    }
}

/// Calls `std::str::from_utf8`, which succeeds exactly when `bytes` is valid
/// UTF-8 and then yields the characters that the bytes encode.
#[verifier::external_body]
pub(crate) fn str_from_utf8(bytes: &[u8]) -> (res: Option<&str>)
    ensures
        match res {
            Some(s) => valid_utf8(bytes@) && s@ == decode_utf8(bytes@),
            None => !valid_utf8(bytes@),
        },
{
    std::str::from_utf8(bytes).ok()
}

/// Splits a property body at its NUL bytes, decodes the pieces as UTF-8 and
/// pairs them up in order. `None` when some piece is not valid UTF-8.
pub fn split_properties(body: &[u8]) -> (res: Option<Vec<(String, String)>>)
    ensures
        match res {
            None => !pieces_are_utf8(body@),
            Some(v) => pieces_are_utf8(body@) && v@.len() == property_pairs(body@).len() && forall|i: int|
                0 <= i < v@.len() ==> (#[trigger] v@[i]).0@ == property_pairs(body@)[i].0 && v@[i].1@
                    == property_pairs(body@)[i].1,
        },
{
    let ghost s = body@;
    let mut pieces: Vec<&str> = Vec::new();
    let mut seg_start: usize = 0;
    let mut i: usize = 0;
    proof {
        assert(s.skip(0) =~= s);
        assert(Seq::<Seq<u8>>::empty() + nul_split(s) =~= nul_split(s));
    }
    while i < body.len()
        invariant
            s == body@,
            seg_start <= i <= s.len(),
            forall|k: int| seg_start <= k < i ==> s[k] != 0,
            pieces@.len() + nul_split(s.skip(seg_start as int)).len() == nul_split(s).len(),
            forall|k: int| 0 <= k < pieces@.len() ==> (#[trigger] pieces@[k])@ == decode_utf8(nul_split(s)[k]) && valid_utf8(nul_split(s)[k]),
            forall|k: int| pieces@.len() <= k < nul_split(s).len() ==>
                #[trigger] nul_split(s)[k] == nul_split(s.skip(seg_start as int))[k - pieces@.len()],
        decreases s.len() - i,
    {
        if body[i] == 0 {
            let ghost rest = s.skip(seg_start as int);
            proof {
                lemma_nul_pos(rest);
                assert forall|k: int| 0 <= k < i - seg_start implies rest[k] != 0 by {
                    assert(rest[k] == s[seg_start + k]);
                }
                assert(rest[i - seg_start] == 0);
                assert(nul_pos(rest) == i - seg_start);
                assert(rest.take(i - seg_start) =~= s.subrange(seg_start as int, i as int));
                assert(rest.skip(i - seg_start + 1) =~= s.skip(i + 1));
                assert(nul_split(rest) == seq![rest.take(i - seg_start)] + nul_split(s.skip(i + 1)));
            }
            let piece = vstd::slice::slice_subrange(body, seg_start, i);
            match str_from_utf8(piece) {
                Some(p) => {
                    pieces.push(p);
                },
                None => {
                    proof {
                        let n = pieces@.len() as int;
                        assert(nul_split(s)[n] == nul_split(rest)[n - pieces@.len()]);
                    }
                    return None;
                },
            }
            proof {
                let n = pieces@.len() - 1;
                assert(nul_split(s)[n] == nul_split(rest)[0]);
                assert forall|k: int| pieces@.len() <= k < nul_split(s).len() implies
                    #[trigger] nul_split(s)[k] == nul_split(s.skip(i + 1))[k - pieces@.len()] by {
                    assert(nul_split(s)[k] == nul_split(rest)[k - n]);
                }
            }
            seg_start = i + 1;
        }
        i += 1;
    }
    let ghost rest = s.skip(seg_start as int);
    proof {
        lemma_nul_pos(rest);
        assert forall|k: int| 0 <= k < rest.len() implies rest[k] != 0 by {
            assert(rest[k] == s[seg_start + k]);
        }
        assert(nul_pos(rest) == rest.len());
        assert(nul_split(rest) == seq![rest]);
        assert(rest =~= s.subrange(seg_start as int, s.len() as int));
    }
    let piece = vstd::slice::slice_subrange(body, seg_start, body.len());
    match str_from_utf8(piece) {
        Some(p) => {
            pieces.push(p);
        },
        None => {
            proof {
                let n = pieces@.len() as int;
                assert(nul_split(s)[n] == nul_split(rest)[n - pieces@.len()]);
            }
            return None;
        },
    }
    proof {
        let n = pieces@.len() - 1;
        assert(nul_split(s)[n] == nul_split(rest)[n - (pieces@.len() - 1)]);
        assert(pieces@[n]@ == decode_utf8(nul_split(s)[n]));
        assert forall|k: int| 0 <= k < nul_split(s).len() implies valid_utf8(#[trigger] nul_split(s)[k]) by {
            assert(pieces@[k]@ == decode_utf8(nul_split(s)[k]));
        }
    }
    let mut res: Vec<(String, String)> = Vec::new();
    let mut j: usize = 0;
    while j + 1 < pieces.len()
        invariant
            s == body@,
            pieces@.len() == nul_split(s).len(),
            forall|k: int| 0 <= k < pieces@.len() ==> (#[trigger] pieces@[k])@ == decode_utf8(nul_split(s)[k]),
            j % 2 == 0,
            j <= pieces@.len(),
            res@.len() == j / 2,
            forall|q: int| 0 <= q < res@.len() ==> (#[trigger] res@[q]).0@ == property_pairs(s)[q].0
                && res@[q].1@ == property_pairs(s)[q].1,
        decreases pieces.len() - j,
    {
        let name = pieces[j].to_string();
        let value = pieces[j + 1].to_string();
        res.push((name, value));
        j += 2;
    }
    Some(res)
}

} // verus!
