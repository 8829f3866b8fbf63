//! Vowel harmony of Hungarian verbs: the last vowel of the stem decides
//! whether the verb takes front (unrounded or rounded) or back suffixes.
use vstd::prelude::*;
use vstd::string::StringExecFns;

verus! {

/// e, é, i, í.
pub open spec fn is_front_unrounded(c: char) -> bool {
    c == 'e' || c == '\u{e9}' || c == 'i' || c == '\u{ed}'
}

/// ö, ő, ü, ű.
pub open spec fn is_front_rounded(c: char) -> bool {
    c == '\u{f6}' || c == '\u{151}' || c == '\u{fc}' || c == '\u{171}'
}

/// a, á, o, ó, u, ú.
pub open spec fn is_back(c: char) -> bool {
    c == 'a' || c == '\u{e1}' || c == 'o' || c == '\u{f3}' || c == 'u' || c == '\u{fa}'
}

/// The harmony class of a verb.
pub enum Harmony {
    FrontUnrounded,
    FrontRounded,
    Back,
    Invalid,
}

/// The class given by the last vowel of `root`; `Invalid` when it has none.
pub open spec fn harmony_of(root: Seq<char>) -> Harmony
    decreases root.len(),
{
    if root.len() == 0 {
        Harmony::Invalid
    } else if is_front_unrounded(root.last()) {
        Harmony::FrontUnrounded
    } else if is_front_rounded(root.last()) {
        Harmony::FrontRounded
    } else if is_back(root.last()) {
        Harmony::Back
    } else {
        harmony_of(root.drop_last())
    }
}

/// The stem of an infinitive: all but its last two characters (the `-ni`
/// ending); empty for a shorter word.
pub open spec fn verb_root(verb: Seq<char>) -> Seq<char> {
    if verb.len() < 2 {
        Seq::empty()
    } else {
        verb.take(verb.len() - 2)
    }
}

/// The answer given for each class.
pub open spec fn harmony_message(h: Harmony) -> Seq<char> {
    match h {
        Harmony::FrontUnrounded => "The verb is a front, unrounded verb"@,
        Harmony::FrontRounded => "The verb is a front, rounded verb"@,
        Harmony::Back => "The verb is a back verb"@,
        Harmony::Invalid => "Invalid verb"@,
    }
}

/// Whether `c` is one of the fourteen Hungarian vowel letters: a, á, e, é,
/// i, í, o, ó, ö, ő, u, ú, ü, ű.
pub open spec fn hungarian_vowel(c: char) -> bool {
    c == 'a' || c == '\u{e1}' || c == 'e' || c == '\u{e9}' || c == 'i' || c == '\u{ed}' || c == 'o' || c
        == '\u{f3}' || c == '\u{f6}' || c == '\u{151}' || c == 'u' || c == '\u{fa}' || c == '\u{fc}' || c
        == '\u{171}'
}

/// The last vowel of the stem decides: whatever comes before it, a stem
/// ending in the vowel `c` followed by letters that are no vowels is back
/// for a, á, o, ó, u, ú, front unrounded for e, é, i, í, and front rounded
/// for ö, ő, ü, ű.
pub proof fn law_last_vowel_decides(s: Seq<char>, c: char, w: Seq<char>)
    requires
        forall|i: int| 0 <= i < w.len() ==> !hungarian_vowel(#[trigger] w[i]),
    ensures
        c == 'a' || c == '\u{e1}' || c == 'o' || c == '\u{f3}' || c == 'u' || c == '\u{fa}' ==> harmony_of(
            s + seq![c] + w,
        ) == Harmony::Back,
        c == 'e' || c == '\u{e9}' || c == 'i' || c == '\u{ed}' ==> harmony_of(s + seq![c] + w)
            == Harmony::FrontUnrounded,
        c == '\u{f6}' || c == '\u{151}' || c == '\u{fc}' || c == '\u{171}' ==> harmony_of(s + seq![c] + w)
            == Harmony::FrontRounded,
    decreases w.len(),
{
    if w.len() == 0 {
        assert(s + seq![c] + w =~= s.push(c));
    } else {
        let w0 = w.drop_last();
        assert forall|i: int| 0 <= i < w0.len() implies !hungarian_vowel(#[trigger] w0[i]) by {
            assert(w0[i] == w[i]);
        }
        law_last_vowel_decides(s, c, w0);
        assert(!hungarian_vowel(w[w.len() - 1]));
        assert((s + seq![c] + w).drop_last() =~= s + seq![c] + w0);
        assert((s + seq![c] + w).last() == w.last());
    }
}

/// A stem without vowels gives no class.
pub proof fn law_no_vowel_is_invalid(w: Seq<char>)
    requires
        forall|i: int| 0 <= i < w.len() ==> !hungarian_vowel(#[trigger] w[i]),
    ensures
        harmony_of(w) == Harmony::Invalid,
    decreases w.len(),
{
    if w.len() > 0 {
        let w0 = w.drop_last();
        assert forall|i: int| 0 <= i < w0.len() implies !hungarian_vowel(#[trigger] w0[i]) by {
            assert(w0[i] == w[i]);
        }
        law_no_vowel_is_invalid(w0);
        assert(!hungarian_vowel(w[w.len() - 1]));
    }
}

/// What `classify` answers for an infinitive made of a stem and a
/// two-letter ending: the stem is everything but the ending, and the last
/// vowel of the stem picks the answer.
pub proof fn law_classify_by_last_vowel(s: Seq<char>, c: char, w: Seq<char>, e1: char, e2: char)
    requires
        forall|i: int| 0 <= i < w.len() ==> !hungarian_vowel(#[trigger] w[i]),
    ensures
        verb_root(s + seq![c] + w + seq![e1, e2]) == s + seq![c] + w,
        c == 'a' || c == '\u{e1}' || c == 'o' || c == '\u{f3}' || c == 'u' || c == '\u{fa}' ==> harmony_message(
            harmony_of(verb_root(s + seq![c] + w + seq![e1, e2])),
        ) == "The verb is a back verb"@,
        c == 'e' || c == '\u{e9}' || c == 'i' || c == '\u{ed}' ==> harmony_message(
            harmony_of(verb_root(s + seq![c] + w + seq![e1, e2])),
        ) == "The verb is a front, unrounded verb"@,
        c == '\u{f6}' || c == '\u{151}' || c == '\u{fc}' || c == '\u{171}' ==> harmony_message(
            harmony_of(verb_root(s + seq![c] + w + seq![e1, e2])),
        ) == "The verb is a front, rounded verb"@,
{
    let v = s + seq![c] + w + seq![e1, e2];
    assert(v.take(v.len() - 2) =~= s + seq![c] + w);
    law_last_vowel_decides(s, c, w);
}

/// Classifies an infinitive by the last vowel of its stem.
pub fn classify(verb: String) -> (res: String)
    ensures
        res@ == harmony_message(harmony_of(verb_root(verb@))),
{
    let mut chars: Vec<char> = Vec::new();
    for c in it: verb.as_str().chars()
        invariant
            it.seq() == verb@,
            chars@ == it.seq().take(it.index() as int),
    {
        chars.push(c);
    }
    let ghost v = verb@;
    proof {
        assert(chars@ =~= v);
    }
    let root_len: usize = if chars.len() < 2 { 0 } else { chars.len() - 2 };
    let ghost root = verb_root(v);
    proof {
        assert(root.take(root.len() as int) =~= root);
    }
    let mut i: usize = root_len;
    while i > 0
        invariant
            i <= root_len,
            root_len == root.len(),
            chars@ == v,
            v == verb@,
            root == verb_root(v),
            harmony_of(root) == harmony_of(root.take(i as int)),
        decreases i,
    {
        let c = chars[i - 1];
        proof {
            assert(root.take(i as int).last() == c);
            assert(root.take(i as int).drop_last() =~= root.take(i - 1));
            assert(root.take(i as int).len() == i);
        }
        if c == 'e' || c == '\u{e9}' || c == 'i' || c == '\u{ed}' {
            proof {
                assert(is_front_unrounded(c));
                assert(harmony_of(root.take(i as int)) == Harmony::FrontUnrounded);
            }
            let r = String::from_str("The verb is a front, unrounded verb");
            proof {
                assert(r@ == harmony_message(Harmony::FrontUnrounded));
                assert(harmony_of(verb_root(verb@)) == Harmony::FrontUnrounded);
            }
            return r;
        } else if c == '\u{f6}' || c == '\u{151}' || c == '\u{fc}' || c == '\u{171}' {
            proof {
                assert(is_front_rounded(c));
                assert(harmony_of(root.take(i as int)) == Harmony::FrontRounded);
            }
            let r = String::from_str("The verb is a front, rounded verb");
            proof {
                assert(r@ == harmony_message(Harmony::FrontRounded));
                assert(harmony_of(verb_root(verb@)) == Harmony::FrontRounded);
            }
            return r;
        } else if c == 'a' || c == '\u{e1}' || c == 'o' || c == '\u{f3}' || c == 'u' || c == '\u{fa}' {
            let r = String::from_str("The verb is a back verb");
            proof {
                assert(r@ == harmony_message(Harmony::Back));
                assert(harmony_of(verb_root(verb@)) == Harmony::Back);
            }
            return r;
        }
        i -= 1;
    }
    proof {
        assert(root.take(0) =~= Seq::<char>::empty());
    }
    String::from_str("Invalid verb")
}

} // verus!
