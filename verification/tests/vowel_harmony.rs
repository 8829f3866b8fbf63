use morpho::handlers::vowel_harmony::classify;

#[test]
fn front_unrounded_verbs() {
    assert_eq!(classify("menni".to_string()), "The verb is a front, unrounded verb");
    assert_eq!(classify("inni".to_string()), "The verb is a front, unrounded verb");
}

#[test]
fn front_rounded_verbs() {
    assert_eq!(classify("\u{fc}lni".to_string()), "The verb is a front, rounded verb");
    assert_eq!(classify("f\u{151}zni".to_string()), "The verb is a front, rounded verb");
}

#[test]
fn back_verbs() {
    assert_eq!(classify("l\u{e1}tni".to_string()), "The verb is a back verb");
    assert_eq!(classify("olvasni".to_string()), "The verb is a back verb");
}

#[test]
fn the_last_vowel_of_the_stem_decides() {
    assert_eq!(classify("tan\u{ed}tani".to_string()), "The verb is a back verb");
    assert_eq!(classify("k\u{f6}r\u{fc}lni".to_string()), "The verb is a front, rounded verb");
}

#[test]
fn words_without_a_stem_vowel_are_invalid() {
    assert_eq!(classify("".to_string()), "Invalid verb");
    assert_eq!(classify("a".to_string()), "Invalid verb");
    assert_eq!(classify("ni".to_string()), "Invalid verb");
    assert_eq!(classify("sztni".to_string()), "Invalid verb");
    assert_eq!(classify("xa".to_string()), "Invalid verb");
}
