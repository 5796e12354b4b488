use pingyin::{mark_vowel, remove_tone, transform_mark_to_number, Pinyin};

#[test]
fn test_remove_tone() {
    assert_eq!(remove_tone("zhōng"), ("zhong".to_string(), 1));
    assert_eq!(remove_tone("zhóng"), ("zhong".to_string(), 2));
    assert_eq!(remove_tone("zhǒng"), ("zhong".to_string(), 3));
    assert_eq!(remove_tone("zhòng"), ("zhong".to_string(), 4));
    assert_eq!(remove_tone("zhong"), ("zhong".to_string(), 5));
    assert_eq!(remove_tone("en"), ("en".to_string(), 5));
}

#[test]
fn test_mark_vowel() {
    assert_eq!(mark_vowel('a', 1), 'ā');
    assert_eq!(mark_vowel('a', 2), 'á');
    assert_eq!(mark_vowel('a', 3), 'ǎ');
    assert_eq!(mark_vowel('a', 4), 'à');
    assert_eq!(mark_vowel('a', 5), 'a');
    assert_eq!(mark_vowel('e', 1), 'ē');
    assert_eq!(mark_vowel('e', 2), 'é');
    assert_eq!(mark_vowel('e', 3), 'ě');
    assert_eq!(mark_vowel('e', 4), 'è');
    assert_eq!(mark_vowel('e', 5), 'e');
    assert_eq!(mark_vowel('i', 1), 'ī');
    assert_eq!(mark_vowel('i', 2), 'í');
    assert_eq!(mark_vowel('i', 3), 'ǐ');
    assert_eq!(mark_vowel('i', 4), 'ì');
    assert_eq!(mark_vowel('i', 5), 'i');
    assert_eq!(mark_vowel('o', 1), 'ō');
    assert_eq!(mark_vowel('o', 2), 'ó');
    assert_eq!(mark_vowel('o', 3), 'ǒ');
    assert_eq!(mark_vowel('o', 4), 'ò');
    assert_eq!(mark_vowel('o', 5), 'o');
    assert_eq!(mark_vowel('u', 1), 'ū');
    assert_eq!(mark_vowel('u', 2), 'ú');
    assert_eq!(mark_vowel('u', 3), 'ǔ');
    assert_eq!(mark_vowel('u', 4), 'ù');
    assert_eq!(mark_vowel('u', 5), 'u');
    assert_eq!(mark_vowel('ü', 1), 'ǖ');
    assert_eq!(mark_vowel('ü', 2), 'ǘ');
    assert_eq!(mark_vowel('ü', 3), 'ǚ');
    assert_eq!(mark_vowel('ü', 4), 'ǜ');
    assert_eq!(mark_vowel('ü', 5), 'ü');
}

#[test]
fn test_mark_vowel_with_toneless() {
    assert_eq!(mark_vowel('a', 5), 'a');
}

#[test]
fn test_transform_mark_to_number() {
    assert_eq!(transform_mark_to_number("zhōng"), Pinyin::new("zhong", 1));
    assert_eq!(transform_mark_to_number("zhóng"), Pinyin::new("zhong", 2));
    assert_eq!(transform_mark_to_number("zhǒng"), Pinyin::new("zhong", 3));
    assert_eq!(transform_mark_to_number("zhòng"), Pinyin::new("zhong", 4));
    assert_eq!(transform_mark_to_number("zhong"), Pinyin::new("zhong", 5));
    assert_eq!(transform_mark_to_number("en"), Pinyin::new("en", 5));
}
