use pingyin::{Pinyin, ToneStyle, YuFormat};

#[test]
fn test_pinyin_new() {
    let pinyin = Pinyin::new("zhong", 4);
    assert_eq!(pinyin.pinyin, "zhong");
    assert_eq!(pinyin.tone, 4);

    let pinyin = Pinyin::new("a", 5);
    assert_eq!(pinyin.pinyin, "a");
}

#[test]
fn test_pinyin_is_toneless() {
    let pinyin = Pinyin::new("zhong", 4);
    assert!(!pinyin.is_toneless());

    let pinyin = Pinyin::new("zhong", 5);
    assert!(pinyin.is_toneless());
}

#[test]
fn test_pinyin_to_string() {
    let pinyin = Pinyin::new("zhong", 4);
    assert_eq!(pinyin.to_string(), "zhong4");
}

#[test]
fn lib_test_pinyin_format() {
    let pinyin = Pinyin::new("zhong", 4);
    assert_eq!(pinyin.format(ToneStyle::Number), "zhong4");
    assert_eq!(pinyin.format(ToneStyle::Mark), "zhòng");
    assert_eq!(pinyin.format(ToneStyle::Toneless), "zhong");

    let pinyin = Pinyin::new("a", 5);
    assert_eq!(pinyin.format(ToneStyle::Number), "a5");
    assert_eq!(pinyin.format(ToneStyle::Mark), "a");
    assert_eq!(pinyin.format(ToneStyle::Toneless), "a");

    let pinyin = Pinyin::from_str("rén").unwrap();
    assert_eq!(pinyin.format(ToneStyle::Toneless), "ren");
}

#[test]
fn pinyin_test_pinyin_format() {
    let pinyin = Pinyin::new("zhong", 4);
    assert_eq!(pinyin.format(ToneStyle::Number), "zhong4");
    assert_eq!(pinyin.format(ToneStyle::Mark), "zhòng");
    assert_eq!(pinyin.format(ToneStyle::Toneless), "zhong");

    let pinyin = Pinyin::new("a", 5);
    assert_eq!(pinyin.format(ToneStyle::Number), "a5");
    assert_eq!(pinyin.format(ToneStyle::Mark), "a");
    assert_eq!(pinyin.format(ToneStyle::Toneless), "a");
}

#[test]
fn test_pinyin_format_with_yu() {
    let pinyin = Pinyin::new("lü", 3);

    assert_eq!(pinyin.to_string(), "lü3");

    // default
    assert_eq!(pinyin.format(ToneStyle::Mark), "lǚ");
    assert_eq!(pinyin.format(ToneStyle::Toneless), "lv");
    assert_eq!(pinyin.format_with_yu(ToneStyle::Toneless, YuFormat::U), "lu");

    assert_eq!(pinyin.format_with_yu(ToneStyle::Mark, YuFormat::Yu), "lyu");
    assert_eq!(pinyin.format_with_yu(ToneStyle::Mark, YuFormat::U), "lǔ");
    assert_eq!(pinyin.format_with_yu(ToneStyle::Mark, YuFormat::V), "lv");

    // no `u`
    let pinyin = Pinyin::new("ren", 4);
    assert_eq!(pinyin.format_with_yu(ToneStyle::Mark, YuFormat::V), "rèn");
    assert_eq!(pinyin.format_with_yu(ToneStyle::Number, YuFormat::V), "ren4");
    assert_eq!(pinyin.format_with_yu(ToneStyle::Toneless, YuFormat::V), "ren");

    // lyu/nyu
    let pinyin = Pinyin::new("lü", 3);
    assert_eq!(pinyin.format_with_yu(ToneStyle::Mark, YuFormat::Yu), "lyu");

    // *ue
    let pinyin = Pinyin::new("lüe", 4);
    assert_eq!(pinyin.format_with_yu(ToneStyle::Mark, YuFormat::Yu), "lüè");

    let pinyin = Pinyin::new("nüe", 4);
    assert_eq!(pinyin.format_with_yu(ToneStyle::Mark, YuFormat::Yu), "nüè");
}

#[test]
fn test_pinyin_from_str() {
    let pinyin = Pinyin::from_str("zhong4").unwrap();
    assert_eq!(pinyin.pinyin, "zhong");
    assert_eq!(pinyin.tone, 4);

    let pinyin = Pinyin::from_str("zhong").unwrap();
    assert_eq!(pinyin.pinyin, "zhong");
    assert_eq!(pinyin.tone, 5);

    let pinyin = Pinyin::from_str("zhòng").unwrap();
    assert_eq!(pinyin.pinyin, "zhong");
    assert_eq!(pinyin.tone, 4);
}

#[test]
fn test_pinyin_from_str_panic_with_empty_str() {
    let result = Pinyin::from_str("");

    assert!(matches!(result, Err(_)));
}

#[test]
fn test_pinyin_from_str_panic_with_invalid_pinyin() {
    let result = Pinyin::from_str("zhong6");
    assert!(matches!(result, Err(_)));
}
