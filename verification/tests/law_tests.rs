use pingyin::converter::{Converter, MatchContext};
use pingyin::loader::{CharsLoader, SurnamesLoader, WordsLoader};
use pingyin::{format_to_mark, Pinyin, PinyinWord, ToneStyle, YuFormat};

fn small_context() -> MatchContext {
    // a context whose word dictionary holds no multi-character words,
    // so every Han character resolves through the character dictionary
    let words_src = vec![String::new()];
    let chars_src = vec![String::from("你: nǐ\n好: hǎo hào\n世: shì\n界: jiè\n")];
    let surnames_src = "";
    let words = WordsLoader::new(&words_src);
    let chars = CharsLoader::new(&chars_src);
    let surnames = SurnamesLoader::new(surnames_src);
    MatchContext::new(&words, &chars, &surnames).unwrap()
}

#[test]
fn segmentation_reconstructs_input() {
    let ctx = small_context();
    let input = "你好，世界！";
    let words = Converter::new(input).convert(&ctx);
    let rebuilt: String = words.iter().map(|w| w.word.as_str()).collect::<Vec<_>>().join("");
    assert_eq!(rebuilt, input);
}

#[test]
fn only_hans_drops_unknown_characters() {
    let ctx = small_context();
    let input = "你好，世界！";
    let words = Converter::new(input).only_hans().convert(&ctx);
    let rebuilt: String = words.iter().map(|w| w.word.as_str()).collect::<Vec<_>>().join("");
    assert_eq!(rebuilt, "你好世界");
    let rendered = Converter::new(input).only_hans().to_string(&ctx);
    assert_eq!(rendered, "nǐ hǎo hào shì jiè");
}

#[test]
fn default_scenario_single_characters() {
    let ctx = small_context();
    let converter = Converter::new("你好");
    let words = converter.convert(&ctx);
    assert_eq!(words.len(), 2);
    assert_eq!(words[0].word, "你");
    assert_eq!(words[0].pinyin, vec![Pinyin::new("ni", 3)]);
    assert_eq!(words[1].word, "好");
    assert_eq!(words[1].pinyin, vec![Pinyin::new("hao", 3), Pinyin::new("hao", 4)]);
    assert_eq!(converter.to_string(&ctx), "nǐ hǎo hào");
    assert_eq!(converter.flatten().to_string(&ctx), "nǐ hǎo");
}

#[test]
fn flatten_is_idempotent_on_entries() {
    let word = PinyinWord::from_str("好:hao3 hao4").unwrap();
    let once = word.flattened();
    let twice = once.flattened();
    assert_eq!(once, twice);
    assert_eq!(once.pinyin.len(), 1);
}

#[test]
fn rendering_is_a_pure_function_of_the_value() {
    let a = Pinyin::new("zhong", 4);
    let b = Pinyin::new("zhong", 4);
    for style in [ToneStyle::Number, ToneStyle::Mark, ToneStyle::Toneless] {
        assert_eq!(a.format(style), b.format(style));
        for yu in [YuFormat::Yu, YuFormat::U, YuFormat::V] {
            assert_eq!(a.format_with_yu(style, yu), b.format_with_yu(style, yu));
            assert_eq!(a.format_with_yu(style, yu), a.format_with_yu(style, yu));
        }
    }
}

#[test]
fn number_form_round_trips() {
    let samples = [("zhong", 4), ("lü", 3), ("a", 5), ("en", 1)];
    for (syl, tone) in samples {
        let p = Pinyin::new(syl, tone);
        let back = Pinyin::from_str(&p.to_string()).unwrap();
        assert_eq!(back, p);
    }
}

#[test]
fn yu_v_format_never_yields_umlaut() {
    for (syl, tone) in [("lü", 3), ("lüe", 4), ("nü", 5), ("ren", 4)] {
        let p = Pinyin::new(syl, tone);
        for style in [ToneStyle::Number, ToneStyle::Mark, ToneStyle::Toneless] {
            assert!(!p.format_with_yu(style, YuFormat::V).contains('ü'));
            assert!(!p.format_with_yu(style, YuFormat::U).contains('ü'));
        }
    }
}

#[test]
fn yu_yu_format_never_yields_v() {
    for (syl, tone) in [("lü", 3), ("nü", 2), ("lüe", 4), ("ren", 4)] {
        let p = Pinyin::new(syl, tone);
        for style in [ToneStyle::Number, ToneStyle::Mark] {
            assert!(!p.format_with_yu(style, YuFormat::Yu).contains('v'));
        }
    }
    // toneless Yu keeps `v`-freedom for syllables without `üe`
    let p = Pinyin::new("lü", 3);
    assert!(!p.format_with_yu(ToneStyle::Toneless, YuFormat::Yu).contains('v'));
}

#[test]
fn tone_mark_nucleus_follows_the_standard_rule() {
    assert_eq!(format_to_mark("hao", 3), "hǎo");
    assert_eq!(format_to_mark("xiao", 3), "xiǎo");
    assert_eq!(format_to_mark("xue", 4), "xuè");
    assert_eq!(format_to_mark("ou", 1), "ōu");
    assert_eq!(format_to_mark("zhong", 1), "zhōng");
    assert_eq!(format_to_mark("liu", 2), "liú");
    assert_eq!(format_to_mark("hui", 4), "huì");
    assert_eq!(format_to_mark("lüe", 4), "lüè");
    assert_eq!(format_to_mark("n", 4), "n");
}

#[test]
fn tone_style_names_parse() {
    assert!(matches!(ToneStyle::from_str("number"), Ok(ToneStyle::Number)));
    assert!(matches!(ToneStyle::from_str("mark"), Ok(ToneStyle::Mark)));
    assert!(matches!(ToneStyle::from_str("none"), Ok(ToneStyle::Toneless)));
    assert!(matches!(ToneStyle::from_str("other"), Err(_)));
}

#[test]
fn parse_error_carries_the_input() {
    match Pinyin::from_str("zh@ng") {
        Err(pingyin::error::PingyinError::ParseStrError(s)) => assert_eq!(s, "zh@ng"),
        other => panic!("unexpected result: {:?}", other),
    }
    assert!(matches!(PinyinWord::from_str("no colon here"), Err(_)));
    assert!(matches!(PinyinWord::from_str("好:"), Err(_)));
}

#[test]
fn later_dictionary_sources_supersede_earlier_ones() {
    let base = String::from("好: hǎo\n你: nǐ\n");
    let patch = String::from("好: hào\n");
    let words_src = vec![String::new()];
    let chars_src = vec![base, patch];
    let words = WordsLoader::new(&words_src);
    let chars = CharsLoader::new(&chars_src);
    let surnames = SurnamesLoader::new("");
    let ctx = MatchContext::new(&words, &chars, &surnames).unwrap();
    assert_eq!(Converter::new("好").to_string(&ctx), "hào");
    assert_eq!(Converter::new("你").to_string(&ctx), "nǐ");
}

#[test]
fn permalink_joins_with_hyphens() {
    let ctx = small_context();
    let converter = Converter::new("你好").flatten();
    assert_eq!(converter.to_permalink(&ctx), "nǐ-hǎo");
}

#[test]
fn empty_input_yields_nothing() {
    let ctx = small_context();
    let converter = Converter::new("");
    assert_eq!(converter.convert(&ctx).len(), 0);
    assert_eq!(converter.to_string(&ctx), "");
}

#[test]
fn trailing_whitespace_is_trimmed() {
    let ctx = small_context();
    let converter = Converter::new("你 ");
    assert_eq!(converter.to_string(&ctx), "nǐ");
}

#[test]
fn surname_mode_on_plain_text_keeps_the_input() {
    let ctx = small_context();
    let converter = Converter::new("你好").as_surnames();
    let words = converter.convert(&ctx);
    let rebuilt: String = words.iter().map(|w| w.word.as_str()).collect::<Vec<_>>().join("");
    assert_eq!(rebuilt, "你好");
}
