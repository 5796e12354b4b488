use pingyin::converter::{match_char_pinyin, match_surname_pinyin, match_word_pinyin, MatchContext};
use pingyin::loader::{CharsLoader, SurnamesLoader, WordsLoader};

fn test_context() -> MatchContext {
    let words_src = vec![String::from(
        "你好: nǐ hǎo\n世界: shì jiè\n旅行: lǚ xíng\n单单: dān dān\n",
    )];
    let chars_src = vec![String::from(
        "重: zhòng chóng tóng\n好: hǎo hào\n你: nǐ\n人: rén\n旅: lǚ\n行: xíng háng\n世: shì\n界: jiè\n单: dān\n恭: gōng\n",
    )];
    let surnames_src = "单: shàn\n尉迟: yù chí\n尉: wèi\n";
    let words = WordsLoader::new(&words_src);
    let chars = CharsLoader::new(&chars_src);
    let surnames = SurnamesLoader::new(surnames_src);
    MatchContext::new(&words, &chars, &surnames).unwrap()
}

#[test]
fn test_match_word_pinyin() {
    let ctx = test_context();
    let result = match_word_pinyin(&ctx, "你好");
    assert_eq!(
        vec![
            ("你好".to_string(), "nǐ hǎo".to_string()),
            ("好".to_string(), "hǎo hào".to_string()),
            ("你".to_string(), "nǐ".to_string()),
        ],
        result
    );
}

#[test]
fn test_match_world_with_symbol() {
    let ctx = test_context();
    let result = match_word_pinyin(&ctx, "你好，世界！");
    assert_eq!(
        vec![
            ("你好".to_string(), "nǐ hǎo".to_string()),
            ("世界".to_string(), "shì jiè".to_string()),
            ("界".to_string(), "jiè".to_string()),
            ("好".to_string(), "hǎo hào".to_string()),
            ("你".to_string(), "nǐ".to_string()),
            ("世".to_string(), "shì".to_string()),
        ],
        result
    );
}

#[test]
fn test_match_surname_pinyin() {
    let ctx = test_context();
    let result = match_surname_pinyin(&ctx, "尉迟恭");
    assert_eq!(
        vec![
            ("尉迟".to_string(), "yù chí".to_string()),
            ("恭".to_string(), "gōng".to_string())
        ],
        result
    );
}

#[test]
fn test_match_char_pinyin() {
    let ctx = test_context();
    let result = match_char_pinyin(&ctx.chars, '你');
    assert_eq!(vec![("你".to_string(), "nǐ".to_string())], result);
}
