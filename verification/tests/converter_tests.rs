use pingyin::converter::{Converter, MatchContext};
use pingyin::loader::{CharsLoader, SurnamesLoader, WordsLoader};
use pingyin::ToneStyle;

fn test_context() -> MatchContext {
    let words_src = vec![String::from(
        "你好: nǐ hǎo\n世界: shì jiè\n旅行: lǚ xíng\n单单: dān dān\n",
    )];
    let chars_src = vec![String::from(
        "重: zhòng chóng tóng\n好: hǎo hào\n你: nǐ\n人: rén\n旅: lǚ\n行: xíng háng\n世: shì\n界: jiè\n单: dān\n恭: gōng\n",
    )];
    let surnames_src = "单: shàn\n尉迟: yù chí\n尉: wèi\n";
    let words = WordsLoader::new(&words_src);
    let chars = CharsLoader::new(&chars_src);
    let surnames = SurnamesLoader::new(surnames_src);
    MatchContext::new(&words, &chars, &surnames).unwrap()
}

#[test]
fn test_convert() {
    let ctx = test_context();
    let converter = Converter::new("重好");
    println!("{:#?}", converter.convert(&ctx));
    assert_eq!(converter.convert(&ctx).len(), 2); // ["重": ["zhòng", "chóng", "tóng"], "好": ["hǎo", "hào"]]
    assert_eq!(converter.to_string(&ctx), "zhòng chóng tóng hǎo hào");

    let converter = converter.flatten();
    println!("{:?}", converter.convert(&ctx));
    assert_eq!(converter.to_string(&ctx), "zhòng hǎo");
}

#[test]
fn test_convert_with_default_tone_style() {
    let ctx = test_context();
    let converter = Converter::new("你人").with_tone_style(ToneStyle::Toneless);
    assert_eq!(converter.convert(&ctx).len(), 2);
    println!("{:?}", converter.to_string(&ctx));
    assert_eq!(converter.to_string(&ctx), "ni ren")
}

#[test]
fn test_convert_with_number_tone_style() {
    let ctx = test_context();
    let converter = Converter::new("你人").with_tone_style(ToneStyle::Number);
    assert_eq!(converter.convert(&ctx).len(), 2);
    assert_eq!(converter.to_string(&ctx), "ni3 ren2");
}

#[test]
fn test_convert_with_mark_tone_style() {
    let ctx = test_context();
    let converter = Converter::new("你人").with_tone_style(ToneStyle::Mark);
    assert_eq!(converter.convert(&ctx).len(), 2);
    assert_eq!(converter.to_string(&ctx), "nǐ rén")
}

#[test]
fn test_convert_without_tone() {
    let ctx = test_context();
    let converter = Converter::new("你人").without_tone();
    assert_eq!(converter.convert(&ctx).len(), 2);
    assert_eq!(converter.to_string(&ctx), "ni ren");
}

#[test]
fn test_convert_yu() {
    let ctx = test_context();
    // lv/lu/lyu
    let converter = Converter::new("旅行");
    assert_eq!(converter.convert(&ctx).len(), 1);
    assert_eq!(converter.to_string(&ctx), "lǔ xíng");

    let converter = Converter::new("旅行").yu_to_u();
    assert_eq!(converter.to_string(&ctx), "lǔ xíng");

    let converter = Converter::new("旅行").yu_to_v();
    println!("{:?}", converter.convert(&ctx));
    assert_eq!(converter.to_string(&ctx), "lv xing");

    // toneless under the default U format keeps the ASCII-safe u
    let converter = Converter::new("旅行").without_tone();
    assert_eq!(converter.to_string(&ctx), "lu xing");
}

#[test]
fn test_convert_as_surnames() {
    let ctx = test_context();
    let converter = Converter::new("单单单").as_surnames();
    println!("{:?}", converter.convert(&ctx));
    assert_eq!(converter.convert(&ctx).len(), 2);
    assert_eq!(converter.to_string(&ctx), "shàn dān dān");
}
