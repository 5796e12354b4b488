use pingyin::{Pinyin, PinyinWord};

#[test]
fn test_pinyin_word_new() {
    let pinyin = vec![Pinyin::new("zhong", 4), Pinyin::new("chong", 2)];
    let pinyin_word = PinyinWord::new("重".to_string(), pinyin);
    assert_eq!(pinyin_word.word, "重");
    assert_eq!(pinyin_word.pinyin.len(), 2);
}

#[test]
fn test_pinyin_word_to_string() {
    let pinyin = vec![Pinyin::new("zhong", 4), Pinyin::new("chong", 2)];
    let pinyin_word = PinyinWord::new("重".to_string(), pinyin);
    assert_eq!(pinyin_word.to_string(), "重:zhong4 chong2");
}

#[test]
fn test_pinyin_word_from_string() {
    let pinyin_word = PinyinWord::from_str("重:zhong4 chong2").unwrap();
    assert_eq!(pinyin_word.word, "重");
    assert_eq!(pinyin_word.pinyin.len(), 2);
    assert_eq!(pinyin_word.to_string(), "重:zhong4 chong2");

    let pinyin_word = PinyinWord::from_str("重庆:chong2 qing4").unwrap();
    assert_eq!(pinyin_word.word, "重庆");
    assert_eq!(pinyin_word.pinyin.len(), 2);
    assert_eq!(pinyin_word.to_string(), "重庆:chong2 qing4");

    let pinyin_word = PinyinWord::from_str("重庆口味:chong2 qing4 kou3 wei4").unwrap();
    assert_eq!(pinyin_word.word, "重庆口味");
    assert_eq!(pinyin_word.pinyin.len(), 4);
    assert_eq!(pinyin_word.to_string(), "重庆口味:chong2 qing4 kou3 wei4");
}
