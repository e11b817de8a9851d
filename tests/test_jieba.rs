use rust_jieba::{DictEntry, HmmModel, Jieba, Token, TokenizeMode};

fn entry(word: &str, weight: i64, tag: &str) -> DictEntry {
    DictEntry { word: word.chars().collect(), weight, tag: tag.to_string() }
}

fn model() -> HmmModel {
    let no: i64 = -1_000_000_000;
    // states: B, E, M, S
    let trans = vec![
        vec![no, -2, -1, no],
        vec![-1, no, no, -3],
        vec![no, -1, -2, no],
        vec![-1, no, no, -2],
    ];
    let emit = vec![
        vec![('南', -1), ('江', -1)],
        vec![('长', -1), ('桥', -1)],
        vec![('京', -1), ('大', -1)],
        vec![],
    ];
    HmmModel { start: vec![-1, no, no, -10], trans, emit, emit_floor: -20 }
}

fn jieba() -> Jieba {
    let entries = vec![
        entry("南", -15, "ns"),
        entry("京", -15, "ns"),
        entry("市", -14, "n"),
        entry("长", -14, "a"),
        entry("江", -14, "n"),
        entry("大", -13, "a"),
        entry("桥", -14, "n"),
        entry("南京", -7, "ns"),
        entry("南京市", -8, "ns"),
        entry("京市", -12, "ns"),
        entry("市长", -8, "n"),
        entry("长江", -8, "ns"),
        entry("长江大桥", -9, "ns"),
        entry("大桥", -8, "ns"),
        entry("工作", -6, "vn"),
    ];
    let idf = vec![
        ("长江大桥".chars().collect(), 12_000_000),
        ("南京市".chars().collect(), 8_000_000),
    ];
    let stop_words = vec!["的".chars().collect()];
    match Jieba::new(entries, model(), idf, stop_words) {
        Ok(j) => j,
        Err(e) => panic!("{:?}", e),
    }
}

#[test]
fn test_jieba() {
    let mut jieba = jieba();
    let ret = jieba.cut("南京市长江大桥", true);
    assert_eq!(vec!["南京市", "长江大桥"], ret);

    let ret = jieba.cut_all("南京市长江大桥");
    assert_eq!(vec!["南京", "南京市", "京市", "市长", "长江", "长江大桥", "大桥"], ret);

    let ret = jieba.cut_for_search("南京市长江大桥", true);
    assert_eq!(vec!["南京", "京市", "南京市", "长江", "大桥", "长江大桥"], ret);

    let ret = jieba.cut_hmm("南京长江大桥");
    assert_eq!(vec!["南京长", "江大桥"], ret);

    let ret = jieba.cut_small("南京长江大桥", 2);
    assert_eq!(vec!["南京", "长江", "大桥"], ret);

    let ret = jieba.tag("南京市长江大桥");
    assert_eq!(2, ret.len());
    assert_eq!("南京市", &ret[0].word);
    assert_eq!("ns", &ret[0].flag);
    assert_eq!("长江大桥", &ret[1].word);
    assert_eq!("ns", &ret[1].flag);

    let ret = jieba.lookup_tag("工作");
    assert_eq!("vn", &ret);

    jieba.add_user_word("WTF");

    let tokens = jieba.tokenize("南京市长江大桥", TokenizeMode::Default, true);
    assert_eq!(2, tokens.len());
    assert_eq!(Token("南京市".to_string(), 0, 3), tokens[0]);
    assert_eq!(Token("长江大桥".to_string(), 3, 7), tokens[1]);

    let tokens = jieba.tokenize("南京市长江大桥", TokenizeMode::Search, true);
    assert_eq!(6, tokens.len());
    assert_eq!(Token("南京".to_string(), 0, 2), tokens[0]);
    assert_eq!(Token("京市".to_string(), 1, 3), tokens[1]);
    assert_eq!(Token("南京市".to_string(), 0, 3), tokens[2]);
    assert_eq!(Token("长江".to_string(), 3, 5), tokens[3]);
    assert_eq!(Token("大桥".to_string(), 5, 7), tokens[4]);
    assert_eq!(Token("长江大桥".to_string(), 3, 7), tokens[5]);

    let ret = jieba.extract("南京市长江大桥", 20);
    assert_eq!(vec!["长江大桥", "南京市"], ret);

    let ret = jieba.extract("南京市长江大桥", 1);
    assert_eq!(vec!["长江大桥"], ret);
}
