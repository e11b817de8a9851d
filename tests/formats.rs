use rust_jieba::formats::{parse_dict, parse_word_list};
use rust_jieba::LoadError;

fn s(v: &[char]) -> String {
    v.iter().collect()
}

#[test]
fn dictionary_lines_are_parsed() {
    let lines = match parse_dict("南京 120 ns\n\n长江大桥\t3\n  大桥 18446744073709551615 n x\n") {
        Ok(l) => l,
        Err(e) => panic!("{:?}", e),
    };
    assert_eq!(lines.len(), 3);
    assert_eq!(s(&lines[0].word), "南京");
    assert_eq!(lines[0].freq, 120);
    assert_eq!(s(&lines[0].tag), "ns");
    assert_eq!(s(&lines[1].word), "长江大桥");
    assert_eq!(lines[1].freq, 3);
    assert_eq!(s(&lines[1].tag), "");
    assert_eq!(lines[2].freq, u64::MAX);
    assert_eq!(s(&lines[2].tag), "n");
}

#[test]
fn malformed_dictionary_lines_are_refused() {
    assert_eq!(parse_dict("南京 1 ns\n长江\n").err(), Some(LoadError::MalformedLine(1)));
    assert_eq!(parse_dict("南京 x ns").err(), Some(LoadError::MalformedLine(0)));
    assert_eq!(parse_dict("a 18446744073709551616").err(), Some(LoadError::MalformedLine(0)));
    assert!(parse_dict("").map(|v| v.is_empty()).unwrap_or(false));
}

#[test]
fn word_lists_take_the_first_field() {
    let words = parse_word_list("的\r\n\n 了 x\n是");
    let words: Vec<String> = words.iter().map(|w| s(w)).collect();
    assert_eq!(words, vec!["的", "了", "是"]);
}

#[test]
fn table_rows_skip_comments_and_blanks() {
    let rows = rust_jieba::formats::parse_rows("#start\n-0.5 -3.1\n\n # note\nx:-1.5,y:-2\n");
    assert_eq!(rows.len(), 2);
    assert_eq!(rows[0].iter().map(|f| s(f)).collect::<Vec<_>>(), vec!["-0.5", "-3.1"]);
    let items = rust_jieba::formats::parse_emissions(&rows[1][0]).unwrap();
    assert_eq!(items.len(), 2);
    assert_eq!(items[0].0, 'x');
    assert_eq!(s(&items[0].1), "-1.5");
    assert_eq!(items[1].0, 'y');
    assert_eq!(s(&items[1].1), "-2");
    assert!(rust_jieba::formats::parse_emissions(&"x-1".chars().collect()).is_none());
}

#[test]
fn user_dictionary_lines() {
    let lines = rust_jieba::formats::parse_user_dict("云计算\n韩玉鉴赏 3 nz\n蓝翔 nz\n区块链 10\n");
    let got: Vec<(String, String)> = lines.iter().map(|(w, t)| (s(w), s(t))).collect();
    assert_eq!(
        got,
        vec![
            ("云计算".to_string(), "".to_string()),
            ("韩玉鉴赏".to_string(), "nz".to_string()),
            ("蓝翔".to_string(), "nz".to_string()),
            ("区块链".to_string(), "".to_string()),
        ]
    );
}
