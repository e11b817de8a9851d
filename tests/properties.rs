use rust_jieba::{DictEntry, HmmModel, Jieba, LoadError};

fn entry(word: &str, weight: i64, tag: &str) -> DictEntry {
    DictEntry { word: word.chars().collect(), weight, tag: tag.to_string() }
}

fn model() -> HmmModel {
    let no: i64 = -1_000_000_000;
    let trans = vec![
        vec![no, -2, -1, no],
        vec![-1, no, no, -3],
        vec![no, -1, -2, no],
        vec![-1, no, no, -2],
    ];
    let emit = vec![
        vec![('南', -1), ('江', -1)],
        vec![('长', -1), ('桥', -1)],
        vec![('京', -1), ('大', -1)],
        vec![],
    ];
    HmmModel { start: vec![-1, no, no, -10], trans, emit, emit_floor: -20 }
}

fn entries() -> Vec<DictEntry> {
    vec![
        entry("南", -15, "ns"),
        entry("京", -15, "ns"),
        entry("市", -14, "n"),
        entry("长", -14, "a"),
        entry("江", -14, "n"),
        entry("大", -13, "a"),
        entry("桥", -14, "n"),
        entry("南京", -7, "ns"),
        entry("南京市", -8, "ns"),
        entry("京市", -12, "ns"),
        entry("市长", -8, "n"),
        entry("长江", -8, "ns"),
        entry("长江大桥", -9, "ns"),
        entry("大桥", -8, "ns"),
        entry("工作", -6, "vn"),
    ]
}

fn idf() -> Vec<(Vec<char>, i64)> {
    vec![("长江大桥".chars().collect(), 12_000_000), ("南京市".chars().collect(), 8_000_000)]
}

fn engine_with_stop_words(stop: &[&str]) -> Jieba {
    let stop_words = stop.iter().map(|w| w.chars().collect()).collect();
    match Jieba::new(entries(), model(), idf(), stop_words) {
        Ok(j) => j,
        Err(e) => panic!("{:?}", e),
    }
}

fn engine() -> Jieba {
    engine_with_stop_words(&[])
}

#[test]
fn accurate_cut_joins_back_to_text() {
    let j = engine();
    for text in ["南京市长江大桥abc 3.14，工作", "", "哈哈南京。。x", "  "] {
        assert_eq!(j.cut(text, true).concat(), text);
        assert_eq!(j.cut(text, false).concat(), text);
    }
}

#[test]
fn plain_cut_keeps_unknown_code_points_single() {
    let j = engine();
    assert_eq!(j.cut("哈哈南京", false), vec!["哈", "哈", "南京"]);
    assert_eq!(j.cut("哈哈南京", true), vec!["哈哈", "南京"]);
}

#[test]
fn separators_are_words_of_their_own() {
    let j = engine();
    assert_eq!(j.cut_all("南京，大桥"), vec!["南京", "，", "大桥"]);
    assert_eq!(j.cut("南京 大桥", false), vec!["南京", " ", "大桥"]);
}

#[test]
fn reset_separators_changes_the_blocks() {
    let mut j = engine();
    j.reset_separators("市");
    assert_eq!(j.cut("南京市长江大桥", false), vec!["南京", "市", "长江大桥"]);
}

#[test]
fn cut_at_a_separator_is_the_two_cuts_joined() {
    let j = engine();
    let mut joined = j.cut("南京市，", true);
    joined.extend(j.cut("长江大桥", true));
    assert_eq!(j.cut("南京市，长江大桥", true), joined);
}

#[test]
fn small_cut_respects_the_limit() {
    let j = engine();
    let ret = j.cut_small("南京市长江大桥", 1);
    assert_eq!(ret.len(), 7);
    assert!(ret.iter().all(|w| w.chars().count() <= 1));
    let ret = j.cut_small("南京市长江大桥", 3);
    assert_eq!(ret, vec!["南京市", "长江", "大桥"]);
}

#[test]
fn hmm_cut_takes_ascii_runs_whole() {
    let j = engine();
    assert_eq!(j.cut_hmm("abc123南京长"), vec!["abc123", "南京长"]);
    assert_eq!(j.cut_hmm("3.14!"), vec!["3.14", "!"]);
}

#[test]
fn user_word_is_cut_whole_afterwards() {
    let mut j = engine();
    assert_eq!(j.cut("江大", false), vec!["江", "大"]);
    j.add_user_word("江大");
    assert_eq!(j.cut("江大", false), vec!["江大"]);
    assert_eq!(j.cut_all("长江大"), vec!["长江", "江大"]);
}

#[test]
fn fallback_tags() {
    let mut j = engine();
    assert_eq!(j.lookup_tag("abc"), "eng");
    assert_eq!(j.lookup_tag("123"), "m");
    assert_eq!(j.lookup_tag("哈"), "x");
    j.add_user_word("WTF");
    assert_eq!(j.lookup_tag("WTF"), "eng");
    assert_eq!(j.lookup_tag("长江"), "ns");
}

#[test]
fn keyword_weights_are_count_times_idf() {
    let j = engine();
    let ret = j.extract_with_weight("长江大桥南京市长江大桥", 0);
    assert_eq!(ret.len(), 2);
    assert_eq!(ret[0].word, "长江大桥");
    assert_eq!(ret[0].weight, 24_000_000);
    assert_eq!(ret[1].word, "南京市");
    assert_eq!(ret[1].weight, 8_000_000);
    let ret = j.extract_with_weight("市长", 5);
    assert_eq!(ret.len(), 1);
    assert_eq!(ret[0].weight, 10_000_000);
}

#[test]
fn keyword_count_is_bounded() {
    let j = engine();
    assert_eq!(j.extract("南京市长江大桥", 0), vec!["长江大桥", "南京市"]);
    assert!(j.extract("南京市长江大桥", 1).len() <= 1);
    assert!(j.extract("南京市长江大桥", 5).len() <= 2);
    assert!(j.extract("", 3).is_empty());
}

#[test]
fn equal_keyword_weights_keep_first_occurrence_order() {
    let j = engine();
    assert_eq!(j.extract("市长长江", 0), vec!["市长", "长江"]);
    assert_eq!(j.extract("长江市长", 0), vec!["长江", "市长"]);
}

#[test]
fn stop_words_are_not_keywords() {
    let j = engine_with_stop_words(&["南京市"]);
    assert_eq!(j.extract("南京市长江大桥", 0), vec!["长江大桥"]);
}

#[test]
fn malformed_tables_are_refused() {
    let mut es = entries();
    es.push(entry("", -3, ""));
    assert_eq!(Jieba::new(es, model(), idf(), vec![]).err(), Some(LoadError::MalformedLine(15)));
    let mut es = entries();
    es[2].weight = 1;
    assert_eq!(Jieba::new(es, model(), idf(), vec![]).err(), Some(LoadError::MalformedLine(2)));
    let mut m = model();
    m.trans.pop();
    assert_eq!(Jieba::new(entries(), m, idf(), vec![]).err(), Some(LoadError::MalformedModel));
    let mut t = idf();
    t[1].1 = -1;
    assert_eq!(Jieba::new(entries(), model(), t, vec![]).err(), Some(LoadError::MalformedIdf(1)));
}

#[test]
fn data_file_paths() {
    let p = Jieba::from_dir("dict");
    assert_eq!(p.dict, "dict/jieba.dict.utf8");
    assert_eq!(p.hmm, "dict/hmm_model.utf8");
    assert_eq!(p.user_dict, "dict/user.dict.utf8");
    assert_eq!(p.idf, "dict/idf.utf8");
    assert_eq!(p.stop_words, "dict/stop_words.utf8");
    assert_eq!(Jieba::from_dir("dict/").dict, "dict/jieba.dict.utf8");
    assert_eq!(Jieba::from_dir("").idf, "idf.utf8");
}

#[test]
fn token_accessors() {
    let j = engine();
    let t = j.tokenize("南京市长江大桥", rust_jieba::TokenizeMode::Default, false);
    assert_eq!(t[1].word(), "长江大桥");
    assert_eq!(t[1].start(), 3);
    assert_eq!(t[1].end(), 7);
}

#[test]
fn byte_and_code_point_offsets() {
    let j = engine();
    let t = j.tokenize_offsets("南京市abc长江大桥", rust_jieba::TokenizeMode::Default, true);
    assert_eq!(t.len(), 3);
    assert_eq!((t[0].offset, t[0].length, t[0].unicode_offset, t[0].unicode_length), (0, 9, 0, 3));
    assert_eq!((t[1].offset, t[1].length, t[1].unicode_offset, t[1].unicode_length), (9, 3, 3, 3));
    assert_eq!((t[2].offset, t[2].length, t[2].unicode_offset, t[2].unicode_length), (12, 12, 6, 4));
}

#[test]
fn user_words_in_a_batch() {
    let mut j = engine();
    j.add_user_words(&vec!["江大".to_string(), String::new(), "京长".to_string()]);
    assert_eq!(j.cut_all("南京长江大"), vec!["南京", "京长", "长江", "江大"]);
    assert_eq!(j.lookup_tag("京长"), "x");
}

#[test]
fn plain_cut_splits_at_a_word_end() {
    let j = engine();
    let mut joined = j.cut("南京市", false);
    joined.extend(j.cut("长江大桥", false));
    assert_eq!(j.cut("南京市长江大桥", false), joined);
    let mut joined = j.cut("江大", false);
    joined.extend(j.cut("桥南京", false));
    assert_eq!(j.cut("江大桥南京", false), vec!["江", "大桥", "南京"]);
    assert_ne!(j.cut("江大桥南京", false), joined);
}

fn ascii_engine(words: &[(&str, i64)]) -> Jieba {
    let entries = words.iter().map(|(w, x)| entry(w, *x, "")).collect();
    match Jieba::new(entries, model(), vec![], vec![]) {
        Ok(j) => j,
        Err(e) => panic!("{:?}", e),
    }
}

#[test]
fn small_cut_splits_inside_accurate_words() {
    let j = ascii_engine(&[("abc", -1), ("ab", -3), ("cd", -3), ("d", -4)]);
    assert_eq!(j.cut("abcd", false), vec!["abc", "d"]);
    assert_eq!(j.cut_small("abcd", 2), vec!["ab", "c", "d"]);
    assert_eq!(j.cut_small("abcd", 3), vec!["abc", "d"]);
}

#[test]
fn small_cut_slices_words_without_inner_words() {
    let j = ascii_engine(&[("abc", -1), ("x", -4)]);
    assert_eq!(j.cut_small("abc", 2), vec!["ab", "c"]);
    assert_eq!(j.cut_small("abc", 1), vec!["a", "b", "c"]);
    assert_eq!(j.cut_small("abc", 0), vec!["a", "b", "c"]);
}

#[test]
fn tagged_user_word() {
    let mut j = engine();
    j.add_user_word_tagged("江大", "nt");
    assert_eq!(j.lookup_tag("江大"), "nt");
    assert_eq!(j.cut("江大", false), vec!["江大"]);
}

#[test]
fn added_word_leaves_other_texts_alone() {
    let mut j = engine();
    let before = (j.cut("南京市长江大桥", true), j.cut_all("南京市长江大桥"));
    j.add_user_word("京长");
    let after = (j.cut("南京市长江大桥", true), j.cut_all("南京市长江大桥"));
    assert_eq!(before.0, after.0);
    assert_eq!(before.1, after.1);
    assert_eq!(j.extract("南京市长江大桥", 0), vec!["长江大桥", "南京市"]);
}
