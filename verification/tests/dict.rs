use jieba_rs::{DictErrorReason, Jieba};

#[test]
fn test_contains_round_trip() {
    let jieba = Jieba::new("好 5\n好人 3 n\n").unwrap();
    assert!(jieba.contains("好").is_some());
    assert!(jieba.contains("好人").is_some());
    assert!(jieba.contains("人").is_none());
    assert!(jieba.contains("坏").is_none());
    assert!(jieba.contains("").is_none());
}

#[test]
fn test_contains_reports_trailing_word() {
    let jieba = Jieba::new("好 5\n").unwrap();
    // the leftmost-longest search finds the trailing word of a query whose
    // head matches nothing
    assert!(jieba.contains("x好").is_some());
    assert!(jieba.contains("好x").is_none());
}

#[test]
fn test_invalid_frequency_line() {
    let err = Jieba::new("好 5\n坏 abc\n").unwrap_err();
    assert_eq!(err.line_number, 2);
    assert_eq!(err.reason, DictErrorReason::InvalidFrequency);

    let err = Jieba::new("好 99999999999999999999999\n").unwrap_err();
    assert_eq!(err.line_number, 1);
    assert_eq!(err.reason, DictErrorReason::InvalidFrequency);
}

#[test]
fn test_total_overflow() {
    let big = u64::MAX.to_string();
    let lex = format!("甲 {}\n乙 {}\n", big, big);
    let err = Jieba::new(&lex).unwrap_err();
    assert_eq!(err.reason, DictErrorReason::TotalOverflow);
}

#[test]
fn test_default_frequency_and_bom() {
    let jieba = Jieba::new("\u{FEFF}好\n  \n人 7\n").unwrap();
    // a missing frequency defaults to 0; blank lines are skipped
    assert!(jieba.contains("好").is_some());
    assert!(jieba.contains("人").is_some());
    let words = jieba.cut("好人", false);
    // the zero-frequency word loses to any split with real frequencies
    assert_eq!(words.concat(), "好人");
}

#[test]
fn test_fixed_point_log() {
    // exact powers of two have exact fixed-point logarithms
    assert_eq!(jieba_rs::score::ilog2_fixed(1), 0);
    assert_eq!(jieba_rs::score::ilog2_fixed(2), 16777216);
    assert_eq!(jieba_rs::score::ilog2_fixed(8), 3 * 16777216);
    assert_eq!(jieba_rs::score::ilog2_fixed(1 << 40), 40 * 16777216);
    // and the fractional part orders values in between
    let a = jieba_rs::score::ilog2_fixed(5);
    let b = jieba_rs::score::ilog2_fixed(6);
    let c = jieba_rs::score::ilog2_fixed(7);
    assert!(2 * 16777216 < a && a < b && b < c && c < 3 * 16777216);
}

#[test]
fn test_cut_uses_frequencies() {
    // with a heavier pair word the route keeps the pair together
    let jieba = Jieba::new("网球 100\n球拍 100\n网 1\n拍 1\n").unwrap();
    assert_eq!(jieba.cut("网球拍", false).concat(), "网球拍");
    let jieba2 = Jieba::new("网球 1\n球拍 1000\n网 500\n拍 500\n").unwrap();
    let words = jieba2.cut("网球拍", false);
    assert_eq!(words, vec!["网".to_string(), "球拍".to_string()]);
}
