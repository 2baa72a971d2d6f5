use sql_align::groups::{detect_groups, is_group_symbol};
use sql_align::keywords::{lookup_keyword, make_keyword_set, same_text, spells_keyword, KeywordPhrase};
use sql_align::layout::{align_lines, label_width, pad_label};

#[test]
fn group_symbols() {
    assert!(is_group_symbol(&'('));
    assert!(is_group_symbol(&')'));
    assert!(is_group_symbol(&'\''));
    assert!(!is_group_symbol(&'"'));
    assert!(!is_group_symbol(&'['));
}

#[test]
fn detect_groups_balanced_returns_to_empty() {
    let mut stack = Vec::new();
    detect_groups(&mut stack, "f(a,(b))");
    assert!(stack.is_empty());
    detect_groups(&mut stack, "'x(y'");
    assert!(stack.is_empty());
}

#[test]
fn detect_groups_spans_tokens() {
    let mut stack = Vec::new();
    detect_groups(&mut stack, "concat(a");
    assert_eq!(vec!['('], stack);
    detect_groups(&mut stack, "b)");
    assert!(stack.is_empty());
}

#[test]
fn detect_groups_stray_close_is_pushed() {
    let mut stack = Vec::new();
    detect_groups(&mut stack, ")");
    assert_eq!(vec![')'], stack);
    detect_groups(&mut stack, ")(");
    assert_eq!(vec![')', ')', '('], stack);
}

#[test]
fn detect_groups_quote_rules() {
    let mut stack = Vec::new();
    detect_groups(&mut stack, "'(");
    assert_eq!(vec!['\''], stack);
    let mut stack2 = Vec::new();
    // a quote directly inside parentheses is inert
    detect_groups(&mut stack2, "('");
    assert_eq!(vec!['('], stack2);
}

#[test]
fn keyword_lookup() {
    let table = make_keyword_set();
    assert_eq!(15, table.len());
    assert_eq!(Some(KeywordPhrase::Single), lookup_keyword(&table, "SELECT"));
    assert_eq!(Some(KeywordPhrase::Single), lookup_keyword(&table, ","));
    assert_eq!(Some(KeywordPhrase::TwoWord), lookup_keyword(&table, "Inner"));
    assert_eq!(Some(KeywordPhrase::ThreeWordMaybe), lookup_keyword(&table, "left"));
    assert_eq!(None, lookup_keyword(&table, "by"));
    assert_eq!(None, lookup_keyword(&table, "selec"));
}

#[test]
fn text_comparisons() {
    assert!(spells_keyword("OuTeR", "outer"));
    assert!(!spells_keyword("outer", "OUTER"));
    assert!(!spells_keyword("out", "outer"));
    assert!(same_text("outer", "outer"));
    assert!(!same_text("OUTER", "outer"));
}

#[test]
fn label_width_skips_last_index() {
    let out: Vec<String> = vec!["select", "*", "FROM", "a"].into_iter().map(String::from).collect();
    assert_eq!(6, label_width(&out));
    let odd: Vec<String> = vec!["ab", "x", "longest"].into_iter().map(String::from).collect();
    assert_eq!(2, label_width(&odd));
    assert_eq!(0, label_width(&Vec::new()));
    let wide: Vec<String> = vec!["é", "x"].into_iter().map(String::from).collect();
    assert_eq!(1, label_width(&wide));
}

#[test]
fn pad_label_right_justifies() {
    assert_eq!("  ab", pad_label("ab", 4));
    assert_eq!("abcdef", pad_label("abcdef", 4));
    assert_eq!("", pad_label("", 0));
}

#[test]
fn align_lines_layout() {
    let out: Vec<String> = vec!["select", "a", ",", "b as bbb", "INNER JOIN", "t2"]
        .into_iter()
        .map(String::from)
        .collect();
    let width = label_width(&out);
    assert_eq!(10, width);
    let lines = align_lines(&out, width);
    assert_eq!(
        vec!["    select a", "         , b as bbb", "INNER JOIN t2"],
        lines
    );
}

#[test]
fn align_again_is_identical() {
    let out: Vec<String> = vec!["select", "a", "from", "t"].into_iter().map(String::from).collect();
    let width = label_width(&out);
    let first = align_lines(&out, width);
    let padded: Vec<String> = vec![pad_label("select", width), "a".to_string(), pad_label("from", width), "t".to_string()];
    assert_eq!(first, align_lines(&padded, width));
}
