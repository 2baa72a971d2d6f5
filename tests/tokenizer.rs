use sql_align::tokenizer::{split_commas, split_query};

#[test]
fn test_split_query() {
    let query = "SELECT * \n FROM table";
    let result = split_query(query);
    assert_eq!(vec!["SELECT", "*", "FROM", "table"], result);

    let query2 = "SELECT a, b, c FROM table";
    let result2 = split_query(query2);
    assert_eq!(vec!["SELECT", "a", ",", "b", ",", "c", "FROM", "table"], result2);

    let query3 = "SELECT a ,b ,c FROM table";
    let result3 = split_query(query3);
    assert_eq!(vec!["SELECT", "a", ",", "b", ",", "c", "FROM", "table"], result3);
}

#[test]
fn test_split_commas() {
    let query = "a,";
    let result = split_commas(query);
    assert_eq!(vec!["a", ","], result);

    let query2 = "a,b,c";
    let result2 = split_commas(query2);
    assert_eq!(vec!["a", ",", "b", ",", "c"], result2);

    assert_eq!(vec!["a", ","], split_commas("a,"));
    assert_eq!(vec![",", "a"], split_commas(",a"));
}

#[test]
fn split_commas_edge_cases() {
    assert_eq!(vec![","], split_commas(","));
    assert_eq!(vec!["a", ",", ",", "b"], split_commas("a,,b"));
    assert_eq!(vec!["abc"], split_commas("abc"));
    assert!(split_commas("").is_empty());
}

#[test]
fn split_commas_rejoins_word() {
    let word = ",x,,yz,";
    let tokens = split_commas(word);
    let commas = tokens.iter().filter(|t| **t == ",").count();
    assert_eq!(commas, 4);
    assert!(tokens.len() - commas <= 5);
    assert_eq!(tokens.concat(), word);
    assert!(tokens.iter().all(|t| *t == "," || (!t.is_empty() && !t.contains(','))));
}

#[test]
fn split_query_whitespace_kinds() {
    assert_eq!(vec!["a", "b", "c", "d", "e"], split_query("  a\tb\nc\r\nd\x0Ce  "));
    assert!(split_query(" \t\n").is_empty());
    assert_eq!(vec!["é", ",", "ü"], split_query("é,ü"));
}
