use sql_align::segmenter::{join_tokens, make_lines, SegmentError};

#[test]
fn test_make_lines() {
    let input: Vec<&str> = vec!["select", "*", "FROM", "a"];
    let result = make_lines(input).unwrap();
    assert_eq!(vec!["select", "*", "FROM", "a"], result);

    let input2: Vec<&str> =
        vec!["select", "a", ",", "b", "as", "bbb", "from", "t1", "INNER",
             "JOIN", "t2", "on", "t1.id", "=", "t2.id", "where", "t1.id", "=", "1"];
    let expected2: Vec<&str> =
        vec!["select", "a", ",", "b as bbb", "from", "t1", "INNER JOIN",
             "t2", "on", "t1.id = t2.id", "where", "t1.id = 1"];
    let result2 = make_lines(input2).unwrap();
    assert_eq!(expected2, result2);
}

#[test]
fn test_make_lines_groupings() {
    let input: Vec<&str> = vec!["select", "concat(a", ",", "b)"];
    let expected: Vec<&str> = vec!["select", "concat(a , b)"];
    assert_eq!(expected, make_lines(input).unwrap());

    let input2 = vec!["select", "con('f)()'", ",", "'()'"];
    let expected2 = vec!["select", "con('f)()' , '()'"];
    assert_eq!(expected2, make_lines(input2).unwrap());

    let input3 = vec!["select", "con())", "from", "b"];
    let expected3 = vec!["select", "con()) from b"];
    assert_eq!(expected3, make_lines(input3).unwrap())
}

#[test]
fn make_lines_empty_stream() {
    assert_eq!(vec!["", ""], make_lines(vec![]).unwrap());
}

#[test]
fn make_lines_first_token_seeds_label() {
    assert_eq!(vec!["from", ""], make_lines(vec!["from"]).unwrap());
    assert_eq!(vec!["FROM", "", "where", "x"], make_lines(vec!["FROM", "where", "x"]).unwrap());
}

#[test]
fn make_lines_phrases() {
    let input = vec!["select", "a", "from", "t", "LEFT", "outer", "join", "u", "group", "by", "a"];
    let expected = vec!["select", "a", "from", "t", "LEFT outer join", "u", "group by", "a"];
    assert_eq!(expected, make_lines(input).unwrap());

    // the `outer` of a three-word phrase is matched with its case
    let input2 = vec!["select", "a", "from", "t", "left", "OUTER", "join", "u"];
    let expected2 = vec!["select", "a", "from", "t", "left OUTER", "", "join", "u"];
    assert_eq!(expected2, make_lines(input2).unwrap());

    let input3 = vec!["select", "a", "from", "t", "Right", "JOIN", "u", "cluster", "by", "b"];
    let expected3 = vec!["select", "a", "from", "t", "Right JOIN", "u", "cluster by", "b"];
    assert_eq!(expected3, make_lines(input3).unwrap());
}

#[test]
fn make_lines_left_at_end_gives_empty_label() {
    assert_eq!(vec!["select", "a", "", ""], make_lines(vec!["select", "a", "left"]).unwrap());
}

#[test]
fn make_lines_unfinished_phrase() {
    assert_eq!(Err(SegmentError::UnfinishedPhrase), make_lines(vec!["select", "a", "inner"]));
    assert_eq!(Err(SegmentError::UnfinishedPhrase), make_lines(vec!["select", "a", "GROUP"]));
    assert_eq!(
        Err(SegmentError::UnfinishedPhrase),
        make_lines(vec!["select", "a", "right", "outer"])
    );
}

#[test]
fn make_lines_keywords_ignore_case() {
    let input = vec!["SeLeCt", "x", "LiMiT", "5", "TOP", "3", "HAVING", "y"];
    let expected = vec!["SeLeCt", "x", "LiMiT", "5", "TOP", "3", "HAVING", "y"];
    assert_eq!(expected, make_lines(input).unwrap());
    // a longer word that starts with a keyword is body text
    assert_eq!(vec!["select", "fromage"], make_lines(vec!["select", "fromage"]).unwrap());
}

#[test]
fn make_lines_group_closes_then_keyword_counts() {
    let input = vec!["select", "f(a", ",", "b", ")", "from", "t"];
    let expected = vec!["select", "f(a , b )", "from", "t"];
    assert_eq!(expected, make_lines(input).unwrap());
}

#[test]
fn make_lines_quoted_keyword_is_body() {
    let input = vec!["select", "'a", "from", "b'", "from", "t"];
    let expected = vec!["select", "'a from b'", "from", "t"];
    assert_eq!(expected, make_lines(input).unwrap());
}

#[test]
fn make_lines_unclosed_group_is_flushed() {
    let input = vec!["select", "(a", "from", "t"];
    assert_eq!(vec!["select", "(a from t"], make_lines(input).unwrap());
}

#[test]
fn join_tokens_single_spaces() {
    assert_eq!("a b c", join_tokens(&vec!["a", "b", "c"]));
    assert_eq!("", join_tokens(&vec![]));
    assert_eq!("x", join_tokens(&vec!["x"]));
}

#[test]
fn balanced_group_is_one_pair() {
    let input = vec!["select", "(a", ",", "from", "(b", ",", "c))"];
    assert_eq!(vec!["select", "(a , from (b , c))"], make_lines(input).unwrap());
    let quoted = vec!["select", "'x", ",", "where", "y'"];
    assert_eq!(vec!["select", "'x , where y'"], make_lines(quoted).unwrap());
}
