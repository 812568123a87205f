use shell::{parse_command, parse_quoted_expr, parse_single_quoted_expr, ParseRes, Parsed};

fn words(text: &str) -> Vec<String> {
    match parse_command(text) {
        ParseRes::Success(Parsed::Sentence(v)) => v,
        ParseRes::Success(Parsed::Expr(..)) => panic!("unexpected combined command"),
        ParseRes::Incomplete => panic!("unexpected Incomplete for {:?}", text),
        ParseRes::Invalid(m) => panic!("unexpected Invalid({}) for {:?}", m, text),
    }
}

fn invalid(text: &str) -> String {
    match parse_command(text) {
        ParseRes::Invalid(m) => m,
        _ => panic!("expected Invalid for {:?}", text),
    }
}

fn is_incomplete(text: &str) -> bool {
    matches!(parse_command(text), ParseRes::Incomplete)
}

#[test]
fn test_parse_quoted_expr() {
    let (_, result) = parse_quoted_expr("abc\\d\"", String::new()).unwrap();
    assert_eq!("abc\\d", result.as_str());

    let (_, result) = parse_quoted_expr("abc\\\"\"", String::new()).unwrap();
    assert_eq!("abc\"", result.as_str());

    let (_, result) = parse_quoted_expr("abc\\$\"", String::new()).unwrap();
    assert_eq!("abc$", result.as_str());
    let (_, result) = parse_quoted_expr("abc\\$\"", result).unwrap();
    assert_eq!("abc$abc$", result.as_str());
}

#[test]
fn test_parse_single_quoted_expr() {
    let (_, result) = parse_single_quoted_expr("abc\\'", String::new()).unwrap();
    assert_eq!("abc\\", result.as_str());

    let (_, result) = parse_single_quoted_expr("abc\n'", result).unwrap();
    assert_eq!("abc\\abc\n", result.as_str());
}

#[test]
fn single_quote_keeps_backslash() {
    let (n, result) = parse_single_quoted_expr("abc\\d'", String::new()).unwrap();
    assert_eq!("abc\\d", result.as_str());
    assert_eq!(6, n);
}

#[test]
fn single_quote_stops_at_first_quote() {
    let (n, result) = parse_single_quoted_expr("a'b'", String::new()).unwrap();
    assert_eq!("a", result.as_str());
    assert_eq!(2, n);
}

#[test]
fn single_quote_unterminated_is_incomplete() {
    assert!(matches!(parse_single_quoted_expr("abc", String::new()), ParseRes::Incomplete));
    assert!(matches!(parse_single_quoted_expr("", String::new()), ParseRes::Incomplete));
}

#[test]
fn double_quote_escape_table() {
    let (n, result) = parse_quoted_expr("a\\\\b\\`c\\\nd\\xe\"rest", String::new()).unwrap();
    assert_eq!("a\\b`cd\\xe", result.as_str());
    assert_eq!(14, n);
}

#[test]
fn double_quote_unterminated_is_incomplete() {
    assert!(matches!(parse_quoted_expr("abc", String::new()), ParseRes::Incomplete));
    assert!(matches!(parse_quoted_expr("abc\\", String::new()), ParseRes::Incomplete));
}

#[test]
fn double_quote_with_substitution_has_no_text() {
    assert!(matches!(parse_quoted_expr("a$(b)\"", String::new()), ParseRes::Invalid(_)));
}

#[test]
fn double_quote_with_parameter_is_invalid() {
    match parse_quoted_expr("a$b\"", String::new()) {
        ParseRes::Invalid(m) => assert_eq!("Parameters not yet supported.", m),
        _ => panic!("expected Invalid"),
    }
}

#[test]
fn literal_passthrough() {
    assert_eq!(vec!["hello".to_string()], words("hello\n"));
    assert_eq!(vec!["/usr/bin/env".to_string()], words("/usr/bin/env\n"));
    assert_eq!(vec!["h\u{e9}llo".to_string()], words("h\u{e9}llo\n"));
    assert!(words("\n").is_empty());
}

#[test]
fn word_splitting_drops_repeated_spaces() {
    assert_eq!(vec!["a", "b", "c"], words("a  b   c\n"));
    assert_eq!(vec!["a", "b"], words("   a b   \n"));
}

#[test]
fn escaped_space_forces_one_word() {
    assert_eq!(vec!["a b"], words("a\\ b\n"));
}

#[test]
fn comment_is_stripped() {
    assert_eq!(words("echo hi\n"), words("echo hi # this is ignored\n"));
    assert_eq!(vec!["echo", "hi"], words("echo hi # this is ignored\n"));
}

#[test]
fn open_quote_is_incomplete_then_retry() {
    assert!(is_incomplete("echo 'abc\n"));
    let mut text = String::from("echo 'abc\n");
    text.push_str("def'\n");
    assert_eq!(vec!["echo", "abc\ndef"], words(&text));
}

#[test]
fn missing_newline_is_incomplete() {
    assert!(is_incomplete("echo hi"));
    assert!(is_incomplete(""));
    assert!(is_incomplete("echo \\"));
    assert!(is_incomplete("echo \"abc\n"));
    assert!(is_incomplete("echo $(ls\n"));
}

#[test]
fn unmatched_paren_is_invalid() {
    assert_eq!("Unexpected ')'", invalid(")\n"));
    assert_eq!("Unexpected ')'", invalid("ls )\n"));
}

#[test]
fn parameters_are_rejected() {
    assert_eq!("Parameters not yet supported.", invalid("echo $HOME\n"));
    assert_eq!("Parameters not yet supported.", invalid("echo ${HOME}\n"));
}

#[test]
fn arithmetic_is_rejected() {
    assert_eq!("Arithmetic expressions not yet supported.", invalid("echo $((1+2))\n"));
}

#[test]
fn unresolved_tokens_are_rejected_at_assembly() {
    assert_eq!("Error converting to parsed form", invalid("echo $(ls)\n"));
    assert_eq!("Error converting to parsed form", invalid("ls *\n"));
    assert_eq!("Error converting to parsed form", invalid("cd ~\n"));
    assert_eq!("Error converting to parsed form", invalid("echo \"a$(ls)\"\n"));
}

#[test]
fn backslash_outside_quotes() {
    assert_eq!(vec!["ax"], words("a\\x\n"));
    assert_eq!(vec!["ab"], words("a\\\nb\n"));
}

#[test]
fn quotes_join_adjacent_text() {
    assert_eq!(vec!["a\"b", "c d"], words("\"a\\\"b\" 'c d'\n"));
    assert_eq!(vec!["xyz"], words("x'y'\"z\"\n"));
}

#[test]
fn space_after_quoted_run_ends_word() {
    assert_eq!(vec!["a", "b"], words("'a' b\n"));
}

#[test]
fn dollar_before_newline_is_literal() {
    assert_eq!(vec!["echo", "$"], words("echo $\n\n"));
}

#[test]
fn only_first_line_is_read() {
    assert_eq!(vec!["a"], words("a\nb\n"));
}

#[test]
fn quoted_prefix_is_prepended() {
    let (n1, alone) = parse_quoted_expr("x\\\"y\" tail", String::new()).unwrap();
    let (n2, after) = parse_quoted_expr("x\\\"y\" tail", String::from("pre ")).unwrap();
    assert_eq!(n1, n2);
    assert_eq!("x\"y", alone);
    assert_eq!("pre x\"y", after);
}

#[test]
fn open_quote_spanning_lines_is_incomplete() {
    assert!(is_incomplete("ls 'a\nb\nc\n"));
    assert!(is_incomplete("'\n"));
}
