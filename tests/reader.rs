use mal::reader::{parse_int, read_form, read_str, tokenize, Reader};

#[test]
fn tokens_skip_commas_whitespace_and_comments() {
    let t = tokenize("(a, b) ; note\n\"x y\" ~@z `q");
    assert_eq!(t, vec!["(", "a", "b", ")", "\"x y\"", "~@", "z", "`", "q"]);
}

#[test]
fn unterminated_string_is_one_token() {
    assert_eq!(tokenize("\"abc"), vec!["\"abc"]);
}

#[test]
fn integer_literals() {
    assert_eq!(parse_int("-12"), Some(-12));
    assert_eq!(parse_int("+7"), Some(7));
    assert_eq!(parse_int("-9223372036854775808"), Some(i64::MIN));
    assert_eq!(parse_int("9223372036854775807"), Some(i64::MAX));
    assert_eq!(parse_int("9223372036854775808"), None);
    assert_eq!(parse_int("1.5"), None);
    assert_eq!(parse_int("-"), None);
}

#[test]
fn printed_data_reads_back_to_the_same_text() {
    for text in ["(1 (2 foo) true nil -3)", "()", "sym", "(+ 1 (* 2 3))", "42", "false"] {
        let v = read_str(text).expect("readable");
        assert_eq!(v.to_text(), text);
    }
}

#[test]
fn strings_lose_their_quotes() {
    let v = read_str("\"a b\"").expect("readable");
    assert!(matches!(&v, mal::types::MalType::Str(s) if s == "a b"));
}

#[test]
fn unclosed_list_is_refused() {
    assert!(read_str("(1 (2 3)").is_none());
}

#[test]
fn empty_text_reads_nil() {
    assert_eq!(read_str("   ").expect("readable").to_text(), "nil");
}

#[test]
fn reader_cursor_moves_over_tokens() {
    let mut r = Reader::new(vec!["(".to_string(), "a".to_string()]);
    assert!(!r.end());
    assert_eq!(r.peek(), "(");
    assert_eq!(r.next(), "(");
    assert_eq!(r.next(), "a");
    assert!(r.end());
}

#[test]
fn forms_read_from_a_cursor() {
    let mut r = Reader::new(tokenize("(1 2) x"));
    assert_eq!(read_form(&mut r).expect("form").to_text(), "(1 2)");
    assert_eq!(read_form(&mut r).expect("form").to_text(), "x");
    assert_eq!(read_form(&mut r).expect("form").to_text(), "nil");
}
