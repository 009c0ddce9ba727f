use barelang_lexer::collect_tokens;
use barelang_lexer::Lexer;
use barelang_lexer::TokenKind;

fn kinds_of(input: &str) -> Vec<TokenKind> {
    collect_tokens(input)
        .unwrap()
        .iter()
        .map(|t| t.kind)
        .collect()
}

#[test]
fn test_empty() {
    let res: Vec<TokenKind> = vec![];
    assert_eq!(res, kinds_of(""));
}

#[test]
fn test_whitespace_only() {
    let res: Vec<TokenKind> = vec![];
    assert_eq!(res, kinds_of(" \t\n  \r\n "));
}

#[test]
fn test_unicode_whitespace_only() {
    let res: Vec<TokenKind> = vec![];
    assert_eq!(res, kinds_of("\u{A0}\u{2003}\u{3000}"));
}

#[test]
fn test_braces() {
    assert_eq!(
        vec![TokenKind::LeftBrace, TokenKind::RightBrace],
        kinds_of("{}")
    );
}

#[test]
fn test_braces_with_newlines() {
    assert_eq!(
        vec![TokenKind::LeftBrace, TokenKind::RightBrace],
        kinds_of("\n\n{\n}")
    );
}

#[test]
fn test_empty_task() {
    assert_eq!(
        vec![
            TokenKind::Task,
            TokenKind::Ident,
            TokenKind::LeftBrace,
            TokenKind::RightBrace
        ],
        kinds_of("task foo {}")
    );
}

#[test]
fn test_empty_task_with_number_in_ident() {
    assert_eq!(
        vec![
            TokenKind::Task,
            TokenKind::Ident,
            TokenKind::LeftBrace,
            TokenKind::RightBrace
        ],
        kinds_of("task foo3 {}")
    );
}

#[test]
fn test_identifiers_can_start_with_underscore() {
    assert_eq!(
        vec![
            TokenKind::Task,
            TokenKind::Ident,
            TokenKind::LeftBrace,
            TokenKind::RightBrace
        ],
        kinds_of("task _foo3 {}")
    );
}

#[test]
fn test_empty_task_with_new_lines() {
    assert_eq!(
        vec![
            TokenKind::Task,
            TokenKind::Ident,
            TokenKind::LeftBrace,
            TokenKind::RightBrace
        ],
        kinds_of("task foo\n{\n}")
    );
}

#[test]
fn test_plugin_ident() {
    assert_eq!(
        vec![
            TokenKind::Task,
            TokenKind::Ident,
            TokenKind::LeftBrace,
            TokenKind::Ident,
            TokenKind::LeftBrace,
            TokenKind::RightBrace,
            TokenKind::RightBrace
        ],
        kinds_of("task foo\n{\n foo {}}")
    );
}

#[test]
fn it_fails_with_an_error_when_hitting_an_invalid_char() {
    let res = collect_tokens("  #");
    let Err(e) = res else {
        panic!("should have failed");
    };
    assert_eq!(2, e.err_span.offset());
    assert_eq!(1, e.err_span.len());
    assert_eq!('#', e.token);
    assert_eq!(1, e.line());

    let res = collect_tokens("task foo {}\n$");
    let Err(e) = res else {
        panic!("should have failed");
    };
    assert_eq!(12, e.err_span.offset());
    assert_eq!(1, e.err_span.len());
    assert_eq!('$', e.token);
    assert_eq!(2, e.line());
}

#[test]
fn test_token_texts_and_offsets() {
    let tokens = collect_tokens("task foo {}").unwrap();
    assert_eq!(4, tokens.len());
    assert_eq!("task", tokens[0].origin);
    assert_eq!(0, tokens[0].offset);
    assert_eq!(TokenKind::Task, tokens[0].kind);
    assert_eq!("foo", tokens[1].origin);
    assert_eq!(5, tokens[1].offset);
    assert_eq!(TokenKind::Ident, tokens[1].kind);
    assert_eq!("{", tokens[2].origin);
    assert_eq!(9, tokens[2].offset);
    assert_eq!("}", tokens[3].origin);
    assert_eq!(10, tokens[3].offset);
}

#[test]
fn test_maximal_munch_keeps_digit_run() {
    let tokens = collect_tokens("task foo3 {}").unwrap();
    assert_eq!("foo3", tokens[1].origin);
    assert_eq!(TokenKind::Ident, tokens[1].kind);
}

#[test]
fn test_keyword_needs_exact_spelling() {
    let tokens = collect_tokens("tasks task task3 _task").unwrap();
    assert_eq!(TokenKind::Ident, tokens[0].kind);
    assert_eq!(TokenKind::Task, tokens[1].kind);
    assert_eq!(TokenKind::Ident, tokens[2].kind);
    assert_eq!(TokenKind::Ident, tokens[3].kind);
}

#[test]
fn test_task_ident_pattern_instances() {
    // concrete instances of the general law on `task <word> {}` inputs
    for word in ["a", "zZ9_", "_0", "quite_a_long_identifier_42"] {
        let input = format!("task {} {{}}", word);
        let tokens = collect_tokens(&input).unwrap();
        let kinds: Vec<TokenKind> = tokens.iter().map(|t| t.kind).collect();
        assert_eq!(
            vec![
                TokenKind::Task,
                TokenKind::Ident,
                TokenKind::LeftBrace,
                TokenKind::RightBrace
            ],
            kinds
        );
        assert_eq!(word, tokens[1].origin);
        assert_eq!(5, tokens[1].offset);
    }
}

#[test]
fn test_digit_cannot_start_a_token() {
    let res = collect_tokens("3");
    let Err(e) = res else {
        panic!("a bare digit is not a token start");
    };
    assert_eq!(0, e.err_span.offset());
    assert_eq!(1, e.err_span.len());
    assert_eq!('3', e.token);
}

#[test]
fn test_multibyte_error_span() {
    // the offending character is two bytes long in UTF-8
    let res = collect_tokens("{\u{E9}}");
    let Err(e) = res else {
        panic!("should have failed");
    };
    assert_eq!(1, e.err_span.offset());
    assert_eq!(2, e.err_span.len());
    assert_eq!('\u{E9}', e.token);
    assert_eq!(1, e.line());
}

#[test]
fn test_multibyte_whitespace_offsets() {
    // U+00A0 is whitespace and two bytes long: offsets count bytes
    let tokens = collect_tokens("\u{A0}{").unwrap();
    assert_eq!(1, tokens.len());
    assert_eq!(TokenKind::LeftBrace, tokens[0].kind);
    assert_eq!(2, tokens[0].offset);
}

#[test]
fn test_scanning_resumes_after_an_error() {
    let mut lexer = Lexer::new("# foo");
    let first = lexer.next().expect("an item");
    let e = first.expect_err("the first item is an error");
    assert_eq!('#', e.token);
    assert_eq!(0, e.err_span.offset());
    let second = lexer.next().expect("an item").expect("a token");
    assert_eq!(TokenKind::Ident, second.kind);
    assert_eq!("foo", second.origin);
    assert_eq!(2, second.offset);
}

#[test]
fn test_exhaustion_is_idempotent() {
    let mut lexer = Lexer::new("task ");
    assert_eq!(TokenKind::Task, lexer.next().unwrap().unwrap().kind);
    assert!(lexer.next().is_none());
    assert!(lexer.next().is_none());
    assert!(lexer.next().is_none());

    let mut empty = Lexer::new("");
    assert!(empty.next().is_none());
    assert!(empty.next().is_none());
}
