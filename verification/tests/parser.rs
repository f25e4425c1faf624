use lamcalc::parser::{
    comment, parse_book, parse_term, token_stream, LexingError, MultiLineComment, ParseError,
    Token,
};

fn texts(code: &str) -> Vec<String> {
    token_stream(code).iter().map(|t| t.to_string()).collect()
}

#[test]
fn names_are_read_to_their_end() {
    let tokens = token_stream("foo _b.c9 A");
    assert_eq!(tokens.len(), 3);
    assert!(matches!(&tokens[0], Token::Name(n) if n == "foo"));
    assert!(matches!(&tokens[1], Token::Name(n) if n == "_b.c9"));
    assert!(matches!(&tokens[2], Token::Name(n) if n == "A"));
}

#[test]
fn punctuation_needs_no_space() {
    assert_eq!(texts("a=(λx@y*)"), vec!["a", "=", "(", "λ", "x", "λ", "y", "*", ")"]);
    let tokens = token_stream("@ λ * = ( )");
    assert!(matches!(tokens[0], Token::Lambda));
    assert!(matches!(tokens[1], Token::Lambda));
    assert!(matches!(tokens[2], Token::Asterisk));
    assert!(matches!(tokens[3], Token::Equals));
    assert!(matches!(tokens[4], Token::LParen));
    assert!(matches!(tokens[5], Token::RParen));
}

#[test]
fn white_space_is_skipped() {
    assert_eq!(texts(" a\t\r\n\x0cb  "), vec!["a", "b"]);
    assert!(token_stream("").is_empty());
    assert!(token_stream(" \n ").is_empty());
}

#[test]
fn line_comments_run_to_the_end_of_the_line() {
    assert_eq!(texts("a // b c\nd"), vec!["a", "d"]);
    assert_eq!(texts("a // no newline"), vec!["a"]);
    assert_eq!(texts("//\n//x\ny"), vec!["y"]);
}

#[test]
fn block_comments_nest() {
    assert_eq!(texts("a /* b /* c */ d */ e"), vec!["a", "e"]);
    assert_eq!(texts("a/**/b"), vec!["a", "b"]);
    assert_eq!(texts("/* λ \n = */x"), vec!["x"]);
    assert_eq!(texts("/*/ */ a"), vec!["a"]);
}

#[test]
fn unclosed_block_comment_is_an_error_token() {
    let tokens = token_stream("a /* b /* c */");
    assert!(matches!(&tokens[0], Token::Name(n) if n == "a"));
    assert!(matches!(tokens[1], Token::Error(LexingError::UnclosedComment)));
    assert_eq!(texts("a /* b"), vec!["a", "<UnclosedComment>", "b"]);
}

#[test]
fn other_characters_are_error_tokens() {
    let tokens = token_stream("a # 1 / b");
    assert_eq!(tokens.len(), 5);
    assert!(matches!(tokens[1], Token::Error(LexingError::InvalidCharacter)));
    assert!(matches!(tokens[2], Token::Error(LexingError::InvalidCharacter)));
    assert!(matches!(tokens[3], Token::Error(LexingError::InvalidCharacter)));
    assert_eq!(tokens[1].to_string(), "<InvalidCharacter>");
    assert_eq!(LexingError::default(), LexingError::InvalidCharacter);
}

#[test]
fn comment_scan_returns_the_position_behind_the_close() {
    let chars: Vec<char> = "/* a /* b */ c */ d".chars().collect();
    assert_eq!(comment(&chars, 2), Some(17));
    let open: Vec<char> = "/* a /* b */ c".chars().collect();
    assert_eq!(comment(&open, 2), None);
    let empty: Vec<char> = "/*".chars().collect();
    assert_eq!(comment(&empty, 2), None);
    assert_ne!(MultiLineComment::Open, MultiLineComment::Close);
    assert_ne!(MultiLineComment::Close, MultiLineComment::Other);
}

#[test]
fn variables_and_functions_parse() {
    assert_eq!(parse_term("x").unwrap().to_string(), "x");
    assert_eq!(parse_term("λx x").unwrap().to_string(), "λx x");
    assert_eq!(parse_term("@x @* x").unwrap().to_string(), "λx λ* x");
    assert_eq!(parse_term("λx(x x)").unwrap().to_string(), "λx (x x)");
}

#[test]
fn applications_associate_to_the_left() {
    assert_eq!(parse_term("(a b)").unwrap().to_string(), "(a b)");
    assert_eq!(parse_term("(a b c d)").unwrap().to_string(), "(((a b) c) d)");
    assert_eq!(parse_term("(a (b c) λx x)").unwrap().to_string(), "((a (b c)) λx x)");
    assert_eq!(parse_term("(λx x y)").unwrap().to_string(), "(λx x y)");
}

#[test]
fn what_is_printed_reads_back() {
    for code in ["λx x", "λ* (a b)", "((f a) (g λy (y y)))", "_a.b1"] {
        let term = parse_term(code).unwrap();
        assert_eq!(term.to_string(), code);
        assert_eq!(parse_term(&term.to_string()).unwrap().to_string(), code);
    }
}

fn failure(res: Result<lamcalc::ast::Term, ParseError>) -> (usize, String) {
    let e = res.err().expect("the text is no term");
    (e.at, e.to_string())
}

#[test]
fn application_needs_two_terms() {
    assert_eq!(failure(parse_term("(a)")), (2, "found ')'".to_string()));
    assert_eq!(failure(parse_term("()")), (1, "found ')'".to_string()));
}

#[test]
fn term_errors_name_the_token_that_does_not_fit() {
    assert_eq!(failure(parse_term("")), (0, "found end of input".to_string()));
    assert_eq!(failure(parse_term("(a b")), (3, "found end of input".to_string()));
    assert_eq!(failure(parse_term("λ")), (1, "found end of input".to_string()));
    assert_eq!(failure(parse_term("λ( x")), (1, "found '('".to_string()));
    assert_eq!(failure(parse_term("λx")), (2, "found end of input".to_string()));
    assert_eq!(failure(parse_term("a b")), (1, "found 'b'".to_string()));
    assert_eq!(failure(parse_term("= a")), (0, "found '='".to_string()));
    assert_eq!(failure(parse_term("(a # b)")), (2, "found '<InvalidCharacter>'".to_string()));
    assert_eq!(failure(parse_term("(a /* b)")), (2, "found '<UnclosedComment>'".to_string()));
    assert_eq!(failure(parse_term("(a λ= b)")), (3, "found '='".to_string()));
}

#[test]
fn books_hold_their_definitions() {
    let book = parse_book("// a program\nid = λx x\nmain = (id id) /* done */").unwrap();
    assert_eq!(book.get(&"id".to_string()).unwrap().bod.to_string(), "λx x");
    assert_eq!(book.get(&"main".to_string()).unwrap().bod.to_string(), "(id id)");
    assert_eq!(book.get(&"main".to_string()).unwrap().nam, "main");
    assert!(book.get(&"other".to_string()).is_none());
    assert!(parse_book("").unwrap().get(&"main".to_string()).is_none());
}

#[test]
fn definitions_need_no_separator() {
    let book = parse_book("a = b c = d").unwrap();
    assert_eq!(book.get(&"a".to_string()).unwrap().bod.to_string(), "b");
    assert_eq!(book.get(&"c".to_string()).unwrap().bod.to_string(), "d");
}

#[test]
fn later_definition_replaces_an_earlier_one() {
    let book = parse_book("a = x\nb = y\na = z").unwrap();
    assert_eq!(book.get(&"a".to_string()).unwrap().bod.to_string(), "z");
    assert_eq!(book.get(&"b".to_string()).unwrap().bod.to_string(), "y");
}

#[test]
fn book_errors_name_the_token_that_does_not_fit() {
    let at = |code: &str| {
        let e = parse_book(code).err().expect("the text is no book");
        (e.at, e.to_string())
    };
    assert_eq!(at("a = b c"), (4, "found end of input".to_string()));
    assert_eq!(at("a b"), (1, "found 'b'".to_string()));
    assert_eq!(at("a ="), (2, "found end of input".to_string()));
    assert_eq!(at("= a"), (0, "found '='".to_string()));
    assert_eq!(at("a = b )"), (3, "found ')'".to_string()));
    assert_eq!(at("a = (b"), (4, "found end of input".to_string()));
    assert_eq!(at("a = λx x\nb = $"), (7, "found '<InvalidCharacter>'".to_string()));
}

#[test]
fn parsing_gives_variables_never_references() {
    let term = parse_term("(a b)").unwrap();
    match term {
        lamcalc::ast::Term::App { fun, arg } => {
            assert!(matches!(*fun, lamcalc::ast::Term::Var { .. }));
            assert!(matches!(*arg, lamcalc::ast::Term::Var { .. }));
        }
        _ => panic!("an application is read"),
    }
}
