use lc3sim::lexer::{is_keyword, Keyword, LexErrorKind, ParserState, Token};

fn lex(src: &str) -> Vec<Token> {
    let mut p = ParserState::new(src);
    p.tokenize().unwrap();
    p.parsed_tokens
}

#[test]
fn tokens_of_an_instruction() {
    let t = lex("ADD R0, r1,x5\r\nlabel: .Stringz \"Hi There\"");
    assert_eq!(t.len(), 10);
    assert!(matches!(t[0], Token::Op(Keyword::Add)));
    assert!(matches!(t[1], Token::Register(0)));
    assert!(matches!(t[2], Token::Comma));
    assert!(matches!(t[3], Token::Register(1)));
    assert!(matches!(t[4], Token::Comma));
    assert!(matches!(t[5], Token::NumericLiteral(5)));
    assert!(matches!(t[6], Token::Newline));
    match &t[7] {
        Token::Label(l) => assert_eq!(l.iter().collect::<String>(), "label"),
        other => panic!("expected a label, got {:?}", other),
    }
    assert!(matches!(t[8], Token::Op(Keyword::Stringz)));
    match &t[9] {
        Token::StringLiteral(s) => assert_eq!(s.iter().collect::<String>(), "hi there"),
        other => panic!("expected a string, got {:?}", other),
    }
}

#[test]
fn branch_spellings() {
    let t = lex("br brn brz brp brnz brnp brzp brnzp");
    let masks: Vec<u16> = t
        .iter()
        .map(|t| match t {
            Token::Op(Keyword::Br(m)) => *m,
            other => panic!("expected a branch, got {:?}", other),
        })
        .collect();
    assert_eq!(masks, vec![7, 4, 2, 1, 6, 5, 3, 7]);
}

#[test]
fn line_numbers_count_newlines() {
    let mut p = ParserState::new("a\nb\r\nc\n");
    p.tokenize().unwrap();
    assert_eq!(p.line_number, 4);
    assert_eq!(p.cursor, 7);
}

#[test]
fn peek_and_pop() {
    let mut p = ParserState::new("Ab");
    assert_eq!(p.peek(), Some('a'));
    assert_eq!(p.pop(), Some('a'));
    assert_eq!(p.pop(), Some('b'));
    assert_eq!(p.pop(), None);
    assert_eq!(p.peek(), None);
    let e = p.parse_one_token().unwrap_err();
    assert_eq!(e.kind, LexErrorKind::EndOfInput);
}

#[test]
fn keywords_recognised() {
    let chars = |s: &str| s.chars().collect::<Vec<char>>();
    assert!(is_keyword(&chars(".orig")));
    assert!(is_keyword(&chars("brnzp")));
    assert!(is_keyword(&chars("halt")));
    assert!(!is_keyword(&chars("loop")));
    assert!(!is_keyword(&chars("HALT")));
}

#[test]
fn failed_reads_leave_no_token() {
    for (src, kind) in [
        ("r8", LexErrorKind::MalformedRegister),
        ("\"ab", LexErrorKind::UnterminatedString),
        ("x1g", LexErrorKind::MalformedNumber),
    ] {
        let mut p = ParserState::new(src);
        let e = p.parse_one_token().unwrap_err();
        assert_eq!(e.kind, kind);
        assert_eq!(e.line, 1);
        assert!(p.parsed_tokens.is_empty());
        assert_eq!(p.line_number, 1);
    }
}

#[test]
fn end_of_input_leaves_lexer_unchanged() {
    let mut p = ParserState::new("");
    let e = p.parse_one_token().unwrap_err();
    assert_eq!(e.kind, LexErrorKind::EndOfInput);
    assert_eq!(p.cursor, 0);
    assert!(p.parsed_tokens.is_empty());
    assert_eq!(p.line_number, 1);
}

#[test]
fn other_white_space_separates_words() {
    let t = lex("halt\u{b}halt\u{c}halt\u{a0}halt");
    assert_eq!(t.len(), 4);
    assert!(t.iter().all(|t| matches!(t, Token::Op(Keyword::Halt))));
}
