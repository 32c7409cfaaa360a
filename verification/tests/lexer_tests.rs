use tiped_lang::lexer::{Lexer, LexingError, LexingResult, Token, TokenData};

fn lex(source: &str) -> LexingResult {
    Lexer::new(source).lex()
}

fn data(result: &LexingResult) -> Vec<TokenData> {
    result.tokens.iter().map(|t| t.data.clone()).collect()
}

fn positions(result: &LexingResult) -> Vec<(usize, usize)> {
    result.tokens.iter().map(|t| (t.line, t.column)).collect()
}

fn ident(s: &str) -> TokenData {
    TokenData::Identifier(s.to_string())
}

#[test]
fn lexes_a_let_declaration_with_positions() {
    let r = lex("let id = fun x -> x;");
    assert_eq!(
        data(&r),
        vec![
            TokenData::Let,
            ident("id"),
            TokenData::Assign,
            TokenData::Fun,
            ident("x"),
            TokenData::Arrow,
            ident("x"),
            TokenData::Semicolon,
        ]
    );
    assert_eq!(positions(&r), vec![(1, 1), (1, 5), (1, 8), (1, 10), (1, 14), (1, 17), (1, 19), (1, 20)]);
    assert!(r.errors.is_empty());
}

#[test]
fn keywords_and_identifiers() {
    let r = lex("if else extern let type in fun iffy _x");
    assert_eq!(
        data(&r),
        vec![
            TokenData::If,
            TokenData::Else,
            TokenData::Extern,
            TokenData::Let,
            TokenData::Type,
            TokenData::In,
            TokenData::Fun,
            ident("iffy"),
            ident("_x"),
        ]
    );
}

#[test]
fn punctuation_and_two_character_operators() {
    let r = lex("(){}[];:,.+-*/&'= == != ! > >= < <= ->");
    assert_eq!(
        data(&r),
        vec![
            TokenData::LeftParen,
            TokenData::RightParen,
            TokenData::LeftBrace,
            TokenData::RightBrace,
            TokenData::LeftBracket,
            TokenData::RightBracket,
            TokenData::Semicolon,
            TokenData::Colon,
            TokenData::Comma,
            TokenData::Dot,
            TokenData::Plus,
            TokenData::Minus,
            TokenData::Star,
            TokenData::Slash,
            TokenData::Ref,
            TokenData::Tick,
            TokenData::Assign,
            TokenData::Equal,
            TokenData::NotEqual,
            TokenData::MutRef,
            TokenData::Greater,
            TokenData::GreatorOrEqual,
            TokenData::Lesser,
            TokenData::LesserOrEqual,
            TokenData::Arrow,
        ]
    );
}

#[test]
fn two_character_tokens_sit_at_their_second_character() {
    let r = lex("==");
    assert_eq!(positions(&r), vec![(1, 2)]);
    let r = lex("a - b");
    assert_eq!(positions(&r), vec![(1, 1), (1, 3), (1, 5)]);
}

#[test]
fn comments_and_line_breaks() {
    let r = lex("a // comment ( )\n  b\n\nc // end");
    assert_eq!(data(&r), vec![ident("a"), ident("b"), ident("c")]);
    assert_eq!(positions(&r), vec![(1, 1), (2, 3), (4, 1)]);
    assert!(r.errors.is_empty());
}

#[test]
fn string_literals_span_lines() {
    let r = lex("\"hi\" \"a\nb\" x");
    assert_eq!(
        data(&r),
        vec![
            TokenData::String("hi".to_string()),
            TokenData::String("a\nb".to_string()),
            ident("x"),
        ]
    );
    assert_eq!(positions(&r), vec![(1, 1), (1, 6), (2, 4)]);
}

#[test]
fn unterminated_string_is_an_error() {
    let r = lex("x \"ab");
    assert_eq!(data(&r), vec![ident("x")]);
    assert_eq!(r.errors.len(), 1);
    assert_eq!(r.errors[0], ((1, 6), LexingError::UnTerminatedString((1, 3))));
}

#[test]
fn misplaced_character_gives_error_and_unknown_token() {
    let r = lex("a $ b\r");
    assert_eq!(
        data(&r),
        vec![
            ident("a"),
            TokenData::Unknown("$".to_string()),
            ident("b"),
            TokenData::Unknown("\r".to_string()),
        ]
    );
    assert_eq!(
        r.errors,
        vec![
            ((1, 3), LexingError::MisplacedCharacter('$')),
            ((1, 6), LexingError::MisplacedCharacter('\r')),
        ]
    );
}

#[test]
fn numbers_then_words() {
    let r = lex("123abc 4\t5");
    assert_eq!(
        data(&r),
        vec![
            TokenData::Integer("123".to_string()),
            ident("abc"),
            TokenData::Integer("4".to_string()),
            TokenData::Integer("5".to_string()),
        ]
    );
    assert_eq!(positions(&r), vec![(1, 1), (1, 4), (1, 8), (1, 10)]);
}

#[test]
fn unicode_letters_and_digits() {
    let r = lex("été ٣٤");
    assert_eq!(
        data(&r),
        vec![
            ident("été"),
            TokenData::Integer("٣".to_string()),
            TokenData::Integer("٤".to_string()),
        ]
    );
}

#[test]
fn empty_and_blank_sources() {
    assert!(lex("").tokens.is_empty());
    let r = lex("  \t\n // only a comment");
    assert!(r.tokens.is_empty());
    assert!(r.errors.is_empty());
}

#[test]
fn positions_strictly_increase() {
    let r = lex("let x = \"a\nb\" in // c\n f(x) $ == y");
    let p = positions(&r);
    for w in p.windows(2) {
        assert!(w[0] < w[1]);
    }
    let e: Vec<(usize, usize)> = r.errors.iter().map(|e| e.0).collect();
    for w in e.windows(2) {
        assert!(w[0] < w[1]);
    }
}

#[test]
fn token_text() {
    assert_eq!(TokenData::LeftParen.to_string(), "(");
    assert_eq!(TokenData::LesserOrEqual.to_string(), "<=");
    assert_eq!(TokenData::Fun.to_string(), "fun");
    assert_eq!(TokenData::NewLine.to_string(), "\n\\n");
    assert_eq!(TokenData::Arrow.to_string(), "Arrow");
    assert_eq!(TokenData::Type.to_string(), "Type");
    assert_eq!(ident("x").to_string(), "Identifier(\"x\")");
    assert_eq!(TokenData::String("a\"b".to_string()).to_string(), "String(\"a\\\"b\")");
    assert_eq!(TokenData::Integer("42".to_string()).to_string(), "Integer(\"42\")");
    assert_eq!(TokenData::Unknown("$".to_string()).to_string(), "Unknown(\"$\")");
}

#[test]
fn tokens_keep_their_fields() {
    let t = Token { data: TokenData::Comma, line: 3, column: 7 };
    let c = t.clone();
    assert_eq!(c.data, TokenData::Comma);
    assert_eq!((c.line, c.column), (3, 7));
}

#[test]
fn next_yields_the_tokens_one_by_one() {
    let mut l = Lexer::new("f(x) @");
    assert!(l.errors().is_empty());
    let mut seen = Vec::new();
    while let Some(t) = l.next() {
        seen.push((t.data, t.line, t.column));
    }
    assert_eq!(
        seen,
        vec![
            (ident("f"), 1, 1),
            (TokenData::LeftParen, 1, 2),
            (ident("x"), 1, 3),
            (TokenData::RightParen, 1, 4),
            (TokenData::Unknown("@".to_string()), 1, 6),
        ]
    );
    assert_eq!(l.errors().clone(), vec![((1, 6), LexingError::MisplacedCharacter('@'))]);
    assert!(l.next().is_none());
    assert!(l.next().is_none());
    assert_eq!(l.errors().len(), 1);
    assert_eq!(data(&lex("f(x) @")), seen.iter().map(|s| s.0.clone()).collect::<Vec<_>>());
}

#[test]
fn an_unterminated_string_is_the_last_error() {
    let r = lex("$ \"a $ b");
    assert_eq!(data(&r), vec![TokenData::Unknown("$".to_string())]);
    assert_eq!(
        r.errors,
        vec![((1, 1), LexingError::MisplacedCharacter('$')), ((1, 9), LexingError::UnTerminatedString((1, 3)))]
    );
}

#[test]
fn tabs_lex_like_spaces() {
    let a = lex("let x = f (y) $");
    let b = lex("let\tx\t=\tf\t(y)\t$");
    assert_eq!(data(&a), data(&b));
    assert_eq!(positions(&a), positions(&b));
    assert_eq!(a.errors, b.errors);
}

#[test]
fn shown_tokens_lex_back() {
    for t in [
        TokenData::LeftParen,
        TokenData::Slash,
        TokenData::Minus,
        TokenData::Equal,
        TokenData::NotEqual,
        TokenData::LesserOrEqual,
        TokenData::Extern,
        TokenData::Fun,
        TokenData::In,
    ] {
        let r = lex(&t.to_string());
        assert_eq!(data(&r), vec![t]);
        assert!(r.errors.is_empty());
    }
}
