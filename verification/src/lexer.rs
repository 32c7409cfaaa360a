use vstd::prelude::*;

use crate::text::{
    char_is_alphabetic, char_is_numeric, chars_of, debug_string, debug_text,
    is_alphabetic, is_numeric, push_char,
};

verus! {

/// The kind of a token, with its text where it has one.
#[derive(Debug, Clone, PartialEq)]
pub enum TokenData {
    // structure
    LeftParen,
    RightParen,
    LeftBrace,
    RightBrace,
    LeftBracket,
    RightBracket,
    Semicolon,
    // operators
    Colon,
    Comma,
    Dot,
    Plus,
    Minus,
    Star,
    Slash,
    Ref,
    MutRef,
    Arrow,
    Tick,
    // assignments
    Assign,
    // comparisons
    Equal,
    NotEqual,
    Greater,
    GreatorOrEqual,
    Lesser,
    LesserOrEqual,
    // literals
    Identifier(String),
    String(String),
    Integer(String),
    // keywords
    If,
    Else,
    Extern,
    Let,
    Type,
    In,
    Fun,
    // specials
    NewLine,
    Unknown(String),
}

/// A token with the line and column where it starts.
#[derive(Debug, Clone)]
pub struct Token {
    pub data: TokenData,
    pub line: usize,
    pub column: usize,
}

/// An error found while lexing.
#[derive(Debug, Clone, Copy, PartialEq, Eq)]
pub enum LexingError {
    MisplacedCharacter(char),
    UnTerminatedString((usize, usize)),
}

/// The tokens of a source text, and the errors found in it, each under the
/// position (line, column) where it was found, in the order of the text.
#[derive(Debug, Clone)]
pub struct LexingResult {
    pub tokens: Vec<Token>,
    pub errors: Vec<((usize, usize), LexingError)>,
}

/// A lexer over a source text: the characters, how many of them are read,
/// and the current line and column.
#[derive(Debug)]
pub struct Lexer {
    chars: Vec<char>,
    position: usize,
    pub errors: Vec<((usize, usize), LexingError)>,
    current_line: usize,
    current_column: usize,
}

// ------------------------------------------------------------------
// The mathematical model
// ------------------------------------------------------------------

/// The value of a token's data, with its text as a sequence of characters.
pub enum Lexeme {
    /// A token without text (never one of the four kinds below).
    Plain(TokenData),
    Identifier(Seq<char>),
    Str(Seq<char>),
    Integer(Seq<char>),
    Unknown(Seq<char>),
}

/// The value of a token.
pub struct TokenSpec {
    pub lexeme: Lexeme,
    pub line: int,
    pub column: int,
}

/// The value of an error entry.
pub struct ErrorSpec {
    pub line: int,
    pub column: int,
    pub error: LexingError,
}

/// Where the lexer stands: characters read, line, and column.
pub struct Cursor {
    pub pos: int,
    pub line: int,
    pub column: int,
}

impl TokenData {
    pub open spec fn lexeme(&self) -> Lexeme {
        match self {
            TokenData::Identifier(s) => Lexeme::Identifier(s@),
            TokenData::String(s) => Lexeme::Str(s@),
            TokenData::Integer(s) => Lexeme::Integer(s@),
            TokenData::Unknown(s) => Lexeme::Unknown(s@),
            _ => Lexeme::Plain(*self),
        }
    }
}

impl Token {
    pub open spec fn view(&self) -> TokenSpec {
        TokenSpec { lexeme: self.data.lexeme(), line: self.line as int, column: self.column as int }
    }
}

pub open spec fn token_view(t: Token) -> TokenSpec {
    t.view()
}

pub open spec fn error_view(e: ((usize, usize), LexingError)) -> ErrorSpec {
    ErrorSpec { line: e.0.0 as int, column: e.0.1 as int, error: e.1 }
}

pub open spec fn tokens_view(ts: Seq<Token>) -> Seq<TokenSpec> {
    ts.map_values(|t: Token| token_view(t))
}

pub open spec fn errors_view(es: Seq<((usize, usize), LexingError)>) -> Seq<ErrorSpec> {
    es.map_values(|e: ((usize, usize), LexingError)| error_view(e))
}

/// A character that may start an identifier.
pub open spec fn is_ident_start(c: char) -> bool {
    char_is_alphabetic(c) || c == '_'
}

/// A character that may continue an identifier.
pub open spec fn is_ident_char(c: char) -> bool {
    char_is_alphabetic(c) || char_is_numeric(c) || c == '_'
}

/// An ASCII decimal digit.
pub open spec fn is_digit(c: char) -> bool {
    '0' <= c && c <= '9'
}

/// The first index from `i` on whose character does not continue an identifier.
pub open spec fn ident_end(src: Seq<char>, i: int) -> int
    decreases src.len() - i,
{
    if 0 <= i < src.len() && is_ident_char(src[i]) {
        ident_end(src, i + 1)
    } else {
        i
    }
}

/// The first index from `i` on whose character is not an ASCII digit.
pub open spec fn digits_end(src: Seq<char>, i: int) -> int
    decreases src.len() - i,
{
    if 0 <= i < src.len() && is_digit(src[i]) {
        digits_end(src, i + 1)
    } else {
        i
    }
}

/// The index just after the first line break from `i` on, or the end of the text.
pub open spec fn comment_end(src: Seq<char>, i: int) -> int
    decreases src.len() - i,
{
    if i < 0 || i >= src.len() {
        src.len() as int
    } else if src[i] == '\n' {
        i + 1
    } else {
        comment_end(src, i + 1)
    }
}

/// Reads the rest of a string literal from index `i`: where the reading stops,
/// the line and column there, and whether a closing quote was found.
pub open spec fn scan_string(src: Seq<char>, i: int, line: int, column: int) -> (int, int, int, bool)
    decreases src.len() - i,
{
    if i < 0 || i >= src.len() {
        (i, line, column + 1, false)
    } else if src[i] == '"' {
        (i + 1, line, column + 1, true)
    } else if src[i] == '\n' {
        scan_string(src, i + 1, line + 1, 0)
    } else {
        scan_string(src, i + 1, line, column + 1)
    }
}

/// The keyword spelled by a word, if it is one.
pub open spec fn keyword(s: Seq<char>) -> Option<TokenData> {
    if s == seq!['i', 'f'] {
        Some(TokenData::If)
    } else if s == seq!['e', 'l', 's', 'e'] {
        Some(TokenData::Else)
    } else if s == seq!['e', 'x', 't', 'e', 'r', 'n'] {
        Some(TokenData::Extern)
    } else if s == seq!['l', 'e', 't'] {
        Some(TokenData::Let)
    } else if s == seq!['i', 'n'] {
        Some(TokenData::In)
    } else if s == seq!['f', 'u', 'n'] {
        Some(TokenData::Fun)
    } else if s == seq!['t', 'y', 'p', 'e'] {
        Some(TokenData::Type)
    } else {
        None
    }
}

/// The value of a word: a keyword or an identifier.
pub open spec fn word_lexeme(s: Seq<char>) -> Lexeme {
    match keyword(s) {
        Some(k) => Lexeme::Plain(k),
        None => Lexeme::Identifier(s),
    }
}

/// One step: a token of one character at `(line, column)`, the cursor after it.
pub open spec fn single(d: TokenData, pos: int, line: int, column: int) -> (Option<TokenSpec>, Cursor, Seq<ErrorSpec>) {
    (
        Some(TokenSpec { lexeme: Lexeme::Plain(d), line, column }),
        Cursor { pos, line, column },
        Seq::empty(),
    )
}

/// One step for a character that may be followed by `second`: the long token
/// (placed at the second character) if it is, else the short one.
pub open spec fn two_chars(src: Seq<char>, p: int, line: int, column: int, second: char, short: TokenData, long: TokenData) -> (Option<TokenSpec>, Cursor, Seq<ErrorSpec>) {
    if 0 <= p < src.len() && src[p] == second {
        single(long, p + 1, line, column + 1)
    } else {
        single(short, p, line, column)
    }
}

/// What the lexer yields next from cursor `c`: a token or the end, the cursor
/// afterwards, and the errors found on the way.
pub open spec fn spec_next(src: Seq<char>, c: Cursor) -> (Option<TokenSpec>, Cursor, Seq<ErrorSpec>)
    decreases src.len() - c.pos,
{
    let line = c.line;
    let column = c.column + 1;
    let p = c.pos + 1;
    if c.pos < 0 || c.pos >= src.len() {
        (None, c, Seq::empty())
    } else {
        let ch = src[c.pos];
        if ch == '(' {
            single(TokenData::LeftParen, p, line, column)
        } else if ch == ')' {
            single(TokenData::RightParen, p, line, column)
        } else if ch == '{' {
            single(TokenData::LeftBrace, p, line, column)
        } else if ch == '}' {
            single(TokenData::RightBrace, p, line, column)
        } else if ch == '[' {
            single(TokenData::LeftBracket, p, line, column)
        } else if ch == ']' {
            single(TokenData::RightBracket, p, line, column)
        } else if ch == ';' {
            single(TokenData::Semicolon, p, line, column)
        } else if ch == ':' {
            single(TokenData::Colon, p, line, column)
        } else if ch == ',' {
            single(TokenData::Comma, p, line, column)
        } else if ch == '.' {
            single(TokenData::Dot, p, line, column)
        } else if ch == '+' {
            single(TokenData::Plus, p, line, column)
        } else if ch == '-' {
            two_chars(src, p, line, column, '>', TokenData::Minus, TokenData::Arrow)
        } else if ch == '*' {
            single(TokenData::Star, p, line, column)
        } else if ch == '/' {
            if p < src.len() && src[p] == '/' {
                let q = comment_end(src, p);
                proof {
                    lemma_comment_end(src, p);
                }
                spec_next(src, Cursor { pos: q, line: line + 1, column: 0 })
            } else {
                single(TokenData::Slash, p, line, column)
            }
        } else if ch == '&' {
            single(TokenData::Ref, p, line, column)
        } else if ch == '\'' {
            single(TokenData::Tick, p, line, column)
        } else if ch == '=' {
            two_chars(src, p, line, column, '=', TokenData::Assign, TokenData::Equal)
        } else if ch == '!' {
            two_chars(src, p, line, column, '=', TokenData::MutRef, TokenData::NotEqual)
        } else if ch == '>' {
            two_chars(src, p, line, column, '=', TokenData::Greater, TokenData::GreatorOrEqual)
        } else if ch == '<' {
            two_chars(src, p, line, column, '=', TokenData::Lesser, TokenData::LesserOrEqual)
        } else if ch == '"' {
            let (q, l2, c2, closed) = scan_string(src, p, line, column);
            proof {
                lemma_scan_string(src, p, line, column);
            }
            if closed {
                (
                    Some(TokenSpec { lexeme: Lexeme::Str(src.subrange(p, q - 1)), line, column }),
                    Cursor { pos: q, line: l2, column: c2 },
                    Seq::empty(),
                )
            } else {
                let err = ErrorSpec {
                    line: l2,
                    column: c2,
                    error: LexingError::UnTerminatedString((line as usize, column as usize)),
                };
                let rest = spec_next(src, Cursor { pos: q, line: l2, column: c2 });
                (rest.0, rest.1, seq![err] + rest.2)
            }
        } else if ch == '\n' {
            spec_next(src, Cursor { pos: p, line: line + 1, column: 0 })
        } else if is_ident_start(ch) {
            let q = ident_end(src, p);
            (
                Some(TokenSpec { lexeme: word_lexeme(src.subrange(c.pos, q)), line, column }),
                Cursor { pos: q, line, column: column + (q - p) },
                Seq::empty(),
            )
        } else if char_is_numeric(ch) {
            let q = digits_end(src, p);
            (
                Some(TokenSpec { lexeme: Lexeme::Integer(src.subrange(c.pos, q)), line, column }),
                Cursor { pos: q, line, column: column + (q - p) },
                Seq::empty(),
            )
        } else if ch == ' ' || ch == '\t' {
            spec_next(src, Cursor { pos: p, line, column })
        } else {
            (
                Some(TokenSpec { lexeme: Lexeme::Unknown(seq![ch]), line, column }),
                Cursor { pos: p, line, column },
                seq![ErrorSpec { line, column, error: LexingError::MisplacedCharacter(ch) }],
            )
        }
    }
}

/// All the tokens and errors of `src` from cursor `c` on.
pub open spec fn spec_lex(src: Seq<char>, c: Cursor) -> (Seq<TokenSpec>, Seq<ErrorSpec>)
    decreases src.len() - c.pos,
{
    let r = spec_next(src, c);
    match r.0 {
        None => (Seq::empty(), r.2),
        Some(t) => {
            proof {
                lemma_next_progress(src, c);
            }
            let rest = spec_lex(src, r.1);
            (seq![t] + rest.0, r.2 + rest.1)
        },
    }
}

/// The cursor at the start of a text.
pub open spec fn start_cursor() -> Cursor {
    Cursor { pos: 0, line: 1, column: 0 }
}

/// The tokens and errors of a whole text.
pub open spec fn lex_text(src: Seq<char>) -> (Seq<TokenSpec>, Seq<ErrorSpec>) {
    spec_lex(src, start_cursor())
}

/// The text of a token's data: its spelling for punctuation and keywords,
/// its `Debug` form (the variant's name, and the text quoted and escaped in
/// brackets) for the others.
pub open spec fn token_text(d: TokenData) -> Seq<char> {
    match d {
        TokenData::LeftParen => seq!['('],
        TokenData::RightParen => seq![')'],
        TokenData::LeftBrace => seq!['{'],
        TokenData::RightBrace => seq!['}'],
        TokenData::LeftBracket => seq!['['],
        TokenData::RightBracket => seq![']'],
        TokenData::Semicolon => seq![';'],
        TokenData::Colon => seq![':'],
        TokenData::Comma => seq![','],
        TokenData::Dot => seq!['.'],
        TokenData::Plus => seq!['+'],
        TokenData::Minus => seq!['-'],
        TokenData::Star => seq!['*'],
        TokenData::Slash => seq!['/'],
        TokenData::Ref => seq!['&'],
        TokenData::MutRef => seq!['!'],
        TokenData::Assign => seq!['='],
        TokenData::Equal => seq!['=', '='],
        TokenData::NotEqual => seq!['!', '='],
        TokenData::Greater => seq!['>'],
        TokenData::GreatorOrEqual => seq!['>', '='],
        TokenData::Lesser => seq!['<'],
        TokenData::LesserOrEqual => seq!['<', '='],
        TokenData::If => seq!['i', 'f'],
        TokenData::Else => seq!['e', 'l', 's', 'e'],
        TokenData::Extern => seq!['e', 'x', 't', 'e', 'r', 'n'],
        TokenData::Let => seq!['l', 'e', 't'],
        TokenData::In => seq!['i', 'n'],
        TokenData::Fun => seq!['f', 'u', 'n'],
        TokenData::NewLine => seq!['\n', '\\', 'n'],
        TokenData::Arrow => seq!['A', 'r', 'r', 'o', 'w'],
        TokenData::Tick => seq!['T', 'i', 'c', 'k'],
        TokenData::Type => seq!['T', 'y', 'p', 'e'],
        TokenData::Identifier(s) => seq!['I', 'd', 'e', 'n', 't', 'i', 'f', 'i', 'e', 'r', '('] + debug_text(s@) + seq![')'],
        TokenData::String(s) => seq!['S', 't', 'r', 'i', 'n', 'g', '('] + debug_text(s@) + seq![')'],
        TokenData::Integer(s) => seq!['I', 'n', 't', 'e', 'g', 'e', 'r', '('] + debug_text(s@) + seq![')'],
        TokenData::Unknown(s) => seq!['U', 'n', 'k', 'n', 'o', 'w', 'n', '('] + debug_text(s@) + seq![')'],
    }
}

// ------------------------------------------------------------------
// Lemmas on the model
// ------------------------------------------------------------------

pub proof fn lemma_comment_end(src: Seq<char>, i: int)
    requires
        0 <= i <= src.len(),
    ensures
        i < src.len() ==> i < comment_end(src, i),
        comment_end(src, i) <= src.len(),
    decreases src.len() - i,
{
    if i < src.len() && src[i] != '\n' {
        lemma_comment_end(src, i + 1);
    }
}

pub proof fn lemma_scan_string(src: Seq<char>, i: int, line: int, column: int)
    requires
        0 <= i <= src.len(),
    ensures
        ({
            let (q, l2, c2, closed) = scan_string(src, i, line, column);
            &&& i <= q <= src.len()
            &&& closed ==> i < q
            &&& !closed ==> q == src.len()
            &&& l2 >= line
            &&& (l2 > line || c2 >= column + 1)
            &&& (column >= 0 ==> c2 >= 1)
        }),
    decreases src.len() - i,
{
    if i < src.len() && src[i] != '"' {
        if src[i] == '\n' {
            lemma_scan_string(src, i + 1, line + 1, 0);
        } else {
            lemma_scan_string(src, i + 1, line, column + 1);
        }
    }
}

pub proof fn lemma_ident_end(src: Seq<char>, i: int)
    requires
        0 <= i <= src.len(),
    ensures
        i <= ident_end(src, i) <= src.len(),
        forall|k: int| i <= k < ident_end(src, i) ==> is_ident_char(#[trigger] src[k]),
        ident_end(src, i) < src.len() ==> !is_ident_char(src[ident_end(src, i)]),
    decreases src.len() - i,
{
    if i < src.len() && is_ident_char(src[i]) {
        lemma_ident_end(src, i + 1);
    }
}

pub proof fn lemma_digits_end(src: Seq<char>, i: int)
    requires
        0 <= i <= src.len(),
    ensures
        i <= digits_end(src, i) <= src.len(),
        forall|k: int| i <= k < digits_end(src, i) ==> is_digit(#[trigger] src[k]),
        digits_end(src, i) < src.len() ==> !is_digit(src[digits_end(src, i)]),
    decreases src.len() - i,
{
    if i < src.len() && is_digit(src[i]) {
        lemma_digits_end(src, i + 1);
    }
}

/// A step that yields a token reads at least one character.
pub proof fn lemma_next_progress(src: Seq<char>, c: Cursor)
    requires
        0 <= c.pos,
    ensures
        spec_next(src, c).1.pos >= c.pos,
        spec_next(src, c).1.pos <= src.len() || c.pos > src.len(),
        spec_next(src, c).0 is Some ==> spec_next(src, c).1.pos > c.pos,
    decreases src.len() - c.pos,
{
    if c.pos < src.len() {
        let ch = src[c.pos];
        let p = c.pos + 1;
        if ch == '/' && p < src.len() && src[p] == '/' {
            lemma_comment_end(src, p);
            lemma_next_progress(src, Cursor { pos: comment_end(src, p), line: c.line + 1, column: 0 });
        } else if ch == '"' {
            lemma_scan_string(src, p, c.line, c.column + 1);
            let (q, l2, c2, closed) = scan_string(src, p, c.line, c.column + 1);
            if !closed {
                lemma_next_progress(src, Cursor { pos: q, line: l2, column: c2 });
            }
        } else if ch == '\n' {
            lemma_next_progress(src, Cursor { pos: p, line: c.line + 1, column: 0 });
        } else if is_ident_start(ch) {
            lemma_ident_end(src, p);
        } else if char_is_numeric(ch) {
            lemma_digits_end(src, p);
        } else if ch == ' ' || ch == '\t' {
            lemma_next_progress(src, Cursor { pos: p, line: c.line, column: c.column + 1 });
        }
    }
}



// ------------------------------------------------------------------
// Positions
// ------------------------------------------------------------------

/// Position `(l1, c1)` comes strictly before `(l2, c2)` in the text.
pub open spec fn pos_before(l1: int, c1: int, l2: int, c2: int) -> bool {
    l1 < l2 || (l1 == l2 && c1 < c2)
}

/// Position `(l1, c1)` comes before `(l2, c2)` or is it.
pub open spec fn pos_upto(l1: int, c1: int, l2: int, c2: int) -> bool {
    l1 < l2 || (l1 == l2 && c1 <= c2)
}

/// The tokens come in strictly increasing positions.
pub open spec fn tokens_in_order(ts: Seq<TokenSpec>) -> bool {
    forall|i: int, j: int|
        0 <= i < j < ts.len() ==> pos_before(ts[i].line, ts[i].column, ts[j].line, ts[j].column)
}

/// The errors come in strictly increasing positions.
pub open spec fn errors_in_order(es: Seq<ErrorSpec>) -> bool {
    forall|i: int, j: int|
        0 <= i < j < es.len() ==> pos_before(es[i].line, es[i].column, es[j].line, es[j].column)
}

/// Every token lies strictly after `(l, c)`, on a column from 1.
pub open spec fn tokens_after(ts: Seq<TokenSpec>, l: int, c: int) -> bool {
    forall|i: int| 0 <= i < ts.len() ==> pos_before(l, c, #[trigger] ts[i].line, ts[i].column) && ts[i].column >= 1
}

/// Every error lies strictly after `(l, c)`, on a column from 1.
pub open spec fn errors_after(es: Seq<ErrorSpec>, l: int, c: int) -> bool {
    forall|i: int| 0 <= i < es.len() ==> pos_before(l, c, #[trigger] es[i].line, es[i].column) && es[i].column >= 1
}

/// Every error lies at or before `(l, c)`.
pub open spec fn errors_upto(es: Seq<ErrorSpec>, l: int, c: int) -> bool {
    forall|i: int| 0 <= i < es.len() ==> pos_upto(#[trigger] es[i].line, es[i].column, l, c)
}

proof fn lemma_seq_one_error(e: ErrorSpec, l: int, c: int)
    requires
        pos_before(l, c, e.line, e.column),
        e.column >= 1,
    ensures
        errors_after(seq![e], l, c),
        errors_upto(seq![e], e.line, e.column),
        errors_in_order(seq![e]),
{
    assert(seq![e][0] == e);
}

/// One step never moves back: its token and errors lie after the cursor it
/// starts from and no later than the cursor it ends at, and its errors come in order.
#[verifier::spinoff_prover]
pub proof fn lemma_next_positions(src: Seq<char>, c: Cursor)
    requires
        0 <= c.pos,
        c.column >= 0,
    ensures
        ({
            let s = spec_next(src, c);
            &&& s.1.column >= 0
            &&& pos_upto(c.line, c.column, s.1.line, s.1.column)
            &&& (s.0 matches Some(t) ==> pos_before(c.line, c.column, t.line, t.column) && t.column >= 1
                && pos_upto(t.line, t.column, s.1.line, s.1.column))
            &&& errors_after(s.2, c.line, c.column)
            &&& errors_upto(s.2, s.1.line, s.1.column)
            &&& errors_in_order(s.2)
        }),
    decreases src.len() - c.pos,
{
    if c.pos < src.len() {
        let ch = src[c.pos];
        let p = c.pos + 1;
        let line = c.line;
        let column = c.column + 1;
        if ch == '/' && p < src.len() && src[p] == '/' {
            lemma_comment_end(src, p);
            lemma_next_positions(src, Cursor { pos: comment_end(src, p), line: line + 1, column: 0 });
        } else if ch == '"' {
            lemma_scan_string(src, p, line, column);
            let (q, l2, c2, closed) = scan_string(src, p, line, column);
            if !closed {
                let c3 = Cursor { pos: q, line: l2, column: c2 };
                lemma_next_positions(src, c3);
                let rest = spec_next(src, c3);
                let err = ErrorSpec {
                    line: l2,
                    column: c2,
                    error: LexingError::UnTerminatedString((line as usize, column as usize)),
                };
                let all = seq![err] + rest.2;
                assert forall|i: int| 0 <= i < all.len() implies pos_before(c.line, c.column, #[trigger] all[i].line, all[i].column) && all[i].column >= 1 by {
                    if i > 0 {
                        assert(all[i] == rest.2[i - 1]);
                        assert(pos_before(c3.line, c3.column, rest.2[i - 1].line, rest.2[i - 1].column));
                    } else {
                        assert(all[i] == err);
                    }
                }
                assert forall|i: int| 0 <= i < all.len() implies pos_upto(#[trigger] all[i].line, all[i].column, rest.1.line, rest.1.column) by {
                    if i > 0 {
                        assert(all[i] == rest.2[i - 1]);
                    }
                }
                assert forall|i: int, j: int| 0 <= i < j < all.len() implies pos_before(all[i].line, all[i].column, all[j].line, all[j].column) by {
                    assert(all[j] == rest.2[j - 1]);
                    if i > 0 {
                        assert(all[i] == rest.2[i - 1]);
                    }
                }
            }
        } else if ch == '\n' {
            lemma_next_positions(src, Cursor { pos: p, line: line + 1, column: 0 });
        } else if is_ident_start(ch) {
            lemma_ident_end(src, p);
        } else if char_is_numeric(ch) {
            lemma_digits_end(src, p);
        } else if ch == ' ' || ch == '\t' {
            lemma_next_positions(src, Cursor { pos: p, line, column });
        } else {
            lemma_seq_one_error(ErrorSpec { line, column, error: LexingError::MisplacedCharacter(ch) }, c.line, c.column);
        }
    }
}

/// Lexing from a cursor yields tokens, and errors, in strictly increasing
/// positions, all after the cursor.
pub proof fn lemma_lex_positions(src: Seq<char>, c: Cursor)
    requires
        0 <= c.pos,
        c.column >= 0,
    ensures
        tokens_in_order(spec_lex(src, c).0),
        errors_in_order(spec_lex(src, c).1),
        tokens_after(spec_lex(src, c).0, c.line, c.column),
        errors_after(spec_lex(src, c).1, c.line, c.column),
    decreases src.len() - c.pos,
{
    let s = spec_next(src, c);
    lemma_next_positions(src, c);
    lemma_next_progress(src, c);
    if let Some(t) = s.0 {
        let c1 = s.1;
        lemma_lex_positions(src, c1);
        let rest = spec_lex(src, c1);
        let ts = seq![t] + rest.0;
        let es = s.2 + rest.1;
        assert(spec_lex(src, c).0 == ts);
        assert(spec_lex(src, c).1 == es);
        assert forall|i: int| 0 <= i < ts.len() implies pos_before(c.line, c.column, #[trigger] ts[i].line, ts[i].column) && ts[i].column >= 1 by {
            if i > 0 {
                assert(ts[i] == rest.0[i - 1]);
                assert(pos_before(c1.line, c1.column, rest.0[i - 1].line, rest.0[i - 1].column));
            } else {
                assert(ts[i] == t);
            }
        }
        assert forall|i: int, j: int| 0 <= i < j < ts.len() implies pos_before(ts[i].line, ts[i].column, ts[j].line, ts[j].column) by {
            assert(ts[j] == rest.0[j - 1]);
            if i > 0 {
                assert(ts[i] == rest.0[i - 1]);
            }
        }
        assert forall|i: int| 0 <= i < es.len() implies pos_before(c.line, c.column, #[trigger] es[i].line, es[i].column) && es[i].column >= 1 by {
            if i >= s.2.len() {
                assert(es[i] == rest.1[i - s.2.len()]);
                assert(pos_before(c1.line, c1.column, rest.1[i - s.2.len()].line, rest.1[i - s.2.len()].column));
            } else {
                assert(es[i] == s.2[i]);
                assert(pos_before(c.line, c.column, s.2[i].line, s.2[i].column));
            }
        }
        assert forall|i: int, j: int| 0 <= i < j < es.len() implies pos_before(es[i].line, es[i].column, es[j].line, es[j].column) by {
            if j >= s.2.len() {
                assert(es[j] == rest.1[j - s.2.len()]);
                assert(pos_before(c1.line, c1.column, rest.1[j - s.2.len()].line, rest.1[j - s.2.len()].column));
            } else {
                assert(es[j] == s.2[j]);
            }
            if i >= s.2.len() {
                assert(es[i] == rest.1[i - s.2.len()]);
            } else {
                assert(es[i] == s.2[i]);
                assert(pos_upto(s.2[i].line, s.2[i].column, c1.line, c1.column));
            }
        }
    }
}

/// Positions only grow: the tokens of a text come in strictly increasing
/// (line, column) order, and so do its errors, so that no two errors share
/// a position; every position is on a line from 1 and a column from 1.
pub proof fn lemma_lex_text_positions(src: Seq<char>)
    ensures
        tokens_in_order(lex_text(src).0),
        errors_in_order(lex_text(src).1),
        tokens_after(lex_text(src).0, 1, 0),
        errors_after(lex_text(src).1, 1, 0),
        forall|i: int| 0 <= i < lex_text(src).0.len() ==> #[trigger] lex_text(src).0[i].line >= 1,
        forall|i: int| 0 <= i < lex_text(src).1.len() ==> #[trigger] lex_text(src).1[i].line >= 1,
{
    lemma_lex_positions(src, start_cursor());
    let r = lex_text(src);
    assert forall|i: int| 0 <= i < r.0.len() implies #[trigger] r.0[i].line >= 1 by {
        assert(pos_before(1, 0, r.0[i].line, r.0[i].column));
    }
    assert forall|i: int| 0 <= i < r.1.len() implies #[trigger] r.1[i].line >= 1 by {
        assert(pos_before(1, 0, r.1[i].line, r.1[i].column));
    }
}


// ------------------------------------------------------------------
// Unknown tokens and misplaced characters
// ------------------------------------------------------------------

/// Every unknown token is one character that an error at the same position
/// reports as misplaced.
pub open spec fn unknowns_reported(ts: Seq<TokenSpec>, es: Seq<ErrorSpec>) -> bool {
    forall|i: int|
        0 <= i < ts.len() && #[trigger] ts[i].lexeme is Unknown ==> {
            let ch = ts[i].lexeme->Unknown_0[0];
            &&& ts[i].lexeme == Lexeme::Unknown(seq![ch])
            &&& exists|j: int|
                0 <= j < es.len() && #[trigger] es[j] == (ErrorSpec {
                    line: ts[i].line,
                    column: ts[i].column,
                    error: LexingError::MisplacedCharacter(ch),
                })
        }
}

/// Every misplaced character is reported with an unknown token of that
/// character at the same position.
pub open spec fn misplaced_yield_unknowns(ts: Seq<TokenSpec>, es: Seq<ErrorSpec>) -> bool {
    forall|j: int|
        0 <= j < es.len() && #[trigger] es[j].error is MisplacedCharacter ==> exists|i: int|
            0 <= i < ts.len() && #[trigger] ts[i] == (TokenSpec {
                lexeme: Lexeme::Unknown(seq![es[j].error->MisplacedCharacter_0]),
                line: es[j].line,
                column: es[j].column,
            })
}

proof fn lemma_single<A>(x: A)
    ensures
        seq![x].len() == 1,
        seq![x][0] == x,
{
}

/// One step yields an unknown token exactly when it reports a misplaced
/// character, and then at the same position.
pub proof fn lemma_next_unknown(src: Seq<char>, c: Cursor)
    ensures
        ({
            let s = spec_next(src, c);
            &&& (s.0 matches Some(t) ==> (t.lexeme is Unknown ==> {
                let ch = t.lexeme->Unknown_0[0];
                &&& t.lexeme == Lexeme::Unknown(seq![ch])
                &&& s.2 == seq![ErrorSpec {
                    line: t.line,
                    column: t.column,
                    error: LexingError::MisplacedCharacter(ch),
                }]
            }))
            &&& forall|j: int| 0 <= j < s.2.len() && #[trigger] s.2[j].error is MisplacedCharacter
                ==> s.0 == Some(TokenSpec {
                    lexeme: Lexeme::Unknown(seq![s.2[j].error->MisplacedCharacter_0]),
                    line: s.2[j].line,
                    column: s.2[j].column,
                })
        }),
    decreases src.len() - c.pos,
{
    if 0 <= c.pos < src.len() {
        let ch = src[c.pos];
        let p = c.pos + 1;
        let line = c.line;
        let column = c.column + 1;
        if ch == '/' && p < src.len() && src[p] == '/' {
            lemma_comment_end(src, p);
            lemma_next_unknown(src, Cursor { pos: comment_end(src, p), line: line + 1, column: 0 });
        } else if ch == '"' {
            lemma_scan_string(src, p, line, column);
            let (q, l2, c2, closed) = scan_string(src, p, line, column);
            if !closed {
                let rest = spec_next(src, Cursor { pos: q, line: l2, column: c2 });
                assert(rest.2 =~= Seq::<ErrorSpec>::empty());
                let err = ErrorSpec {
                    line: l2,
                    column: c2,
                    error: LexingError::UnTerminatedString((line as usize, column as usize)),
                };
                assert(seq![err] + rest.2 =~= seq![err]);
                assert forall|j: int| 0 <= j < (seq![err] + rest.2).len() implies !((seq![err] + rest.2)[j].error is MisplacedCharacter) by {
                    assert((seq![err] + rest.2)[j] == err);
                }
            }
        } else if ch == '\n' {
            lemma_next_unknown(src, Cursor { pos: p, line: line + 1, column: 0 });
        } else if is_ident_start(ch) {
        } else if char_is_numeric(ch) {
        } else if ch == ' ' || ch == '\t' {
            lemma_next_unknown(src, Cursor { pos: p, line, column });
        } else if !(ch == '(' || ch == ')' || ch == '{' || ch == '}' || ch == '[' || ch == ']'
            || ch == ';' || ch == ':' || ch == ',' || ch == '.' || ch == '+' || ch == '-'
            || ch == '*' || ch == '/' || ch == '&' || ch == '\'' || ch == '=' || ch == '!'
            || ch == '>' || ch == '<') {
            lemma_single(ErrorSpec { line, column, error: LexingError::MisplacedCharacter(ch) });
            lemma_single(ch);
        }
    }
}

/// Unknown tokens and misplaced-character errors come in pairs: each
/// unknown token has an error at its position reporting its character as
/// misplaced, and each such error has its unknown token.
pub proof fn lemma_lex_unknowns(src: Seq<char>, c: Cursor)
    ensures
        unknowns_reported(spec_lex(src, c).0, spec_lex(src, c).1),
        misplaced_yield_unknowns(spec_lex(src, c).0, spec_lex(src, c).1),
    decreases src.len() - c.pos,
{
    let s = spec_next(src, c);
    lemma_next_unknown(src, c);
    match s.0 {
        None => {
            assert(spec_lex(src, c).0 =~= Seq::<TokenSpec>::empty());
            assert(spec_lex(src, c).1 == s.2);
        },
        Some(t) => {
            lemma_next_progress(src, c);
            lemma_lex_unknowns(src, s.1);
            let rest = spec_lex(src, s.1);
            let ts = seq![t] + rest.0;
            let es = s.2 + rest.1;
            assert(spec_lex(src, c).0 == ts);
            assert(spec_lex(src, c).1 == es);
            assert forall|i: int| 0 <= i < ts.len() && #[trigger] ts[i].lexeme is Unknown implies {
                let ch = ts[i].lexeme->Unknown_0[0];
                &&& ts[i].lexeme == Lexeme::Unknown(seq![ch])
                &&& exists|j: int|
                    0 <= j < es.len() && #[trigger] es[j] == (ErrorSpec {
                        line: ts[i].line,
                        column: ts[i].column,
                        error: LexingError::MisplacedCharacter(ch),
                    })
            } by {
                if i == 0 {
                    assert(ts[0] == t);
                    let ch = t.lexeme->Unknown_0[0];
                    let e = ErrorSpec { line: t.line, column: t.column, error: LexingError::MisplacedCharacter(ch) };
                    assert(s.2 == seq![e]);
                    lemma_single(e);
                    assert(es[0] == e);
                } else {
                    assert(ts[i] == rest.0[i - 1]);
                    let ch = rest.0[i - 1].lexeme->Unknown_0[0];
                    let j = choose|j: int|
                        0 <= j < rest.1.len() && #[trigger] rest.1[j] == (ErrorSpec {
                            line: rest.0[i - 1].line,
                            column: rest.0[i - 1].column,
                            error: LexingError::MisplacedCharacter(ch),
                        });
                    assert(es[s.2.len() + j] == rest.1[j]);
                }
            }
            assert forall|j: int| 0 <= j < es.len() && #[trigger] es[j].error is MisplacedCharacter implies exists|i: int|
                0 <= i < ts.len() && #[trigger] ts[i] == (TokenSpec {
                    lexeme: Lexeme::Unknown(seq![es[j].error->MisplacedCharacter_0]),
                    line: es[j].line,
                    column: es[j].column,
                }) by {
                if j < s.2.len() {
                    assert(es[j] == s.2[j]);
                    assert(ts[0] == t);
                } else {
                    assert(es[j] == rest.1[j - s.2.len()]);
                    let i = choose|i: int|
                        0 <= i < rest.0.len() && #[trigger] rest.0[i] == (TokenSpec {
                            lexeme: Lexeme::Unknown(seq![rest.1[j - s.2.len()].error->MisplacedCharacter_0]),
                            line: rest.1[j - s.2.len()].line,
                            column: rest.1[j - s.2.len()].column,
                        });
                    assert(ts[i + 1] == rest.0[i]);
                }
            }
        },
    }
}

/// A step that yields no token ends at the end of the text.
proof fn lemma_next_none_at_end(src: Seq<char>, c: Cursor)
    requires
        0 <= c.pos,
        spec_next(src, c).0 is None,
    ensures
        spec_next(src, c).1.pos >= src.len(),
    decreases src.len() - c.pos,
{
    if c.pos < src.len() {
        let ch = src[c.pos];
        let p = c.pos + 1;
        let line = c.line;
        let column = c.column + 1;
        if ch == '/' && p < src.len() && src[p] == '/' {
            lemma_comment_end(src, p);
            lemma_next_none_at_end(src, Cursor { pos: comment_end(src, p), line: line + 1, column: 0 });
        } else if ch == '"' {
            lemma_scan_string(src, p, line, column);
            let (q, l2, c2, closed) = scan_string(src, p, line, column);
            if !closed {
                lemma_next_none_at_end(src, Cursor { pos: q, line: l2, column: c2 });
            }
        } else if ch == '\n' {
            lemma_next_none_at_end(src, Cursor { pos: p, line: line + 1, column: 0 });
        } else if ch == ' ' || ch == '\t' {
            lemma_next_none_at_end(src, Cursor { pos: p, line, column });
        }
    }
}

/// Once lexing has reached the end it stays there: a step that yields no
/// token is followed by steps that yield nothing, record nothing and stay put.
pub proof fn lemma_next_fused(src: Seq<char>, c: Cursor)
    requires
        0 <= c.pos,
        spec_next(src, c).0 is None,
    ensures
        spec_next(src, spec_next(src, c).1) == (None::<TokenSpec>, spec_next(src, c).1, Seq::<ErrorSpec>::empty()),
{
    lemma_next_none_at_end(src, c);
}

// ------------------------------------------------------------------
// Shown tokens lex back
// ------------------------------------------------------------------

/// The tokens shown by their own spelling: the punctuation marks, the
/// operators and the keywords (`Arrow`, `Tick` and `Type` are shown by
/// their names, `NewLine` by a line break and `\n`).
pub open spec fn spelled(d: TokenData) -> bool {
    match d {
        TokenData::LeftParen | TokenData::RightParen | TokenData::LeftBrace | TokenData::RightBrace
        | TokenData::LeftBracket | TokenData::RightBracket | TokenData::Semicolon | TokenData::Colon
        | TokenData::Comma | TokenData::Dot | TokenData::Plus | TokenData::Minus | TokenData::Star
        | TokenData::Slash | TokenData::Ref | TokenData::MutRef | TokenData::Assign | TokenData::Equal
        | TokenData::NotEqual | TokenData::Greater | TokenData::GreatorOrEqual | TokenData::Lesser
        | TokenData::LesserOrEqual | TokenData::If | TokenData::Else | TokenData::Extern | TokenData::Let
        | TokenData::In | TokenData::Fun => true,
        _ => false,
    }
}

proof fn lemma_one_step(src: Seq<char>)
    requires
        spec_next(src, start_cursor()).0 is Some,
        spec_next(src, start_cursor()).2.len() == 0,
        spec_next(src, start_cursor()).1.pos >= src.len(),
    ensures
        lex_text(src).0 == seq![spec_next(src, start_cursor()).0->Some_0],
        lex_text(src).1.len() == 0,
{
    let c1 = spec_next(src, start_cursor()).1;
    assert(spec_next(src, c1).0 is None);
    assert(spec_lex(src, c1).0 =~= Seq::<TokenSpec>::empty());
    assert(spec_lex(src, c1).1 =~= Seq::<ErrorSpec>::empty());
    assert(lex_text(src).0 =~= seq![spec_next(src, start_cursor()).0->Some_0]);
}

/// Lexing the text of a spelled token gives back that token alone, with no error.
pub proof fn lemma_spelled_round_trip(d: TokenData)
    requires
        spelled(d),
    ensures
        lex_text(token_text(d)).0.len() == 1,
        lex_text(token_text(d)).0[0].lexeme == Lexeme::Plain(d),
        lex_text(token_text(d)).1.len() == 0,
{
    let src = token_text(d);
    match d {
        TokenData::If | TokenData::Else | TokenData::Extern | TokenData::Let | TokenData::In | TokenData::Fun => {
            assert(ident_end(src, 1) == src.len()) by {
                reveal_with_fuel(ident_end, 7);
            }
            assert(src.subrange(0, src.len() as int) =~= src);
        },
        _ => {},
    }
    lemma_one_step(src);
}

// ------------------------------------------------------------------
// Lexing is stepping
// ------------------------------------------------------------------

/// `k` steps from cursor `c`: the tokens yielded, the cursor reached and the
/// errors recorded; once a step yields no token, the steps stop there.
pub open spec fn run(src: Seq<char>, c: Cursor, k: nat) -> (Seq<TokenSpec>, Cursor, Seq<ErrorSpec>)
    decreases k,
{
    if k == 0 {
        (Seq::empty(), c, Seq::empty())
    } else {
        let s = spec_next(src, c);
        match s.0 {
            None => (Seq::empty(), s.1, s.2),
            Some(t) => {
                let r = run(src, s.1, (k - 1) as nat);
                (seq![t] + r.0, r.1, s.2 + r.2)
            },
        }
    }
}

/// Lexing a text is stepping through it until a step yields no token: as
/// many steps as there are tokens yield exactly the tokens, the next step
/// yields none, and the errors of all these steps are the errors of lexing.
pub proof fn lemma_lex_by_steps(src: Seq<char>, c: Cursor)
    requires
        0 <= c.pos,
    ensures
        ({
            let n = spec_lex(src, c).0.len();
            let r = run(src, c, n);
            &&& r.0 == spec_lex(src, c).0
            &&& spec_next(src, r.1).0 is None
            &&& r.2 + spec_next(src, r.1).2 == spec_lex(src, c).1
        }),
    decreases src.len() - c.pos,
{
    let s = spec_next(src, c);
    match s.0 {
        None => {
            assert(spec_lex(src, c).0.len() == 0);
            assert(Seq::<ErrorSpec>::empty() + s.2 =~= s.2);
        },
        Some(t) => {
            lemma_next_progress(src, c);
            lemma_lex_by_steps(src, s.1);
            let rest = spec_lex(src, s.1);
            let n1 = rest.0.len();
            let r1 = run(src, s.1, n1);
            assert(spec_lex(src, c).0 == seq![t] + rest.0);
            assert(spec_lex(src, c).0.len() == n1 + 1);
            assert(run(src, c, n1 + 1) == (seq![t] + r1.0, r1.1, s.2 + r1.2));
            assert((s.2 + r1.2) + spec_next(src, r1.1).2 =~= s.2 + (r1.2 + spec_next(src, r1.1).2));
        },
    }
}

// ------------------------------------------------------------------
// Tabs lex like spaces
// ------------------------------------------------------------------

/// The text with every space replaced by a tab.
pub open spec fn tabbed(src: Seq<char>) -> Seq<char> {
    src.map_values(|ch: char| if ch == ' ' { '\t' } else { ch })
}

/// The text holds no double quote and no slash (no string and no comment,
/// whose contents keep their spaces).
pub open spec fn no_quote_or_slash(src: Seq<char>) -> bool {
    forall|i: int| 0 <= i < src.len() ==> #[trigger] src[i] != '"' && src[i] != '/'
}

proof fn lemma_ident_end_tabbed(src: Seq<char>, i: int)
    requires
        0 <= i <= src.len(),
    ensures
        ident_end(tabbed(src), i) == ident_end(src, i),
    decreases src.len() - i,
{
    if i < src.len() {
        assert(tabbed(src)[i] == (if src[i] == ' ' { '\t' } else { src[i] }));
        lemma_ident_end_tabbed(src, i + 1);
    }
}

proof fn lemma_digits_end_tabbed(src: Seq<char>, i: int)
    requires
        0 <= i <= src.len(),
    ensures
        digits_end(tabbed(src), i) == digits_end(src, i),
    decreases src.len() - i,
{
    if i < src.len() {
        assert(tabbed(src)[i] == (if src[i] == ' ' { '\t' } else { src[i] }));
        lemma_digits_end_tabbed(src, i + 1);
    }
}

/// A stretch of the text without spaces is the same once spaces become tabs.
proof fn lemma_subrange_tabbed(src: Seq<char>, i: int, j: int)
    requires
        0 <= i <= j <= src.len(),
        forall|k: int| i <= k < j ==> #[trigger] src[k] != ' ',
    ensures
        tabbed(src).subrange(i, j) == src.subrange(i, j),
{
    assert forall|k: int| 0 <= k < j - i implies tabbed(src).subrange(i, j)[k] == src.subrange(i, j)[k] by {
        assert(src[i + k] != ' ');
    }
    assert(tabbed(src).subrange(i, j) =~= src.subrange(i, j));
}

proof fn lemma_next_tabbed(src: Seq<char>, c: Cursor)
    requires
        no_quote_or_slash(src),
        0 <= c.pos,
    ensures
        spec_next(tabbed(src), c) == spec_next(src, c),
    decreases src.len() - c.pos,
{
    let t = tabbed(src);
    if c.pos < src.len() {
        let ch = src[c.pos];
        let p = c.pos + 1;
        let line = c.line;
        let column = c.column + 1;
        assert(t[c.pos] == (if ch == ' ' { '\t' } else { ch }));
        assert(ch != '"' && ch != '/');
        if p < src.len() {
            assert(t[p] == (if src[p] == ' ' { '\t' } else { src[p] }));
        }
        if ch == ' ' || ch == '\t' {
            lemma_next_tabbed(src, Cursor { pos: p, line, column });
        } else if ch == '\n' {
            lemma_next_tabbed(src, Cursor { pos: p, line: line + 1, column: 0 });
        } else if is_ident_start(ch) {
            lemma_ident_end(src, p);
            lemma_ident_end_tabbed(src, p);
            lemma_subrange_tabbed(src, c.pos, ident_end(src, p));
        } else if char_is_numeric(ch) {
            lemma_digits_end(src, p);
            lemma_digits_end_tabbed(src, p);
            lemma_subrange_tabbed(src, c.pos, digits_end(src, p));
        }
    }
}

/// A tab is skipped and counted as one column, like a space: in a text
/// without strings or comments, turning every space into a tab changes
/// neither the tokens (with their positions) nor the errors.
pub proof fn lemma_lex_tabbed(src: Seq<char>, c: Cursor)
    requires
        no_quote_or_slash(src),
        0 <= c.pos,
    ensures
        spec_lex(tabbed(src), c) == spec_lex(src, c),
    decreases src.len() - c.pos,
{
    lemma_next_tabbed(src, c);
    let s = spec_next(src, c);
    if s.0 is Some {
        lemma_next_progress(src, c);
        lemma_lex_tabbed(src, s.1);
    }
}

// ------------------------------------------------------------------
// Identifiers are maximal
// ------------------------------------------------------------------

/// An identifier is read as far as it goes: its text is the stretch of the
/// source just before where the step stops, it starts with a letter or `_`,
/// every character of it is a letter, a digit (in the sense of
/// `char::is_alphabetic` and `char::is_numeric`) or `_`, and the character
/// after it, if any, is none of these.
pub proof fn lemma_identifier_maximal(src: Seq<char>, c: Cursor)
    requires
        0 <= c.pos,
    ensures
        ({
            let s = spec_next(src, c);
            s.0 matches Some(t) ==> (t.lexeme matches Lexeme::Identifier(w) ==> {
                &&& 1 <= w.len() <= s.1.pos <= src.len()
                &&& w == src.subrange(s.1.pos - w.len(), s.1.pos)
                &&& (char_is_alphabetic(w[0]) || w[0] == '_')
                &&& forall|i: int| 0 <= i < w.len() ==> char_is_alphabetic(#[trigger] w[i]) || char_is_numeric(w[i]) || w[i] == '_'
                &&& s.1.pos < src.len() ==> !(char_is_alphabetic(src[s.1.pos]) || char_is_numeric(src[s.1.pos]) || src[s.1.pos] == '_')
            })
        }),
    decreases src.len() - c.pos,
{
    if c.pos < src.len() {
        let ch = src[c.pos];
        let p = c.pos + 1;
        let line = c.line;
        let column = c.column + 1;
        if ch == '/' && p < src.len() && src[p] == '/' {
            lemma_comment_end(src, p);
            lemma_identifier_maximal(src, Cursor { pos: comment_end(src, p), line: line + 1, column: 0 });
        } else if ch == '"' {
            lemma_scan_string(src, p, line, column);
            let (q, l2, c2, closed) = scan_string(src, p, line, column);
            if !closed {
                lemma_identifier_maximal(src, Cursor { pos: q, line: l2, column: c2 });
            }
        } else if ch == '\n' {
            lemma_identifier_maximal(src, Cursor { pos: p, line: line + 1, column: 0 });
        } else if is_ident_start(ch) {
            lemma_ident_end(src, p);
            let q = ident_end(src, p);
            let w = src.subrange(c.pos, q);
            assert forall|i: int| 0 <= i < w.len() implies char_is_alphabetic(#[trigger] w[i]) || char_is_numeric(w[i]) || w[i] == '_' by {
                if i > 0 {
                    assert(w[i] == src[c.pos + i]);
                    assert(is_ident_char(src[c.pos + i]));
                }
            }
        } else if ch == ' ' || ch == '\t' {
            lemma_identifier_maximal(src, Cursor { pos: p, line, column });
        }
    }
}

/// A token without text of its own.
pub open spec fn textless(d: TokenData) -> bool {
    !(d is Identifier || d is String || d is Integer || d is Unknown)
}

/// Every token without text but `NewLine` is shown so that lexing the shown
/// text gives one token and no error: the token itself where it is spelled,
/// and otherwise the identifier of its name (`Arrow`, `Tick`, `Type`).
pub proof fn lemma_shown_text_lexes(d: TokenData)
    requires
        textless(d),
        d != TokenData::NewLine,
    ensures
        lex_text(token_text(d)).0.len() == 1,
        lex_text(token_text(d)).1.len() == 0,
        lex_text(token_text(d)).0[0].lexeme == (if spelled(d) {
            Lexeme::Plain(d)
        } else {
            Lexeme::Identifier(token_text(d))
        }),
{
    if spelled(d) {
        lemma_spelled_round_trip(d);
    } else {
        let src = token_text(d);
        assert(ident_end(src, 1) == src.len()) by {
            reveal_with_fuel(ident_end, 6);
        }
        assert(src.subrange(0, src.len() as int) =~= src);
        assert(keyword(src) is None);
        lemma_one_step(src);
    }
}

/// A number is read as far as it goes: its text is the stretch of the
/// source just before where the step stops, it starts with a numeric
/// character (in the sense of `char::is_numeric`) followed by ASCII digits,
/// and the character after it, if any, is not an ASCII digit.
pub proof fn lemma_number_maximal(src: Seq<char>, c: Cursor)
    requires
        0 <= c.pos,
    ensures
        ({
            let s = spec_next(src, c);
            s.0 matches Some(t) ==> (t.lexeme matches Lexeme::Integer(w) ==> {
                &&& 1 <= w.len() <= s.1.pos <= src.len()
                &&& w == src.subrange(s.1.pos - w.len(), s.1.pos)
                &&& char_is_numeric(w[0])
                &&& forall|i: int| 1 <= i < w.len() ==> '0' <= #[trigger] w[i] && w[i] <= '9'
                &&& s.1.pos < src.len() ==> !('0' <= src[s.1.pos] && src[s.1.pos] <= '9')
            })
        }),
    decreases src.len() - c.pos,
{
    if c.pos < src.len() {
        let ch = src[c.pos];
        let p = c.pos + 1;
        let line = c.line;
        let column = c.column + 1;
        if ch == '/' && p < src.len() && src[p] == '/' {
            lemma_comment_end(src, p);
            lemma_number_maximal(src, Cursor { pos: comment_end(src, p), line: line + 1, column: 0 });
        } else if ch == '"' {
            lemma_scan_string(src, p, line, column);
            let (q, l2, c2, closed) = scan_string(src, p, line, column);
            if !closed {
                lemma_number_maximal(src, Cursor { pos: q, line: l2, column: c2 });
            }
        } else if ch == '\n' {
            lemma_number_maximal(src, Cursor { pos: p, line: line + 1, column: 0 });
        } else if is_ident_start(ch) {
        } else if char_is_numeric(ch) {
            lemma_digits_end(src, p);
            let q = digits_end(src, p);
            let w = src.subrange(c.pos, q);
            assert forall|i: int| 1 <= i < w.len() implies '0' <= #[trigger] w[i] && w[i] <= '9' by {
                assert(w[i] == src[c.pos + i]);
                assert(is_digit(src[c.pos + i]));
            }
        } else if ch == ' ' || ch == '\t' {
            lemma_number_maximal(src, Cursor { pos: p, line, column });
        }
    }
}

proof fn lemma_scan_string_closed(src: Seq<char>, i: int, line: int, column: int)
    requires
        0 <= i <= src.len(),
        scan_string(src, i, line, column).3,
    ensures
        i < scan_string(src, i, line, column).0 <= src.len(),
        src[scan_string(src, i, line, column).0 - 1] == '"',
        forall|k: int| i <= k < scan_string(src, i, line, column).0 - 1 ==> #[trigger] src[k] != '"',
    decreases src.len() - i,
{
    if i < src.len() && src[i] != '"' {
        if src[i] == '\n' {
            lemma_scan_string_closed(src, i + 1, line + 1, 0);
        } else {
            lemma_scan_string_closed(src, i + 1, line, column + 1);
        }
    }
}

/// A string literal is the text between two double quotes, with no double
/// quote inside (line breaks included): the step stops just after the
/// closing quote.
pub proof fn lemma_string_literal(src: Seq<char>, c: Cursor)
    requires
        0 <= c.pos,
    ensures
        ({
            let s = spec_next(src, c);
            s.0 matches Some(t) ==> (t.lexeme matches Lexeme::Str(w) ==> {
                &&& 2 + w.len() <= s.1.pos <= src.len()
                &&& src[s.1.pos - 1] == '"'
                &&& src[s.1.pos - 2 - w.len()] == '"'
                &&& w == src.subrange(s.1.pos - 1 - w.len(), s.1.pos - 1)
                &&& forall|i: int| 0 <= i < w.len() ==> #[trigger] w[i] != '"'
            })
        }),
    decreases src.len() - c.pos,
{
    if c.pos < src.len() {
        let ch = src[c.pos];
        let p = c.pos + 1;
        let line = c.line;
        let column = c.column + 1;
        if ch == '/' && p < src.len() && src[p] == '/' {
            lemma_comment_end(src, p);
            lemma_string_literal(src, Cursor { pos: comment_end(src, p), line: line + 1, column: 0 });
        } else if ch == '"' {
            lemma_scan_string(src, p, line, column);
            let (q, l2, c2, closed) = scan_string(src, p, line, column);
            if !closed {
                lemma_string_literal(src, Cursor { pos: q, line: l2, column: c2 });
            } else {
                lemma_scan_string_closed(src, p, line, column);
                let w = src.subrange(p, q - 1);
                assert forall|i: int| 0 <= i < w.len() implies #[trigger] w[i] != '"' by {
                    assert(w[i] == src[p + i]);
                }
            }
        } else if ch == '\n' {
            lemma_string_literal(src, Cursor { pos: p, line: line + 1, column: 0 });
        } else if ch == ' ' || ch == '\t' {
            lemma_string_literal(src, Cursor { pos: p, line, column });
        }
    }
}

// ------------------------------------------------------------------
// Positions in the text
// ------------------------------------------------------------------

/// The line of the character at index `i`, from 1: one more than the line
/// breaks before it.
pub open spec fn line_at(src: Seq<char>, i: int) -> int
    decreases i,
{
    if i <= 0 {
        1
    } else {
        line_at(src, i - 1) + if src[i - 1] == '\n' { 1int } else { 0int }
    }
}

/// The column of the character at index `i`, from 1: one more than the
/// characters since the last line break before it (a tab counts as one).
pub open spec fn column_at(src: Seq<char>, i: int) -> int
    decreases i,
{
    if i <= 0 {
        1
    } else if src[i - 1] == '\n' {
        1
    } else {
        column_at(src, i - 1) + 1
    }
}

/// The cursor stands just after the character before index `c.pos`: on its
/// line, at its column.
pub open spec fn cursor_at(src: Seq<char>, c: Cursor) -> bool {
    c.line == line_at(src, c.pos) && c.column == column_at(src, c.pos) - 1
}

proof fn lemma_no_break_shift(src: Seq<char>, i: int, j: int)
    requires
        0 <= i <= j <= src.len(),
        forall|k: int| i <= k < j ==> #[trigger] src[k] != '\n',
    ensures
        line_at(src, j) == line_at(src, i),
        column_at(src, j) == column_at(src, i) + (j - i),
    decreases j - i,
{
    if j > i {
        lemma_no_break_shift(src, i, j - 1);
    }
}

proof fn lemma_comment_end_break(src: Seq<char>, i: int)
    requires
        0 <= i <= src.len(),
    ensures
        ({
            let q = comment_end(src, i);
            ||| q == src.len()
            ||| (i < q <= src.len() && src[q - 1] == '\n' && forall|k: int| i <= k < q - 1 ==> #[trigger] src[k] != '\n')
        }),
    decreases src.len() - i,
{
    if i < src.len() && src[i] != '\n' {
        lemma_comment_end_break(src, i + 1);
    }
}

proof fn lemma_scan_string_at(src: Seq<char>, i: int, line: int, column: int)
    requires
        0 <= i <= src.len(),
        line == line_at(src, i),
        column == column_at(src, i) - 1,
    ensures
        ({
            let (q, l2, c2, closed) = scan_string(src, i, line, column);
            closed ==> l2 == line_at(src, q) && c2 == column_at(src, q) - 1
        }),
    decreases src.len() - i,
{
    if i < src.len() {
        if src[i] == '\n' {
            lemma_scan_string_at(src, i + 1, line + 1, 0);
        } else if src[i] != '"' {
            lemma_scan_string_at(src, i + 1, line, column + 1);
        }
    }
}

/// Positions follow the text: from a cursor that agrees with the text, a
/// step ends at a cursor that agrees with it too (unless it has read the
/// whole text), and places an identifier, a number or a string at its first
/// character, and any other token of one or two characters, or an unknown
/// character, at the last character it read.
pub proof fn lemma_next_positions_in_text(src: Seq<char>, c: Cursor)
    requires
        0 <= c.pos <= src.len(),
        cursor_at(src, c),
    ensures
        ({
            let s = spec_next(src, c);
            &&& (s.1.pos >= src.len() || cursor_at(src, s.1))
            &&& (s.0 matches Some(t) ==> (t.lexeme matches Lexeme::Identifier(w) ==>
                    t.line == line_at(src, s.1.pos - w.len()) && t.column == column_at(src, s.1.pos - w.len())))
            &&& (s.0 matches Some(t) ==> (t.lexeme matches Lexeme::Integer(w) ==>
                    t.line == line_at(src, s.1.pos - w.len()) && t.column == column_at(src, s.1.pos - w.len())))
            &&& (s.0 matches Some(t) ==> (t.lexeme matches Lexeme::Str(w) ==>
                    t.line == line_at(src, s.1.pos - 2 - w.len()) && t.column == column_at(src, s.1.pos - 2 - w.len())))
            &&& (s.0 matches Some(t) ==> (t.lexeme is Unknown ==>
                    t.line == line_at(src, s.1.pos - 1) && t.column == column_at(src, s.1.pos - 1)))
            &&& (s.0 matches Some(t) ==> (t.lexeme matches Lexeme::Plain(d) ==> spelled(d) && !(keyword(token_text(d)) is Some) ==>
                    t.line == line_at(src, s.1.pos - 1) && t.column == column_at(src, s.1.pos - 1)))
        }),
    decreases src.len() - c.pos,
{
    if c.pos < src.len() {
        let ch = src[c.pos];
        let p = c.pos + 1;
        let line = c.line;
        let column = c.column + 1;
        lemma_no_break_shift(src, c.pos, c.pos);
        if ch != '\n' {
            lemma_no_break_shift(src, c.pos, p);
        }
        if ch == '/' && p < src.len() && src[p] == '/' {
            lemma_comment_end(src, p);
            lemma_comment_end_break(src, p);
            let q = comment_end(src, p);
            if q < src.len() {
                assert forall|k: int| c.pos <= k < q - 1 implies #[trigger] src[k] != '\n' by {
                    if k > c.pos {
                        assert(p <= k);
                    }
                }
                lemma_no_break_shift(src, c.pos, q - 1);
                assert(line_at(src, q) == line + 1);
                assert(column_at(src, q) == 1);
                lemma_next_positions_in_text(src, Cursor { pos: q, line: line + 1, column: 0 });
            }
        } else if ch == '"' {
            lemma_scan_string(src, p, line, column);
            lemma_scan_string_at(src, p, line, column);
            let (q, l2, c2, closed) = scan_string(src, p, line, column);
            if closed {
                lemma_scan_string_closed(src, p, line, column);
                assert(cursor_at(src, spec_next(src, c).1));
            } else {
                let c3 = Cursor { pos: q, line: l2, column: c2 };
                assert(q == src.len());
                assert(spec_next(src, c3).1 == c3);
                assert(spec_next(src, c3).0 is None);
                assert(spec_next(src, c).1.pos >= src.len());
            }
        } else if ch == '\n' {
            lemma_next_positions_in_text(src, Cursor { pos: p, line: line + 1, column: 0 });
        } else if is_ident_start(ch) {
            lemma_ident_end(src, p);
            let q = ident_end(src, p);
            assert forall|k: int| c.pos <= k < q implies #[trigger] src[k] != '\n' by {
                if k > c.pos {
                    assert(is_ident_char(src[k]));
                }
            }
            lemma_no_break_shift(src, c.pos, q);
            assert(spec_next(src, c).1 == Cursor { pos: q, line, column: column + (q - p) });
            assert(cursor_at(src, spec_next(src, c).1));
        } else if char_is_numeric(ch) {
            lemma_digits_end(src, p);
            let q = digits_end(src, p);
            assert forall|k: int| c.pos <= k < q implies #[trigger] src[k] != '\n' by {
                if k > c.pos {
                    assert(is_digit(src[k]));
                }
            }
            lemma_no_break_shift(src, c.pos, q);
        } else if ch == ' ' || ch == '\t' {
            lemma_next_positions_in_text(src, Cursor { pos: p, line, column });
        } else if p < src.len() && (src[p] == '>' || src[p] == '=') && (ch == '-' || ch == '=' || ch == '!' || ch == '>' || ch == '<') {
            lemma_no_break_shift(src, c.pos, p + 1);
            assert(spec_next(src, c).1.pos >= src.len() || cursor_at(src, spec_next(src, c).1));
        } else {
            assert(spec_next(src, c).1.pos >= src.len() || cursor_at(src, spec_next(src, c).1));
        }
    }
}

/// Lexing starts in agreement with the text, and every number of steps
/// keeps the cursor in agreement with it until the whole text is read, so
/// that `lemma_next_positions_in_text` places every token of a text.
pub proof fn lemma_run_positions_in_text(src: Seq<char>, k: nat)
    ensures
        cursor_at(src, start_cursor()),
        run(src, start_cursor(), k).1.pos >= src.len() || cursor_at(src, run(src, start_cursor(), k).1),
{
    lemma_run_in_text(src, start_cursor(), k);
}

proof fn lemma_run_in_text(src: Seq<char>, c: Cursor, k: nat)
    requires
        0 <= c.pos,
        c.pos >= src.len() || cursor_at(src, c),
    ensures
        run(src, c, k).1.pos >= src.len() || cursor_at(src, run(src, c, k).1),
    decreases k,
{
    if k > 0 {
        let s = spec_next(src, c);
        lemma_next_progress(src, c);
        if c.pos < src.len() {
            lemma_next_positions_in_text(src, c);
        }
        if s.0 is Some {
            lemma_run_in_text(src, s.1, (k - 1) as nat);
        }
    }
}

// ------------------------------------------------------------------
// Unterminated strings
// ------------------------------------------------------------------

/// An unterminated string is the last thing a step meets: it ends the step
/// with no token, its error the last one of the step.
pub proof fn lemma_next_unterminated(src: Seq<char>, c: Cursor)
    ensures
        ({
            let s = spec_next(src, c);
            forall|j: int| 0 <= j < s.2.len() && (#[trigger] s.2[j]).error is UnTerminatedString
                ==> s.0 is None && j == s.2.len() - 1
        }),
    decreases src.len() - c.pos,
{
    if 0 <= c.pos < src.len() {
        let ch = src[c.pos];
        let p = c.pos + 1;
        let line = c.line;
        let column = c.column + 1;
        if ch == '/' && p < src.len() && src[p] == '/' {
            lemma_comment_end(src, p);
            lemma_next_unterminated(src, Cursor { pos: comment_end(src, p), line: line + 1, column: 0 });
        } else if ch == '"' {
            lemma_scan_string(src, p, line, column);
            let (q, l2, c2, closed) = scan_string(src, p, line, column);
            if !closed {
                let rest = spec_next(src, Cursor { pos: q, line: l2, column: c2 });
                assert(rest.0 is None);
                assert(rest.2 =~= Seq::<ErrorSpec>::empty());
                let err = ErrorSpec {
                    line: l2,
                    column: c2,
                    error: LexingError::UnTerminatedString((line as usize, column as usize)),
                };
                lemma_single(err);
                assert(seq![err] + rest.2 =~= seq![err]);
            }
        } else if ch == '\n' {
            lemma_next_unterminated(src, Cursor { pos: p, line: line + 1, column: 0 });
        } else if is_ident_start(ch) {
        } else if char_is_numeric(ch) {
        } else if ch == ' ' || ch == '\t' {
            lemma_next_unterminated(src, Cursor { pos: p, line, column });
        } else if !(ch == '(' || ch == ')' || ch == '{' || ch == '}' || ch == '[' || ch == ']'
            || ch == ';' || ch == ':' || ch == ',' || ch == '.' || ch == '+' || ch == '-'
            || ch == '*' || ch == '/' || ch == '&' || ch == '\'' || ch == '=' || ch == '!'
            || ch == '>' || ch == '<') {
            lemma_single(ErrorSpec { line, column, error: LexingError::MisplacedCharacter(ch) });
        }
    }
}

/// An unterminated string ends lexing: its error is the last error, and so
/// a text holds at most one.
pub proof fn lemma_lex_unterminated(src: Seq<char>, c: Cursor)
    ensures
        forall|j: int| 0 <= j < spec_lex(src, c).1.len() && (#[trigger] spec_lex(src, c).1[j]).error is UnTerminatedString
            ==> j == spec_lex(src, c).1.len() - 1,
    decreases src.len() - c.pos,
{
    let s = spec_next(src, c);
    lemma_next_unterminated(src, c);
    match s.0 {
        None => {
            assert(spec_lex(src, c).1 == s.2);
        },
        Some(t) => {
            lemma_next_progress(src, c);
            lemma_lex_unterminated(src, s.1);
            let rest = spec_lex(src, s.1);
            let es = s.2 + rest.1;
            assert(spec_lex(src, c).1 == es);
            assert forall|j: int| 0 <= j < es.len() && (#[trigger] es[j]).error is UnTerminatedString implies j == es.len() - 1 by {
                if j < s.2.len() {
                    assert(es[j] == s.2[j]);
                } else {
                    assert(es[j] == rest.1[j - s.2.len()]);
                }
            }
        },
    }
}

// ------------------------------------------------------------------
// The lexer
// ------------------------------------------------------------------

/// The keyword spelled by the characters of a word, if it is one.
fn keyword_of(s: &Vec<char>) -> (r: Option<TokenData>)
    ensures
        r == keyword(s@),
{
    let n = s.len();
    if n == 2 && s[0] == 'i' && s[1] == 'f' {
        assert(s@ =~= seq!['i', 'f']);
        Some(TokenData::If)
    } else if n == 4 && s[0] == 'e' && s[1] == 'l' && s[2] == 's' && s[3] == 'e' {
        assert(s@ =~= seq!['e', 'l', 's', 'e']);
        Some(TokenData::Else)
    } else if n == 6 && s[0] == 'e' && s[1] == 'x' && s[2] == 't' && s[3] == 'e' && s[4] == 'r'
        && s[5] == 'n' {
        assert(s@ =~= seq!['e', 'x', 't', 'e', 'r', 'n']);
        Some(TokenData::Extern)
    } else if n == 3 && s[0] == 'l' && s[1] == 'e' && s[2] == 't' {
        assert(s@ =~= seq!['l', 'e', 't']);
        Some(TokenData::Let)
    } else if n == 2 && s[0] == 'i' && s[1] == 'n' {
        assert(s@ =~= seq!['i', 'n']);
        Some(TokenData::In)
    } else if n == 3 && s[0] == 'f' && s[1] == 'u' && s[2] == 'n' {
        assert(s@ =~= seq!['f', 'u', 'n']);
        Some(TokenData::Fun)
    } else if n == 4 && s[0] == 't' && s[1] == 'y' && s[2] == 'p' && s[3] == 'e' {
        assert(s@ =~= seq!['t', 'y', 'p', 'e']);
        Some(TokenData::Type)
    } else {
        None
    }
}

/// `prefix`, then the `Debug` form of `s`, then a closing bracket.
fn wrapped(prefix: &str, s: &String) -> (r: String)
    ensures
        r@ == prefix@ + debug_text(s@) + seq![')'],
{
    let mut r = String::from_str(prefix);
    let d = debug_string(s);
    r.append(d.as_str());
    r.append(")");
    proof {
        reveal_strlit(")");
    }
    r
}

impl TokenData {
    /// The text of the data: the symbol of a punctuation mark, operator or
    /// keyword, and the debug form of any other token.
    pub fn to_string(&self) -> (r: String)
        ensures
            r@ == token_text(*self),
    {
        match self {
            TokenData::LeftParen => {
                let r = String::from_str("(");
                proof {
                    reveal_strlit("(");
                }
                r
            },
            TokenData::RightParen => {
                let r = String::from_str(")");
                proof {
                    reveal_strlit(")");
                }
                r
            },
            TokenData::LeftBrace => {
                let r = String::from_str("{");
                proof {
                    reveal_strlit("{");
                }
                r
            },
            TokenData::RightBrace => {
                let r = String::from_str("}");
                proof {
                    reveal_strlit("}");
                }
                r
            },
            TokenData::LeftBracket => {
                let r = String::from_str("[");
                proof {
                    reveal_strlit("[");
                }
                r
            },
            TokenData::RightBracket => {
                let r = String::from_str("]");
                proof {
                    reveal_strlit("]");
                }
                r
            },
            TokenData::Semicolon => {
                let r = String::from_str(";");
                proof {
                    reveal_strlit(";");
                }
                r
            },
            TokenData::Colon => {
                let r = String::from_str(":");
                proof {
                    reveal_strlit(":");
                }
                r
            },
            TokenData::Comma => {
                let r = String::from_str(",");
                proof {
                    reveal_strlit(",");
                }
                r
            },
            TokenData::Dot => {
                let r = String::from_str(".");
                proof {
                    reveal_strlit(".");
                }
                r
            },
            TokenData::Plus => {
                let r = String::from_str("+");
                proof {
                    reveal_strlit("+");
                }
                r
            },
            TokenData::Minus => {
                let r = String::from_str("-");
                proof {
                    reveal_strlit("-");
                }
                r
            },
            TokenData::Star => {
                let r = String::from_str("*");
                proof {
                    reveal_strlit("*");
                }
                r
            },
            TokenData::Slash => {
                let r = String::from_str("/");
                proof {
                    reveal_strlit("/");
                }
                r
            },
            TokenData::Ref => {
                let r = String::from_str("&");
                proof {
                    reveal_strlit("&");
                }
                r
            },
            TokenData::MutRef => {
                let r = String::from_str("!");
                proof {
                    reveal_strlit("!");
                }
                r
            },
            TokenData::Assign => {
                let r = String::from_str("=");
                proof {
                    reveal_strlit("=");
                }
                r
            },
            TokenData::Equal => {
                let r = String::from_str("==");
                proof {
                    reveal_strlit("==");
                }
                r
            },
            TokenData::NotEqual => {
                let r = String::from_str("!=");
                proof {
                    reveal_strlit("!=");
                }
                r
            },
            TokenData::Greater => {
                let r = String::from_str(">");
                proof {
                    reveal_strlit(">");
                }
                r
            },
            TokenData::GreatorOrEqual => {
                let r = String::from_str(">=");
                proof {
                    reveal_strlit(">=");
                }
                r
            },
            TokenData::Lesser => {
                let r = String::from_str("<");
                proof {
                    reveal_strlit("<");
                }
                r
            },
            TokenData::LesserOrEqual => {
                let r = String::from_str("<=");
                proof {
                    reveal_strlit("<=");
                }
                r
            },
            TokenData::If => {
                let r = String::from_str("if");
                proof {
                    reveal_strlit("if");
                }
                r
            },
            TokenData::Else => {
                let r = String::from_str("else");
                proof {
                    reveal_strlit("else");
                }
                r
            },
            TokenData::Extern => {
                let r = String::from_str("extern");
                proof {
                    reveal_strlit("extern");
                }
                r
            },
            TokenData::Let => {
                let r = String::from_str("let");
                proof {
                    reveal_strlit("let");
                }
                r
            },
            TokenData::In => {
                let r = String::from_str("in");
                proof {
                    reveal_strlit("in");
                }
                r
            },
            TokenData::Fun => {
                let r = String::from_str("fun");
                proof {
                    reveal_strlit("fun");
                }
                r
            },
            TokenData::NewLine => {
                let r = String::from_str("\n\\n");
                proof {
                    reveal_strlit("\n\\n");
                }
                r
            },
            TokenData::Arrow => {
                let r = String::from_str("Arrow");
                proof {
                    reveal_strlit("Arrow");
                }
                r
            },
            TokenData::Tick => {
                let r = String::from_str("Tick");
                proof {
                    reveal_strlit("Tick");
                }
                r
            },
            TokenData::Type => {
                let r = String::from_str("Type");
                proof {
                    reveal_strlit("Type");
                }
                r
            },
            TokenData::Identifier(s) => {
                proof {
                    reveal_strlit("Identifier(");
                }
                wrapped("Identifier(", s)
            },
            TokenData::String(s) => {
                proof {
                    reveal_strlit("String(");
                }
                wrapped("String(", s)
            },
            TokenData::Integer(s) => {
                proof {
                    reveal_strlit("Integer(");
                }
                wrapped("Integer(", s)
            },
            TokenData::Unknown(s) => {
                proof {
                    reveal_strlit("Unknown(");
                }
                wrapped("Unknown(", s)
            },
        }
    }
}

impl Lexer {
    /// The characters of the text.
    pub closed spec fn source(&self) -> Seq<char> {
        self.chars@
    }

    /// The errors recorded so far.
    pub closed spec fn error_log(&self) -> Seq<((usize, usize), LexingError)> {
        self.errors@
    }

    /// Where the lexer stands.
    pub closed spec fn cursor(&self) -> Cursor {
        Cursor {
            pos: self.position as int,
            line: self.current_line as int,
            column: self.current_column as int,
        }
    }

    /// The counters stay in range: the position within the text, the line at
    /// most one more than the characters read, the column at most the
    /// characters read (one more once the whole text is read).
    pub closed spec fn wf(&self) -> bool {
        &&& self.position <= self.chars.len()
        &&& self.current_line <= self.position + 1
        &&& self.chars.len() + 2 <= usize::MAX
        &&& (self.current_column <= self.position || (self.current_column == self.position + 1
            && self.position == self.chars.len()))
    }

    /// The errors recorded so far, by their positions in text order.
    pub fn errors(&self) -> (r: &Vec<((usize, usize), LexingError)>)
        ensures
            r@ == self.error_log(),
    {
        &self.errors
    }

    fn token(&self, data: TokenData) -> (r: Token)
        ensures
            r.data == data,
            r.line == self.current_line,
            r.column == self.current_column,
    {
        Token { data, line: self.current_line, column: self.current_column }
    }

    fn new_line(&mut self)
        requires
            old(self).current_line < usize::MAX,
        ensures
            final(self).current_column == 0,
            final(self).current_line == old(self).current_line + 1,
            final(self).position == old(self).position,
            final(self).chars@ == old(self).chars@,
            final(self).errors == old(self).errors,
    {
        self.current_column = 0;
        self.current_line += 1;
    }

    fn syntax_error(&mut self, error: LexingError)
        ensures
            final(self).errors@ == old(self).errors@.push(
                ((old(self).current_line, old(self).current_column), error),
            ),
            final(self).current_column == old(self).current_column,
            final(self).current_line == old(self).current_line,
            final(self).position == old(self).position,
            final(self).chars@ == old(self).chars@,
    {
        self.errors.push(((self.current_line, self.current_column), error));
    }

    /// The next character, if any, without reading it.
    fn peek(&self) -> (r: Option<char>)
        ensures
            self.position < self.chars.len() ==> r == Some(self.chars@[self.position as int]),
            self.position >= self.chars.len() ==> r is None,
    {
        if self.position < self.chars.len() {
            Some(self.chars[self.position])
        } else {
            None
        }
    }

    /// Reads the next character, if any.
    fn advance(&mut self) -> (r: Option<char>)
        requires
            old(self).position <= old(self).chars.len(),
        ensures
            old(self).position < old(self).chars.len() ==> r == Some(
                old(self).chars@[old(self).position as int],
            ) && final(self).position == old(self).position + 1,
            old(self).position >= old(self).chars.len() ==> r is None && final(self).position
                == old(self).position,
            final(self).current_column == old(self).current_column,
            final(self).current_line == old(self).current_line,
            final(self).chars@ == old(self).chars@,
            final(self).errors == old(self).errors,
    {
        if self.position < self.chars.len() {
            let c = self.chars[self.position];
            self.position += 1;
            Some(c)
        } else {
            None
        }
    }

    /// Whether the next character is `c`.
    fn peek_is(&self, c: char) -> (r: bool)
        ensures
            r == (self.position < self.chars.len() && self.chars@[self.position as int] == c),
    {
        match self.peek() {
            Some(d) => d == c,
            None => false,
        }
    }

    /// Reads the rest of a string literal whose opening quote was just read.
    fn string(&mut self) -> (r: Result<Token, LexingError>)
        requires
            old(self).position <= old(self).chars.len(),
            old(self).current_line <= old(self).position + 1,
            old(self).chars.len() + 2 <= usize::MAX,
            old(self).current_column <= old(self).position,
        ensures
            ({
                let (q, l2, c2, closed) = scan_string(
                    old(self).chars@,
                    old(self).position as int,
                    old(self).current_line as int,
                    old(self).current_column as int,
                );
                &&& final(self).cursor() == Cursor { pos: q, line: l2, column: c2 }
                &&& closed ==> (r matches Ok(t) && t.view() == (TokenSpec {
                    lexeme: Lexeme::Str(old(self).chars@.subrange(old(self).position as int, q - 1)),
                    line: old(self).current_line as int,
                    column: old(self).current_column as int,
                }))
                &&& !closed ==> r == Err::<Token, LexingError>(
                    LexingError::UnTerminatedString(
                        (old(self).current_line, old(self).current_column),
                    ),
                )
            }),
            final(self).chars@ == old(self).chars@,
            final(self).errors == old(self).errors,
            final(self).position <= final(self).chars.len(),
            final(self).current_line <= final(self).position + 1,
            final(self).current_column <= final(self).position + 1,
            r is Ok ==> final(self).current_column <= final(self).position,
            r is Err ==> final(self).position == final(self).chars.len(),
    {
        let mut content = String::new();
        let start_position = (self.current_line, self.current_column);
        let ghost src = self.chars@;
        let ghost start = self.position as int;
        let ghost target = scan_string(src, start, self.current_line as int, self.current_column as int);
        loop
            invariant
                self.chars@ == src,
                self.errors == old(self).errors,
                start <= self.position <= self.chars.len(),
                self.current_line <= self.position + 1,
                self.chars.len() + 2 <= usize::MAX,
                self.current_column <= self.position,
                content@ == src.subrange(start, self.position as int),
                scan_string(src, self.position as int, self.current_line as int, self.current_column as int) == target,
                start_position == (old(self).current_line, old(self).current_column),
                start == old(self).position,
                src == old(self).chars@,
                target == scan_string(src, start, old(self).current_line as int, old(self).current_column as int),
            decreases self.chars.len() - self.position,
        {
            self.current_column += 1;
            match self.advance() {
                None => {
                    return Err(LexingError::UnTerminatedString(start_position));
                },
                Some(ch) => {
                    if ch == '"' {
                        return Ok(
                            Token {
                                data: TokenData::String(content),
                                line: start_position.0,
                                column: start_position.1,
                            },
                        );
                    } else if ch == '\n' {
                        self.new_line();
                        push_char(&mut content, '\n');
                    } else {
                        push_char(&mut content, ch);
                    }
                    assert(content@ =~= src.subrange(start, self.position as int));
                },
            }
        }
    }

    /// Reads the rest of a word whose first character `start` was just read.
    fn identifier(&mut self, start: char) -> (r: Token)
        requires
            1 <= old(self).position <= old(self).chars.len(),
            old(self).chars@[old(self).position - 1] == start,
            old(self).current_column <= old(self).position,
            old(self).chars.len() + 2 <= usize::MAX,
        ensures
            ({
                let src = old(self).chars@;
                let q = ident_end(src, old(self).position as int);
                &&& r.view() == TokenSpec {
                    lexeme: word_lexeme(src.subrange(old(self).position - 1, q)),
                    line: old(self).current_line as int,
                    column: old(self).current_column as int,
                }
                &&& final(self).cursor() == Cursor {
                    pos: q,
                    line: old(self).current_line as int,
                    column: old(self).current_column + (q - old(self).position),
                }
            }),
            final(self).chars@ == old(self).chars@,
            final(self).errors == old(self).errors,
            final(self).position <= final(self).chars.len(),
            final(self).position >= old(self).position,
            final(self).current_column <= final(self).position,
    {
        let mut content: Vec<char> = Vec::new();
        content.push(start);
        let start_position = (self.current_line, self.current_column);
        let ghost src = self.chars@;
        let ghost first = self.position - 1;
        proof {
            lemma_ident_end(src, self.position as int);
        }
        let ghost q = ident_end(src, self.position as int);
        loop
            invariant
                self.chars@ == src,
                self.errors == old(self).errors,
                self.current_line == old(self).current_line,
                old(self).position <= self.position <= q,
                q <= self.chars.len(),
                self.chars.len() + 2 <= usize::MAX,
                self.current_column == old(self).current_column + (self.position - old(self).position),
                self.current_column <= self.position,
                content@ == src.subrange(first, self.position as int),
                first == old(self).position - 1,
                first >= 0,
                src == old(self).chars@,
                start_position == (old(self).current_line, old(self).current_column),
                q == ident_end(src, old(self).position as int),
                forall|k: int| old(self).position <= k < q ==> is_ident_char(#[trigger] src[k]),
                q < src.len() ==> !is_ident_char(src[q]),
            decreases self.chars.len() - self.position,
        {
            let next = self.peek();
            let continues = match next {
                Some(ch) => is_alphabetic(ch) || is_numeric(ch) || ch == '_',
                None => false,
            };
            if continues {
                assert(src[self.position as int] == next->0);
                assert(self.position < q) by {
                    if self.position == q {
                        assert(!is_ident_char(src[q]));
                    }
                }
                self.current_column += 1;
                let ch = self.advance();
                content.push(ch.unwrap());
                assert(content@ =~= src.subrange(first, self.position as int));
            } else {
                assert(self.position == q) by {
                    if self.position < q {
                        assert(is_ident_char(src[self.position as int]));
                    }
                }
                let data = match keyword_of(&content) {
                    Some(k) => k,
                    None => TokenData::Identifier(crate::text::string_of(&content)),
                };
                return Token { data, line: start_position.0, column: start_position.1 };
            }
        }
    }

    /// Reads the ASCII digits that follow, appending them to `start`.
    fn digit_sequence(&mut self, start: &mut String)
        requires
            old(self).position <= old(self).chars.len(),
            old(self).current_column <= old(self).position,
            old(self).chars.len() + 2 <= usize::MAX,
        ensures
            ({
                let src = old(self).chars@;
                let q = digits_end(src, old(self).position as int);
                &&& final(start)@ == old(start)@ + src.subrange(old(self).position as int, q)
                &&& final(self).cursor() == Cursor {
                    pos: q,
                    line: old(self).current_line as int,
                    column: old(self).current_column + (q - old(self).position),
                }
            }),
            final(self).chars@ == old(self).chars@,
            final(self).errors == old(self).errors,
            final(self).position <= final(self).chars.len(),
            final(self).position >= old(self).position,
            final(self).current_column <= final(self).position,
    {
        let ghost src = self.chars@;
        proof {
            lemma_digits_end(src, self.position as int);
        }
        let ghost q = digits_end(src, self.position as int);
        while self.peek_is('0') || self.peek_is('1') || self.peek_is('2') || self.peek_is('3')
            || self.peek_is('4') || self.peek_is('5') || self.peek_is('6') || self.peek_is('7')
            || self.peek_is('8') || self.peek_is('9')
            invariant
                self.chars@ == src,
                self.errors == old(self).errors,
                self.current_line == old(self).current_line,
                old(self).position <= self.position <= q,
                q <= self.chars.len(),
                self.chars.len() + 2 <= usize::MAX,
                self.current_column == old(self).current_column + (self.position - old(self).position),
                self.current_column <= self.position,
                start@ == old(start)@ + src.subrange(old(self).position as int, self.position as int),
                q == digits_end(src, old(self).position as int),
                src == old(self).chars@,
                forall|k: int| old(self).position <= k < q ==> is_digit(#[trigger] src[k]),
                q < src.len() ==> !is_digit(src[q]),
            decreases self.chars.len() - self.position,
        {
            assert(self.position < q) by {
                if self.position == q {
                    assert(!is_digit(src[q]));
                }
            }
            self.current_column += 1;
            let ch = self.advance();
            push_char(start, ch.unwrap());
            assert(start@ =~= old(start)@ + src.subrange(old(self).position as int, self.position as int));
        }
        assert(self.position == q) by {
            if self.position < q {
                assert(is_digit(src[self.position as int]));
            }
        }
    }

    /// Reads a number whose first character `start` was just read.
    fn number(&mut self, start: char) -> (r: Token)
        requires
            1 <= old(self).position <= old(self).chars.len(),
            old(self).chars@[old(self).position - 1] == start,
            old(self).current_column <= old(self).position,
            old(self).chars.len() + 2 <= usize::MAX,
        ensures
            ({
                let src = old(self).chars@;
                let q = digits_end(src, old(self).position as int);
                &&& r.view() == TokenSpec {
                    lexeme: Lexeme::Integer(src.subrange(old(self).position - 1, q)),
                    line: old(self).current_line as int,
                    column: old(self).current_column as int,
                }
                &&& final(self).cursor() == Cursor {
                    pos: q,
                    line: old(self).current_line as int,
                    column: old(self).current_column + (q - old(self).position),
                }
            }),
            final(self).chars@ == old(self).chars@,
            final(self).errors == old(self).errors,
            final(self).position <= final(self).chars.len(),
            final(self).position >= old(self).position,
            final(self).current_column <= final(self).position,
    {
        let mut content = String::new();
        push_char(&mut content, start);
        let start_position = (self.current_line, self.current_column);
        proof {
            lemma_digits_end(self.chars@, self.position as int);
        }
        let ghost c0 = content@;
        assert(c0 =~= seq![start]);
        self.digit_sequence(&mut content);
        let ghost src = self.chars@;
        let ghost q = digits_end(src, old(self).position as int);
        assert(self.position == q);
        assert(content@ == c0 + src.subrange(old(self).position as int, q));
        assert(src == old(self).chars@);
        assert(src[old(self).position - 1] == start);
        assert(content@ =~= src.subrange(old(self).position - 1, self.position as int));
        Token { data: TokenData::Integer(content), line: start_position.0, column: start_position.1 }
    }

    /// A token of one or two characters: `long`, placed at the second
    /// character, if the next character is `second`; `short` otherwise.
    fn two_char_token(&mut self, second: char, short: TokenData, long: TokenData) -> (r: Token)
        requires
            1 <= old(self).position <= old(self).chars.len(),
            old(self).current_column <= old(self).position,
            old(self).chars.len() + 2 <= usize::MAX,
            short.lexeme() == Lexeme::Plain(short),
            long.lexeme() == Lexeme::Plain(long),
        ensures
            ({
                let s = two_chars(
                    old(self).chars@,
                    old(self).position as int,
                    old(self).current_line as int,
                    old(self).current_column as int,
                    second,
                    short,
                    long,
                );
                &&& s.0 == Some(r.view())
                &&& final(self).cursor() == s.1
            }),
            r.data == short || r.data == long,
            final(self).chars@ == old(self).chars@,
            final(self).errors == old(self).errors,
            final(self).position <= final(self).chars.len(),
            final(self).current_column <= final(self).position,
    {
        if self.peek_is(second) {
            self.current_column += 1;
            self.advance();
            self.token(long)
        } else {
            self.token(short)
        }
    }

    /// Skips the rest of a comment whose first `/` was just read and whose
    /// second `/` comes next, up to and including the line break.
    fn skip_comment(&mut self)
        requires
            old(self).position < old(self).chars.len(),
            old(self).chars@[old(self).position as int] == '/',
        ensures
            final(self).position == comment_end(old(self).chars@, old(self).position as int),
            final(self).position <= final(self).chars.len(),
            final(self).position > old(self).position,
            final(self).chars@ == old(self).chars@,
            final(self).errors == old(self).errors,
            final(self).current_line == old(self).current_line,
            final(self).current_column == old(self).current_column,
    {
        let ghost src = self.chars@;
        proof {
            lemma_comment_end(src, self.position as int);
        }
        let ghost q = comment_end(src, self.position as int);
        let ghost p0 = self.position;
        loop
            invariant_except_break
                comment_end(src, self.position as int) == q,
            invariant
                self.chars@ == src,
                src == old(self).chars@,
                p0 <= self.position <= src.len(),
                p0 == old(self).position,
                p0 < src.len(),
                src[p0 as int] == '/',
                q == comment_end(src, p0 as int),
                self.errors == old(self).errors,
                self.current_line == old(self).current_line,
                self.current_column == old(self).current_column,
            ensures
                self.position == q,
                self.position > p0,
            decreases src.len() - self.position,
        {
            let c = self.advance();
            match c {
                Some(c) => {
                    if c == '\n' {
                        break;
                    }
                },
                None => {
                    break;
                },
            }
        }
    }

    /// Records a misplaced character and yields it as an unknown token.
    fn misplaced(&mut self, ch: char) -> (r: Token)
        ensures
            r.view() == (TokenSpec {
                lexeme: Lexeme::Unknown(seq![ch]),
                line: old(self).current_line as int,
                column: old(self).current_column as int,
            }),
            errors_view(final(self).errors@) == errors_view(old(self).errors@) + seq![ErrorSpec {
                line: old(self).current_line as int,
                column: old(self).current_column as int,
                error: LexingError::MisplacedCharacter(ch),
            }],
            final(self).chars@ == old(self).chars@,
            final(self).position == old(self).position,
            final(self).current_line == old(self).current_line,
            final(self).current_column == old(self).current_column,
    {
        let err = LexingError::MisplacedCharacter(ch);
        self.syntax_error(err);
        assert(errors_view(self.errors@) =~= errors_view(old(self).errors@) + seq![ErrorSpec {
            line: old(self).current_line as int,
            column: old(self).current_column as int,
            error: LexingError::MisplacedCharacter(ch),
        }]);
        let mut text = String::new();
        push_char(&mut text, ch);
        assert(text@ =~= seq![ch]);
        self.token(TokenData::Unknown(text))
    }

    /// The next token, skipping blanks, line breaks and comments, and
    /// recording the errors met on the way; `None` at the end of the text.
    /// Once it has returned `None` it stays where it is, and every later
    /// call returns `None` again and records nothing.
    pub fn next(&mut self) -> (r: Option<Token>)
        requires
            old(self).wf(),
        ensures
            ({
                let s = spec_next(old(self).source(), old(self).cursor());
                &&& (match r {
                    Some(t) => s.0 == Some(t.view()),
                    None => s.0 is None,
                })
                &&& final(self).cursor() == s.1
                &&& errors_view(final(self).error_log()) == errors_view(old(self).error_log()) + s.2
            }),
            final(self).source() == old(self).source(),
            final(self).wf(),
        decreases old(self).source().len() - old(self).cursor().pos,
    {
        let ghost src = self.chars@;
        let ghost e0 = errors_view(self.errors@);
        if self.position >= self.chars.len() {
            assert(errors_view(self.errors@) =~= e0 + Seq::<ErrorSpec>::empty());
            return None;
        }
        self.current_column += 1;
        let next = self.advance();
        match next {
            None => {
                assert(false);
                None
            },
            Some(ch) => {
                assert(errors_view(self.errors@) =~= e0 + Seq::<ErrorSpec>::empty());
                if ch == '(' {
                    Some(self.token(TokenData::LeftParen))
                } else if ch == ')' {
                    Some(self.token(TokenData::RightParen))
                } else if ch == '{' {
                    Some(self.token(TokenData::LeftBrace))
                } else if ch == '}' {
                    Some(self.token(TokenData::RightBrace))
                } else if ch == '[' {
                    Some(self.token(TokenData::LeftBracket))
                } else if ch == ']' {
                    Some(self.token(TokenData::RightBracket))
                } else if ch == ';' {
                    Some(self.token(TokenData::Semicolon))
                } else if ch == ':' {
                    Some(self.token(TokenData::Colon))
                } else if ch == ',' {
                    Some(self.token(TokenData::Comma))
                } else if ch == '.' {
                    Some(self.token(TokenData::Dot))
                } else if ch == '+' {
                    Some(self.token(TokenData::Plus))
                } else if ch == '-' {
                    Some(self.two_char_token('>', TokenData::Minus, TokenData::Arrow))
                } else if ch == '*' {
                    Some(self.token(TokenData::Star))
                } else if ch == '/' {
                    if self.peek_is('/') {
                        self.skip_comment();
                        self.new_line();
                        self.next()
                    } else {
                        Some(self.token(TokenData::Slash))
                    }
                } else if ch == '&' {
                    Some(self.token(TokenData::Ref))
                } else if ch == '\'' {
                    Some(self.token(TokenData::Tick))
                } else if ch == '=' {
                    Some(self.two_char_token('=', TokenData::Assign, TokenData::Equal))
                } else if ch == '!' {
                    Some(self.two_char_token('=', TokenData::MutRef, TokenData::NotEqual))
                } else if ch == '>' {
                    Some(self.two_char_token('=', TokenData::Greater, TokenData::GreatorOrEqual))
                } else if ch == '<' {
                    Some(self.two_char_token('=', TokenData::Lesser, TokenData::LesserOrEqual))
                } else if ch == '"' {
                    proof {
                        lemma_scan_string(src, self.position as int, self.current_line as int, self.current_column as int);
                    }
                    match self.string() {
                        Ok(token) => Some(token),
                        Err(err) => {
                            let ghost pushed = error_view(((self.current_line, self.current_column), err));
                            self.syntax_error(err);
                            let ghost e1 = errors_view(self.errors@);
                            assert(e1 =~= e0 + seq![pushed]);
                            let ghost c1 = self.cursor();
                            let r = self.next();
                            let ghost s2 = spec_next(src, c1).2;
                            assert((e0 + seq![pushed]) + s2 =~= e0 + (seq![pushed] + s2));
                            r
                        },
                    }
                } else if ch == '\n' {
                    self.new_line();
                    self.next()
                } else if is_alphabetic(ch) || ch == '_' {
                    let t = self.identifier(ch);
                    Some(t)
                } else if is_numeric(ch) {
                    let t = self.number(ch);
                    Some(t)
                } else if ch == ' ' || ch == '\t' {
                    self.next()
                } else {
                    let t = self.misplaced(ch);
                    Some(t)
                }
            },
        }
    }

    /// All the tokens of the rest of the text, with every error recorded.
    pub fn lex(self) -> (r: LexingResult)
        requires
            self.wf(),
        ensures
            tokens_view(r.tokens@) == spec_lex(self.source(), self.cursor()).0,
            errors_view(r.errors@) == errors_view(self.error_log()) + spec_lex(
                self.source(),
                self.cursor(),
            ).1,
    {
        let ghost src = self.chars@;
        let ghost c0 = self.cursor();
        let ghost e0 = errors_view(self.errors@);
        let mut lexer = self;
        let mut tokens: Vec<Token> = Vec::new();
        loop
            invariant
                lexer.wf(),
                lexer.chars@ == src,
                src == self.chars@,
                c0 == self.cursor(),
                e0 == errors_view(self.errors@),
                tokens_view(tokens@) + spec_lex(src, lexer.cursor()).0 == spec_lex(src, c0).0,
                errors_view(lexer.errors@) + spec_lex(src, lexer.cursor()).1 == e0 + spec_lex(src, c0).1,
            decreases lexer.chars.len() - lexer.position,
        {
            let ghost c = lexer.cursor();
            let ghost ts = tokens_view(tokens@);
            let ghost es = errors_view(lexer.errors@);
            proof {
                lemma_next_progress(src, c);
            }
            let ghost s = spec_next(src, c);
            match lexer.next() {
                Some(t) => {
                    tokens.push(t);
                    let ghost rest = spec_lex(src, lexer.cursor());
                    assert(tokens_view(tokens@) =~= ts + seq![t.view()]);
                    assert(spec_lex(src, c).0 =~= seq![t.view()] + rest.0);
                    assert(tokens_view(tokens@) + rest.0 =~= ts + spec_lex(src, c).0);
                    assert(spec_lex(src, c).1 =~= s.2 + rest.1);
                    assert(errors_view(lexer.errors@) + rest.1 =~= es + spec_lex(src, c).1);
                },
                None => {
                    assert(spec_lex(src, c).0 =~= Seq::<TokenSpec>::empty());
                    assert(tokens_view(tokens@) =~= spec_lex(src, c0).0);
                    assert(errors_view(lexer.errors@) =~= e0 + spec_lex(src, c0).1);
                    return LexingResult { tokens, errors: lexer.errors };
                },
            }
        }
    }

    /// A lexer at the start of `source`: line 1, column 0, no errors.
    pub fn new(source: &str) -> (r: Lexer)
        requires
            source@.len() + 2 <= usize::MAX,
        ensures
            r.source() == source@,
            r.cursor() == start_cursor(),
            r.error_log() == Seq::<((usize, usize), LexingError)>::empty(),
            r.wf(),
    {
        Lexer {
            chars: chars_of(source),
            position: 0,
            current_line: 1,
            current_column: 0,
            errors: Vec::new(),
        }
    }
}

}
