use vstd::prelude::*;

verus! {

/// A lexical unit of the source text.
#[derive(Debug, PartialEq, Eq, Clone)]
pub enum Token {
    LeftBrace,
    RightBrace,
    LeftBracket,
    RightBracket,
    Colon,
    Comma,
    NextLine,
    Whitespace,
    True,
    False,
    DigitLiteral(String),
    StringLiteral(String),
}

/// The mathematical value of a token: literals carry their text as a sequence of characters.
pub enum TokenView {
    LeftBrace,
    RightBrace,
    LeftBracket,
    RightBracket,
    Colon,
    Comma,
    NextLine,
    Whitespace,
    True,
    False,
    DigitLiteral(Seq<char>),
    StringLiteral(Seq<char>),
}

impl View for Token {
    type V = TokenView;

    open spec fn view(&self) -> TokenView {
        match self {
            Token::LeftBrace => TokenView::LeftBrace,
            Token::RightBrace => TokenView::RightBrace,
            Token::LeftBracket => TokenView::LeftBracket,
            Token::RightBracket => TokenView::RightBracket,
            Token::Colon => TokenView::Colon,
            Token::Comma => TokenView::Comma,
            Token::NextLine => TokenView::NextLine,
            Token::Whitespace => TokenView::Whitespace,
            Token::True => TokenView::True,
            Token::False => TokenView::False,
            Token::DigitLiteral(d) => TokenView::DigitLiteral(d@),
            Token::StringLiteral(s) => TokenView::StringLiteral(s@),
        }
    }
}

pub open spec fn spec_is_digit(c: char) -> bool {
    '0' <= c && c <= '9'
}

pub open spec fn spec_is_letter(c: char) -> bool {
    ('a' <= c && c <= 'z') || ('A' <= c && c <= 'Z')
}

pub fn is_digit(c: char) -> (r: bool)
    ensures
        r == spec_is_digit(c),
{
    '0' <= c && c <= '9'
}

pub fn is_alpha(c: char) -> (r: bool)
    ensures
        r == (spec_is_letter(c) || c == '.'),
{
    ('a' <= c && c <= 'z') || ('A' <= c && c <= 'Z') || c == '.'
}

pub fn is_alphanumeric(c: char) -> (r: bool)
    ensures
        r == (spec_is_digit(c) || spec_is_letter(c) || c == '.'),
{
    is_digit(c) || is_alpha(c)
}

pub fn is_nextline(c: char) -> (r: bool)
    ensures
        r == (c == '\n'),
{
    c == '\n'
}

pub fn is_whitespace(c: char) -> (r: bool)
    ensures
        r == (c == ' ' || c == '\r' || c == '\t'),
{
    c == ' ' || c == '\r' || c == '\t'
}

pub fn is_part_of_identifier(c: char) -> (r: bool)
    ensures
        r == spec_is_letter(c),
{
    ('a' <= c && c <= 'z') || ('A' <= c && c <= 'Z')
}

pub fn is_part_of_digit(c: char) -> (r: bool)
    ensures
        r == (spec_is_digit(c) || c == '.'),
{
    is_digit(c) || c == '.'
}

pub fn is_part_of_string(c: char) -> (r: bool)
    ensures
        r == (c != '"'),
{
    c != '"'
}

/// A line and column in the source text, both counted from 1.
#[derive(Debug, Clone, Copy, PartialEq, Eq, Structural)]
pub struct Position {
    pub line: usize,
    pub column: usize,
}

impl Position {
    pub fn initial() -> (p: Position)
        ensures
            p.line == 1,
            p.column == 1,
    {
        Position { line: 1, column: 1 }
    }

    pub fn increment_column(&mut self)
        requires
            old(self).column < usize::MAX,
        ensures
            final(self).line == old(self).line,
            final(self).column == old(self).column + 1,
    {
        self.column = self.column + 1;
    }

    pub fn increment_line(&mut self)
        requires
            old(self).line < usize::MAX,
        ensures
            final(self).line == old(self).line + 1,
            final(self).column == 1,
    {
        self.line = self.line + 1;
        self.column = 1;
    }
}

/// A token together with the source text that produced it and where that text starts.
#[derive(Debug, PartialEq, Eq, Clone)]
pub struct TokenWithContext {
    pub token: Token,
    pub lexeme: String,
    pub position: Position,
}

/// The mathematical value of a `TokenWithContext`.
pub struct TokenRecord {
    pub token: TokenView,
    pub lexeme: Seq<char>,
    pub position: Position,
}

impl View for TokenWithContext {
    type V = TokenRecord;

    open spec fn view(&self) -> TokenRecord {
        TokenRecord { token: self.token@, lexeme: self.lexeme@, position: self.position }
    }
}

/// The views of a sequence of tokens.
pub open spec fn records(ts: Seq<TokenWithContext>) -> Seq<TokenRecord> {
    ts.map_values(|t: TokenWithContext| t@)
}

} // verus!
