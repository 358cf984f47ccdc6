//! Tokens of Forth source, as `forth_lexer` produces them, held as plain
//! values of this library.

use forth_lexer::parser::Lexer;
use forth_lexer::token::Token as LexToken;
use vstd::prelude::*;

verus! {

/// Where a token stands in the source and the text it covers. The
/// offsets are those the lexer reports.
#[derive(Clone, Debug)]
pub struct Data {
    pub start: usize,
    pub end: usize,
    pub value: String,
}

/// A Forth token.
#[derive(Clone, Debug)]
pub enum Token {
    Illegal(Data),
    Eof(Data),
    Colon(Data),
    Semicolon(Data),
    Word(Data),
    Number(Data),
    Comment(Data),
    StackComment(Data),
}

/// The kind of a token.
#[derive(Clone, Copy, PartialEq, Eq, Structural, Debug)]
pub enum TokenKind {
    Illegal,
    Eof,
    Colon,
    Semicolon,
    Word,
    Number,
    Comment,
    StackComment,
}

/// A token as a plain value.
pub struct TokenView {
    pub kind: TokenKind,
    pub start: usize,
    pub end: usize,
    pub value: Seq<char>,
}

impl Data {
    pub open spec fn view_as(&self, kind: TokenKind) -> TokenView {
        TokenView { kind, start: self.start, end: self.end, value: self.value@ }
    }

    pub fn new(start: usize, end: usize, value: &str) -> (d: Data)
        ensures
            d.start == start,
            d.end == end,
            d.value@ == value@,
    {
        Data { start, end, value: String::from_str(value) }
    }
}

impl View for Token {
    type V = TokenView;

    open spec fn view(&self) -> TokenView {
        match self {
            Token::Illegal(d) => d.view_as(TokenKind::Illegal),
            Token::Eof(d) => d.view_as(TokenKind::Eof),
            Token::Colon(d) => d.view_as(TokenKind::Colon),
            Token::Semicolon(d) => d.view_as(TokenKind::Semicolon),
            Token::Word(d) => d.view_as(TokenKind::Word),
            Token::Number(d) => d.view_as(TokenKind::Number),
            Token::Comment(d) => d.view_as(TokenKind::Comment),
            Token::StackComment(d) => d.view_as(TokenKind::StackComment),
        }
    }
}

impl Token {
    /// The data of the token, whatever its kind.
    pub fn get_data(&self) -> (d: &Data)
        ensures
            d.start == self@.start,
            d.end == self@.end,
            d.value@ == self@.value,
    {
        match self {
            Token::Illegal(d) => d,
            Token::Eof(d) => d,
            Token::Colon(d) => d,
            Token::Semicolon(d) => d,
            Token::Word(d) => d,
            Token::Number(d) => d,
            Token::Comment(d) => d,
            Token::StackComment(d) => d,
        }
    }
}

/// The token sequence as plain values.
pub open spec fn tokens_view(tokens: Seq<Token>) -> Seq<TokenView> {
    tokens.map_values(|t: Token| t@)
}

/// What `forth_lexer`'s `Lexer::new(text).parse()` returns for a text.
pub uninterp spec fn lexed(text: Seq<char>) -> Seq<TokenView>;

/// Runs `forth_lexer::parser::Lexer::parse` on a text; each of its tokens
/// is moved into this library's `Token`, one for one.
#[verifier::external_body]
pub(crate) fn lex(text: &str) -> (tokens: Vec<Token>)
    ensures
        tokens_view(tokens@) == lexed(text@),
{
    Lexer::new(text).parse().into_iter().map(|t| {
        let d = t.get_data();
        let data = Data { start: d.start, end: d.end, value: d.value.to_string() };
        match t {
            LexToken::Illegal(_) => Token::Illegal(data),
            LexToken::Eof(_) => Token::Eof(data),
            LexToken::Colon(_) => Token::Colon(data),
            LexToken::Semicolon(_) => Token::Semicolon(data),
            LexToken::Word(_) => Token::Word(data),
            LexToken::Number(_) => Token::Number(data),
            LexToken::Comment(_) => Token::Comment(data),
            LexToken::StackComment(_) => Token::StackComment(data),
        }
    }).collect()
}

} // verus!
