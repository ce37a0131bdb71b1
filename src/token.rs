//! Tokens produced by the lexer, and their mathematical model.
use vstd::prelude::*;

verus! {

/// A lexical unit of a BIRL program.
#[derive(Debug)]
pub enum Token {
    HoraDoShow,
    Birl,
    Print,
    Lparen,
    Rparen,
    /// A string literal, with its escapes decoded.
    BirlString(String),
    /// A number literal; the lexer reads only `0`.
    Number(i64),
    Semicolon,
    Return,
}

/// The model of a token: string literals are sequences of characters.
pub enum Tok {
    HoraDoShow,
    Birl,
    Print,
    Lparen,
    Rparen,
    BirlString(Seq<char>),
    Number(int),
    Semicolon,
    Return,
}

impl View for Token {
    type V = Tok;

    open spec fn view(&self) -> Tok {
        match self {
            Token::HoraDoShow => Tok::HoraDoShow,
            Token::Birl => Tok::Birl,
            Token::Print => Tok::Print,
            Token::Lparen => Tok::Lparen,
            Token::Rparen => Tok::Rparen,
            Token::BirlString(s) => Tok::BirlString(s@),
            Token::Number(n) => Tok::Number(*n as int),
            Token::Semicolon => Tok::Semicolon,
            Token::Return => Tok::Return,
        }
    }
}

/// The models of a sequence of tokens.
pub open spec fn toks(v: Seq<Token>) -> Seq<Tok> {
    v.map_values(|t: Token| t@)
}

impl Token {
    /// A token with the same model as `self`.
    pub fn duplicate(&self) -> (r: Token)
        ensures
            r@ == self@,
    {
        match self {
            Token::HoraDoShow => Token::HoraDoShow,
            Token::Birl => Token::Birl,
            Token::Print => Token::Print,
            Token::Lparen => Token::Lparen,
            Token::Rparen => Token::Rparen,
            Token::BirlString(s) => Token::BirlString(s.clone()),
            Token::Number(n) => Token::Number(*n),
            Token::Semicolon => Token::Semicolon,
            Token::Return => Token::Return,
        }
    }
}

impl PartialEq for Token {
    fn eq(&self, o: &Token) -> (r: bool) {
        match (self, o) {
            (Token::HoraDoShow, Token::HoraDoShow) => true,
            (Token::Birl, Token::Birl) => true,
            (Token::Print, Token::Print) => true,
            (Token::Lparen, Token::Lparen) => true,
            (Token::Rparen, Token::Rparen) => true,
            (Token::BirlString(a), Token::BirlString(b)) => *a == *b,
            (Token::Number(a), Token::Number(b)) => *a == *b,
            (Token::Semicolon, Token::Semicolon) => true,
            (Token::Return, Token::Return) => true,
            _ => false,
        }
    }
}

impl vstd::std_specs::cmp::PartialEqSpecImpl for Token {
    open spec fn obeys_eq_spec() -> bool {
        true
    }

    open spec fn eq_spec(&self, o: &Token) -> bool {
        self@ == o@
    }
}

} // verus!
