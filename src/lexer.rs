//! The lexer: turns the characters of a program into tokens.
//!
//! `tokenize` is the model of the whole pass; `Lexer::lex` is proved to
//! return exactly what it describes.
use crate::token::{Tok, Token, toks};
use vstd::prelude::*;

verus! {

pub const LPAREN: char = '(';
pub const RPAREN: char = ')';
pub const SEMICOLON: char = ';';
pub const QUOTE: char = '"';
pub const BACKSLASH: char = '\\';
pub const LETTER_N: char = 'n';
pub const LETTER_H: char = 'H';
pub const LETTER_C: char = 'C';
pub const LETTER_B: char = 'B';
pub const LETTER_I: char = 'I';
pub const LETTER_O: char = 'O';
pub const DIGIT_0: char = '0';
pub const DIGIT_9: char = '9';

/// Characters of the program-start keyword, `HORA DO SHOW`.
pub open spec fn kw_start() -> Seq<char> {
    seq!['H', 'O', 'R', 'A', ' ', 'D', 'O', ' ', 'S', 'H', 'O', 'W']
}

/// Characters of the print keyword, `CE QUER VER ESSA PORRA?`.
pub open spec fn kw_print() -> Seq<char> {
    seq![
        'C', 'E', ' ', 'Q', 'U', 'E', 'R', ' ', 'V', 'E', 'R', ' ',
        'E', 'S', 'S', 'A', ' ', 'P', 'O', 'R', 'R', 'A', '?',
    ]
}

/// Characters of the program-end keyword, `BIRL`.
pub open spec fn kw_end() -> Seq<char> {
    seq!['B', 'I', 'R', 'L']
}

/// Characters of the return keyword, `BORA CUMPADE`.
pub open spec fn kw_return() -> Seq<char> {
    seq!['B', 'O', 'R', 'A', ' ', 'C', 'U', 'M', 'P', 'A', 'D', 'E']
}

/// Why tokenizing failed.
#[derive(Debug)]
pub enum LexerError {
    /// A keyword was expected here and its text did not follow.
    UnexpectedSequence(String),
    /// A backslash in a string literal followed by this character, not by `n`.
    InvalidEscapeSequence(char),
    /// The input ended inside a string literal opened by this character.
    UnterminatedStringLiteral(char),
    /// A number literal other than `0`.
    InvalidNumericLiteral,
}

/// The model of a lexer error.
pub enum LexErr {
    UnexpectedSequence(Seq<char>),
    InvalidEscapeSequence(char),
    UnterminatedStringLiteral(char),
    InvalidNumericLiteral,
}

impl View for LexerError {
    type V = LexErr;

    open spec fn view(&self) -> LexErr {
        match self {
            LexerError::UnexpectedSequence(s) => LexErr::UnexpectedSequence(s@),
            LexerError::InvalidEscapeSequence(c) => LexErr::InvalidEscapeSequence(*c),
            LexerError::UnterminatedStringLiteral(c) => LexErr::UnterminatedStringLiteral(*c),
            LexerError::InvalidNumericLiteral => LexErr::InvalidNumericLiteral,
        }
    }
}

/// What the lexer does with the character at one position.
pub enum Scan {
    /// Nothing is emitted; go on at the index.
    Skip(int),
    /// The token is emitted; go on at the index.
    Emit(Tok, int),
    /// Tokenizing fails.
    Fail(LexErr),
}

/// `kw` stands in `src` from index `i` on.
pub open spec fn keyword_at(src: Seq<char>, i: int, kw: Seq<char>) -> bool {
    0 <= i && i + kw.len() <= src.len() && src.subrange(i, i + kw.len()) == kw
}

/// Emit `tok` past the keyword `kw` at `i`, or fail naming `text`.
pub open spec fn keyword_scan(src: Seq<char>, i: int, kw: Seq<char>, tok: Tok, text: Seq<char>) -> Scan {
    if keyword_at(src, i, kw) {
        Scan::Emit(tok, i + kw.len())
    } else {
        Scan::Fail(LexErr::UnexpectedSequence(text))
    }
}

/// Puts `pre` in front of the characters of a string scan that succeeded.
pub open spec fn prefix_chars(
    pre: Seq<char>,
    r: Result<(Seq<char>, int), LexErr>,
) -> Result<(Seq<char>, int), LexErr> {
    match r {
        Ok((s, j)) => Ok((pre + s, j)),
        Err(e) => Err(e),
    }
}

/// The body of a string literal from index `k` on: its decoded characters
/// and the index just past the closing quote.
pub open spec fn scan_str(src: Seq<char>, k: int) -> Result<(Seq<char>, int), LexErr>
    decreases src.len() - k,
{
    if k < 0 || k >= src.len() {
        Err(LexErr::UnterminatedStringLiteral(QUOTE))
    } else if src[k] == QUOTE {
        Ok((Seq::empty(), k + 1))
    } else if src[k] == BACKSLASH {
        if k + 1 >= src.len() {
            Err(LexErr::UnterminatedStringLiteral(QUOTE))
        } else if src[k + 1] != LETTER_N {
            Err(LexErr::InvalidEscapeSequence(src[k + 1]))
        } else {
            prefix_chars(seq!['\n'], scan_str(src, k + 2))
        }
    } else {
        prefix_chars(seq![src[k]], scan_str(src, k + 1))
    }
}

/// What the lexer does at index `i`, which holds a character of `src`.
pub open spec fn step(src: Seq<char>, i: int) -> Scan {
    let c = src[i];
    if c == LPAREN {
        Scan::Emit(Tok::Lparen, i + 1)
    } else if c == RPAREN {
        Scan::Emit(Tok::Rparen, i + 1)
    } else if c == SEMICOLON {
        Scan::Emit(Tok::Semicolon, i + 1)
    } else if c == LETTER_H {
        keyword_scan(src, i, kw_start(), Tok::HoraDoShow, "HORA DO SHOW"@)
    } else if c == LETTER_C {
        keyword_scan(src, i, kw_print(), Tok::Print, "CE QUER VER ESSA PORRA?"@)
    } else if c == LETTER_B && i + 1 < src.len() && src[i + 1] == LETTER_I {
        keyword_scan(src, i, kw_end(), Tok::Birl, "BIRL"@)
    } else if c == LETTER_B && i + 1 < src.len() && src[i + 1] == LETTER_O {
        keyword_scan(src, i, kw_return(), Tok::Return, "BORA CUMPADE"@)
    } else if c == QUOTE {
        match scan_str(src, i + 1) {
            Ok((s, j)) => Scan::Emit(Tok::BirlString(s), j),
            Err(e) => Scan::Fail(e),
        }
    } else if c == DIGIT_0 {
        Scan::Emit(Tok::Number(0), i + 1)
    } else if DIGIT_0 < c && c <= DIGIT_9 {
        Scan::Fail(LexErr::InvalidNumericLiteral)
    } else {
        Scan::Skip(i + 1)
    }
}

/// Puts `pre` in front of the tokens of a tokenizing that succeeded.
pub open spec fn glue(pre: Seq<Tok>, r: Result<Seq<Tok>, LexErr>) -> Result<Seq<Tok>, LexErr> {
    match r {
        Ok(ts) => Ok(pre + ts),
        Err(e) => Err(e),
    }
}

/// The tokens of `src` from index `i` on, or the first error there.
pub open spec fn lex_from(src: Seq<char>, i: int) -> Result<Seq<Tok>, LexErr>
    decreases src.len() - i,
{
    if i < 0 || i >= src.len() {
        Ok(Seq::empty())
    } else {
        match step(src, i) {
            Scan::Skip(j) => lex_from(src, j),
            Scan::Emit(t, j) => {
                proof {
                    lemma_step_advances(src, i);
                }
                let rest = lex_from(src, j);
                glue(seq![t], rest)
            },
            Scan::Fail(e) => Err(e),
        }
    }
}

/// A string scan that succeeds ends past where it began.
pub proof fn lemma_scan_str_advances(src: Seq<char>, k: int)
    ensures
        scan_str(src, k) is Ok ==> k < scan_str(src, k)->Ok_0.1 <= src.len(),
    decreases src.len() - k,
{
    if 0 <= k < src.len() && src[k] != QUOTE {
        if src[k] == BACKSLASH {
            if k + 1 < src.len() && src[k + 1] == LETTER_N {
                lemma_scan_str_advances(src, k + 2);
            }
        } else {
            lemma_scan_str_advances(src, k + 1);
        }
    }
}

/// Each step moves past the index it starts at.
pub proof fn lemma_step_advances(src: Seq<char>, i: int)
    requires
        0 <= i < src.len(),
    ensures
        step(src, i) is Skip ==> i < step(src, i)->Skip_0 <= src.len(),
        step(src, i) is Emit ==> i < step(src, i)->Emit_1 <= src.len(),
{
    assert(kw_start().len() == 12);
    assert(kw_print().len() == 23);
    assert(kw_end().len() == 4);
    assert(kw_return().len() == 12);
    lemma_scan_str_advances(src, i + 1);
}

/// The model of tokenizing a whole program.
pub open spec fn tokenize(src: Seq<char>) -> Result<Seq<Tok>, LexErr> {
    lex_from(src, 0)
}

/// The model of what `Lexer::lex` returns.
pub open spec fn lex_outcome(r: Result<Vec<Token>, LexerError>) -> Result<Seq<Tok>, LexErr> {
    match r {
        Ok(v) => Ok(toks(v@)),
        Err(e) => Err(e@),
    }
}

proof fn lemma_prefix_chars_push(pre: Seq<char>, c: char, r: Result<(Seq<char>, int), LexErr>)
    ensures
        prefix_chars(pre, prefix_chars(seq![c], r)) == prefix_chars(pre.push(c), r),
{
    if r is Ok {
        assert(pre + (seq![c] + r->Ok_0.0) =~= pre.push(c) + r->Ok_0.0);
    }
}

proof fn lemma_glue_push(pre: Seq<Tok>, t: Tok, r: Result<Seq<Tok>, LexErr>)
    ensures
        glue(pre, glue(seq![t], r)) == glue(pre.push(t), r),
{
    if r is Ok {
        assert(pre + (seq![t] + r->Ok_0) =~= pre.push(t) + r->Ok_0);
    }
}

/// Lexer for the BIRL language.
pub struct Lexer {
    current: usize,
    start: usize,
    source_chars: Vec<char>,
    tokens: Vec<Token>,
}

/// Relies on String::push: the character is appended at the end.
#[verifier::external_body]
fn push_char(s: &mut String, c: char)
    ensures
        final(s)@ == old(s)@.push(c),
{
    s.push(c)
}

impl Lexer {
    /// The characters being tokenized.
    pub closed spec fn source(&self) -> Seq<char> {
        self.source_chars@
    }

    /// Nothing has been read yet.
    pub closed spec fn fresh(&self) -> bool {
        self.current == 0 && self.start == 0 && self.tokens@.len() == 0
    }

    spec fn wf(&self) -> bool {
        self.start <= self.current <= self.source_chars@.len()
    }

    /// Going from `old` to `new` with result `r` carries out `sc`.
    spec fn effect(old: Lexer, new: Lexer, r: Result<(), LexerError>, sc: Scan) -> bool {
        &&& new.source_chars@ == old.source_chars@
        &&& new.start == old.start
        &&& match sc {
            Scan::Emit(t, j) => {
                &&& r is Ok
                &&& toks(new.tokens@) == toks(old.tokens@).push(t)
                &&& new.current == j
            },
            Scan::Skip(j) => {
                &&& r is Ok
                &&& new.tokens@ == old.tokens@
                &&& new.current == j
            },
            Scan::Fail(e) => {
                &&& r is Err
                &&& r->Err_0@ == e
                &&& new.tokens@ == old.tokens@
            },
        }
    }

    pub fn new(source: &str) -> (r: Self)
        ensures
            r.source() == source@,
            r.fresh(),
    {
        let n = source.unicode_len();
        let mut source_chars: Vec<char> = Vec::new();
        let mut i: usize = 0;
        while i < n
            invariant
                n == source@.len(),
                i <= n,
                source_chars@ == source@.subrange(0, i as int),
            decreases n - i,
        {
            source_chars.push(source.get_char(i));
            i += 1;
            assert(source_chars@ =~= source@.subrange(0, i as int));
        }
        assert(source_chars@ =~= source@);
        Self { current: 0, start: 0, source_chars, tokens: Vec::new() }
    }

    fn peek(&self) -> (r: Option<char>)
        ensures
            r == (if self.current < self.source_chars@.len() {
                Some(self.source_chars@[self.current as int])
            } else {
                None::<char>
            }),
    {
        if self.current < self.source_chars.len() {
            return Some(self.source_chars[self.current]);
        }
        None
    }

    fn advance(&mut self) -> (r: Option<char>)
        ensures
            final(self).source_chars == old(self).source_chars,
            final(self).tokens == old(self).tokens,
            final(self).start == old(self).start,
            old(self).current < old(self).source_chars@.len() ==> {
                &&& final(self).current == old(self).current + 1
                &&& r == Some(old(self).source_chars@[old(self).current as int])
            },
            old(self).current >= old(self).source_chars@.len() ==> {
                &&& final(self).current == old(self).current
                &&& r is None
            },
    {
        if self.current < self.source_chars.len() {
            self.current += 1;
            return Some(self.source_chars[self.current - 1]);
        }
        None
    }

    fn token(&mut self, token: Token)
        ensures
            final(self).tokens@ == old(self).tokens@.push(token),
            toks(final(self).tokens@) == toks(old(self).tokens@).push(token@),
            final(self).source_chars == old(self).source_chars,
            final(self).current == old(self).current,
            final(self).start == old(self).start,
    {
        let ghost t = token@;
        self.tokens.push(token);
        assert(toks(self.tokens@) =~= toks(old(self).tokens@).push(t));
    }

    /// Tokenizes the whole source.
    pub fn lex(self) -> (r: Result<Vec<Token>, LexerError>)
        requires
            self.fresh(),
        ensures
            lex_outcome(r) == tokenize(self.source()),
    {
        let mut lexer = self;
        let ghost src = lexer.source_chars@;
        assert(toks(lexer.tokens@) =~= Seq::<Tok>::empty());
        assert(glue(Seq::<Tok>::empty(), tokenize(src)) == tokenize(src)) by {
            if tokenize(src) is Ok {
                assert(Seq::<Tok>::empty() + tokenize(src)->Ok_0 =~= tokenize(src)->Ok_0);
            }
        }
        while lexer.current < lexer.source_chars.len()
            invariant
                lexer.wf(),
                lexer.start == lexer.current,
                lexer.source_chars@ == src,
                src == self.source(),
                tokenize(src) == glue(toks(lexer.tokens@), lex_from(src, lexer.current as int)),
            decreases src.len() - lexer.current,
        {
            let ghost before = lexer;
            let ghost i = lexer.current as int;
            proof {
                lemma_step_advances(src, i);
            }
            let c = lexer.advance().unwrap();
            let r = if c == LPAREN {
                lexer.token(Token::Lparen);
                Ok(())
            } else if c == RPAREN {
                lexer.token(Token::Rparen);
                Ok(())
            } else if c == SEMICOLON {
                lexer.token(Token::Semicolon);
                Ok(())
            } else if c == LETTER_H {
                lexer.hora_do_show()
            } else if c == LETTER_C {
                lexer.print()
            } else if c == LETTER_B {
                match lexer.peek() {
                    Some(d) => {
                        if d == LETTER_I {
                            lexer.birl()
                        } else if d == LETTER_O {
                            lexer.return_()
                        } else {
                            Ok(())
                        }
                    },
                    None => Ok(()),
                }
            } else if c == QUOTE {
                lexer.string()
            } else if DIGIT_0 <= c && c <= DIGIT_9 {
                lexer.number()
            } else {
                Ok(())
            };
            assert(Lexer::effect(before, lexer, r, step(src, i)));
            match r {
                Ok(()) => {},
                Err(e) => {
                    return Err(e);
                },
            }
            proof {
                if let Scan::Emit(t, j) = step(src, i) {
                    lemma_glue_push(toks(before.tokens@), t, lex_from(src, j));
                }
            }
            lexer.start = lexer.current;
        }
        assert(toks(lexer.tokens@) + Seq::<Tok>::empty() =~= toks(lexer.tokens@));
        Ok(lexer.tokens)
    }

    /// Matches `expected`, the characters of the keyword `text`, at the start
    /// index, and moves past it.
    fn expect(&mut self, expected: &[char], text: &str) -> (r: Result<(), LexerError>)
        requires
            old(self).wf(),
            text@ == expected@,
        ensures
            final(self).source_chars@ == old(self).source_chars@,
            final(self).start == old(self).start,
            final(self).tokens@ == old(self).tokens@,
            keyword_at(old(self).source_chars@, old(self).start as int, expected@) ==> {
                &&& r is Ok
                &&& final(self).current == old(self).start + expected@.len()
            },
            !keyword_at(old(self).source_chars@, old(self).start as int, expected@) ==> {
                &&& r is Err
                &&& final(self).current == old(self).current
                &&& r->Err_0@ == LexErr::UnexpectedSequence(text@)
            },
    {
        let ghost src = self.source_chars@;
        let left = self.source_chars.len() - self.start;
        if expected.len() > left {
            return Err(LexerError::UnexpectedSequence(String::from_str(text)));
        }
        let n = self.source_chars.len();
        let mut k: usize = 0;
        while k < expected.len()
            invariant
                n == src.len(),
                k <= expected@.len(),
                self.start + expected@.len() <= src.len(),
                self.source_chars@ == src,
                forall|j: int| 0 <= j < k ==> src[self.start + j] == expected@[j],
            decreases expected@.len() - k,
        {
            if self.source_chars[self.start + k] != expected[k] {
                assert(src.subrange(self.start as int, self.start + expected@.len())[k as int]
                    != expected@[k as int]);
                return Err(LexerError::UnexpectedSequence(String::from_str(text)));
            }
            k += 1;
        }
        assert(src.subrange(self.start as int, self.start + expected@.len()) =~= expected@);
        self.current = self.start + expected.len();
        Ok(())
    }

    fn hora_do_show(&mut self) -> (r: Result<(), LexerError>)
        requires
            old(self).wf(),
            old(self).start < old(self).source_chars@.len(),
            old(self).source_chars@[old(self).start as int] == LETTER_H,
        ensures
            Lexer::effect(*old(self), *final(self), r, step(old(self).source_chars@, old(self).start as int)),
    {
        let kw: [char; 12] = ['H', 'O', 'R', 'A', ' ', 'D', 'O', ' ', 'S', 'H', 'O', 'W'];
        assert(kw@ == kw_start());
        proof {
            reveal_strlit("HORA DO SHOW");
        }
        assert("HORA DO SHOW"@ =~= kw@);
        match self.expect(&kw, "HORA DO SHOW") {
            Ok(()) => {},
            Err(e) => {
                return Err(e);
            },
        }
        self.token(Token::HoraDoShow);
        Ok(())
    }

    fn print(&mut self) -> (r: Result<(), LexerError>)
        requires
            old(self).wf(),
            old(self).start < old(self).source_chars@.len(),
            old(self).source_chars@[old(self).start as int] == LETTER_C,
        ensures
            Lexer::effect(*old(self), *final(self), r, step(old(self).source_chars@, old(self).start as int)),
    {
        let kw: [char; 23] = [
            'C', 'E', ' ', 'Q', 'U', 'E', 'R', ' ', 'V', 'E', 'R', ' ',
            'E', 'S', 'S', 'A', ' ', 'P', 'O', 'R', 'R', 'A', '?',
        ];
        assert(kw@ == kw_print());
        proof {
            reveal_strlit("CE QUER VER ESSA PORRA?");
        }
        assert("CE QUER VER ESSA PORRA?"@ =~= kw@);
        match self.expect(&kw, "CE QUER VER ESSA PORRA?") {
            Ok(()) => {},
            Err(e) => {
                return Err(e);
            },
        }
        self.token(Token::Print);
        Ok(())
    }

    fn birl(&mut self) -> (r: Result<(), LexerError>)
        requires
            old(self).wf(),
            old(self).start + 1 < old(self).source_chars@.len(),
            old(self).source_chars@[old(self).start as int] == LETTER_B,
            old(self).source_chars@[old(self).start + 1] == LETTER_I,
        ensures
            Lexer::effect(*old(self), *final(self), r, step(old(self).source_chars@, old(self).start as int)),
    {
        let kw: [char; 4] = ['B', 'I', 'R', 'L'];
        assert(kw@ == kw_end());
        proof {
            reveal_strlit("BIRL");
        }
        assert("BIRL"@ =~= kw@);
        match self.expect(&kw, "BIRL") {
            Ok(()) => {},
            Err(e) => {
                return Err(e);
            },
        }
        self.token(Token::Birl);
        Ok(())
    }

    fn return_(&mut self) -> (r: Result<(), LexerError>)
        requires
            old(self).wf(),
            old(self).start + 1 < old(self).source_chars@.len(),
            old(self).source_chars@[old(self).start as int] == LETTER_B,
            old(self).source_chars@[old(self).start + 1] == LETTER_O,
        ensures
            Lexer::effect(*old(self), *final(self), r, step(old(self).source_chars@, old(self).start as int)),
    {
        let kw: [char; 12] = ['B', 'O', 'R', 'A', ' ', 'C', 'U', 'M', 'P', 'A', 'D', 'E'];
        assert(kw@ == kw_return());
        proof {
            reveal_strlit("BORA CUMPADE");
        }
        assert("BORA CUMPADE"@ =~= kw@);
        match self.expect(&kw, "BORA CUMPADE") {
            Ok(()) => {},
            Err(e) => {
                return Err(e);
            },
        }
        self.token(Token::Return);
        Ok(())
    }

    fn string(&mut self) -> (r: Result<(), LexerError>)
        requires
            old(self).wf(),
            old(self).start < old(self).source_chars@.len(),
            old(self).source_chars@[old(self).start as int] == QUOTE,
            old(self).current == old(self).start + 1,
        ensures
            Lexer::effect(*old(self), *final(self), r, step(old(self).source_chars@, old(self).start as int)),
    {
        let ghost src = self.source_chars@;
        let ghost k0 = self.start + 1;
        let mut s = String::new();
        assert(prefix_chars(s@, scan_str(src, k0)) == scan_str(src, k0)) by {
            if scan_str(src, k0) is Ok {
                assert(s@ + scan_str(src, k0)->Ok_0.0 =~= scan_str(src, k0)->Ok_0.0);
            }
        }
        loop
            invariant
                src == old(self).source_chars@,
                k0 == old(self).start + 1,
                old(self).start < src.len(),
                src[old(self).start as int] == QUOTE,
                self.source_chars@ == src,
                self.tokens@ == old(self).tokens@,
                self.start == old(self).start,
                k0 <= self.current <= src.len(),
                scan_str(src, k0) == prefix_chars(s@, scan_str(src, self.current as int)),
            decreases src.len() - self.current,
        {
            let ghost k = self.current as int;
            let ghost pre = s@;
            match self.peek() {
                None => {
                    return Err(LexerError::UnterminatedStringLiteral(QUOTE));
                },
                Some(c) => {
                    if c == QUOTE {
                        self.advance();
                        assert(pre + Seq::<char>::empty() =~= pre);
                        self.token(Token::BirlString(s));
                        return Ok(());
                    }
                    if c == BACKSLASH {
                        self.advance();
                        match self.peek() {
                            None => {
                                return Err(LexerError::UnterminatedStringLiteral(QUOTE));
                            },
                            Some(d) => {
                                if d != LETTER_N {
                                    return Err(LexerError::InvalidEscapeSequence(d));
                                }
                                push_char(&mut s, '\n');
                                self.advance();
                                proof {
                                    lemma_prefix_chars_push(pre, '\n', scan_str(src, k + 2));
                                }
                            },
                        }
                    } else {
                        push_char(&mut s, c);
                        self.advance();
                        proof {
                            lemma_prefix_chars_push(pre, c, scan_str(src, k + 1));
                        }
                    }
                },
            }
        }
    }

    fn number(&mut self) -> (r: Result<(), LexerError>)
        requires
            old(self).wf(),
            old(self).start < old(self).source_chars@.len(),
            old(self).current == old(self).start + 1,
            DIGIT_0 <= old(self).source_chars@[old(self).start as int] <= DIGIT_9,
        ensures
            final(self).current == old(self).current,
            Lexer::effect(*old(self), *final(self), r, step(old(self).source_chars@, old(self).start as int)),
    {
        if self.source_chars[self.start] == DIGIT_0 {
            self.token(Token::Number(0));
            Ok(())
        } else {
            Err(LexerError::InvalidNumericLiteral)
        }
    }
}

} // verus!

verus! {

/// The body of a string literal that the lexer accepts: no quote, and
/// every backslash followed by `n`.
pub open spec fn valid_body(b: Seq<char>) -> bool {
    forall|i: int|
        0 <= i < b.len() ==> #[trigger] b[i] != QUOTE && (b[i] == BACKSLASH ==> i + 1 < b.len()
            && b[i + 1] == LETTER_N)
}

/// `b` with each backslash-`n` pair replaced by a newline and every other
/// character kept as it is.
pub open spec fn unescape(b: Seq<char>) -> Seq<char>
    decreases b.len(),
{
    if b.len() == 0 {
        Seq::empty()
    } else if b.len() >= 2 && b[0] == BACKSLASH && b[1] == LETTER_N {
        seq!['\n'] + unescape(b.subrange(2, b.len() as int))
    } else {
        seq![b[0]] + unescape(b.subrange(1, b.len() as int))
    }
}

/// A valid body standing at `k` and followed by a quote scans to its
/// unescaped characters.
pub proof fn lemma_scan_body(src: Seq<char>, k: int, b: Seq<char>)
    requires
        0 <= k,
        k + b.len() < src.len(),
        src.subrange(k, k + b.len()) == b,
        src[k + b.len()] == QUOTE,
        valid_body(b),
    ensures
        scan_str(src, k) == Ok::<(Seq<char>, int), LexErr>((unescape(b), k + b.len() + 1)),
    decreases b.len(),
{
    if b.len() == 0 {
    } else {
        assert(src[k] == b[0]);
        assert(b[0] != QUOTE);
        if b[0] == BACKSLASH {
            assert(src[k + 1] == b[1]);
            let b2 = b.subrange(2, b.len() as int);
            assert(src.subrange(k + 2, k + 2 + b2.len()) =~= b2);
            lemma_valid_body_suffix(b, 2);
            lemma_scan_body(src, k + 2, b2);
        } else {
            let b1 = b.subrange(1, b.len() as int);
            assert(src.subrange(k + 1, k + 1 + b1.len()) =~= b1);
            lemma_valid_body_suffix(b, 1);
            lemma_scan_body(src, k + 1, b1);
        }
    }
}

/// Every suffix of a valid body is a valid body.
proof fn lemma_valid_body_suffix(b: Seq<char>, k: int)
    requires
        valid_body(b),
        0 <= k <= b.len(),
    ensures
        valid_body(b.subrange(k, b.len() as int)),
{
    let t = b.subrange(k, b.len() as int);
    assert forall|i: int| 0 <= i < t.len() implies #[trigger] t[i] != QUOTE && (t[i] == BACKSLASH
        ==> i + 1 < t.len() && t[i + 1] == LETTER_N) by {
        assert(t[i] == b[i + k]);
        if i + 1 < t.len() {
            assert(t[i + 1] == b[i + k + 1]);
        }
    }
}

/// A string literal whose body holds no escape but backslash-`n` decodes
/// to the body with each such pair replaced by a newline, and no other
/// change.
pub proof fn lemma_newline_escapes(b: Seq<char>)
    requires
        valid_body(b),
    ensures
        tokenize(seq![QUOTE] + b + seq![QUOTE]) == Ok::<Seq<Tok>, LexErr>(
            seq![Tok::BirlString(unescape(b))],
        ),
{
    let src = seq![QUOTE] + b + seq![QUOTE];
    assert(src.subrange(1, 1 + b.len() as int) =~= b);
    lemma_scan_body(src, 1, b);
    assert(src[0] == QUOTE);
    assert(lex_from(src, b.len() as int + 2) == Ok::<Seq<Tok>, LexErr>(Seq::empty()));
    assert(seq![Tok::BirlString(unescape(b))] + Seq::<Tok>::empty() =~= seq![
        Tok::BirlString(unescape(b)),
    ]);
}

} // verus!

verus! {

/// Moves the end index of a successful string scan by `d`.
pub open spec fn shift_scan(r: Result<(Seq<char>, int), LexErr>, d: int) -> Result<(Seq<char>, int), LexErr> {
    match r {
        Ok((s, j)) => Ok((s, j + d)),
        Err(e) => Err(e),
    }
}

proof fn lemma_scan_str_suffix(p: Seq<char>, q: Seq<char>, k: int)
    requires
        0 <= k,
    ensures
        scan_str(p + q, p.len() + k) == shift_scan(scan_str(q, k), p.len() as int),
    decreases q.len() - k,
{
    let s = p + q;
    let d = p.len() as int;
    if k < q.len() {
        assert(s[d + k] == q[k]);
        if k + 1 < q.len() {
            assert(s[d + k + 1] == q[k + 1]);
        }
        lemma_scan_str_suffix(p, q, k + 1);
        if k + 2 <= q.len() {
            lemma_scan_str_suffix(p, q, k + 2);
        }
    }
}

proof fn lemma_step_suffix(p: Seq<char>, q: Seq<char>, i: int)
    requires
        0 <= i < q.len(),
    ensures
        step(p + q, p.len() + i) == match step(q, i) {
            Scan::Skip(j) => Scan::Skip(j + p.len()),
            Scan::Emit(t, j) => Scan::Emit(t, j + p.len()),
            Scan::Fail(e) => Scan::Fail(e),
        },
{
    let s = p + q;
    let d = p.len() as int;
    assert(s[d + i] == q[i]);
    if i + 1 < q.len() {
        assert(s[d + i + 1] == q[i + 1]);
    }
    assert forall|kw: Seq<char>| keyword_at(s, d + i, kw) == keyword_at(q, i, kw) by {
        if i + kw.len() <= q.len() {
            assert(s.subrange(d + i, d + i + kw.len()) =~= q.subrange(i, i + kw.len()));
        }
    }
    lemma_scan_str_suffix(p, q, i + 1);
}

/// Tokenizing from a position depends only on the characters from there on.
pub proof fn lemma_lex_from_suffix(p: Seq<char>, q: Seq<char>, i: int)
    requires
        0 <= i,
    ensures
        lex_from(p + q, p.len() + i) == lex_from(q, i),
    decreases q.len() - i,
{
    if i < q.len() {
        lemma_step_suffix(p, q, i);
        lemma_step_advances(q, i);
        match step(q, i) {
            Scan::Skip(j) => lemma_lex_from_suffix(p, q, j),
            Scan::Emit(_, j) => lemma_lex_from_suffix(p, q, j),
            Scan::Fail(_) => {},
        }
    }
}

pub proof fn lemma_glue_concat(a: Seq<Tok>, b: Seq<Tok>, r: Result<Seq<Tok>, LexErr>)
    ensures
        glue(a, glue(b, r)) == glue(a + b, r),
{
    if r is Ok {
        assert(a + (b + r->Ok_0) =~= (a + b) + r->Ok_0);
    }
}

} // verus!

verus! {

proof fn lemma_scan_unterminated(src: Seq<char>, k: int)
    requires
        0 <= k <= src.len(),
        valid_body(src.subrange(k, src.len() as int)),
    ensures
        scan_str(src, k) == Err::<(Seq<char>, int), LexErr>(LexErr::UnterminatedStringLiteral(QUOTE)),
    decreases src.len() - k,
{
    if k < src.len() {
        let b = src.subrange(k, src.len() as int);
        assert(b[0] == src[k]);
        if src[k] == BACKSLASH {
            assert(b[1] == src[k + 1]);
            let b2 = src.subrange(k + 2, src.len() as int);
            lemma_valid_body_suffix(b, 2);
            assert(b.subrange(2, b.len() as int) =~= b2);
            lemma_scan_unterminated(src, k + 2);
        } else {
            let b1 = src.subrange(k + 1, src.len() as int);
            lemma_valid_body_suffix(b, 1);
            assert(b.subrange(1, b.len() as int) =~= b1);
            lemma_scan_unterminated(src, k + 1);
        }
    }
}

/// A literal opened at `pre.len()` whose valid body runs to the end fails.
proof fn lemma_unterminated_string(pre: Seq<char>, b: Seq<char>)
    requires
        valid_body(b),
        tokenize(pre) is Ok,
    ensures
        lex_from(pre + seq![QUOTE] + b, pre.len() as int) == Err::<Seq<Tok>, LexErr>(
            LexErr::UnterminatedStringLiteral(QUOTE),
        ),
{
    let src = pre + seq![QUOTE] + b;
    let i = pre.len() as int;
    assert(src[i] == QUOTE);
    assert(src.subrange(i + 1, src.len() as int) =~= b);
    lemma_scan_unterminated(src, i + 1);
}

} // verus!

verus! {

/// A character the lexer skips wherever it stands outside a string literal.
pub open spec fn is_filler(c: char) -> bool {
    c != LPAREN && c != RPAREN && c != SEMICOLON && c != QUOTE && c != LETTER_H && c != LETTER_C
        && c != LETTER_B && !(DIGIT_0 <= c && c <= DIGIT_9)
}

/// Every character of `w` is filler.
pub open spec fn all_filler(w: Seq<char>) -> bool {
    forall|i: int| 0 <= i < w.len() ==> is_filler(#[trigger] w[i])
}

/// Filler in front of the input changes nothing.
pub proof fn lemma_filler_prefix(w: Seq<char>, q: Seq<char>)
    requires
        all_filler(w),
    ensures
        lex_from(w + q, 0) == lex_from(q, 0),
{
    lemma_filler_from(w, q, 0);
    lemma_lex_from_suffix(w, q, 0);
}

proof fn lemma_filler_from(w: Seq<char>, q: Seq<char>, i: int)
    requires
        all_filler(w),
        0 <= i <= w.len(),
    ensures
        lex_from(w + q, i) == lex_from(w + q, w.len() as int),
    decreases w.len() - i,
{
    if i < w.len() {
        let s = w + q;
        assert(s[i] == w[i]);
        assert(is_filler(w[i]));
        lemma_filler_from(w, q, i + 1);
    }
}

/// A keyword at the front of the input gives its token, then the rest.
proof fn lemma_keyword_front(kw: Seq<char>, rest: Seq<char>, t: Tok)
    requires
        kw.len() > 0,
        step(kw + rest, 0) == Scan::Emit(t, kw.len() as int),
    ensures
        lex_from(kw + rest, 0) == glue(seq![t], lex_from(rest, 0)),
{
    lemma_lex_from_suffix(kw, rest, 0);
}

/// An input holding the program-start and program-end keywords with only
/// filler around them tokenizes to exactly those two tokens.
pub proof fn lemma_start_end_only(w1: Seq<char>, w2: Seq<char>, w3: Seq<char>)
    requires
        all_filler(w1),
        all_filler(w2),
        all_filler(w3),
    ensures
        tokenize(w1 + kw_start() + w2 + kw_end() + w3) == Ok::<Seq<Tok>, LexErr>(
            seq![Tok::HoraDoShow, Tok::Birl],
        ),
{
    let tail = kw_end() + w3;
    let mid = w2 + tail;
    let after = kw_start() + mid;
    assert(w1 + kw_start() + w2 + kw_end() + w3 =~= w1 + after);
    lemma_filler_prefix(w1, after);
    assert(after.subrange(0, 12) =~= kw_start());
    assert(after[0] == LETTER_H);
    lemma_keyword_front(kw_start(), mid, Tok::HoraDoShow);
    lemma_filler_prefix(w2, tail);
    assert(tail.subrange(0, 4) =~= kw_end());
    assert(tail[0] == LETTER_B);
    assert(tail[1] == LETTER_I);
    lemma_keyword_front(kw_end(), w3, Tok::Birl);
    lemma_filler_prefix(w3, Seq::empty());
    assert(w3 + Seq::<char>::empty() =~= w3);
    assert(lex_from(Seq::<char>::empty(), 0) == Ok::<Seq<Tok>, LexErr>(Seq::empty()));
    assert(seq![Tok::Birl] + Seq::<Tok>::empty() =~= seq![Tok::Birl]);
    assert(seq![Tok::HoraDoShow] + seq![Tok::Birl] =~= seq![Tok::HoraDoShow, Tok::Birl]);
}

proof fn lemma_scan_str_prefix(p: Seq<char>, r: Seq<char>, k: int)
    requires
        0 <= k,
        scan_str(p, k) is Ok,
    ensures
        scan_str(p + r, k) == scan_str(p, k),
    decreases p.len() - k,
{
    let s = p + r;
    if k < p.len() {
        assert(s[k] == p[k]);
        if k + 1 < p.len() {
            assert(s[k + 1] == p[k + 1]);
        }
        if p[k] != QUOTE {
            if p[k] == BACKSLASH {
                lemma_scan_str_prefix(p, r, k + 2);
            } else {
                lemma_scan_str_prefix(p, r, k + 1);
            }
        }
    }
}

proof fn lemma_lex_prefix_from(p: Seq<char>, r: Seq<char>, i: int)
    requires
        0 <= i <= p.len(),
        lex_from(p, i) is Ok,
        r.len() > 0 ==> r[0] != LETTER_I && r[0] != LETTER_O,
    ensures
        lex_from(p + r, i) == glue(lex_from(p, i)->Ok_0, lex_from(p + r, p.len() as int)),
    decreases p.len() - i,
{
    let s = p + r;
    let tail = lex_from(s, p.len() as int);
    if i == p.len() {
        if tail is Ok {
            assert(Seq::<Tok>::empty() + tail->Ok_0 =~= tail->Ok_0);
        }
    } else {
        assert(s[i] == p[i]);
        if i + 1 < p.len() {
            assert(s[i + 1] == p[i + 1]);
        }
        assert forall|kw: Seq<char>| keyword_at(p, i, kw) implies keyword_at(s, i, kw) by {
            assert(s.subrange(i, i + kw.len()) =~= p.subrange(i, i + kw.len()));
        }
        lemma_step_advances(p, i);
        if p[i] == QUOTE {
            lemma_scan_str_prefix(p, r, i + 1);
        }
        assert(step(s, i) == step(p, i));
        match step(p, i) {
            Scan::Skip(j) => {
                lemma_lex_prefix_from(p, r, j);
            },
            Scan::Emit(t, j) => {
                lemma_lex_prefix_from(p, r, j);
                lemma_glue_concat(seq![t], lex_from(p, j)->Ok_0, tail);
            },
            Scan::Fail(_) => {},
        }
    }
}

/// Once a prefix tokenizes, what follows it is tokenized on its own, as
/// long as it does not start with a letter that completes a `B` keyword.
pub proof fn lemma_lex_prefix(p: Seq<char>, r: Seq<char>)
    requires
        tokenize(p) is Ok,
        r.len() > 0 ==> r[0] != LETTER_I && r[0] != LETTER_O,
    ensures
        tokenize(p + r) == glue(tokenize(p)->Ok_0, lex_from(r, 0)),
{
    lemma_lex_prefix_from(p, r, 0);
    lemma_lex_from_suffix(p, r, 0);
}

/// A keyword whose first characters stand after any input that tokenizes,
/// but whose full text does not, fails tokenizing with an unexpected-sequence
/// error naming that keyword, and yields no tokens.
pub proof fn lemma_keyword_mismatch(p: Seq<char>, r: Seq<char>)
    requires
        tokenize(p) is Ok,
        r.len() > 0,
        r[0] == LETTER_H ==> !keyword_at(r, 0, kw_start()),
        r[0] == LETTER_C ==> !keyword_at(r, 0, kw_print()),
        r[0] == LETTER_B && r.len() > 1 && r[1] == LETTER_I ==> !keyword_at(r, 0, kw_end()),
        r[0] == LETTER_B && r.len() > 1 && r[1] == LETTER_O ==> !keyword_at(r, 0, kw_return()),
    ensures
        r[0] == LETTER_H ==> tokenize(p + r) == Err::<Seq<Tok>, LexErr>(
            LexErr::UnexpectedSequence("HORA DO SHOW"@),
        ),
        r[0] == LETTER_C ==> tokenize(p + r) == Err::<Seq<Tok>, LexErr>(
            LexErr::UnexpectedSequence("CE QUER VER ESSA PORRA?"@),
        ),
        r[0] == LETTER_B && r.len() > 1 && r[1] == LETTER_I ==> tokenize(p + r) == Err::<
            Seq<Tok>,
            LexErr,
        >(LexErr::UnexpectedSequence("BIRL"@)),
        r[0] == LETTER_B && r.len() > 1 && r[1] == LETTER_O ==> tokenize(p + r) == Err::<
            Seq<Tok>,
            LexErr,
        >(LexErr::UnexpectedSequence("BORA CUMPADE"@)),
{
    if r[0] != LETTER_I && r[0] != LETTER_O {
        lemma_lex_prefix(p, r);
    }
}

/// A string literal that the input ends inside, after any input that
/// tokenizes, fails tokenizing with an unterminated-string error; no token
/// is produced for it or for anything before it.
pub proof fn lemma_unterminated_after(p: Seq<char>, b: Seq<char>)
    requires
        tokenize(p) is Ok,
        valid_body(b),
    ensures
        tokenize(p + (seq![QUOTE] + b)) == Err::<Seq<Tok>, LexErr>(
            LexErr::UnterminatedStringLiteral(QUOTE),
        ),
{
    let r = seq![QUOTE] + b;
    lemma_lex_prefix(p, r);
    lemma_unterminated_string(Seq::empty(), b);
    assert(Seq::<char>::empty() + seq![QUOTE] + b =~= r);
}

} // verus!
