//! The recursive-descent parser: turns tokens into a program node.
//!
//! `parse_tokens` is the model of the grammar; `Parser::parse` is proved to
//! build exactly the statements it describes, or to fail as it says.
use crate::ast::{Expr, ExprV, Node, Stmt, StmtV, is_program_of, stmt_view, stmts_are};
use crate::token::{Tok, Token, toks};
use vstd::prelude::*;

verus! {

/// Why parsing failed.
#[derive(Debug)]
pub enum ParserError {
    /// The first token was expected and the second one came.
    UnexpectedToken(Token, Token),
    /// The tokens ended where one more was required.
    UnexpectedEof,
    /// A statement cannot start with the token found.
    InvalidStartOfStmt,
    /// An expression cannot start with the token found.
    InvalidStartOfExpr,
}

/// The model of a parser error.
pub enum ParseErr {
    UnexpectedToken(Tok, Tok),
    UnexpectedEof,
    InvalidStartOfStmt,
    InvalidStartOfExpr,
}

impl View for ParserError {
    type V = ParseErr;

    open spec fn view(&self) -> ParseErr {
        match self {
            ParserError::UnexpectedToken(a, b) => ParseErr::UnexpectedToken(a@, b@),
            ParserError::UnexpectedEof => ParseErr::UnexpectedEof,
            ParserError::InvalidStartOfStmt => ParseErr::InvalidStartOfStmt,
            ParserError::InvalidStartOfExpr => ParseErr::InvalidStartOfExpr,
        }
    }
}

/// Requires the token `t` at index `i`; on success, the index after it.
pub open spec fn expect_at(ts: Seq<Tok>, i: int, t: Tok) -> Result<int, ParseErr> {
    if i < 0 || i >= ts.len() {
        Err(ParseErr::UnexpectedEof)
    } else if ts[i] == t {
        Ok(i + 1)
    } else {
        Err(ParseErr::UnexpectedToken(t, ts[i]))
    }
}

/// The rest of a print statement, from the token after its keyword.
pub open spec fn print_at(ts: Seq<Tok>, i: int) -> Result<(StmtV, int), ParseErr> {
    match expect_at(ts, i, Tok::Lparen) {
        Err(e) => Err(e),
        Ok(j) => if j >= ts.len() {
            Err(ParseErr::UnexpectedEof)
        } else {
            match ts[j] {
                Tok::BirlString(s) => match expect_at(ts, j + 1, Tok::Rparen) {
                    Err(e) => Err(e),
                    Ok(k) => match expect_at(ts, k, Tok::Semicolon) {
                        Err(e) => Err(e),
                        Ok(m) => Ok((StmtV::Print(s), m)),
                    },
                },
                other => Err(ParseErr::UnexpectedToken(Tok::BirlString(Seq::empty()), other)),
            }
        },
    }
}

/// The literal expression at index `i`.
pub open spec fn expr_at(ts: Seq<Tok>, i: int) -> Result<ExprV, ParseErr> {
    if i < 0 || i >= ts.len() {
        Err(ParseErr::UnexpectedEof)
    } else {
        match ts[i] {
            Tok::BirlString(s) => Ok(ExprV::Str(s)),
            Tok::Number(n) => Ok(ExprV::Num(n)),
            _ => Err(ParseErr::InvalidStartOfExpr),
        }
    }
}

/// The rest of a return statement, from the token after its keyword.
pub open spec fn return_at(ts: Seq<Tok>, i: int) -> Result<(StmtV, int), ParseErr> {
    match expr_at(ts, i) {
        Err(e) => Err(e),
        Ok(x) => match expect_at(ts, i + 1, Tok::Semicolon) {
            Err(e) => Err(e),
            Ok(m) => Ok((StmtV::Return(x), m)),
        },
    }
}

/// Puts `pre` in front of the statements of a parse that succeeded.
pub open spec fn glue_stmts(
    pre: Seq<StmtV>,
    r: Result<Seq<StmtV>, ParseErr>,
) -> Result<Seq<StmtV>, ParseErr> {
    match r {
        Ok(ss) => Ok(pre + ss),
        Err(e) => Err(e),
    }
}

/// Statement rules that succeed end past where they began.
pub proof fn lemma_rules_advance(ts: Seq<Tok>, i: int)
    requires
        0 <= i,
    ensures
        print_at(ts, i) is Ok ==> i < print_at(ts, i)->Ok_0.1 <= ts.len(),
        return_at(ts, i) is Ok ==> i < return_at(ts, i)->Ok_0.1 <= ts.len(),
{
}

/// The statements from index `i` up to the program-end token.
pub open spec fn stmts_from(ts: Seq<Tok>, i: int) -> Result<Seq<StmtV>, ParseErr>
    decreases ts.len() - i,
{
    if i < 0 || i >= ts.len() {
        Err(ParseErr::UnexpectedEof)
    } else if ts[i] == Tok::Birl {
        Ok(Seq::empty())
    } else if ts[i] == Tok::Print {
        match print_at(ts, i + 1) {
            Err(e) => Err(e),
            Ok((s, j)) => {
                proof {
                    lemma_rules_advance(ts, i + 1);
                }
                glue_stmts(seq![s], stmts_from(ts, j))
            },
        }
    } else if ts[i] == Tok::Return {
        match return_at(ts, i + 1) {
            Err(e) => Err(e),
            Ok((s, j)) => {
                proof {
                    lemma_rules_advance(ts, i + 1);
                }
                glue_stmts(seq![s], stmts_from(ts, j))
            },
        }
    } else {
        Err(ParseErr::InvalidStartOfStmt)
    }
}

/// The model of parsing a whole token sequence: the statements of the
/// program, or the first error.
pub open spec fn parse_tokens(ts: Seq<Tok>) -> Result<Seq<StmtV>, ParseErr> {
    match expect_at(ts, 0, Tok::HoraDoShow) {
        Err(e) => Err(e),
        Ok(j) => stmts_from(ts, j),
    }
}

/// What `Parser::parse` returned agrees with the model's outcome.
pub open spec fn parse_agrees(r: Result<Node, ParserError>, m: Result<Seq<StmtV>, ParseErr>) -> bool {
    match (r, m) {
        (Ok(n), Ok(ss)) => is_program_of(n, ss),
        (Err(e), Err(pe)) => e@ == pe,
        _ => false,
    }
}

proof fn lemma_glue_stmts_push(pre: Seq<StmtV>, s: StmtV, r: Result<Seq<StmtV>, ParseErr>)
    ensures
        glue_stmts(pre, glue_stmts(seq![s], r)) == glue_stmts(pre.push(s), r),
{
    if r is Ok {
        assert(pre + (seq![s] + r->Ok_0) =~= pre.push(s) + r->Ok_0);
    }
}

/// The tokens of one statement.
pub open spec fn stmt_tokens(s: StmtV) -> Seq<Tok> {
    match s {
        StmtV::Print(t) => seq![Tok::Print, Tok::Lparen, Tok::BirlString(t), Tok::Rparen, Tok::Semicolon],
        StmtV::Return(ExprV::Str(t)) => seq![Tok::Return, Tok::BirlString(t), Tok::Semicolon],
        StmtV::Return(ExprV::Num(n)) => seq![Tok::Return, Tok::Number(n), Tok::Semicolon],
    }
}

/// The tokens of the statements `ss`, one after the other.
pub open spec fn stmts_tokens(ss: Seq<StmtV>) -> Seq<Tok>
    decreases ss.len(),
{
    if ss.len() == 0 {
        Seq::empty()
    } else {
        stmt_tokens(ss[0]) + stmts_tokens(ss.subrange(1, ss.len() as int))
    }
}

/// The tokens of the program whose statements are `ss`.
pub open spec fn program_tokens(ss: Seq<StmtV>) -> Seq<Tok> {
    seq![Tok::HoraDoShow] + stmts_tokens(ss) + seq![Tok::Birl]
}

proof fn lemma_stmts_from_tokens(pre: Seq<Tok>, ss: Seq<StmtV>)
    ensures
        stmts_from(pre + stmts_tokens(ss) + seq![Tok::Birl], pre.len() as int) == Ok::<
            Seq<StmtV>,
            ParseErr,
        >(ss),
    decreases ss.len(),
{
    let t = pre + stmts_tokens(ss) + seq![Tok::Birl];
    let i = pre.len() as int;
    if ss.len() == 0 {
        assert(t[i] == Tok::Birl);
        assert(ss =~= Seq::<StmtV>::empty());
    } else {
        let s0 = ss[0];
        let rest = ss.subrange(1, ss.len() as int);
        let pre2 = pre + stmt_tokens(s0);
        assert(t =~= pre2 + stmts_tokens(rest) + seq![Tok::Birl]);
        lemma_stmts_from_tokens(pre2, rest);
        let k = stmt_tokens(s0).len();
        assert forall|j: int| 0 <= j < k implies t[i + j] == stmt_tokens(s0)[j] by {
            assert(t[i + j] == pre2[i + j]);
        }
        match s0 {
            StmtV::Print(x) => {
                assert(t[i] == Tok::Print);
                assert(t[i + 1] == Tok::Lparen);
                assert(t[i + 2] == Tok::BirlString(x));
                assert(t[i + 3] == Tok::Rparen);
                assert(t[i + 4] == Tok::Semicolon);
            },
            StmtV::Return(ExprV::Str(x)) => {
                assert(t[i] == Tok::Return);
                assert(t[i + 1] == Tok::BirlString(x));
                assert(t[i + 2] == Tok::Semicolon);
            },
            StmtV::Return(ExprV::Num(n)) => {
                assert(t[i] == Tok::Return);
                assert(t[i + 1] == Tok::Number(n));
                assert(t[i + 2] == Tok::Semicolon);
            },
        }
        assert(seq![s0] + rest =~= ss);
    }
}

/// Parsing the tokens of any program succeeds and gives back exactly its
/// statements: as many as it holds, in the order they stand in.
pub proof fn lemma_parse_program_tokens(ss: Seq<StmtV>)
    ensures
        parse_tokens(program_tokens(ss)) == Ok::<Seq<StmtV>, ParseErr>(ss),
{
    let pre = seq![Tok::HoraDoShow];
    lemma_stmts_from_tokens(pre, ss);
    assert(program_tokens(ss)[0] == Tok::HoraDoShow);
}

pub struct Parser {
    tokens: Vec<Token>,
    stmts: Vec<Node>,
    current: usize,
}

impl Parser {
    /// The models of the tokens being parsed.
    pub closed spec fn token_models(&self) -> Seq<Tok> {
        toks(self.tokens@)
    }

    /// Nothing has been parsed yet.
    pub closed spec fn fresh(&self) -> bool {
        self.current == 0 && self.stmts@.len() == 0
    }

    spec fn ts(&self) -> Seq<Tok> {
        toks(self.tokens@)
    }

    /// Same tokens, statements kept, and statements `added` appended.
    spec fn grew(old: Parser, new: Parser, added: Seq<StmtV>) -> bool {
        &&& new.tokens@ == old.tokens@
        &&& new.stmts@.len() == old.stmts@.len() + added.len()
        &&& forall|i: int| 0 <= i < old.stmts@.len() ==> new.stmts@[i] == old.stmts@[i]
        &&& forall|i: int|
            0 <= i < added.len() ==> stmt_view(#[trigger] new.stmts@[old.stmts@.len() + i]) == Some(
                added[i],
            )
    }

    pub fn new(tokens: Vec<Token>) -> (r: Self)
        ensures
            r.token_models() == toks(tokens@),
            r.fresh(),
    {
        Self { tokens, current: 0, stmts: Vec::new() }
    }

    fn advance(&mut self) -> (r: Option<&Token>)
        ensures
            old(self).current < old(self).tokens@.len() ==> r == Some(&old(self).tokens@[old(self).current as int]),
            old(self).current >= old(self).tokens@.len() ==> r is None,
            final(self).tokens == old(self).tokens,
            final(self).stmts == old(self).stmts,
            final(self).current == if old(self).current < old(self).tokens@.len() {
                old(self).current + 1
            } else {
                old(self).current as int
            },
    {
        if self.current < self.tokens.len() {
            self.current += 1;
            return Some(&self.tokens[self.current - 1]);
        }
        None
    }

    fn peek(&self) -> (r: Option<&Token>)
        ensures
            self.current < self.tokens@.len() ==> r == Some(&self.tokens@[self.current as int]),
            self.current >= self.tokens@.len() ==> r is None,
    {
        if self.current < self.tokens.len() {
            return Some(&self.tokens[self.current]);
        }
        None
    }

    fn expect(&mut self, expected: Token) -> (r: Result<(), ParserError>)
        ensures
            final(self).tokens == old(self).tokens,
            final(self).stmts == old(self).stmts,
            match expect_at(old(self).ts(), old(self).current as int, expected@) {
                Ok(j) => r is Ok && final(self).current == j,
                Err(e) => {
                    &&& r is Err
                    &&& r->Err_0@ == e
                    &&& final(self).current == if old(self).current < old(self).tokens@.len() {
                        old(self).current + 1
                    } else {
                        old(self).current as int
                    }
                },
            },
    {
        match self.peek() {
            Some(actual) => {
                if *actual == expected {
                    self.advance();
                    Ok(())
                } else {
                    let actual = actual.duplicate();
                    self.advance();
                    Err(ParserError::UnexpectedToken(expected, actual))
                }
            },
            None => Err(ParserError::UnexpectedEof),
        }
    }

    /// Parses the whole token sequence into a program node.
    pub fn parse(self) -> (r: Result<Node, ParserError>)
        requires
            self.fresh(),
        ensures
            parse_agrees(r, parse_tokens(self.token_models())),
    {
        let ghost ts = self.token_models();
        let mut parser = self;
        match parser.expect(Token::HoraDoShow) {
            Ok(()) => {},
            Err(e) => {
                return Err(e);
            },
        }
        let ghost mut acc: Seq<StmtV> = Seq::empty();
        assert(glue_stmts(acc, parse_tokens(ts)) == parse_tokens(ts)) by {
            if parse_tokens(ts) is Ok {
                assert(acc + parse_tokens(ts)->Ok_0 =~= parse_tokens(ts)->Ok_0);
            }
        }
        loop
            invariant
                ts == parser.ts(),
                ts == self.token_models(),
                parser.current <= ts.len(),
                stmts_are(parser.stmts@, acc),
                parse_tokens(ts) == glue_stmts(acc, stmts_from(ts, parser.current as int)),
            decreases ts.len() - parser.current,
        {
            let ghost before = parser;
            let ghost i = parser.current as int;
            let (is_end, is_print, is_return) = match parser.peek() {
                None => {
                    return Err(ParserError::UnexpectedEof);
                },
                Some(token) => (*token == Token::Birl, *token == Token::Print, *token == Token::Return),
            };
            if is_end {
                parser.advance();
                assert(acc + Seq::<StmtV>::empty() =~= acc);
                return Ok(Node::Program(parser.stmts));
            }
            parser.advance();
            let r = if is_print {
                parser.parse_print_stmt()
            } else if is_return {
                parser.parse_return_stmt()
            } else {
                return Err(ParserError::InvalidStartOfStmt);
            };
            match r {
                Ok(()) => {},
                Err(e) => {
                    return Err(e);
                },
            }
            proof {
                let st = if is_print {
                    print_at(ts, i + 1)->Ok_0.0
                } else {
                    return_at(ts, i + 1)->Ok_0.0
                };
                lemma_glue_stmts_push(acc, st, stmts_from(ts, parser.current as int));
                assert(stmt_view(parser.stmts@[before.stmts@.len() as int + 0]) == Some(st));
                assert(stmts_are(parser.stmts@, acc.push(st)));
                acc = acc.push(st);
            }
        }
    }

    fn parse_print_stmt(&mut self) -> (r: Result<(), ParserError>)
        requires
            old(self).current <= old(self).tokens@.len(),
        ensures
            match print_at(old(self).ts(), old(self).current as int) {
                Ok((st, j)) => {
                    &&& r is Ok
                    &&& final(self).current == j
                    &&& Parser::grew(*old(self), *final(self), seq![st])
                },
                Err(e) => r is Err && r->Err_0@ == e,
            },
    {
        match self.expect(Token::Lparen) {
            Ok(()) => {},
            Err(e) => {
                return Err(e);
            },
        }
        let node = match self.peek() {
            None => {
                return Err(ParserError::UnexpectedEof);
            },
            Some(t) => match t {
                Token::BirlString(s) => Stmt::print(s.as_str()),
                _ => {
                    return Err(
                        ParserError::UnexpectedToken(Token::BirlString(String::new()), t.duplicate()),
                    );
                },
            },
        };
        self.advance();
        self.stmts.push(node);
        match self.expect(Token::Rparen) {
            Ok(()) => {},
            Err(e) => {
                return Err(e);
            },
        }
        match self.expect(Token::Semicolon) {
            Ok(()) => {},
            Err(e) => {
                return Err(e);
            },
        }
        Ok(())
    }

    fn parse_return_stmt(&mut self) -> (r: Result<(), ParserError>)
        requires
            old(self).current <= old(self).tokens@.len(),
        ensures
            match return_at(old(self).ts(), old(self).current as int) {
                Ok((st, j)) => {
                    &&& r is Ok
                    &&& final(self).current == j
                    &&& Parser::grew(*old(self), *final(self), seq![st])
                },
                Err(e) => r is Err && r->Err_0@ == e,
            },
    {
        let value = match self.parse_expr() {
            Ok(v) => v,
            Err(e) => {
                return Err(e);
            },
        };
        match self.expect(Token::Semicolon) {
            Ok(()) => {},
            Err(e) => {
                return Err(e);
            },
        }
        self.stmts.push(Stmt::return_(value));
        Ok(())
    }

    fn parse_expr(&mut self) -> (r: Result<Box<Node>, ParserError>)
        ensures
            final(self).tokens == old(self).tokens,
            final(self).stmts == old(self).stmts,
            match expr_at(old(self).ts(), old(self).current as int) {
                Ok(x) => {
                    &&& r is Ok
                    &&& final(self).current == old(self).current + 1
                    &&& match *r->Ok_0 {
                        Node::Expr(e) => e@ == x,
                        _ => false,
                    }
                },
                Err(e) => r is Err && r->Err_0@ == e,
            },
    {
        let expr = match self.peek() {
            Some(Token::BirlString(s)) => Box::new(Node::Expr(Expr::String(s.clone()))),
            Some(Token::Number(n)) => Box::new(Node::Expr(Expr::Number(*n))),
            Some(_) => {
                return Err(ParserError::InvalidStartOfExpr);
            },
            None => {
                return Err(ParserError::UnexpectedEof);
            },
        };
        self.advance();
        Ok(expr)
    }
}

} // verus!
