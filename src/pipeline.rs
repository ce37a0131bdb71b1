//! The whole pipeline: tokenize, parse, evaluate.
use crate::ast::{ExprV, Node, StmtV, is_program_of, stmt_view, stmts_are};
use crate::evaluator::{Evaluator, emitted, emitted_from};
use crate::lexer::{
    DIGIT_0, LPAREN, LexErr, Lexer, LexerError, QUOTE, RPAREN, SEMICOLON, glue, kw_end, kw_print,
    kw_return, kw_start, lemma_glue_concat, lemma_lex_from_suffix, lemma_scan_body, lex_from,
    tokenize, unescape, valid_body, all_filler, lemma_filler_prefix,
};
use crate::parser::{
    ParseErr, Parser, ParserError, lemma_parse_program_tokens, parse_tokens, program_tokens,
    stmt_tokens, stmts_tokens,
};
use crate::token::Tok;
use vstd::prelude::*;

verus! {

/// What a print statement writes; a return statement writes nothing.
pub open spec fn stmt_text(s: StmtV) -> Seq<char> {
    match s {
        StmtV::Print(t) => t,
        StmtV::Return(_) => Seq::empty(),
    }
}

/// What the statements `ss` write to the output sink, in order.
pub open spec fn printed(ss: Seq<StmtV>) -> Seq<char>
    decreases ss.len(),
{
    if ss.len() == 0 {
        Seq::empty()
    } else {
        stmt_text(ss[0]) + printed(ss.subrange(1, ss.len() as int))
    }
}

/// Evaluating the statement nodes of `ss` from index `i` on writes the
/// texts of their prints and no diagnostic.
pub proof fn lemma_emitted_stmts(v: Seq<Node>, ss: Seq<StmtV>, i: int)
    requires
        stmts_are(v, ss),
        0 <= i <= ss.len(),
    ensures
        emitted_from(v, i) == (printed(ss.subrange(i, ss.len() as int)), Seq::<char>::empty()),
    decreases ss.len() - i,
{
    if i < ss.len() {
        lemma_emitted_stmts(v, ss, i + 1);
        assert(stmt_view(v[i]) == Some(ss[i]));
        let rest = ss.subrange(i, ss.len() as int);
        assert(rest[0] == ss[i]);
        assert(rest.subrange(1, rest.len() as int) =~= ss.subrange(i + 1, ss.len() as int));
        assert(emitted(v[i]) == (stmt_text(ss[i]), Seq::<char>::empty()));
        assert(Seq::<char>::empty() + Seq::<char>::empty() =~= Seq::<char>::empty());
    } else {
        assert(ss.subrange(i, ss.len() as int) =~= Seq::<StmtV>::empty());
    }
}

/// Evaluating a program of statements `ss` writes what they print, and
/// nothing to the error sink.
pub proof fn lemma_program_output(n: Node, ss: Seq<StmtV>)
    requires
        is_program_of(n, ss),
    ensures
        emitted(n) == (printed(ss), Seq::<char>::empty()),
{
    if let Node::Program(v) = n {
        lemma_emitted_stmts(v@, ss, 0);
        assert(ss.subrange(0, ss.len() as int) =~= ss);
    }
}

/// A statement as written in a program's text: string bodies are the
/// characters between the quotes.
pub enum SourceStmt {
    Print(Seq<char>),
    ReturnString(Seq<char>),
    ReturnZero,
}

/// The statement's string bodies are ones the lexer accepts.
pub open spec fn valid_stmt(s: SourceStmt) -> bool {
    match s {
        SourceStmt::Print(b) => valid_body(b),
        SourceStmt::ReturnString(b) => valid_body(b),
        SourceStmt::ReturnZero => true,
    }
}

/// The statement that the parser builds from `s`.
pub open spec fn stmt_model(s: SourceStmt) -> StmtV {
    match s {
        SourceStmt::Print(b) => StmtV::Print(unescape(b)),
        SourceStmt::ReturnString(b) => StmtV::Return(ExprV::Str(unescape(b))),
        SourceStmt::ReturnZero => StmtV::Return(ExprV::Num(0)),
    }
}

/// The text of one statement, followed by a space.
pub open spec fn stmt_source(s: SourceStmt) -> Seq<char> {
    match s {
        SourceStmt::Print(b) => kw_print() + seq![' ', LPAREN, QUOTE] + b + seq![
            QUOTE,
            RPAREN,
            SEMICOLON,
            ' ',
        ],
        SourceStmt::ReturnString(b) => kw_return() + seq![' ', QUOTE] + b + seq![QUOTE, SEMICOLON, ' '],
        SourceStmt::ReturnZero => kw_return() + seq![' ', DIGIT_0, SEMICOLON, ' '],
    }
}

/// The text of the statements `ps`, one after the other.
pub open spec fn stmts_source(ps: Seq<SourceStmt>) -> Seq<char>
    decreases ps.len(),
{
    if ps.len() == 0 {
        Seq::empty()
    } else {
        stmt_source(ps[0]) + stmts_source(ps.subrange(1, ps.len() as int))
    }
}

/// The text of the program whose statements are `ps`.
pub open spec fn program_source(ps: Seq<SourceStmt>) -> Seq<char> {
    kw_start() + seq![' '] + stmts_source(ps) + kw_end()
}

/// The statements that the parser builds from `ps`.
pub open spec fn stmt_models(ps: Seq<SourceStmt>) -> Seq<StmtV> {
    ps.map_values(|s: SourceStmt| stmt_model(s))
}

proof fn lemma_lex_stmt(s: SourceStmt, rest: Seq<char>)
    requires
        valid_stmt(s),
    ensures
        lex_from(stmt_source(s) + rest, 0) == glue(stmt_tokens(stmt_model(s)), lex_from(rest, 0)),
{
    let src = stmt_source(s) + rest;
    let n = stmt_source(s).len() as int;
    lemma_lex_from_suffix(stmt_source(s), rest, 0);
    let r = lex_from(rest, 0);
    match s {
        SourceStmt::Print(b) => {
            let m = b.len() as int;
            assert(kw_print().len() == 23);
            assert(src.subrange(0, 23) =~= kw_print());
            assert(src[0] == 'C');
            assert(src[23] == ' ');
            assert(src[24] == LPAREN);
            assert(src[25] == QUOTE);
            assert(src.subrange(26, 26 + m) =~= b);
            assert(src[26 + m] == QUOTE);
            assert(src[27 + m] == RPAREN);
            assert(src[28 + m] == SEMICOLON);
            assert(src[29 + m] == ' ');
            assert(n == 30 + m);
            lemma_scan_body(src, 26, b);
            assert(lex_from(src, 29 + m) == r);
            assert(lex_from(src, 28 + m) == glue(seq![Tok::Semicolon], r));
            assert(lex_from(src, 27 + m) == glue(seq![Tok::Rparen], glue(seq![Tok::Semicolon], r)));
            lemma_glue_concat(seq![Tok::Rparen], seq![Tok::Semicolon], r);
            let t3 = seq![Tok::Rparen] + seq![Tok::Semicolon];
            assert(lex_from(src, 25) == glue(seq![Tok::BirlString(unescape(b))], glue(t3, r)));
            lemma_glue_concat(seq![Tok::BirlString(unescape(b))], t3, r);
            let t2 = seq![Tok::BirlString(unescape(b))] + t3;
            assert(lex_from(src, 24) == glue(seq![Tok::Lparen], glue(t2, r)));
            lemma_glue_concat(seq![Tok::Lparen], t2, r);
            let t1 = seq![Tok::Lparen] + t2;
            assert(lex_from(src, 23) == glue(t1, r));
            assert(lex_from(src, 0) == glue(seq![Tok::Print], glue(t1, r)));
            lemma_glue_concat(seq![Tok::Print], t1, r);
            assert(seq![Tok::Print] + t1 =~= stmt_tokens(stmt_model(s)));
        },
        SourceStmt::ReturnString(b) => {
            let m = b.len() as int;
            assert(kw_return().len() == 12);
            assert(src.subrange(0, 12) =~= kw_return());
            assert(src[0] == 'B');
            assert(src[1] == 'O');
            assert(src[12] == ' ');
            assert(src[13] == QUOTE);
            assert(src.subrange(14, 14 + m) =~= b);
            assert(src[14 + m] == QUOTE);
            assert(src[15 + m] == SEMICOLON);
            assert(src[16 + m] == ' ');
            assert(n == 17 + m);
            lemma_scan_body(src, 14, b);
            assert(lex_from(src, 16 + m) == r);
            assert(lex_from(src, 15 + m) == glue(seq![Tok::Semicolon], r));
            assert(lex_from(src, 13) == glue(seq![Tok::BirlString(unescape(b))], glue(seq![Tok::Semicolon], r)));
            lemma_glue_concat(seq![Tok::BirlString(unescape(b))], seq![Tok::Semicolon], r);
            let t1 = seq![Tok::BirlString(unescape(b))] + seq![Tok::Semicolon];
            assert(lex_from(src, 12) == glue(t1, r));
            assert(lex_from(src, 0) == glue(seq![Tok::Return], glue(t1, r)));
            lemma_glue_concat(seq![Tok::Return], t1, r);
            assert(seq![Tok::Return] + t1 =~= stmt_tokens(stmt_model(s)));
        },
        SourceStmt::ReturnZero => {
            assert(kw_return().len() == 12);
            assert(src.subrange(0, 12) =~= kw_return());
            assert(src[0] == 'B');
            assert(src[1] == 'O');
            assert(src[12] == ' ');
            assert(src[13] == DIGIT_0);
            assert(src[14] == SEMICOLON);
            assert(src[15] == ' ');
            assert(n == 16);
            assert(lex_from(src, 15) == r);
            assert(lex_from(src, 14) == glue(seq![Tok::Semicolon], r));
            assert(lex_from(src, 13) == glue(seq![Tok::Number(0)], glue(seq![Tok::Semicolon], r)));
            lemma_glue_concat(seq![Tok::Number(0)], seq![Tok::Semicolon], r);
            let t1 = seq![Tok::Number(0)] + seq![Tok::Semicolon];
            assert(lex_from(src, 12) == glue(t1, r));
            assert(lex_from(src, 0) == glue(seq![Tok::Return], glue(t1, r)));
            lemma_glue_concat(seq![Tok::Return], t1, r);
            assert(seq![Tok::Return] + t1 =~= stmt_tokens(stmt_model(s)));
        },
    }
}

proof fn lemma_lex_stmts(ps: Seq<SourceStmt>, tail: Seq<char>)
    requires
        forall|i: int| 0 <= i < ps.len() ==> valid_stmt(#[trigger] ps[i]),
    ensures
        lex_from(stmts_source(ps) + tail, 0) == glue(stmts_tokens(stmt_models(ps)), lex_from(tail, 0)),
    decreases ps.len(),
{
    let ms = stmt_models(ps);
    if ps.len() == 0 {
        assert(stmts_source(ps) + tail =~= tail);
        assert(ms.len() == 0);
        if lex_from(tail, 0) is Ok {
            assert(Seq::<Tok>::empty() + lex_from(tail, 0)->Ok_0 =~= lex_from(tail, 0)->Ok_0);
        }
    } else {
        let rest = ps.subrange(1, ps.len() as int);
        assert(valid_stmt(ps[0]));
        lemma_lex_stmts(rest, tail);
        let after = stmts_source(rest) + tail;
        assert(stmts_source(ps) + tail =~= stmt_source(ps[0]) + after);
        lemma_lex_stmt(ps[0], after);
        assert(ms[0] == stmt_model(ps[0]));
        assert(ms.subrange(1, ms.len() as int) =~= stmt_models(rest));
        lemma_glue_concat(
            stmt_tokens(stmt_model(ps[0])),
            stmts_tokens(stmt_models(rest)),
            lex_from(tail, 0),
        );
    }
}

/// Tokenizing the text of any program whose string bodies are valid, laid
/// out with one space after each statement, succeeds with the program's tokens, and parsing those succeeds with a
/// program of exactly its statements: as many as the text holds, in the
/// order they stand in.
pub proof fn lemma_valid_program_parses(ps: Seq<SourceStmt>)
    requires
        forall|i: int| 0 <= i < ps.len() ==> valid_stmt(#[trigger] ps[i]),
    ensures
        tokenize(program_source(ps)) == Ok::<Seq<Tok>, LexErr>(program_tokens(stmt_models(ps))),
        parse_tokens(program_tokens(stmt_models(ps))) == Ok::<Seq<StmtV>, ParseErr>(stmt_models(ps)),
        stmt_models(ps).len() == ps.len(),
{
    let src = program_source(ps);
    let head = kw_start() + seq![' '];
    let body = stmts_source(ps) + kw_end();
    assert(src =~= head + body);
    assert(kw_start().len() == 12);
    assert(src.subrange(0, 12) =~= kw_start());
    assert(src[0] == 'H');
    assert(src[12] == ' ');
    lemma_lex_from_suffix(head, body, 0);
    assert(lex_from(src, 13) == lex_from(body, 0));
    lemma_lex_stmts(ps, kw_end());
    let e = kw_end();
    assert(e[0] == 'B');
    assert(e[1] == 'I');
    assert(e.subrange(0, 4) =~= e);
    assert(lex_from(e, 4) == Ok::<Seq<Tok>, LexErr>(Seq::empty()));
    assert(lex_from(e, 0) == Ok::<Seq<Tok>, LexErr>(seq![Tok::Birl] + Seq::empty()));
    assert(seq![Tok::Birl] + Seq::<Tok>::empty() =~= seq![Tok::Birl]);
    let st = stmts_tokens(stmt_models(ps));
    assert(lex_from(src, 12) == lex_from(src, 13));
    assert(lex_from(src, 0) == glue(seq![Tok::HoraDoShow], Ok::<Seq<Tok>, LexErr>(st + seq![Tok::Birl])));
    assert(seq![Tok::HoraDoShow] + (st + seq![Tok::Birl]) =~= program_tokens(stmt_models(ps)));
    lemma_parse_program_tokens(stmt_models(ps));
}

/// A program of one print statement writes exactly the decoded text of its
/// string literal to the output sink, and nothing to the error sink.
pub proof fn lemma_one_print_program(x: Seq<char>)
    requires
        valid_body(x),
    ensures
        ({
            let ss = parse_tokens(tokenize(program_source(seq![SourceStmt::Print(x)]))->Ok_0);
            &&& tokenize(program_source(seq![SourceStmt::Print(x)])) is Ok
            &&& ss is Ok
            &&& printed(ss->Ok_0) == unescape(x)
        }),
{
    let ps = seq![SourceStmt::Print(x)];
    assert(valid_stmt(ps[0]));
    lemma_valid_program_parses(ps);
    let ms = stmt_models(ps);
    assert(ms.len() == 1);
    assert(ms[0] == StmtV::Print(unescape(x)));
    assert(ms.subrange(1, 1) =~= Seq::<StmtV>::empty());
    assert(printed(ms.subrange(1, 1)) == Seq::<char>::empty());
    assert(printed(ms) == unescape(x) + printed(ms.subrange(1, 1)));
    assert(unescape(x) + Seq::<char>::empty() =~= unescape(x));
}

/// A program of one return statement with a number literal parses to that
/// one statement, and evaluating it writes nothing to either sink.
pub proof fn lemma_return_number_program()
    ensures
        ({
            let ss = parse_tokens(tokenize(program_source(seq![SourceStmt::ReturnZero]))->Ok_0);
            &&& tokenize(program_source(seq![SourceStmt::ReturnZero])) is Ok
            &&& ss == Ok::<Seq<StmtV>, ParseErr>(seq![StmtV::Return(ExprV::Num(0))])
            &&& printed(ss->Ok_0) == Seq::<char>::empty()
        }),
{
    let ps = seq![SourceStmt::ReturnZero];
    assert(valid_stmt(ps[0]));
    lemma_valid_program_parses(ps);
    let ms = stmt_models(ps);
    assert(ms.len() == 1);
    assert(ms =~= seq![StmtV::Return(ExprV::Num(0))]);
    assert(ms.subrange(1, 1) =~= Seq::<StmtV>::empty());
    assert(printed(ms.subrange(1, 1)) == Seq::<char>::empty());
    assert(printed(ms) == Seq::<char>::empty() + printed(ms.subrange(1, 1)));
    assert(Seq::<char>::empty() + Seq::<char>::empty() =~= Seq::<char>::empty());
}

/// Why a program could not be run.
#[derive(Debug)]
pub enum PipelineError {
    Lex(LexerError),
    Parse(ParserError),
}

/// Tokenizes, parses and evaluates `code`; on success, returns what the
/// program wrote to the output sink and to the error sink.
pub fn run(code: &str) -> (r: Result<(String, String), PipelineError>)
    ensures
        match tokenize(code@) {
            Err(e) => r matches Err(PipelineError::Lex(x)) && x@ == e,
            Ok(ts) => match parse_tokens(ts) {
                Err(e) => r matches Err(PipelineError::Parse(x)) && x@ == e,
                Ok(ss) => r matches Ok((out, err)) && out@ == printed(ss) && err@ == Seq::<char>::empty(),
            },
        },
{
    let tokens = match Lexer::new(code).lex() {
        Ok(t) => t,
        Err(e) => {
            return Err(PipelineError::Lex(e));
        },
    };
    let ast = match Parser::new(tokens).parse() {
        Ok(a) => a,
        Err(e) => {
            return Err(PipelineError::Parse(e));
        },
    };
    let ghost n = ast;
    let ghost ss = parse_tokens(tokenize(code@)->Ok_0)->Ok_0;
    proof {
        lemma_program_output(n, ss);
    }
    let mut evaluator = Evaluator::new();
    evaluator.eval(ast);
    assert(Seq::<char>::empty() + printed(ss) =~= printed(ss));
    assert(Seq::<char>::empty() + Seq::<char>::empty() =~= Seq::<char>::empty());
    Ok(evaluator.into_sinks())
}

} // verus!

verus! {

/// One lexical unit as written: a fixed text that gives a token, or a
/// string literal given by its body.
pub enum Piece {
    Word(Seq<char>, Tok),
    Str(Seq<char>),
}

pub open spec fn piece_text(pc: Piece) -> Seq<char> {
    match pc {
        Piece::Word(t, _) => t,
        Piece::Str(b) => seq![QUOTE] + b + seq![QUOTE],
    }
}

pub open spec fn piece_tok(pc: Piece) -> Tok {
    match pc {
        Piece::Word(_, t) => t,
        Piece::Str(b) => Tok::BirlString(unescape(b)),
    }
}

/// A keyword or punctuation with its own token, or a valid string literal.
pub open spec fn valid_piece(pc: Piece) -> bool {
    match pc {
        Piece::Word(t, k) => {
            ||| t == kw_start() && k == Tok::HoraDoShow
            ||| t == kw_print() && k == Tok::Print
            ||| t == kw_end() && k == Tok::Birl
            ||| t == kw_return() && k == Tok::Return
            ||| t == seq![LPAREN] && k == Tok::Lparen
            ||| t == seq![RPAREN] && k == Tok::Rparen
            ||| t == seq![SEMICOLON] && k == Tok::Semicolon
            ||| t == seq![DIGIT_0] && k == Tok::Number(0)
        },
        Piece::Str(b) => valid_body(b),
    }
}

/// The pieces `pcs`, each followed by the filler run of the same index.
pub open spec fn laid_out(pcs: Seq<Piece>, ws: Seq<Seq<char>>) -> Seq<char>
    decreases pcs.len(),
{
    if pcs.len() == 0 || ws.len() == 0 {
        Seq::empty()
    } else {
        piece_text(pcs[0]) + ws[0] + laid_out(pcs.subrange(1, pcs.len() as int), ws.subrange(1, ws.len() as int))
    }
}

proof fn lemma_piece_front(pc: Piece, rest: Seq<char>)
    requires
        valid_piece(pc),
    ensures
        lex_from(piece_text(pc) + rest, 0) == glue(seq![piece_tok(pc)], lex_from(rest, 0)),
{
    let t = piece_text(pc);
    let s = t + rest;
    lemma_lex_from_suffix(t, rest, 0);
    match pc {
        Piece::Word(w, k) => {
            assert(kw_start().len() == 12);
            assert(kw_print().len() == 23);
            assert(kw_end().len() == 4);
            assert(kw_return().len() == 12);
            assert(s.subrange(0, w.len() as int) =~= w);
            assert(s[0] == w[0]);
            assert(s[1] == w[1] || w.len() < 2);
        },
        Piece::Str(b) => {
            let m = b.len() as int;
            assert(s[0] == QUOTE);
            assert(s.subrange(1, 1 + m) =~= b);
            assert(s[1 + m] == QUOTE);
            lemma_scan_body(s, 1, b);
        },
    }
}

proof fn lemma_laid_out(pcs: Seq<Piece>, ws: Seq<Seq<char>>, rest: Seq<char>)
    requires
        ws.len() == pcs.len(),
        forall|i: int| 0 <= i < pcs.len() ==> valid_piece(#[trigger] pcs[i]),
        forall|i: int| 0 <= i < ws.len() ==> all_filler(#[trigger] ws[i]),
    ensures
        lex_from(laid_out(pcs, ws) + rest, 0) == glue(pcs.map_values(|pc: Piece| piece_tok(pc)), lex_from(rest, 0)),
    decreases pcs.len(),
{
    let toks = pcs.map_values(|pc: Piece| piece_tok(pc));
    if pcs.len() == 0 {
        assert(laid_out(pcs, ws) + rest =~= rest);
        assert(toks =~= Seq::<Tok>::empty());
        if lex_from(rest, 0) is Ok {
            assert(Seq::<Tok>::empty() + lex_from(rest, 0)->Ok_0 =~= lex_from(rest, 0)->Ok_0);
        }
    } else {
        let p1 = pcs.subrange(1, pcs.len() as int);
        let w1 = ws.subrange(1, ws.len() as int);
        let after = laid_out(p1, w1) + rest;
        assert(valid_piece(pcs[0]));
        assert(all_filler(ws[0]));
        lemma_laid_out(p1, w1, rest);
        assert(laid_out(pcs, ws) + rest =~= piece_text(pcs[0]) + (ws[0] + after));
        lemma_piece_front(pcs[0], ws[0] + after);
        lemma_filler_prefix(ws[0], after);
        lemma_glue_concat(seq![piece_tok(pcs[0])], p1.map_values(|pc: Piece| piece_tok(pc)), lex_from(rest, 0));
        assert(seq![piece_tok(pcs[0])] + p1.map_values(|pc: Piece| piece_tok(pc)) =~= toks);
    }
}

/// The pieces of one statement.
pub open spec fn stmt_pieces(s: SourceStmt) -> Seq<Piece> {
    let semi = Piece::Word(seq![SEMICOLON], Tok::Semicolon);
    match s {
        SourceStmt::Print(b) => seq![
            Piece::Word(kw_print(), Tok::Print),
            Piece::Word(seq![LPAREN], Tok::Lparen),
            Piece::Str(b),
            Piece::Word(seq![RPAREN], Tok::Rparen),
            semi,
        ],
        SourceStmt::ReturnString(b) => seq![Piece::Word(kw_return(), Tok::Return), Piece::Str(b), semi],
        SourceStmt::ReturnZero => seq![
            Piece::Word(kw_return(), Tok::Return),
            Piece::Word(seq![DIGIT_0], Tok::Number(0)),
            semi,
        ],
    }
}

pub open spec fn stmts_pieces(ps: Seq<SourceStmt>) -> Seq<Piece>
    decreases ps.len(),
{
    if ps.len() == 0 {
        Seq::empty()
    } else {
        stmt_pieces(ps[0]) + stmts_pieces(ps.subrange(1, ps.len() as int))
    }
}

/// The pieces of the program whose statements are `ps`.
pub open spec fn program_pieces(ps: Seq<SourceStmt>) -> Seq<Piece> {
    seq![Piece::Word(kw_start(), Tok::HoraDoShow)] + stmts_pieces(ps) + seq![
        Piece::Word(kw_end(), Tok::Birl),
    ]
}

proof fn lemma_stmts_pieces(ps: Seq<SourceStmt>)
    requires
        forall|i: int| 0 <= i < ps.len() ==> valid_stmt(#[trigger] ps[i]),
    ensures
        stmts_pieces(ps).map_values(|pc: Piece| piece_tok(pc)) == stmts_tokens(stmt_models(ps)),
        forall|i: int| 0 <= i < stmts_pieces(ps).len() ==> valid_piece(#[trigger] stmts_pieces(ps)[i]),
    decreases ps.len(),
{
    if ps.len() == 0 {
        assert(stmts_pieces(ps).map_values(|pc: Piece| piece_tok(pc)) =~= Seq::<Tok>::empty());
        assert(stmt_models(ps).len() == 0);
    } else {
        let rest = ps.subrange(1, ps.len() as int);
        assert(valid_stmt(ps[0]));
        lemma_stmts_pieces(rest);
        let a = stmt_pieces(ps[0]);
        let b = stmts_pieces(rest);
        assert(stmt_models(ps)[0] == stmt_model(ps[0]));
        assert(stmt_models(ps).subrange(1, ps.len() as int) =~= stmt_models(rest));
        assert(a.map_values(|pc: Piece| piece_tok(pc)) =~= stmt_tokens(stmt_model(ps[0])));
        assert((a + b).map_values(|pc: Piece| piece_tok(pc)) =~= a.map_values(|pc: Piece| piece_tok(pc))
            + b.map_values(|pc: Piece| piece_tok(pc)));
        assert forall|i: int| 0 <= i < (a + b).len() implies valid_piece(#[trigger] (a + b)[i]) by {
            if i >= a.len() {
                assert((a + b)[i] == b[i - a.len()]);
            }
        }
    }
}

/// Whatever filler stands before, between and after its tokens, the text of
/// any program whose string bodies are valid tokenizes to the program's
/// tokens, and parsing those gives exactly its statements: as many as the
/// text holds, in the order they stand in.
pub proof fn lemma_any_layout_parses(ps: Seq<SourceStmt>, w0: Seq<char>, ws: Seq<Seq<char>>)
    requires
        forall|i: int| 0 <= i < ps.len() ==> valid_stmt(#[trigger] ps[i]),
        all_filler(w0),
        ws.len() == program_pieces(ps).len(),
        forall|i: int| 0 <= i < ws.len() ==> all_filler(#[trigger] ws[i]),
    ensures
        tokenize(w0 + laid_out(program_pieces(ps), ws)) == Ok::<Seq<Tok>, LexErr>(
            program_tokens(stmt_models(ps)),
        ),
        parse_tokens(program_tokens(stmt_models(ps))) == Ok::<Seq<StmtV>, ParseErr>(stmt_models(ps)),
        stmt_models(ps).len() == ps.len(),
{
    let pcs = program_pieces(ps);
    let sp = stmts_pieces(ps);
    lemma_stmts_pieces(ps);
    assert forall|i: int| 0 <= i < pcs.len() implies valid_piece(#[trigger] pcs[i]) by {
        if 1 <= i < 1 + sp.len() {
            assert(pcs[i] == sp[i - 1]);
        }
    }
    let text = laid_out(pcs, ws);
    lemma_laid_out(pcs, ws, Seq::empty());
    assert(text + Seq::<char>::empty() =~= text);
    lemma_filler_prefix(w0, text);
    assert(lex_from(Seq::<char>::empty(), 0) == Ok::<Seq<Tok>, LexErr>(Seq::empty()));
    let tk = pcs.map_values(|pc: Piece| piece_tok(pc));
    assert(tk + Seq::<Tok>::empty() =~= tk);
    assert(tk =~= program_tokens(stmt_models(ps)));
    lemma_parse_program_tokens(stmt_models(ps));
}

} // verus!
