//! The tree-walking evaluator. It writes to two sinks held as text: the
//! output, which receives what print statements say, and the error sink,
//! which receives diagnostics. A caller moves their contents to real
//! streams.
use crate::ast::{Node, Stmt};
use vstd::prelude::*;

verus! {

/// What evaluating `n` appends to the output sink (first) and to the error
/// sink (second).
pub open spec fn emitted(n: Node) -> (Seq<char>, Seq<char>)
    decreases n, 0int,
{
    match n {
        Node::Program(v) => emitted_from(v@, 0),
        Node::Stmt(Stmt::PrintStmt { format }) => (format@, Seq::empty()),
        Node::Stmt(Stmt::ReturnStmt { .. }) => (Seq::empty(), Seq::empty()),
        Node::Expr(_) => (Seq::empty(), "invalid start of statement"@),
    }
}

/// What evaluating the nodes `s[i..]` in order appends to the two sinks.
pub open spec fn emitted_from(s: Seq<Node>, i: int) -> (Seq<char>, Seq<char>)
    decreases s, s.len() - i,
{
    if i < 0 || i >= s.len() {
        (Seq::empty(), Seq::empty())
    } else {
        let a = emitted(s[i]);
        let b = emitted_from(s, i + 1);
        (a.0 + b.0, a.1 + b.1)
    }
}

/// Evaluates syntax trees, collecting what they write.
pub struct Evaluator {
    output_writer: String,
    error_writer: String,
}

impl Evaluator {
    /// What has been written to the output sink.
    pub closed spec fn out(&self) -> Seq<char> {
        self.output_writer@
    }

    /// What has been written to the error sink.
    pub closed spec fn err(&self) -> Seq<char> {
        self.error_writer@
    }

    /// An evaluator whose sinks are empty.
    pub fn new() -> (r: Self)
        ensures
            r.out() == Seq::<char>::empty(),
            r.err() == Seq::<char>::empty(),
    {
        Self { output_writer: String::new(), error_writer: String::new() }
    }

    /// The contents of the output sink.
    pub fn output(&self) -> (r: &str)
        ensures
            r@ == self.out(),
    {
        self.output_writer.as_str()
    }

    /// The contents of the error sink.
    pub fn errors(&self) -> (r: &str)
        ensures
            r@ == self.err(),
    {
        self.error_writer.as_str()
    }

    /// Hands back the output sink and the error sink.
    pub fn into_sinks(self) -> (r: (String, String))
        ensures
            r.0@ == self.out(),
            r.1@ == self.err(),
    {
        (self.output_writer, self.error_writer)
    }

    /// Evaluates `ast`, appending what it writes to the sinks.
    pub fn eval(&mut self, ast: Node)
        ensures
            final(self).out() == old(self).out() + emitted(ast).0,
            final(self).err() == old(self).err() + emitted(ast).1,
    {
        self.eval_node(&ast);
    }

    fn eval_node(&mut self, ast: &Node)
        ensures
            final(self).out() == old(self).out() + emitted(*ast).0,
            final(self).err() == old(self).err() + emitted(*ast).1,
        decreases ast,
    {
        match ast {
            Node::Program(stmts) => {
                let ghost o0 = self.output_writer@;
                let ghost e0 = self.error_writer@;
                let mut i: usize = 0;
                assert(o0 =~= o0 + Seq::<char>::empty());
                assert(e0 =~= e0 + Seq::<char>::empty());
                while i < stmts.len()
                    invariant
                        *ast == Node::Program(*stmts),
                        i <= stmts@.len(),
                        o0 + emitted_from(stmts@, 0).0 == self.output_writer@ + emitted_from(stmts@, i as int).0,
                        e0 + emitted_from(stmts@, 0).1 == self.error_writer@ + emitted_from(stmts@, i as int).1,
                    decreases stmts@.len() - i,
                {
                    let ghost o1 = self.output_writer@;
                    let ghost e1 = self.error_writer@;
                    let ghost a = emitted(stmts@[i as int]);
                    let ghost b = emitted_from(stmts@, i + 1);
                    proof {
                        assert(decreases_to!(*stmts => stmts[i as int]));
                        assert(decreases_to!(*ast => ast->Program_0));
                    }
                    self.eval_node(&stmts[i]);
                    assert(o1 + (a.0 + b.0) =~= (o1 + a.0) + b.0);
                    assert(e1 + (a.1 + b.1) =~= (e1 + a.1) + b.1);
                    i += 1;
                }
                assert(self.output_writer@ =~= self.output_writer@ + Seq::<char>::empty());
                assert(self.error_writer@ =~= self.error_writer@ + Seq::<char>::empty());
            },
            Node::Stmt(stmt) => self.do_eval_stmt(stmt),
            Node::Expr(_) => self.error_writer.append("invalid start of statement"),
        }
    }

    fn do_eval_stmt(&mut self, stmt: &Stmt)
        ensures
            final(self).out() == old(self).out() + emitted(Node::Stmt(*stmt)).0,
            final(self).err() == old(self).err() + emitted(Node::Stmt(*stmt)).1,
    {
        match stmt {
            Stmt::PrintStmt { format } => self.do_eval_print_stmt(format.as_str()),
            Stmt::ReturnStmt { .. } => {
                assert(self.output_writer@ =~= self.output_writer@ + Seq::<char>::empty());
                assert(self.error_writer@ =~= self.error_writer@ + Seq::<char>::empty());
            },
        }
    }

    /// Writes `format` to the output sink as it is.
    pub fn do_eval_print_stmt(&mut self, format: &str)
        ensures
            final(self).out() == old(self).out() + format@,
            final(self).err() == old(self).err(),
    {
        self.output_writer.append(format);
    }
}

} // verus!
