//! The syntax tree built by the parser, and the model of its statements.
use vstd::prelude::*;

verus! {

/// A node of the syntax tree.
#[derive(Debug)]
pub enum Node {
    Program(Vec<Node>),
    Stmt(Stmt),
    Expr(Expr),
}

/// A statement.
#[derive(Debug)]
pub enum Stmt {
    PrintStmt { format: String },
    ReturnStmt { value: Box<Node> },
}

/// A literal expression.
#[derive(Debug)]
pub enum Expr {
    String(String),
    Number(i64),
}

/// The model of an expression.
pub enum ExprV {
    Str(Seq<char>),
    Num(int),
}

/// The model of a statement.
pub enum StmtV {
    Print(Seq<char>),
    Return(ExprV),
}

impl View for Expr {
    type V = ExprV;

    open spec fn view(&self) -> ExprV {
        match self {
            Expr::String(s) => ExprV::Str(s@),
            Expr::Number(n) => ExprV::Num(*n as int),
        }
    }
}

/// The statement that `n` stands for, if it is a statement node whose
/// returned value, if any, is an expression node.
pub open spec fn stmt_view(n: Node) -> Option<StmtV> {
    match n {
        Node::Stmt(Stmt::PrintStmt { format }) => Some(StmtV::Print(format@)),
        Node::Stmt(Stmt::ReturnStmt { value }) => match *value {
            Node::Expr(e) => Some(StmtV::Return(e@)),
            _ => None,
        },
        _ => None,
    }
}

/// The nodes `v` are the statements `ss`, in order.
pub open spec fn stmts_are(v: Seq<Node>, ss: Seq<StmtV>) -> bool {
    &&& v.len() == ss.len()
    &&& forall|i: int| 0 <= i < ss.len() ==> stmt_view(#[trigger] v[i]) == Some(ss[i])
}

/// `n` is a program whose children are the statements `ss`, in order.
pub open spec fn is_program_of(n: Node, ss: Seq<StmtV>) -> bool {
    match n {
        Node::Program(v) => stmts_are(v@, ss),
        _ => false,
    }
}

impl Node {
    /// The children of a program node.
    pub fn stmts(&self) -> (r: Option<&Vec<Node>>)
        ensures
            match self {
                Node::Program(v) => r == Some(v),
                _ => r is None,
            },
    {
        if let Node::Program(stmts) = self {
            return Some(stmts);
        }
        None
    }
}

impl Stmt {
    /// A print statement node holding `format`.
    pub fn print(format: &str) -> (r: Node)
        ensures
            stmt_view(r) == Some(StmtV::Print(format@)),
    {
        Node::Stmt(Stmt::PrintStmt { format: format.to_string() })
    }

    /// A return statement node holding `value`.
    pub fn return_(value: Box<Node>) -> (r: Node)
        ensures
            r == Node::Stmt(Stmt::ReturnStmt { value }),
    {
        Node::Stmt(Stmt::ReturnStmt { value })
    }
}

} // verus!
