//! The syntax tree that the parser builds and the evaluator walks.
use vstd::prelude::*;

verus! {

/// Why a parse failed.
#[derive(Debug, PartialEq)]
pub enum ParseError<'a> {
    /// The input ended where a character was required.
    Empty,
    /// A required character class was not matched by this character.
    InvalidChar(char),
    /// A composed token failed its final validation (a number literal out of range).
    InvalidSequence(&'a str),
}

/// A binary operator.
#[derive(Clone, Copy, Debug, PartialEq, Eq, Structural)]
pub enum BinOp {
    Add,
    Sub,
    Mul,
    Div,
    Mod,
    Pow,
}

/// An arithmetic expression; identifiers are stored in lower case.
#[derive(Debug, PartialEq)]
pub enum Expr {
    Number(i64),
    Binary(BinOp, Box<Expr>, Box<Expr>),
    Call(String, Vec<Expr>),
    Var(String),
}

/// A whole input line: a binding or a bare expression.
#[derive(Debug, PartialEq)]
pub enum Statement {
    Assign(String, Expr),
    Expr(Expr),
}

/// The mathematical content of an [`Expr`]: names as character sequences
/// and arguments as a sequence.
pub enum ExprModel {
    Number(i64),
    Binary(BinOp, Box<ExprModel>, Box<ExprModel>),
    Call(Seq<char>, Seq<ExprModel>),
    Var(Seq<char>),
}

/// The mathematical content of a [`Statement`].
pub enum StatementModel {
    Assign(Seq<char>, ExprModel),
    Expr(ExprModel),
}

/// The mathematical content of a [`ParseError`].
pub enum ErrorModel {
    Empty,
    InvalidChar(char),
    InvalidSequence(Seq<char>),
}

/// The models of a sequence of expressions, element by element.
pub open spec fn models(s: Seq<Expr>) -> Seq<ExprModel>
    decreases s,
{
    if s.len() == 0 {
        Seq::empty()
    } else {
        models(s.drop_last()).push(s.last().model())
    }
}

impl Expr {
    pub open spec fn model(self) -> ExprModel
        decreases self,
    {
        match self {
            Expr::Number(v) => ExprModel::Number(v),
            Expr::Binary(op, l, r) => ExprModel::Binary(op, Box::new(l.model()), Box::new(r.model())),
            Expr::Call(name, args) => ExprModel::Call(name@, models(args@)),
            Expr::Var(name) => ExprModel::Var(name@),
        }
    }
}

impl View for Expr {
    type V = ExprModel;

    open spec fn view(&self) -> ExprModel {
        self.model()
    }
}

impl View for Statement {
    type V = StatementModel;

    open spec fn view(&self) -> StatementModel {
        match self {
            Statement::Assign(name, e) => StatementModel::Assign(name@, e@),
            Statement::Expr(e) => StatementModel::Expr(e@),
        }
    }
}

impl<'a> View for ParseError<'a> {
    type V = ErrorModel;

    open spec fn view(&self) -> ErrorModel {
        match self {
            ParseError::Empty => ErrorModel::Empty,
            ParseError::InvalidChar(c) => ErrorModel::InvalidChar(*c),
            ParseError::InvalidSequence(s) => ErrorModel::InvalidSequence(s@),
        }
    }
}

pub proof fn lemma_models(s: Seq<Expr>)
    ensures
        models(s).len() == s.len(),
        forall|i: int| 0 <= i < s.len() ==> #[trigger] models(s)[i] == s[i]@,
    decreases s.len(),
{
    if s.len() > 0 {
        lemma_models(s.drop_last());
    }
}

} // verus!
