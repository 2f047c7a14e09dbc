//! Expressions.
use vstd::prelude::*;

use crate::value::{Value, ValueView};

verus! {

#[derive(Debug, Clone, Copy, PartialEq, Eq, Structural)]
pub enum UnaryOp {
    Neg,
    Pos,
    Not,
}

#[derive(Debug, Clone, Copy, PartialEq, Eq, Structural)]
pub enum BinaryOp {
    Add,
    Sub,
    Mul,
    Div,
    Pow,
    Eq,
    Ne,
    Lt,
    Le,
    Gt,
    Ge,
    And,
    Or,
}

/// An expression.
#[derive(Debug, PartialEq)]
pub enum Expr {
    Value(Value),
    Variable(String),
    Unary(UnaryOp, Box<Expr>),
    Binary(BinaryOp, Box<Expr>, Box<Expr>),
    FunctionCall {
        name: String,
        /// The number of valid arguments that a function such as `MEAN.3` asks for.
        min_valid: Option<usize>,
        args: Vec<Expr>,
    },
}

/// What an [`Expr`] holds.
#[verifier::ext_equal]
pub enum ExprView {
    Value(ValueView),
    Variable(Seq<char>),
    Unary(UnaryOp, Box<ExprView>),
    Binary(BinaryOp, Box<ExprView>, Box<ExprView>),
    FunctionCall { name: Seq<char>, min_valid: Option<usize>, args: Seq<ExprView> },
}

/// What an expression holds.
pub open spec fn expr_view(e: Expr) -> ExprView
    decreases e,
{
    match e {
        Expr::Value(v) => ExprView::Value(v@),
        Expr::Variable(name) => ExprView::Variable(name@),
        Expr::Unary(op, a) => ExprView::Unary(op, Box::new(expr_view(*a))),
        Expr::Binary(op, a, b) => ExprView::Binary(
            op,
            Box::new(expr_view(*a)),
            Box::new(expr_view(*b)),
        ),
        Expr::FunctionCall { name, min_valid, args } => ExprView::FunctionCall {
            name: name@,
            min_valid,
            args: Seq::new(
                args@.len(),
                |i: int|
                    if 0 <= i < args.len() {
                        expr_view(args[i])
                    } else {
                        arbitrary()
                    },
            ),
        },
    }
}

impl View for Expr {
    type V = ExprView;

    open spec fn view(&self) -> ExprView {
        expr_view(*self)
    }
}

impl Expr {
    /// A copy of the expression.
    pub fn copy(&self) -> (r: Expr)
        ensures
            r@ == self@,
        decreases self,
    {
        match self {
            Expr::Value(v) => Expr::Value(v.clone()),
            Expr::Variable(name) => Expr::Variable(name.clone()),
            Expr::Unary(op, a) => Expr::Unary(*op, Box::new(a.copy())),
            Expr::Binary(op, a, b) => Expr::Binary(*op, Box::new(a.copy()), Box::new(b.copy())),
            Expr::FunctionCall { name, min_valid, args } => {
                let mut copies: Vec<Expr> = Vec::new();
                let mut i: usize = 0;
                while i < args.len()
                    invariant
                        i <= args.len(),
                        self is FunctionCall,
                        self->args == args,
                        copies@.len() == i,
                        forall|k: int| 0 <= k < i ==> (#[trigger] copies@[k])@ == args@[k]@,
                    decreases args.len() - i,
                {
                    copies.push(args[i].copy());
                    i = i + 1;
                }
                let r = Expr::FunctionCall {
                    name: name.clone(),
                    min_valid: *min_valid,
                    args: copies,
                };
                proof {
                    assert(r@->args =~= self@->args);
                }
                r
            },
        }
    }
}

impl Clone for Expr {
    fn clone(&self) -> (r: Self)
        ensures
            r@ == self@,
    {
        self.copy()
    }
}

} // verus!
