use vstd::prelude::*;
use vstd::pervasive::unreached;

verus! {

/// Operator and punctuation bytes of the grammar.
pub const PLUS: u8 = 43;

pub const MINUS: u8 = 45;

pub const STAR: u8 = 42;

pub const SLASH: u8 = 47;

pub const CARET: u8 = 94;

pub const LPAREN: u8 = 40;

pub const RPAREN: u8 = 41;

/// An arithmetic expression: a leaf holds an unsigned 64-bit literal, an
/// internal node holds a binary operator and owns its two operands.
#[derive(Debug, PartialEq)]
pub enum Expr {
    Num(u64),
    Add(Box<Expr>, Box<Expr>),
    Sub(Box<Expr>, Box<Expr>),
    Mul(Box<Expr>, Box<Expr>),
    Div(Box<Expr>, Box<Expr>),
    Pow(Box<Expr>, Box<Expr>),
}

/// Failure to match a line against the expression grammar. `remainder` is the
/// suffix of the input from the point where matching failed, kept for
/// diagnostics.
#[derive(Debug, PartialEq)]
pub struct SyntaxError {
    pub remainder: Vec<u8>,
}

/// The five operator characters of the grammar, as bytes.
pub open spec fn is_op_byte(op: u8) -> bool {
    op == PLUS || op == MINUS || op == STAR || op == SLASH || op == CARET
}

/// The node that an operator byte builds from two operands.
pub open spec fn spec_parse_op(op: u8, e1: Expr, e2: Expr) -> Expr {
    if op == PLUS {
        Expr::Add(Box::new(e1), Box::new(e2))
    } else if op == MINUS {
        Expr::Sub(Box::new(e1), Box::new(e2))
    } else if op == STAR {
        Expr::Mul(Box::new(e1), Box::new(e2))
    } else if op == SLASH {
        Expr::Div(Box::new(e1), Box::new(e2))
    } else if op == CARET {
        Expr::Pow(Box::new(e1), Box::new(e2))
    } else {
        e1
    }
}

/// Builds the node for one `(operator, right operand)` pair folded onto the
/// accumulated left operand `e1`. The operator set is closed, so the final
/// arm is unreachable.
pub fn parse_op(tup: (u8, Expr), e1: Expr) -> (r: Expr)
    requires
        is_op_byte(tup.0),
    ensures
        r == spec_parse_op(tup.0, e1, tup.1),
{
    let (op, e2) = tup;
    match op {
        PLUS => Expr::Add(Box::new(e1), Box::new(e2)),
        MINUS => Expr::Sub(Box::new(e1), Box::new(e2)),
        STAR => Expr::Mul(Box::new(e1), Box::new(e2)),
        SLASH => Expr::Div(Box::new(e1), Box::new(e2)),
        CARET => Expr::Pow(Box::new(e1), Box::new(e2)),
        _ => unreached(),
    }
}

} // verus!
