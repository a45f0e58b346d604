use vstd::prelude::*;
use crate::ast::{Expr, spec_parse_op, STAR, SLASH, PLUS, MINUS, CARET, LPAREN, RPAREN};

verus! {

/// A decimal digit byte.
pub open spec fn is_digit(b: u8) -> bool {
    48 <= b && b <= 57
}

/// Insignificant whitespace: a space or a tab.
pub open spec fn is_space(b: u8) -> bool {
    b == 32 || b == 9
}

/// First position at or after `pos` that does not hold whitespace.
pub open spec fn spec_skip_spaces(s: Seq<u8>, pos: int) -> int
    decreases s.len() - pos,
{
    if 0 <= pos < s.len() && is_space(s[pos]) {
        spec_skip_spaces(s, pos + 1)
    } else {
        pos
    }
}

/// First position at or after `pos` that does not hold a digit.
pub open spec fn spec_skip_digits(s: Seq<u8>, pos: int) -> int
    decreases s.len() - pos,
{
    if 0 <= pos < s.len() && is_digit(s[pos]) {
        spec_skip_digits(s, pos + 1)
    } else {
        pos
    }
}

/// The value of a digit string read as a decimal numeral.
pub open spec fn dec_val(ds: Seq<u8>) -> int
    decreases ds.len(),
{
    if ds.len() == 0 {
        0
    } else {
        dec_val(ds.drop_last()) * 10 + (ds.last() - 48)
    }
}

/// The grammar, as a deterministic recursive-descent reading of the input.
/// Each rule takes the byte string and a start position and yields either the
/// expression read together with the position just past it (trailing
/// whitespace consumed), or the position at which matching failed.
///
/// `number := space* digit+ space*`, rejected when the numeral exceeds
/// `u64::MAX`.
pub open spec fn spec_number(s: Seq<u8>, pos: int) -> Result<(Expr, int), int> {
    let p = spec_skip_spaces(s, pos);
    let q = spec_skip_digits(s, p);
    if q == p {
        Err(p)
    } else if dec_val(s.subrange(p, q)) > u64::MAX {
        Err(p)
    } else {
        Ok((Expr::Num(dec_val(s.subrange(p, q)) as u64), spec_skip_spaces(s, q)))
    }
}

/// `parens := space* '(' expr ')' space*`.
///
/// Here and below, the comparisons of positions before each recursive use
/// keep the definitions well founded; the executable parser's contracts
/// show that positions only move forward, so those comparisons always hold.
pub open spec fn spec_parens(s: Seq<u8>, pos: int) -> Result<(Expr, int), int>
    decreases s.len() - pos, 0int,
{
    let p = spec_skip_spaces(s, pos);
    if pos <= p && p < s.len() && s[p] == LPAREN {
        match spec_math_expr(s, p + 1) {
            Ok((e, q)) => {
                if q < s.len() && s[q] == RPAREN {
                    Ok((e, spec_skip_spaces(s, q + 1)))
                } else {
                    Err(q)
                }
            },
            Err(f) => Err(f),
        }
    } else {
        Err(p)
    }
}

/// `atom := parens | number`, an ordered choice: the number alternative is
/// read only where the parenthesis alternative fails, and a failure reports
/// the position the number alternative reached.
pub open spec fn spec_operation(s: Seq<u8>, pos: int) -> Result<(Expr, int), int>
    decreases s.len() - pos, 1int,
{
    match spec_parens(s, pos) {
        Ok(t) => Ok(t),
        Err(_) => spec_number(s, pos),
    }
}

/// `factor := atom ('^' factor)?`: right-associative by right recursion.
/// A `'^'` whose right-hand factor fails to match is left unconsumed.
pub open spec fn spec_factor(s: Seq<u8>, pos: int) -> Result<(Expr, int), int>
    decreases s.len() - pos, 2int,
{
    match spec_operation(s, pos) {
        Err(f) => Err(f),
        Ok((e1, p)) => {
            if pos <= p && p < s.len() && s[p] == CARET {
                match spec_factor(s, p + 1) {
                    Ok((e2, q)) => Ok((spec_parse_op(CARET, e1, e2), q)),
                    Err(_) => Ok((e1, p)),
                }
            } else {
                Ok((e1, p))
            }
        },
    }
}

/// Zero or more `('/' | '*') factor` steps folded leftward onto `acc`.
/// A step whose factor fails to match ends the sequence with its operator
/// left unconsumed.
pub open spec fn spec_term_rest(s: Seq<u8>, acc: Expr, pos: int) -> (Expr, int)
    decreases s.len() - pos, 3int,
{
    if pos < s.len() && (s[pos] == SLASH || s[pos] == STAR) {
        match spec_factor(s, pos + 1) {
            Ok((e2, q)) => {
                if pos < q && q <= s.len() {
                    spec_term_rest(s, spec_parse_op(s[pos], acc, e2), q)
                } else {
                    (acc, pos)
                }
            },
            Err(_) => (acc, pos),
        }
    } else {
        (acc, pos)
    }
}

/// `term := factor (('/' | '*') factor)*`, left-associative.
pub open spec fn spec_term(s: Seq<u8>, pos: int) -> Result<(Expr, int), int>
    decreases s.len() - pos, 4int,
{
    match spec_factor(s, pos) {
        Err(f) => Err(f),
        Ok((e1, p)) => {
            if pos < p && p <= s.len() {
                Ok(spec_term_rest(s, e1, p))
            } else {
                Ok((e1, p))
            }
        },
    }
}

/// Zero or more `('+' | '-') term` steps folded leftward onto `acc`.
pub open spec fn spec_math_rest(s: Seq<u8>, acc: Expr, pos: int) -> (Expr, int)
    decreases s.len() - pos, 5int,
{
    if pos < s.len() && (s[pos] == PLUS || s[pos] == MINUS) {
        match spec_term(s, pos + 1) {
            Ok((e2, q)) => {
                if pos < q && q <= s.len() {
                    spec_math_rest(s, spec_parse_op(s[pos], acc, e2), q)
                } else {
                    (acc, pos)
                }
            },
            Err(_) => (acc, pos),
        }
    } else {
        (acc, pos)
    }
}

/// `expr := term (('+' | '-') term)*`, left-associative.
pub open spec fn spec_math_expr(s: Seq<u8>, pos: int) -> Result<(Expr, int), int>
    decreases s.len() - pos, 6int,
{
    match spec_term(s, pos) {
        Err(f) => Err(f),
        Ok((e1, p)) => {
            if pos < p && p <= s.len() {
                Ok(spec_math_rest(s, e1, p))
            } else {
                Ok((e1, p))
            }
        },
    }
}

/// A whole line: the expression rule, with every byte of the line consumed.
/// `Err` carries the position from which the input was not understood.
pub open spec fn spec_parse(s: Seq<u8>) -> Result<Expr, int> {
    match spec_math_expr(s, 0) {
        Ok((e, p)) => {
            if p == s.len() {
                Ok(e)
            } else {
                Err(p)
            }
        },
        Err(f) => Err(f),
    }
}

/// A chain of `(operator, operand)` pairs folded leftward onto `e`, so that
/// the earliest operator sits deepest in the tree.
pub open spec fn spec_fold(e: Expr, rem: Seq<(u8, Expr)>) -> Expr
    decreases rem.len(),
{
    if rem.len() == 0 {
        e
    } else {
        spec_fold(spec_parse_op(rem[0].0, e, rem[0].1), rem.drop_first())
    }
}

/// An executable parsing step agrees with its specification counterpart.
pub open spec fn res_agrees(r: Result<(Expr, usize), usize>, m: Result<(Expr, int), int>) -> bool {
    match (r, m) {
        (Ok((e, q)), Ok((me, mq))) => e == me && q as int == mq,
        (Err(f), Err(mf)) => f as int == mf,
        _ => false,
    }
}

pub proof fn lemma_skip_spaces(s: Seq<u8>, pos: int)
    requires
        0 <= pos <= s.len(),
    ensures
        pos <= spec_skip_spaces(s, pos) <= s.len(),
        forall|j: int| pos <= j < spec_skip_spaces(s, pos) ==> is_space(s[j]),
        spec_skip_spaces(s, pos) == s.len() || !is_space(s[spec_skip_spaces(s, pos)]),
    decreases s.len() - pos,
{
    if pos < s.len() && is_space(s[pos]) {
        lemma_skip_spaces(s, pos + 1);
    }
}

pub proof fn lemma_skip_digits(s: Seq<u8>, pos: int)
    requires
        0 <= pos <= s.len(),
    ensures
        pos <= spec_skip_digits(s, pos) <= s.len(),
        forall|j: int| pos <= j < spec_skip_digits(s, pos) ==> is_digit(s[j]),
        spec_skip_digits(s, pos) == s.len() || !is_digit(s[spec_skip_digits(s, pos)]),
    decreases s.len() - pos,
{
    if pos < s.len() && is_digit(s[pos]) {
        lemma_skip_digits(s, pos + 1);
    }
}

pub proof fn lemma_dec_val_nonneg(ds: Seq<u8>)
    requires
        forall|j: int| 0 <= j < ds.len() ==> is_digit(ds[j]),
    ensures
        0 <= dec_val(ds),
    decreases ds.len(),
{
    if ds.len() > 0 {
        assert(forall|j: int| 0 <= j < ds.drop_last().len() ==> is_digit(ds.drop_last()[j]));
        lemma_dec_val_nonneg(ds.drop_last());
    }
}

/// Reading more digits never shrinks the value: the numeral `s[p..i]` is at
/// most the numeral `s[p..q]` when `i <= q`.
pub proof fn lemma_dec_val_mono(s: Seq<u8>, p: int, i: int, q: int)
    requires
        0 <= p <= i <= q <= s.len(),
        forall|j: int| p <= j < q ==> is_digit(s[j]),
    ensures
        dec_val(s.subrange(p, i)) <= dec_val(s.subrange(p, q)),
    decreases q - i,
{
    if i < q {
        assert(forall|j: int| 0 <= j < s.subrange(p, i).len() ==> is_digit(s.subrange(p, i)[j]));
        lemma_dec_val_nonneg(s.subrange(p, i));
        assert(s.subrange(p, i + 1).drop_last() =~= s.subrange(p, i));
        assert(dec_val(s.subrange(p, i + 1)) == dec_val(s.subrange(p, i)) * 10 + (s[i] - 48));
        lemma_dec_val_mono(s, p, i + 1, q);
    } else {
        assert(s.subrange(p, i) =~= s.subrange(p, q));
    }
}

/// Folding one more pair onto a chain applies its operator outermost.
pub proof fn lemma_fold_push(e: Expr, rem: Seq<(u8, Expr)>, x: (u8, Expr))
    ensures
        spec_fold(e, rem.push(x)) == spec_parse_op(x.0, spec_fold(e, rem), x.1),
    decreases rem.len(),
{
    if rem.len() == 0 {
        assert(rem.push(x)[0] == x);
        assert(rem.push(x).drop_first() =~= Seq::<(u8, Expr)>::empty());
        assert(spec_fold(e, rem.push(x)) == spec_fold(spec_parse_op(x.0, e, x.1), Seq::<(u8, Expr)>::empty()));
    } else {
        assert(rem.push(x)[0] == rem[0]);
        assert(rem.push(x).drop_first() =~= rem.drop_first().push(x));
        lemma_fold_push(spec_parse_op(rem[0].0, e, rem[0].1), rem.drop_first(), x);
    }
}

} // verus!
