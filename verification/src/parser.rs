use vstd::prelude::*;
use vstd::slice::{slice_index_get, slice_subrange, slice_to_vec};
use crate::ast::{Expr, SyntaxError, parse_op, is_op_byte, STAR, SLASH, PLUS, MINUS, CARET, LPAREN, RPAREN};
use crate::grammar::{is_digit, is_space, spec_skip_spaces, spec_skip_digits, dec_val, spec_number, spec_parens, spec_operation, spec_factor, spec_term_rest, spec_term, spec_math_rest, spec_math_expr, spec_parse, spec_fold, res_agrees, lemma_dec_val_mono, lemma_fold_push};

verus! {

/// Consumes whitespace: returns the first position at or after `pos` that
/// holds no space or tab.
fn skip_spaces(s: &[u8], pos: usize) -> (r: usize)
    requires
        pos <= s@.len(),
    ensures
        r as int == spec_skip_spaces(s@, pos as int),
        pos <= r <= s@.len(),
{
    let mut i = pos;
    loop
        invariant
            pos <= i <= s@.len(),
            spec_skip_spaces(s@, pos as int) == spec_skip_spaces(s@, i as int),
        ensures
            pos <= i <= s@.len(),
            spec_skip_spaces(s@, pos as int) == spec_skip_spaces(s@, i as int),
            i == s@.len() || !is_space(s@[i as int]),
        decreases s@.len() - i,
    {
        if i == s.len() {
            break;
        }
        let b = *slice_index_get(s, i);
        if !(b == 32 || b == 9) {
            break;
        }
        i = i + 1;
    }
    i
}

/// Consumes a digit run: returns the first position at or after `pos` that
/// holds no decimal digit.
fn skip_digits(s: &[u8], pos: usize) -> (r: usize)
    requires
        pos <= s@.len(),
    ensures
        r as int == spec_skip_digits(s@, pos as int),
        pos <= r <= s@.len(),
        forall|j: int| pos <= j < r ==> is_digit(s@[j]),
{
    let mut i = pos;
    loop
        invariant
            pos <= i <= s@.len(),
            spec_skip_digits(s@, pos as int) == spec_skip_digits(s@, i as int),
            forall|j: int| pos <= j < i ==> is_digit(s@[j]),
        ensures
            pos <= i <= s@.len(),
            spec_skip_digits(s@, pos as int) == spec_skip_digits(s@, i as int),
            forall|j: int| pos <= j < i ==> is_digit(s@[j]),
            i == s@.len() || !is_digit(s@[i as int]),
        decreases s@.len() - i,
    {
        if i == s.len() {
            break;
        }
        let b = *slice_index_get(s, i);
        if !(48 <= b && b <= 57) {
            break;
        }
        i = i + 1;
    }
    i
}

/// Converts the digit run `s[lo..hi]` to a numeric leaf; `None` when the
/// numeral does not fit in a `u64`.
pub(crate) fn parse_num_str(s: &[u8], lo: usize, hi: usize) -> (r: Option<Expr>)
    requires
        lo <= hi <= s@.len(),
        forall|j: int| lo <= j < hi ==> is_digit(s@[j]),
    ensures
        dec_val(s@.subrange(lo as int, hi as int)) <= u64::MAX
            ==> r == Some(Expr::Num(dec_val(s@.subrange(lo as int, hi as int)) as u64)),
        dec_val(s@.subrange(lo as int, hi as int)) > u64::MAX ==> r is None,
{
    let mut val: u64 = 0;
    let mut i = lo;
    while i < hi
        invariant
            lo <= i <= hi <= s@.len(),
            forall|j: int| lo <= j < hi ==> is_digit(s@[j]),
            val as int == dec_val(s@.subrange(lo as int, i as int)),
        decreases hi - i,
    {
        assert(is_digit(s@[i as int]));
        let d: u8 = *slice_index_get(s, i) - 48;
        proof {
            assert(s@.subrange(lo as int, i + 1).drop_last() =~= s@.subrange(lo as int, i as int));
            assert(dec_val(s@.subrange(lo as int, i + 1))
                == dec_val(s@.subrange(lo as int, i as int)) * 10 + (s@[i as int] - 48));
        }
        if val > (u64::MAX - (d as u64)) / 10 {
            proof {
                lemma_dec_val_mono(s@, lo as int, i + 1, hi as int);
            }
            return None;
        }
        val = val * 10 + (d as u64);
        i = i + 1;
    }
    proof {
        assert(s@.subrange(lo as int, hi as int) =~= s@.subrange(lo as int, i as int));
    }
    Some(Expr::Num(val))
}

/// `number := space* digit+ space*`, yielding a numeric leaf.
pub(crate) fn parse_number(s: &[u8], pos: usize) -> (r: Result<(Expr, usize), usize>)
    requires
        pos <= s@.len(),
    ensures
        res_agrees(r, spec_number(s@, pos as int)),
        r matches Ok(t) ==> pos < t.1 <= s@.len(),
        r matches Err(f) ==> pos <= f <= s@.len(),
{
    let p = skip_spaces(s, pos);
    let q = skip_digits(s, p);
    if q == p {
        return Err(p);
    }
    match parse_num_str(s, p, q) {
        Some(e) => {
            let r2 = skip_spaces(s, q);
            Ok((e, r2))
        },
        None => Err(p),
    }
}

/// `parens := space* '(' expr ')' space*`.
pub(crate) fn parse_parens(s: &[u8], pos: usize) -> (r: Result<(Expr, usize), usize>)
    requires
        pos <= s@.len(),
    ensures
        res_agrees(r, spec_parens(s@, pos as int)),
        r matches Ok(t) ==> pos < t.1 <= s@.len(),
        r matches Err(f) ==> pos <= f <= s@.len(),
    decreases s@.len() - pos, 0int,
{
    let p = skip_spaces(s, pos);
    if p < s.len() {
        let b = *slice_index_get(s, p);
        if b == LPAREN {
            match parse_math_expr(s, p + 1) {
                Ok((e, q)) => {
                    if q < s.len() {
                        let c = *slice_index_get(s, q);
                        if c == RPAREN {
                            let r2 = skip_spaces(s, q + 1);
                            return Ok((e, r2));
                        }
                    }
                    return Err(q);
                },
                Err(f) => {
                    return Err(f);
                },
            }
        }
    }
    Err(p)
}

/// `atom := parens | number`: the number alternative is tried only where the
/// parenthesis alternative fails, and a failure reports the position the
/// number alternative reached.
pub(crate) fn parse_operation(s: &[u8], pos: usize) -> (r: Result<(Expr, usize), usize>)
    requires
        pos <= s@.len(),
    ensures
        res_agrees(r, spec_operation(s@, pos as int)),
        r matches Ok(t) ==> pos < t.1 <= s@.len(),
        r matches Err(f) ==> pos <= f <= s@.len(),
    decreases s@.len() - pos, 1int,
{
    match parse_parens(s, pos) {
        Ok(t) => Ok(t),
        Err(_) => parse_number(s, pos),
    }
}

/// `factor := atom ('^' factor)?`: right-associative by right recursion.
pub(crate) fn parse_factor(s: &[u8], pos: usize) -> (r: Result<(Expr, usize), usize>)
    requires
        pos <= s@.len(),
    ensures
        res_agrees(r, spec_factor(s@, pos as int)),
        r matches Ok(t) ==> pos < t.1 <= s@.len(),
        r matches Err(f) ==> pos <= f <= s@.len(),
    decreases s@.len() - pos, 2int,
{
    match parse_operation(s, pos) {
        Err(f) => Err(f),
        Ok((e1, p)) => {
            if p < s.len() {
                let b = *slice_index_get(s, p);
                if b == CARET {
                    match parse_factor(s, p + 1) {
                        Ok((e2, q)) => {
                            return Ok((parse_op((CARET, e2), e1), q));
                        },
                        Err(_) => {
                            return Ok((e1, p));
                        },
                    }
                }
            }
            Ok((e1, p))
        },
    }
}

/// Folds a chain of `(operator, operand)` pairs leftward onto `expr`, one
/// node per pair, so `a - b - c` groups as `(a - b) - c`.
pub(crate) fn parse_expr(expr: Expr, rem: Vec<(u8, Expr)>) -> (r: Expr)
    requires
        forall|j: int| 0 <= j < rem@.len() ==> is_op_byte(rem@[j].0),
    ensures
        r == spec_fold(expr, rem@),
{
    let ghost target = spec_fold(expr, rem@);
    let mut acc = expr;
    let mut rem = rem;
    while rem.len() > 0
        invariant
            forall|j: int| 0 <= j < rem@.len() ==> is_op_byte(rem@[j].0),
            spec_fold(acc, rem@) == target,
        decreases rem@.len(),
    {
        let ghost rem0 = rem@;
        let (op, e2) = rem.remove(0);
        proof {
            assert(rem0.remove(0) =~= rem0.drop_first());
        }
        acc = parse_op((op, e2), acc);
    }
    acc
}

/// `term := factor (('/' | '*') factor)*`, left-associative: the pairs read
/// by the loop are folded leftward onto the first factor.
pub(crate) fn parse_term(s: &[u8], pos: usize) -> (r: Result<(Expr, usize), usize>)
    requires
        pos <= s@.len(),
    ensures
        res_agrees(r, spec_term(s@, pos as int)),
        r matches Ok(t) ==> pos < t.1 <= s@.len(),
        r matches Err(f) ==> pos <= f <= s@.len(),
    decreases s@.len() - pos, 4int,
{
    match parse_factor(s, pos) {
        Err(f) => Err(f),
        Ok((e1, p0)) => {
            let mut rem: Vec<(u8, Expr)> = Vec::new();
            let mut p = p0;
            loop
                invariant
                    pos < p0 <= p <= s@.len(),
                    forall|j: int| 0 <= j < rem@.len() ==> is_op_byte(rem@[j].0),
                    spec_term_rest(s@, e1, p0 as int)
                        == spec_term_rest(s@, spec_fold(e1, rem@), p as int),
                ensures
                    pos < p0 <= p <= s@.len(),
                    forall|j: int| 0 <= j < rem@.len() ==> is_op_byte(rem@[j].0),
                    spec_term_rest(s@, e1, p0 as int) == (spec_fold(e1, rem@), p as int),
                decreases s@.len() - p,
            {
                if p == s.len() {
                    break;
                }
                let b = *slice_index_get(s, p);
                if !(b == SLASH || b == STAR) {
                    break;
                }
                match parse_factor(s, p + 1) {
                    Ok((e2, q)) => {
                        proof {
                            lemma_fold_push(e1, rem@, (b, e2));
                        }
                        rem.push((b, e2));
                        p = q;
                    },
                    Err(_) => {
                        break;
                    },
                }
            }
            Ok((parse_expr(e1, rem), p))
        },
    }
}

/// `expr := term (('+' | '-') term)*`, left-associative.
pub(crate) fn parse_math_expr(s: &[u8], pos: usize) -> (r: Result<(Expr, usize), usize>)
    requires
        pos <= s@.len(),
    ensures
        res_agrees(r, spec_math_expr(s@, pos as int)),
        r matches Ok(t) ==> pos < t.1 <= s@.len(),
        r matches Err(f) ==> pos <= f <= s@.len(),
    decreases s@.len() - pos, 6int,
{
    match parse_term(s, pos) {
        Err(f) => Err(f),
        Ok((e1, p0)) => {
            let mut rem: Vec<(u8, Expr)> = Vec::new();
            let mut p = p0;
            loop
                invariant
                    pos < p0 <= p <= s@.len(),
                    forall|j: int| 0 <= j < rem@.len() ==> is_op_byte(rem@[j].0),
                    spec_math_rest(s@, e1, p0 as int)
                        == spec_math_rest(s@, spec_fold(e1, rem@), p as int),
                ensures
                    pos < p0 <= p <= s@.len(),
                    forall|j: int| 0 <= j < rem@.len() ==> is_op_byte(rem@[j].0),
                    spec_math_rest(s@, e1, p0 as int) == (spec_fold(e1, rem@), p as int),
                decreases s@.len() - p,
            {
                if p == s.len() {
                    break;
                }
                let b = *slice_index_get(s, p);
                if !(b == PLUS || b == MINUS) {
                    break;
                }
                match parse_term(s, p + 1) {
                    Ok((e2, q)) => {
                        proof {
                            lemma_fold_push(e1, rem@, (b, e2));
                        }
                        rem.push((b, e2));
                        p = q;
                    },
                    Err(_) => {
                        break;
                    },
                }
            }
            Ok((parse_expr(e1, rem), p))
        },
    }
}

/// Parses one line as an arithmetic expression. `Ok` exactly where the whole
/// line matches the grammar; otherwise the error carries the unconsumed
/// suffix of the line from the position where matching failed.
pub fn parse(input: &[u8]) -> (r: Result<Expr, SyntaxError>)
    ensures
        r matches Ok(e) ==> spec_parse(input@) == Ok::<Expr, int>(e),
        r matches Err(err) ==> spec_parse(input@) matches Err(f)
            && err.remainder@ == input@.subrange(f, input@.len() as int),
{
    match parse_math_expr(input, 0) {
        Ok((e, p)) => {
            if p == input.len() {
                Ok(e)
            } else {
                Err(SyntaxError { remainder: slice_to_vec(slice_subrange(input, p, input.len())) })
            }
        },
        Err(f) => {
            Err(SyntaxError { remainder: slice_to_vec(slice_subrange(input, f, input.len())) })
        },
    }
}

} // verus!
