use vstd::prelude::*;
use crate::ast::{Expr, spec_parse_op, STAR, SLASH, PLUS, MINUS, CARET, LPAREN};
use crate::grammar::{is_digit, is_space, spec_skip_spaces, spec_skip_digits, dec_val, spec_number, spec_parens, spec_operation, spec_factor, spec_term_rest, spec_term, spec_math_rest, spec_math_expr, spec_parse, lemma_skip_spaces, lemma_skip_digits};

verus! {

/// Whitespace around a numeral is insignificant: a line made of spaces, a
/// digit run `s[p..q)` and spaces parses to the numeric leaf holding the
/// run's standard decimal value, exactly as the bare run does.
pub proof fn lemma_spaces_around_number(s: Seq<u8>, p: int, q: int)
    requires
        0 <= p < q <= s.len(),
        forall|i: int| 0 <= i < p ==> is_space(s[i]),
        forall|i: int| p <= i < q ==> is_digit(s[i]),
        forall|i: int| q <= i < s.len() ==> is_space(s[i]),
        dec_val(s.subrange(p, q)) <= u64::MAX,
    ensures
        spec_parse(s) == Ok::<Expr, int>(Expr::Num(dec_val(s.subrange(p, q)) as u64)),
{
    let len = s.len() as int;
    let v = Expr::Num(dec_val(s.subrange(p, q)) as u64);
    lemma_skip_spaces(s, 0);
    let w = spec_skip_spaces(s, 0);
    if w < p {
        assert(is_space(s[w]));
    }
    if w > p {
        assert(is_space(s[p]));
    }
    assert(w == p);
    lemma_skip_digits(s, p);
    let k = spec_skip_digits(s, p);
    if k < q {
        assert(is_digit(s[k]));
    }
    if k > q {
        assert(is_digit(s[q]));
    }
    assert(k == q);
    lemma_skip_spaces(s, q);
    let w2 = spec_skip_spaces(s, q);
    if w2 < len {
        assert(is_space(s[w2]));
    }
    assert(w2 == len);
    assert(spec_number(s, 0) == Ok::<(Expr, int), int>((v, len)));
    assert(s[p] != LPAREN);
    assert(spec_parens(s, 0) == Err::<(Expr, int), int>(p));
    assert(spec_operation(s, 0) == Ok::<(Expr, int), int>((v, len)));
    assert(spec_factor(s, 0) == Ok::<(Expr, int), int>((v, len)));
    assert(spec_term(s, 0) == Ok::<(Expr, int), int>((v, len)));
    assert(spec_math_expr(s, 0) == Ok::<(Expr, int), int>((v, len)));
}

/// A line that is nothing but digits parses to the numeric leaf holding its
/// standard decimal value, for every such line whose value fits in a `u64`.
pub proof fn lemma_parse_digits(s: Seq<u8>)
    requires
        s.len() > 0,
        forall|i: int| 0 <= i < s.len() ==> is_digit(s[i]),
        dec_val(s) <= u64::MAX,
    ensures
        spec_parse(s) == Ok::<Expr, int>(Expr::Num(dec_val(s) as u64)),
{
    let len = s.len() as int;
    assert(s.subrange(0, len) =~= s);
    lemma_spaces_around_number(s, 0, len);
}

/// A digit run `s[p..q)` that the line end or a non-digit, non-space byte
/// bounds reads as one number token ending exactly at `q`.
proof fn lemma_number_token(s: Seq<u8>, p: int, q: int)
    requires
        0 <= p < q <= s.len(),
        forall|i: int| p <= i < q ==> is_digit(s[i]),
        q == s.len() || (!is_digit(s[q]) && !is_space(s[q])),
        dec_val(s.subrange(p, q)) <= u64::MAX,
    ensures
        spec_number(s, p) == Ok::<(Expr, int), int>((
            Expr::Num(dec_val(s.subrange(p, q)) as u64),
            q,
        )),
{
    assert(is_digit(s[p]));
    assert(!is_space(s[p]));
    assert(spec_skip_spaces(s, p) == p);
    lemma_skip_digits(s, p);
    let k = spec_skip_digits(s, p);
    if k < q {
        assert(is_digit(s[k]));
    }
    if k > q {
        assert(is_digit(s[q]));
    }
    assert(k == q);
    assert(spec_skip_spaces(s, q) == q);
}

/// As `lemma_number_token`, one grammar level up: the parenthesis
/// alternative fails on the digit, so the atom is the number.
proof fn lemma_atom_token(s: Seq<u8>, p: int, q: int)
    requires
        0 <= p < q <= s.len(),
        forall|i: int| p <= i < q ==> is_digit(s[i]),
        q == s.len() || (!is_digit(s[q]) && !is_space(s[q])),
        dec_val(s.subrange(p, q)) <= u64::MAX,
    ensures
        spec_operation(s, p) == Ok::<(Expr, int), int>((
            Expr::Num(dec_val(s.subrange(p, q)) as u64),
            q,
        )),
{
    lemma_number_token(s, p, q);
    assert(is_digit(s[p]));
    assert(!is_space(s[p]));
    assert(spec_skip_spaces(s, p) == p);
    assert(s[p] != LPAREN);
    assert(spec_parens(s, p) == Err::<(Expr, int), int>(p));
}

/// As `lemma_atom_token` for the factor rule: nothing follows that a `'^'`
/// step could consume.
proof fn lemma_factor_token(s: Seq<u8>, p: int, q: int)
    requires
        0 <= p < q <= s.len(),
        forall|i: int| p <= i < q ==> is_digit(s[i]),
        q == s.len() || (!is_digit(s[q]) && !is_space(s[q]) && s[q] != CARET),
        dec_val(s.subrange(p, q)) <= u64::MAX,
    ensures
        spec_factor(s, p) == Ok::<(Expr, int), int>((
            Expr::Num(dec_val(s.subrange(p, q)) as u64),
            q,
        )),
{
    lemma_atom_token(s, p, q);
}

/// As `lemma_factor_token` for the term rule: nothing follows that a
/// multiplicative step could consume either.
proof fn lemma_term_token(s: Seq<u8>, p: int, q: int)
    requires
        0 <= p < q <= s.len(),
        forall|i: int| p <= i < q ==> is_digit(s[i]),
        q == s.len()
            || (!is_digit(s[q]) && !is_space(s[q]) && s[q] != CARET && s[q] != SLASH && s[q]
            != STAR),
        dec_val(s.subrange(p, q)) <= u64::MAX,
    ensures
        spec_term(s, p) == Ok::<(Expr, int), int>((
            Expr::Num(dec_val(s.subrange(p, q)) as u64),
            q,
        )),
{
    lemma_factor_token(s, p, q);
    let e = Expr::Num(dec_val(s.subrange(p, q)) as u64);
    assert(spec_term_rest(s, e, q) == (e, q));
}

/// Operators of the additive level group leftward: a line made of a numeral,
/// an additive operator, a numeral, an additive operator and a numeral
/// parses as `(a o1 b) o2 c`, never as `a o1 (b o2 c)`. The numerals end at
/// `q1` and `q2`, the positions of the two operators.
pub proof fn lemma_additive_left_associative(s: Seq<u8>, q1: int, q2: int)
    requires
        0 < q1,
        q1 + 1 < q2,
        q2 + 1 < s.len(),
        forall|i: int| 0 <= i < q1 ==> is_digit(s[i]),
        forall|i: int| q1 + 1 <= i < q2 ==> is_digit(s[i]),
        forall|i: int| q2 + 1 <= i < s.len() ==> is_digit(s[i]),
        s[q1] == PLUS || s[q1] == MINUS,
        s[q2] == PLUS || s[q2] == MINUS,
        dec_val(s.subrange(0, q1)) <= u64::MAX,
        dec_val(s.subrange(q1 + 1, q2)) <= u64::MAX,
        dec_val(s.subrange(q2 + 1, s.len() as int)) <= u64::MAX,
    ensures
        spec_parse(s) == Ok::<Expr, int>(spec_parse_op(
            s[q2],
            spec_parse_op(
                s[q1],
                Expr::Num(dec_val(s.subrange(0, q1)) as u64),
                Expr::Num(dec_val(s.subrange(q1 + 1, q2)) as u64),
            ),
            Expr::Num(dec_val(s.subrange(q2 + 1, s.len() as int)) as u64),
        )),
{
    let len = s.len() as int;
    let va = Expr::Num(dec_val(s.subrange(0, q1)) as u64);
    let vb = Expr::Num(dec_val(s.subrange(q1 + 1, q2)) as u64);
    let vc = Expr::Num(dec_val(s.subrange(q2 + 1, len)) as u64);
    lemma_term_token(s, 0, q1);
    lemma_term_token(s, q1 + 1, q2);
    lemma_term_token(s, q2 + 1, len);
    let e1 = spec_parse_op(s[q1], va, vb);
    let e2 = spec_parse_op(s[q2], e1, vc);
    assert(spec_math_rest(s, va, q1) == spec_math_rest(s, e1, q2));
    assert(spec_math_rest(s, e1, q2) == spec_math_rest(s, e2, len));
    assert(spec_math_rest(s, e2, len) == (e2, len));
    assert(spec_math_expr(s, 0) == Ok::<(Expr, int), int>((e2, len)));
}

/// The power operator groups rightward: a line made of a numeral, `'^'`, a
/// numeral, `'^'` and a numeral parses as `a ^ (b ^ c)`, never as
/// `(a ^ b) ^ c`. The numerals end at `q1` and `q2`, the positions of the
/// two operators.
pub proof fn lemma_power_right_associative(s: Seq<u8>, q1: int, q2: int)
    requires
        0 < q1,
        q1 + 1 < q2,
        q2 + 1 < s.len(),
        forall|i: int| 0 <= i < q1 ==> is_digit(s[i]),
        forall|i: int| q1 + 1 <= i < q2 ==> is_digit(s[i]),
        forall|i: int| q2 + 1 <= i < s.len() ==> is_digit(s[i]),
        s[q1] == CARET,
        s[q2] == CARET,
        dec_val(s.subrange(0, q1)) <= u64::MAX,
        dec_val(s.subrange(q1 + 1, q2)) <= u64::MAX,
        dec_val(s.subrange(q2 + 1, s.len() as int)) <= u64::MAX,
    ensures
        spec_parse(s) == Ok::<Expr, int>(spec_parse_op(
            CARET,
            Expr::Num(dec_val(s.subrange(0, q1)) as u64),
            spec_parse_op(
                CARET,
                Expr::Num(dec_val(s.subrange(q1 + 1, q2)) as u64),
                Expr::Num(dec_val(s.subrange(q2 + 1, s.len() as int)) as u64),
            ),
        )),
{
    let len = s.len() as int;
    let va = Expr::Num(dec_val(s.subrange(0, q1)) as u64);
    let vb = Expr::Num(dec_val(s.subrange(q1 + 1, q2)) as u64);
    let vc = Expr::Num(dec_val(s.subrange(q2 + 1, len)) as u64);
    lemma_atom_token(s, 0, q1);
    lemma_atom_token(s, q1 + 1, q2);
    lemma_atom_token(s, q2 + 1, len);
    assert(spec_factor(s, q2 + 1) == Ok::<(Expr, int), int>((vc, len)));
    let inner = spec_parse_op(CARET, vb, vc);
    assert(spec_factor(s, q1 + 1) == Ok::<(Expr, int), int>((inner, len)));
    let outer = spec_parse_op(CARET, va, inner);
    assert(spec_factor(s, 0) == Ok::<(Expr, int), int>((outer, len)));
    assert(spec_term_rest(s, outer, len) == (outer, len));
    assert(spec_term(s, 0) == Ok::<(Expr, int), int>((outer, len)));
    assert(spec_math_rest(s, outer, len) == (outer, len));
    assert(spec_math_expr(s, 0) == Ok::<(Expr, int), int>((outer, len)));
}

/// Multiplicative operators bind tighter than additive ones: a line made of
/// a numeral, an additive operator, a numeral, a multiplicative operator and
/// a numeral parses as `a o1 (b o2 c)`, never as `(a o1 b) o2 c`. The
/// numerals end at `q1` and `q2`, the positions of the two operators.
pub proof fn lemma_multiplicative_binds_tighter(s: Seq<u8>, q1: int, q2: int)
    requires
        0 < q1,
        q1 + 1 < q2,
        q2 + 1 < s.len(),
        forall|i: int| 0 <= i < q1 ==> is_digit(s[i]),
        forall|i: int| q1 + 1 <= i < q2 ==> is_digit(s[i]),
        forall|i: int| q2 + 1 <= i < s.len() ==> is_digit(s[i]),
        s[q1] == PLUS || s[q1] == MINUS,
        s[q2] == STAR || s[q2] == SLASH,
        dec_val(s.subrange(0, q1)) <= u64::MAX,
        dec_val(s.subrange(q1 + 1, q2)) <= u64::MAX,
        dec_val(s.subrange(q2 + 1, s.len() as int)) <= u64::MAX,
    ensures
        spec_parse(s) == Ok::<Expr, int>(spec_parse_op(
            s[q1],
            Expr::Num(dec_val(s.subrange(0, q1)) as u64),
            spec_parse_op(
                s[q2],
                Expr::Num(dec_val(s.subrange(q1 + 1, q2)) as u64),
                Expr::Num(dec_val(s.subrange(q2 + 1, s.len() as int)) as u64),
            ),
        )),
{
    let len = s.len() as int;
    let va = Expr::Num(dec_val(s.subrange(0, q1)) as u64);
    let vb = Expr::Num(dec_val(s.subrange(q1 + 1, q2)) as u64);
    let vc = Expr::Num(dec_val(s.subrange(q2 + 1, len)) as u64);
    lemma_term_token(s, 0, q1);
    lemma_factor_token(s, q1 + 1, q2);
    lemma_factor_token(s, q2 + 1, len);
    let inner = spec_parse_op(s[q2], vb, vc);
    assert(spec_term_rest(s, vb, q2) == spec_term_rest(s, inner, len));
    assert(spec_term_rest(s, inner, len) == (inner, len));
    assert(spec_term(s, q1 + 1) == Ok::<(Expr, int), int>((inner, len)));
    let outer = spec_parse_op(s[q1], va, inner);
    assert(spec_math_rest(s, va, q1) == spec_math_rest(s, outer, len));
    assert(spec_math_rest(s, outer, len) == (outer, len));
    assert(spec_math_expr(s, 0) == Ok::<(Expr, int), int>((outer, len)));
}

} // verus!
