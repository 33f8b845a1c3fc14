//! The grammar, as functions from the input characters to what a parse
//! yields: the characters left over and a tree, or an error.
//!
//! ```text
//! statement := name '=' expr | expr
//! expr      := term (('+' | '-') term)*
//! term      := pow (('*' | '/' | '%') pow)*
//! pow       := factor ('^' pow)?
//! factor    := name call-args? | number | '(' expr ')'
//! call-args := '(' expr (',' expr)* ')'
//! name      := (letter | '_') (letter | digit | '_')*
//! number    := '-'? digit+
//! ```
//!
//! Alternatives are tried in order. White space may stand at every token
//! boundary. A binary operator looks past white space, and when none
//! follows, the white space stays unconsumed. A literal needs at least one
//! digit, so a lone `.` or `-` is no number, and a literal whose value does
//! not fit in `i64` is an invalid sequence rather than a mismatch.
use crate::arith::checked;
use crate::ast::{BinOp, ErrorModel, ExprModel, StatementModel};
use crate::chars::{ascii_lower_seq, is_digit, is_name_char, is_name_start, lemma_skip_space, lemma_span_bound, skip_space, span};
use vstd::prelude::*;

verus! {

pub type Parsed<X> = Result<(Seq<char>, X), ErrorModel>;

/// The error for input `s` where a character satisfying a class was required.
pub open spec fn mismatch(s: Seq<char>) -> ErrorModel {
    if s.len() == 0 {
        ErrorModel::Empty
    } else {
        ErrorModel::InvalidChar(s[0])
    }
}

/// `s` after the required character `ch`.
pub open spec fn expect(s: Seq<char>, ch: char) -> Result<Seq<char>, ErrorModel> {
    if s.len() > 0 && s[0] == ch {
        Ok(s.drop_first())
    } else {
        Err(mismatch(s))
    }
}

/// A name, with white space around it skipped, folded to lower case.
pub open spec fn name_spec(s: Seq<char>) -> Parsed<Seq<char>> {
    let t = skip_space(s);
    if t.len() > 0 && is_name_start(t[0]) {
        let k = span(t.drop_first(), |c: char| is_name_char(c));
        Ok((skip_space(t.drop_first().skip(k as int)), ascii_lower_seq(t.take(k + 1int))))
    } else {
        Err(mismatch(t))
    }
}

pub proof fn lemma_name_shrinks(s: Seq<char>)
    ensures
        match name_spec(s) {
            Ok((r, _)) => r.len() < s.len(),
            Err(_) => true,
        },
{
    let t = skip_space(s);
    lemma_skip_space(s);
    if t.len() > 0 && is_name_start(t[0]) {
        let k = span(t.drop_first(), |c: char| is_name_char(c));
        lemma_span_bound(t.drop_first(), |c: char| is_name_char(c));
        lemma_skip_space(t.drop_first().skip(k as int));
    }
}

/// The value of a string of decimal digits.
pub open spec fn digits_value(ds: Seq<char>) -> int
    decreases ds.len(),
{
    if ds.len() == 0 {
        0
    } else {
        10 * digits_value(ds.drop_last()) + (ds.last() as int - '0' as int)
    }
}

/// A number literal: an optional minus sign and one or more digits, whose
/// value must fit in `i64`; otherwise the literal is an invalid sequence.
pub open spec fn number_spec(s: Seq<char>) -> Parsed<i64> {
    let neg = s.len() > 0 && s[0] == '-';
    let t = if neg {
        s.drop_first()
    } else {
        s
    };
    if t.len() > 0 && is_digit(t[0]) {
        let k = span(t, |c: char| is_digit(c));
        let n = digits_value(t.take(k as int));
        match checked(if neg { -n } else { n }) {
            Some(v) => Ok((t.skip(k as int), v)),
            None => Err(ErrorModel::InvalidSequence(s.take(k + if neg { 1int } else { 0int }))),
        }
    } else {
        Err(mismatch(t))
    }
}

pub open spec fn additive(c: char) -> Option<BinOp> {
    if c == '+' {
        Some(BinOp::Add)
    } else if c == '-' {
        Some(BinOp::Sub)
    } else {
        None
    }
}

pub open spec fn multiplicative(c: char) -> Option<BinOp> {
    if c == '*' {
        Some(BinOp::Mul)
    } else if c == '/' {
        Some(BinOp::Div)
    } else if c == '%' {
        Some(BinOp::Mod)
    } else {
        None
    }
}

pub open spec fn binary(op: BinOp, l: ExprModel, r: ExprModel) -> ExprModel {
    ExprModel::Binary(op, Box::new(l), Box::new(r))
}

/// An expression: terms joined by `+` and `-`, grouped to the left.
pub open spec fn expr_spec(s: Seq<char>) -> Parsed<ExprModel>
    decreases s.len(), 6nat,
{
    match term_spec(s) {
        Ok((r, lhs)) => if r.len() <= s.len() {
            expr_tail_spec(r, lhs)
        } else {
            Err(ErrorModel::Empty)
        },
        Err(e) => Err(e),
    }
}

/// The rest of an expression after `acc`, the terms read so far.
pub open spec fn expr_tail_spec(s: Seq<char>, acc: ExprModel) -> Parsed<ExprModel>
    decreases s.len(), 5nat,
    via expr_tail_decreases
{
    let t = skip_space(s);
    if t.len() > 0 && additive(t[0]) is Some {
        match term_spec(t.drop_first()) {
            Ok((r, rhs)) => if r.len() < s.len() {
                expr_tail_spec(r, binary(additive(t[0])->0, acc, rhs))
            } else {
                Err(ErrorModel::Empty)
            },
            Err(e) => Err(e),
        }
    } else {
        Ok((s, acc))
    }
}

#[via_fn]
proof fn expr_tail_decreases(s: Seq<char>, acc: ExprModel) {
    lemma_skip_space(s);
}

/// A term: powers joined by `*`, `/` and `%`, grouped to the left.
pub open spec fn term_spec(s: Seq<char>) -> Parsed<ExprModel>
    decreases s.len(), 4nat,
{
    match pow_spec(s) {
        Ok((r, lhs)) => if r.len() <= s.len() {
            term_tail_spec(r, lhs)
        } else {
            Err(ErrorModel::Empty)
        },
        Err(e) => Err(e),
    }
}

/// The rest of a term after `acc`, the powers read so far.
pub open spec fn term_tail_spec(s: Seq<char>, acc: ExprModel) -> Parsed<ExprModel>
    decreases s.len(), 3nat,
    via term_tail_decreases
{
    let t = skip_space(s);
    if t.len() > 0 && multiplicative(t[0]) is Some {
        match pow_spec(t.drop_first()) {
            Ok((r, rhs)) => if r.len() < s.len() {
                term_tail_spec(r, binary(multiplicative(t[0])->0, acc, rhs))
            } else {
                Err(ErrorModel::Empty)
            },
            Err(e) => Err(e),
        }
    } else {
        Ok((s, acc))
    }
}

#[via_fn]
proof fn term_tail_decreases(s: Seq<char>, acc: ExprModel) {
    lemma_skip_space(s);
}

/// A power: a factor, raised to a power when `^` follows (grouped to the right).
pub open spec fn pow_spec(s: Seq<char>) -> Parsed<ExprModel>
    decreases s.len(), 2nat,
{
    match factor_spec(s) {
        Ok((r, base)) => {
            let t = skip_space(r);
            if t.len() > 0 && t[0] == '^' {
                if t.len() <= s.len() {
                    match pow_spec(t.drop_first()) {
                        Ok((r2, exp)) => Ok((r2, binary(BinOp::Pow, base, exp))),
                        Err(e) => Err(e),
                    }
                } else {
                    Err(ErrorModel::Empty)
                }
            } else {
                Ok((r, base))
            }
        },
        Err(e) => Err(e),
    }
}

/// A factor: a variable or a call, a number, or an expression in parentheses.
pub open spec fn factor_spec(s: Seq<char>) -> Parsed<ExprModel>
    decreases s.len(), 1nat,
    via factor_decreases
{
    let t = skip_space(s);
    match name_spec(t) {
        Ok((r, n)) => maybe_call_spec(n, r),
        Err(_) => match number_spec(t) {
            Ok((r, v)) => Ok((r, ExprModel::Number(v))),
            Err(ErrorModel::InvalidSequence(x)) => Err(ErrorModel::InvalidSequence(x)),
            Err(_) => match expect(t, '(') {
                Ok(u) => match expr_spec(u) {
                    Ok((r, e)) => match expect(skip_space(r), ')') {
                        Ok(r2) => Ok((skip_space(r2), e)),
                        Err(err) => Err(err),
                    },
                    Err(err) => Err(err),
                },
                Err(err) => Err(err),
            },
        },
    }
}

#[via_fn]
proof fn factor_decreases(s: Seq<char>) {
    lemma_skip_space(s);
    lemma_name_shrinks(skip_space(s));
}

/// After a name: a call when `(` follows, else a variable.
pub open spec fn maybe_call_spec(name: Seq<char>, s: Seq<char>) -> Parsed<ExprModel>
    decreases s.len(), 0nat,
{
    if s.len() > 0 && s[0] == '(' {
        match expr_spec(s.drop_first()) {
            Ok((r, a)) => if r.len() < s.len() {
                args_tail_spec(name, r, seq![a])
            } else {
                Err(ErrorModel::Empty)
            },
            Err(e) => Err(e),
        }
    } else {
        Ok((s, ExprModel::Var(name)))
    }
}

/// The rest of a call's arguments after `args`, those read so far.
pub open spec fn args_tail_spec(name: Seq<char>, s: Seq<char>, args: Seq<ExprModel>) -> Parsed<ExprModel>
    decreases s.len(), 0nat,
    via args_tail_decreases
{
    let t = skip_space(s);
    if t.len() > 0 && t[0] == ',' {
        match expr_spec(t.drop_first()) {
            Ok((r, a)) => if r.len() < s.len() {
                args_tail_spec(name, r, args.push(a))
            } else {
                Err(ErrorModel::Empty)
            },
            Err(e) => Err(e),
        }
    } else {
        match expect(t, ')') {
            Ok(r) => Ok((r, ExprModel::Call(name, args))),
            Err(e) => Err(e),
        }
    }
}

#[via_fn]
proof fn args_tail_decreases(name: Seq<char>, s: Seq<char>, args: Seq<ExprModel>) {
    lemma_skip_space(s);
}

/// A bare expression as a statement; trailing white space is skipped.
pub open spec fn expr_statement_spec(t: Seq<char>) -> Parsed<StatementModel> {
    match expr_spec(t) {
        Ok((r, e)) => Ok((skip_space(r), StatementModel::Expr(e))),
        Err(e) => Err(e),
    }
}

/// A statement: an assignment when a name and `=` begin it, else an expression.
pub open spec fn statement_spec(s: Seq<char>) -> Parsed<StatementModel> {
    let t = skip_space(s);
    match name_spec(t) {
        Ok((r, n)) => {
            let u = skip_space(r);
            if u.len() > 0 && u[0] == '=' {
                match expr_spec(skip_space(u.drop_first())) {
                    Ok((r2, e)) => Ok((skip_space(r2), StatementModel::Assign(n, e))),
                    Err(e) => Err(e),
                }
            } else {
                expr_statement_spec(t)
            }
        },
        Err(_) => expr_statement_spec(t),
    }
}

} // verus!
