//! The recursive-descent parser. Each function takes the input text and
//! yields the text it left over with what it read, as the grammar says.
use crate::arith::narrow;
use crate::ast::{models, BinOp, ErrorModel, Expr, ExprModel, ParseError, Statement};
use crate::chars::{
    char_is_digit, char_is_name_char, char_is_name_start, char_is_space, is_digit, is_name_char,
    is_name_start, is_space, lemma_span_bound, lemma_span_split, lowercase, skip_space,
};
use crate::grammar::{
    additive, digits_value, expr_spec, expr_tail_spec, factor_spec, maybe_call_spec, multiplicative,
    name_spec, number_spec, pow_spec, statement_spec, term_spec, term_tail_spec, args_tail_spec,
};
use vstd::prelude::*;
use vstd::string::StrSliceExecFns;

verus! {

/// What a parse yields, over the views of its parts.
pub open spec fn outcome<'a, X: View>(r: Result<(&'a str, X), ParseError<'a>>) -> Result<(Seq<char>, X::V), ErrorModel> {
    match r {
        Ok((rest, x)) => Ok((rest@, x@)),
        Err(e) => Err(e@),
    }
}

/// Whether a parse that succeeded left over no more than its input.
pub open spec fn shrinks<'a, X>(r: Result<(&'a str, X), ParseError<'a>>, input: &'a str) -> bool {
    match r {
        Ok((rest, _)) => rest@.len() <= input@.len(),
        Err(_) => true,
    }
}

/// Reads one character.
pub fn any_char(input: &str) -> (r: Result<(&str, char), ParseError<'_>>)
    ensures
        match r {
            Ok((rest, c)) => input@.len() > 0 && c == input@[0] && rest@ == input@.drop_first(),
            Err(e) => input@.len() == 0 && e@ == ErrorModel::Empty,
        },
{
    let n = input.unicode_len();
    if n == 0 {
        Err(ParseError::Empty)
    } else {
        let c = input.get_char(0);
        let rest = input.substring_char(1, n);
        assert(rest@ =~= input@.drop_first());
        Ok((rest, c))
    }
}

/// Reads one character that `f` accepts.
pub fn satisfy<F: Fn(char) -> bool>(f: F, input: &str) -> (r: Result<(&str, char), ParseError<'_>>)
    requires
        forall|c: char| f.requires((c,)),
    ensures
        match r {
            Ok((rest, c)) => input@.len() > 0 && c == input@[0] && rest@ == input@.drop_first()
                && f.ensures((c,), true),
            Err(e) => if input@.len() == 0 {
                e@ == ErrorModel::Empty
            } else {
                e@ == ErrorModel::InvalidChar(input@[0]) && f.ensures((input@[0],), false)
            },
        },
{
    match any_char(input) {
        Err(e) => Err(e),
        Ok((rest, c)) => {
            if f(c) {
                Ok((rest, c))
            } else {
                Err(ParseError::InvalidChar(c))
            }
        },
    }
}

/// Splits off the longest prefix whose characters `f` all accepts; yields
/// the rest, then the prefix.
pub fn take_while<F: Fn(char) -> bool>(f: F, input: &str) -> (r: Result<(&str, &str), ParseError<'_>>)
    requires
        forall|c: char| f.requires((c,)),
    ensures
        match r {
            Ok((rest, taken)) => taken@ + rest@ == input@
                && (forall|i: int| 0 <= i < taken@.len() ==> f.ensures((#[trigger] taken@[i],), true))
                && (rest@.len() > 0 ==> f.ensures((rest@[0],), false)),
            Err(_) => false,
        },
{
    let n = input.unicode_len();
    let mut i: usize = 0;
    while i < n
        invariant
            n == input@.len(),
            i <= n,
            forall|c: char| f.requires((c,)),
            forall|t: int| 0 <= t < i ==> f.ensures((#[trigger] input@[t],), true),
        ensures
            i <= n,
            forall|t: int| 0 <= t < i ==> f.ensures((#[trigger] input@[t],), true),
            i < n ==> f.ensures((input@[i as int],), false),
        decreases n - i,
    {
        let c = input.get_char(i);
        if !f(c) {
            break;
        }
        i = i + 1;
    }
    let taken = input.substring_char(0, i);
    let rest = input.substring_char(i, n);
    assert(taken@ + rest@ =~= input@);
    proof {
        assert forall|t: int| 0 <= t < taken@.len() implies f.ensures((#[trigger] taken@[t],), true) by {
            assert(taken@[t] == input@[t]);
        }
        if rest@.len() > 0 {
            assert(rest@[0] == input@[i as int]);
        }
    }
    Ok((rest, taken))
}

/// Skips leading white space.
pub fn skip_ws(input: &str) -> (r: Result<(&str, ()), ParseError<'_>>)
    ensures
        match r {
            Ok((rest, _)) => rest@ == skip_space(input@) && rest@.len() <= input@.len(),
            Err(_) => false,
        },
{
    let f = |c: char| -> (b: bool)
        ensures
            b == is_space(c),
        { char_is_space(c) };
    let (rest, taken) = take_while(f, input)?;
    proof {
        let p = |c: char| is_space(c);
        lemma_span_split(input@, p, taken@, rest@);
        lemma_span_bound(input@, p);
        assert(rest@ =~= input@.skip(taken@.len() as int));
    }
    Ok((rest, ()))
}

/// Reads a name and the white space around it; the name comes back in lower case.
pub fn parse_name(input: &str) -> (r: Result<(&str, String), ParseError<'_>>)
    ensures
        outcome(r) == name_spec(input@),
        match r {
            Ok((rest, _)) => rest@.len() < input@.len(),
            Err(_) => true,
        },
{
    let (t, _) = skip_ws(input)?;
    let start = |c: char| -> (b: bool)
        ensures
            b == is_name_start(c),
        { char_is_name_start(c) };
    let (u, _first) = satisfy(start, t)?;
    let more = |c: char| -> (b: bool)
        ensures
            b == is_name_char(c),
        { char_is_name_char(c) };
    let (v, tail) = take_while(more, u)?;
    proof {
        lemma_span_split(u@, |c: char| is_name_char(c), tail@, v@);
        assert(v@ =~= u@.skip(tail@.len() as int));
    }
    let k = tail.unicode_len();
    let nt = t.unicode_len();
    assert(k < nt);
    let word = t.substring_char(0, k + 1);
    let (rest, _) = skip_ws(v)?;
    let name = lowercase(word);
    Ok((rest, name))
}

proof fn lemma_digits_grow(ds: Seq<char>, j: int)
    requires
        0 <= j <= ds.len(),
        forall|i: int| 0 <= i < ds.len() ==> is_digit(#[trigger] ds[i]),
    ensures
        0 <= digits_value(ds.take(j)) <= digits_value(ds),
    decreases ds.len(),
{
    if j == ds.len() {
        assert(ds.take(j) =~= ds);
        if ds.len() > 0 {
            lemma_digits_grow(ds.drop_last(), 0);
        } else {
            assert(digits_value(ds) == 0);
        }
    } else {
        lemma_digits_grow(ds.drop_last(), j);
        assert(ds.drop_last().take(j) =~= ds.take(j));
        assert(is_digit(ds[ds.len() - 1]));
    }
}

/// Reads a number literal: an optional minus sign and one or more digits.
pub fn parse_number(input: &str) -> (r: Result<(&str, i64), ParseError<'_>>)
    ensures
        outcome(r) == number_spec(input@),
        shrinks(r, input),
{
    let n = input.unicode_len();
    let neg = n > 0 && input.get_char(0) == '-';
    let t = if neg {
        input.substring_char(1, n)
    } else {
        input
    };
    assert(t@ == (if neg { input@.drop_first() } else { input@ }));
    let first = |c: char| -> (b: bool)
        ensures
            b == is_digit(c),
        { char_is_digit(c) };
    let (_, _) = satisfy(first, t)?;
    let digit = |c: char| -> (b: bool)
        ensures
            b == is_digit(c),
        { char_is_digit(c) };
    let (rest, digits) = take_while(digit, t)?;
    proof {
        lemma_span_split(t@, |c: char| is_digit(c), digits@, rest@);
        assert(digits@ =~= t@.take(digits@.len() as int));
        assert(rest@ =~= t@.skip(digits@.len() as int));
    }
    let k = digits.unicode_len();
    assert(k <= n);
    let width = if neg { k + 1 } else { k };
    match digits_value_checked(digits) {
        Some(acc) => {
            let value = if neg { -(acc as i128) } else { acc as i128 };
            match narrow(value) {
                Some(v) => Ok((rest, v)),
                None => Err(ParseError::InvalidSequence(input.substring_char(0, width))),
            }
        },
        None => Err(ParseError::InvalidSequence(input.substring_char(0, width))),
    }
}

/// The value of a string of digits when it is at most 2^63, which covers
/// every magnitude an `i64` literal can have.
fn digits_value_checked(digits: &str) -> (r: Option<u128>)
    requires
        forall|j: int| 0 <= j < digits@.len() ==> is_digit(#[trigger] digits@[j]),
    ensures
        match r {
            Some(v) => v == digits_value(digits@) && v <= 0x8000_0000_0000_0000,
            None => digits_value(digits@) > 0x8000_0000_0000_0000,
        },
{
    let k = digits.unicode_len();
    let mut acc: u128 = 0;
    let mut i: usize = 0;
    while i < k
        invariant
            k == digits@.len(),
            i <= k,
            acc <= 0x8000_0000_0000_0000,
            acc == digits_value(digits@.take(i as int)),
            forall|j: int| 0 <= j < digits@.len() ==> is_digit(#[trigger] digits@[j]),
        decreases k - i,
    {
        let c = digits.get_char(i);
        assert(is_digit(digits@[i as int]));
        let d = (c as u32 - '0' as u32) as u128;
        assert(digits@.take(i + 1).drop_last() =~= digits@.take(i as int));
        acc = acc * 10 + d;
        i = i + 1;
        if acc > 0x8000_0000_0000_0000 {
            proof {
                lemma_digits_grow(digits@, i as int);
            }
            return None;
        }
    }
    assert(digits@.take(k as int) =~= digits@);
    Some(acc)
}

/// Reads an expression: terms joined by `+` and `-`, grouped to the left.
pub fn parse_expr(input: &str) -> (r: Result<(&str, Expr), ParseError<'_>>)
    ensures
        outcome(r) == expr_spec(input@),
        shrinks(r, input),
    decreases input@.len(), 6nat,
{
    let (mut i, mut v) = parse_term(input)?;
    loop
        invariant
            i@.len() <= input@.len(),
            expr_tail_spec(i@, v@) == expr_spec(input@),
        decreases i@.len(),
    {
        let (t, _) = skip_ws(i)?;
        let op = |c: char| -> (b: bool)
            ensures
                b == (additive(c) is Some),
            { c == '+' || c == '-' };
        match satisfy(op, t) {
            Err(_) => {
                return Ok((i, v));
            },
            Ok((u, c)) => {
                let (r, rhs) = parse_term(u)?;
                let kind = if c == '+' {
                    BinOp::Add
                } else {
                    BinOp::Sub
                };
                v = Expr::Binary(kind, Box::new(v), Box::new(rhs));
                i = r;
            },
        }
    }
}

/// Reads a term: powers joined by `*`, `/` and `%`, grouped to the left.
fn parse_term(input: &str) -> (r: Result<(&str, Expr), ParseError<'_>>)
    ensures
        outcome(r) == term_spec(input@),
        shrinks(r, input),
    decreases input@.len(), 4nat,
{
    let (mut i, mut v) = parse_pow(input)?;
    loop
        invariant
            i@.len() <= input@.len(),
            term_tail_spec(i@, v@) == term_spec(input@),
        decreases i@.len(),
    {
        let (t, _) = skip_ws(i)?;
        let op = |c: char| -> (b: bool)
            ensures
                b == (multiplicative(c) is Some),
            { c == '*' || c == '/' || c == '%' };
        match satisfy(op, t) {
            Err(_) => {
                return Ok((i, v));
            },
            Ok((u, c)) => {
                let (r, rhs) = parse_pow(u)?;
                let kind = if c == '*' {
                    BinOp::Mul
                } else if c == '/' {
                    BinOp::Div
                } else {
                    BinOp::Mod
                };
                v = Expr::Binary(kind, Box::new(v), Box::new(rhs));
                i = r;
            },
        }
    }
}

/// Reads a power: a factor, raised to a power when `^` follows.
fn parse_pow(input: &str) -> (r: Result<(&str, Expr), ParseError<'_>>)
    ensures
        outcome(r) == pow_spec(input@),
        shrinks(r, input),
    decreases input@.len(), 2nat,
{
    let (r, base) = parse_factor(input)?;
    let (t, _) = skip_ws(r)?;
    let caret = |c: char| -> (b: bool)
        ensures
            b == (c == '^'),
        { c == '^' };
    match satisfy(caret, t) {
        Err(_) => Ok((r, base)),
        Ok((u, _)) => {
            let (r2, exp) = parse_pow(u)?;
            Ok((r2, Expr::Binary(BinOp::Pow, Box::new(base), Box::new(exp))))
        },
    }
}

/// Reads a factor: a variable or a call, a number, or an expression in parentheses.
fn parse_factor(input: &str) -> (r: Result<(&str, Expr), ParseError<'_>>)
    ensures
        outcome(r) == factor_spec(input@),
        shrinks(r, input),
    decreases input@.len(), 1nat,
{
    let (t, _) = skip_ws(input)?;
    if let Ok((r, name)) = parse_name(t) {
        return parse_maybe_call(name, r);
    }
    match parse_number(t) {
        Ok((r, v)) => {
            return Ok((r, Expr::Number(v)));
        },
        Err(ParseError::InvalidSequence(x)) => {
            return Err(ParseError::InvalidSequence(x));
        },
        Err(_) => {},
    }
    let open = |c: char| -> (b: bool)
        ensures
            b == (c == '('),
        { c == '(' };
    let (u, _) = satisfy(open, t)?;
    let (r, e) = parse_expr(u)?;
    let (r, _) = skip_ws(r)?;
    let close = |c: char| -> (b: bool)
        ensures
            b == (c == ')'),
        { c == ')' };
    let (r, _) = satisfy(close, r)?;
    let (r, _) = skip_ws(r)?;
    Ok((r, e))
}

/// After a name: reads a call's arguments when `(` follows, else yields a variable.
fn parse_maybe_call(name: String, input: &str) -> (r: Result<(&str, Expr), ParseError<'_>>)
    ensures
        outcome(r) == maybe_call_spec(name@, input@),
        shrinks(r, input),
    decreases input@.len(), 0nat,
{
    let open = |c: char| -> (b: bool)
        ensures
            b == (c == '('),
        { c == '(' };
    match satisfy(open, input) {
        Err(_) => Ok((input, Expr::Var(name))),
        Ok((u, _)) => {
            let (mut rest, first) = parse_expr(u)?;
            let mut args: Vec<Expr> = Vec::new();
            args.push(first);
            proof {
                assert(args@.drop_last() =~= Seq::<Expr>::empty());
                assert(models(Seq::<Expr>::empty()) =~= Seq::<ExprModel>::empty());
                assert(models(args@) =~= Seq::<ExprModel>::empty().push(args@.last().model()));
                assert(models(args@) =~= seq![first@]);
            }
            loop
                invariant
                    rest@.len() < input@.len(),
                    args_tail_spec(name@, rest@, models(args@)) == maybe_call_spec(name@, input@),
                decreases rest@.len(),
            {
                let (t, _) = skip_ws(rest)?;
                let comma = |c: char| -> (b: bool)
                    ensures
                        b == (c == ','),
                    { c == ',' };
                match satisfy(comma, t) {
                    Ok((u2, _)) => {
                        let (r2, a) = parse_expr(u2)?;
                        let ghost old_args = args@;
                        args.push(a);
                        proof {
                            assert(args@.drop_last() =~= old_args);
                        }
                        rest = r2;
                    },
                    Err(_) => {
                        let close = |c: char| -> (b: bool)
                            ensures
                                b == (c == ')'),
                            { c == ')' };
                        let (r3, _) = satisfy(close, t)?;
                        return Ok((r3, Expr::Call(name, args)));
                    },
                }
            }
        },
    }
}

/// Reads a statement: an assignment `name = expr` or a bare expression.
/// What follows the statement is handed back unread.
pub fn parse_statement(input: &str) -> (r: Result<(&str, Statement), ParseError<'_>>)
    ensures
        outcome(r) == statement_spec(input@),
{
    let (t, _) = skip_ws(input)?;
    if let Ok((r, name)) = parse_name(t) {
        let (u, _) = skip_ws(r)?;
        let eq = |c: char| -> (b: bool)
            ensures
                b == (c == '='),
            { c == '=' };
        if let Ok((u2, _)) = satisfy(eq, u) {
            let (u3, _) = skip_ws(u2)?;
            let (r2, e) = parse_expr(u3)?;
            let (r3, _) = skip_ws(r2)?;
            return Ok((r3, Statement::Assign(name, e)));
        }
    }
    let (r, e) = parse_expr(t)?;
    let (r, _) = skip_ws(r)?;
    Ok((r, Statement::Expr(e)))
}

} // verus!
