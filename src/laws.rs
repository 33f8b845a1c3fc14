//! Properties that relate the parser and the evaluator, proved over their
//! specifications.
use crate::ast::{BinOp, ErrorModel, ExprModel, StatementModel};
use crate::builtins::builtin_named;
use crate::chars::{
    ascii_lower, ascii_lower_seq, is_digit, is_name_char, is_name_start, is_space, lemma_span_split,
    skip_space, span,
};
use crate::eval::{eval_args_spec, eval_spec, statement_env, statement_value};
use crate::grammar::{
    binary, digits_value, expr_spec, expr_tail_spec, factor_spec, name_spec, number_spec, pow_spec,
    statement_spec, term_spec, term_tail_spec,
};
use vstd::prelude::*;

verus! {

/// Whether an expression refers to no variable.
pub open spec fn closed(e: ExprModel) -> bool
    decreases e,
{
    match e {
        ExprModel::Number(_) => true,
        ExprModel::Binary(_, l, r) => closed(*l) && closed(*r),
        ExprModel::Call(_, args) => closed_all(args),
        ExprModel::Var(_) => false,
    }
}

/// Whether no expression of a list refers to a variable.
pub open spec fn closed_all(args: Seq<ExprModel>) -> bool
    decreases args,
{
    if args.len() == 0 {
        true
    } else {
        closed_all(args.drop_last()) && closed(args.last())
    }
}

/// An expression without variables has one value, whatever the bindings.
pub proof fn lemma_closed_ignores_bindings(e: ExprModel, env1: Map<Seq<char>, i64>, env2: Map<Seq<char>, i64>)
    requires
        closed(e),
    ensures
        eval_spec(e, env1) == eval_spec(e, env2),
    decreases e,
{
    match e {
        ExprModel::Binary(_, l, r) => {
            lemma_closed_ignores_bindings(*l, env1, env2);
            lemma_closed_ignores_bindings(*r, env1, env2);
        },
        ExprModel::Call(_, args) => {
            lemma_closed_args_ignore_bindings(args, env1, env2);
        },
        _ => {},
    }
}

proof fn lemma_closed_args_ignore_bindings(args: Seq<ExprModel>, env1: Map<Seq<char>, i64>, env2: Map<Seq<char>, i64>)
    requires
        closed_all(args),
    ensures
        eval_args_spec(args, env1) == eval_args_spec(args, env2),
    decreases args,
{
    if args.len() > 0 {
        lemma_closed_args_ignore_bindings(args.drop_last(), env1, env2);
        lemma_closed_ignores_bindings(args.last(), env1, env2);
    }
}

/// Division and remainder fail whenever the divisor evaluates to zero.
pub proof fn lemma_zero_divisor_fails(l: ExprModel, r: ExprModel, env: Map<Seq<char>, i64>)
    requires
        eval_spec(r, env) == Some(0i64),
    ensures
        eval_spec(binary(BinOp::Div, l, r), env) is None,
        eval_spec(binary(BinOp::Mod, l, r), env) is None,
{
}

/// An assignment that evaluates yields its value and binds its name to it,
/// so that the name then reads back that value; one that fails changes no
/// binding.
pub proof fn lemma_assignment(name: Seq<char>, e: ExprModel, env: Map<Seq<char>, i64>)
    ensures
        statement_value(StatementModel::Assign(name, e), env) == eval_spec(e, env),
        match eval_spec(e, env) {
            Some(v) => {
                let after = statement_env(StatementModel::Assign(name, e), env);
                &&& after == env.insert(name, v)
                &&& eval_spec(ExprModel::Var(name), after) == Some(v)
            },
            None => statement_env(StatementModel::Assign(name, e), env) == env,
        },
{
}

/// A variable without a binding makes every operation on it fail, and a
/// bare expression never changes the bindings.
pub proof fn lemma_unbound_variable(name: Seq<char>, op: BinOp, other: ExprModel, env: Map<Seq<char>, i64>)
    requires
        !env.contains_key(name),
    ensures
        eval_spec(ExprModel::Var(name), env) is None,
        eval_spec(binary(op, ExprModel::Var(name), other), env) is None,
        statement_env(StatementModel::Expr(binary(op, ExprModel::Var(name), other)), env) == env,
{
}

/// A call of a name that designates no built-in fails.
pub proof fn lemma_unknown_function(name: Seq<char>, args: Seq<ExprModel>, env: Map<Seq<char>, i64>)
    requires
        builtin_named(name) is None,
    ensures
        eval_spec(ExprModel::Call(name, args), env) is None,
{
}

/// The decimal digit for `d < 10`.
pub open spec fn digit_char(d: nat) -> char {
    seq!['0', '1', '2', '3', '4', '5', '6', '7', '8', '9'][d as int]
}

/// The decimal digits of `n`, without leading zeros.
pub open spec fn digits_of(n: nat) -> Seq<char>
    decreases n,
{
    if n < 10 {
        seq![digit_char(n)]
    } else {
        digits_of(n / 10).push(digit_char(n % 10))
    }
}

/// The usual decimal rendering of an integer.
pub open spec fn decimal(v: int) -> Seq<char> {
    if v < 0 {
        seq!['-'] + digits_of((-v) as nat)
    } else {
        digits_of(v as nat)
    }
}

proof fn lemma_digit_char(d: nat)
    requires
        d < 10,
    ensures
        is_digit(digit_char(d)),
        digit_char(d) as int - '0' as int == d,
{
    let t = seq!['0', '1', '2', '3', '4', '5', '6', '7', '8', '9'];
    assert(t[0] == '0' && t[1] == '1' && t[2] == '2' && t[3] == '3' && t[4] == '4');
    assert(t[5] == '5' && t[6] == '6' && t[7] == '7' && t[8] == '8' && t[9] == '9');
}

proof fn lemma_digits_of(n: nat)
    ensures
        digits_of(n).len() > 0,
        forall|i: int| 0 <= i < digits_of(n).len() ==> is_digit(#[trigger] digits_of(n)[i]),
        digits_value(digits_of(n)) == n,
    decreases n,
{
    if n >= 10 {
        lemma_digits_of(n / 10);
        lemma_digit_char(n % 10);
        let d = digits_of(n);
        assert(d.drop_last() =~= digits_of(n / 10));
        assert(d.last() == digit_char(n % 10));
        assert(n == 10 * (n / 10) + n % 10);
    } else {
        lemma_digit_char(n);
        let d = digits_of(n);
        assert(d.drop_last() =~= Seq::<char>::empty());
        assert(digits_value(d.drop_last()) == 0);
    }
}

proof fn lemma_span_all(s: Seq<char>)
    requires
        forall|i: int| 0 <= i < s.len() ==> is_digit(#[trigger] s[i]),
    ensures
        span(s, |c: char| is_digit(c)) == s.len(),
    decreases s.len(),
{
    if s.len() > 0 {
        assert forall|i: int| 0 <= i < s.drop_first().len() implies is_digit(#[trigger] s.drop_first()[i]) by {
            assert(s.drop_first()[i] == s[i + 1]);
        }
        lemma_span_all(s.drop_first());
    }
}

/// Reading back the decimal rendering of any `i64` gives that value and
/// leaves nothing over.
pub proof fn lemma_number_round_trip(v: i64)
    ensures
        number_spec(decimal(v as int)) == Ok::<(Seq<char>, i64), ErrorModel>((Seq::<char>::empty(), v)),
{
    let m: nat = if v < 0 { (-v) as nat } else { v as nat };
    lemma_digits_of(m);
    let ds = digits_of(m);
    lemma_span_all(ds);
    let s = decimal(v as int);
    if v < 0 {
        assert(s.drop_first() =~= ds);
    } else {
        assert(s == ds);
        assert(is_digit(ds[0]));
    }
    assert(ds.take(ds.len() as int) =~= ds);
    assert(ds.skip(ds.len() as int) =~= Seq::<char>::empty());
}

/// The rendering of any `i64`, read as an expression or as a statement,
/// is that number with nothing left over.
pub proof fn lemma_rendered_number_parses_back(v: i64)
    ensures
        expr_spec(decimal(v as int)) == Ok::<(Seq<char>, ExprModel), ErrorModel>((Seq::<char>::empty(), ExprModel::Number(v))),
        statement_spec(decimal(v as int)) == Ok::<(Seq<char>, StatementModel), ErrorModel>(
            (Seq::<char>::empty(), StatementModel::Expr(ExprModel::Number(v))),
        ),
{
    let s = decimal(v as int);
    let e: Seq<char> = Seq::empty();
    let m: nat = if v < 0 { (-v) as nat } else { v as nat };
    lemma_digits_of(m);
    lemma_number_round_trip(v);
    assert(s.len() > 0);
    assert(s[0] == '-' || is_digit(s[0]));
    assert(span(s, |c: char| is_space(c)) == 0);
    assert(skip_space(s) =~= s);
    assert(span(e, |c: char| is_space(c)) == 0);
    assert(skip_space(e) =~= e);
    assert(name_spec(s) is Err);
    let n = ExprModel::Number(v);
    assert(factor_spec(s) == Ok::<(Seq<char>, ExprModel), ErrorModel>((e, n)));
    assert(pow_spec(s) == Ok::<(Seq<char>, ExprModel), ErrorModel>((e, n)));
    assert(term_spec(s) == Ok::<(Seq<char>, ExprModel), ErrorModel>((e, n)));
}

proof fn lemma_no_space(x: Seq<char>)
    requires
        x.len() == 0 || !is_space(x[0]),
    ensures
        skip_space(x) == x,
{
    assert(span(x, |c: char| is_space(c)) == 0);
    assert(skip_space(x) =~= x);
}

/// Whether `x` can follow a number literal and start no white space,
/// digit or `^`.
pub open spec fn ends_atom(x: Seq<char>) -> bool {
    x.len() == 0 || (!is_digit(x[0]) && !is_space(x[0]) && x[0] != '^')
}

proof fn lemma_number_then(v: i64, rest: Seq<char>)
    requires
        rest.len() == 0 || !is_digit(rest[0]),
    ensures
        factor_spec(decimal(v as int) + rest) == Ok::<(Seq<char>, ExprModel), ErrorModel>((rest, ExprModel::Number(v))),
{
    let m: nat = if v < 0 { (-v) as nat } else { v as nat };
    lemma_digits_of(m);
    let ds = digits_of(m);
    let s = decimal(v as int) + rest;
    lemma_no_space(s);
    let t = if v < 0 { s.drop_first() } else { s };
    assert(t =~= ds + rest);
    lemma_span_split(t, |c: char| is_digit(c), ds, rest);
    assert(t.take(ds.len() as int) =~= ds);
    assert(t.skip(ds.len() as int) =~= rest);
    assert(is_digit(ds[0]));
    assert(number_spec(s) == Ok::<(Seq<char>, i64), ErrorModel>((rest, v)));
    assert(name_spec(s) is Err);
}

proof fn lemma_atom(v: i64, rest: Seq<char>)
    requires
        ends_atom(rest),
    ensures
        pow_spec(decimal(v as int) + rest) == Ok::<(Seq<char>, ExprModel), ErrorModel>((rest, ExprModel::Number(v))),
{
    lemma_number_then(v, rest);
    lemma_no_space(rest);
}

/// A product binds tighter than a sum: `a+b*c` reads as `a+(b*c)`, and
/// evaluates as such, for every three `i64` literals.
pub proof fn lemma_product_binds_tighter(a: i64, b: i64, c: i64, env: Map<Seq<char>, i64>)
    ensures
        expr_spec(decimal(a as int) + (seq!['+'] + (decimal(b as int) + (seq!['*'] + decimal(c as int)))))
            == Ok::<(Seq<char>, ExprModel), ErrorModel>((
            Seq::<char>::empty(),
            binary(BinOp::Add, ExprModel::Number(a), binary(BinOp::Mul, ExprModel::Number(b), ExprModel::Number(c))),
        )),
        eval_spec(binary(BinOp::Add, ExprModel::Number(a), binary(BinOp::Mul, ExprModel::Number(b), ExprModel::Number(c))), env)
            == (match crate::arith::checked(b * c) {
            Some(p) => crate::arith::checked(a + p),
            None => None,
        }),
{
    let e: Seq<char> = Seq::empty();
    let rest2 = seq!['*'] + decimal(c as int);
    let r1 = decimal(b as int) + rest2;
    let rest1 = seq!['+'] + r1;
    let s = decimal(a as int) + rest1;
    let na = ExprModel::Number(a);
    let nb = ExprModel::Number(b);
    let nc = ExprModel::Number(c);
    lemma_no_space(e);
    lemma_no_space(rest1);
    lemma_no_space(rest2);
    assert(rest1[0] == '+');
    assert(rest2[0] == '*');
    lemma_atom(a, rest1);
    assert(term_tail_spec(rest1, na) == Ok::<(Seq<char>, ExprModel), ErrorModel>((rest1, na)));
    assert(term_spec(s) == Ok::<(Seq<char>, ExprModel), ErrorModel>((rest1, na)));
    assert(rest1.drop_first() =~= r1);
    assert(rest2.drop_first() =~= decimal(c as int));
    lemma_atom(b, rest2);
    assert(decimal(c as int) + e =~= decimal(c as int));
    lemma_atom(c, e);
    let prod = binary(BinOp::Mul, nb, nc);
    assert(term_tail_spec(e, prod) == Ok::<(Seq<char>, ExprModel), ErrorModel>((e, prod)));
    assert(term_tail_spec(rest2, nb) == Ok::<(Seq<char>, ExprModel), ErrorModel>((e, prod)));
    assert(term_spec(r1) == Ok::<(Seq<char>, ExprModel), ErrorModel>((e, prod)));
    let sum = binary(BinOp::Add, na, prod);
    assert(expr_tail_spec(e, sum) == Ok::<(Seq<char>, ExprModel), ErrorModel>((e, sum)));
    assert(expr_tail_spec(rest1, na) == Ok::<(Seq<char>, ExprModel), ErrorModel>((e, sum)));
    assert(eval_spec(na, env) == Some(a));
    assert(eval_spec(nb, env) == Some(b));
    assert(eval_spec(nc, env) == Some(c));
    assert(eval_spec(prod, env) == crate::arith::checked(b * c));
}

/// Powers group to the right: `a^b^c` reads as `a^(b^c)`, for every three
/// `i64` literals.
pub proof fn lemma_power_groups_right(a: i64, b: i64, c: i64)
    ensures
        expr_spec(decimal(a as int) + (seq!['^'] + (decimal(b as int) + (seq!['^'] + decimal(c as int)))))
            == Ok::<(Seq<char>, ExprModel), ErrorModel>((
            Seq::<char>::empty(),
            binary(BinOp::Pow, ExprModel::Number(a), binary(BinOp::Pow, ExprModel::Number(b), ExprModel::Number(c))),
        )),
{
    let e: Seq<char> = Seq::empty();
    let rest2 = seq!['^'] + decimal(c as int);
    let r1 = decimal(b as int) + rest2;
    let rest1 = seq!['^'] + r1;
    let s = decimal(a as int) + rest1;
    let na = ExprModel::Number(a);
    let nb = ExprModel::Number(b);
    let nc = ExprModel::Number(c);
    lemma_no_space(e);
    lemma_no_space(rest1);
    lemma_no_space(rest2);
    assert(rest1[0] == '^');
    assert(rest2[0] == '^');
    assert(rest1.drop_first() =~= r1);
    assert(rest2.drop_first() =~= decimal(c as int));
    assert(decimal(c as int) + e =~= decimal(c as int));
    lemma_number_then(a, rest1);
    lemma_number_then(b, rest2);
    lemma_atom(c, e);
    let inner = binary(BinOp::Pow, nb, nc);
    let outer = binary(BinOp::Pow, na, inner);
    assert(pow_spec(r1) == Ok::<(Seq<char>, ExprModel), ErrorModel>((e, inner)));
    assert(pow_spec(s) == Ok::<(Seq<char>, ExprModel), ErrorModel>((e, outer)));
    assert(term_tail_spec(e, outer) == Ok::<(Seq<char>, ExprModel), ErrorModel>((e, outer)));
    assert(term_spec(s) == Ok::<(Seq<char>, ExprModel), ErrorModel>((e, outer)));
    assert(expr_tail_spec(e, outer) == Ok::<(Seq<char>, ExprModel), ErrorModel>((e, outer)));
}

/// Parentheses override precedence: `(a+b)*c` reads as the product of the
/// sum and `c`, for every three `i64` literals.
pub proof fn lemma_parentheses_group(a: i64, b: i64, c: i64)
    ensures
        expr_spec(seq!['('] + (decimal(a as int) + (seq!['+'] + (decimal(b as int) + (seq![')'] + (seq!['*'] + decimal(c as int)))))))
            == Ok::<(Seq<char>, ExprModel), ErrorModel>((
            Seq::<char>::empty(),
            binary(BinOp::Mul, binary(BinOp::Add, ExprModel::Number(a), ExprModel::Number(b)), ExprModel::Number(c)),
        )),
{
    let e: Seq<char> = Seq::empty();
    let rest3 = seq!['*'] + decimal(c as int);
    let rest2 = seq![')'] + rest3;
    let r1 = decimal(b as int) + rest2;
    let rest1 = seq!['+'] + r1;
    let u = decimal(a as int) + rest1;
    let s = seq!['('] + u;
    let na = ExprModel::Number(a);
    let nb = ExprModel::Number(b);
    let nc = ExprModel::Number(c);
    lemma_no_space(e);
    lemma_no_space(s);
    lemma_no_space(rest1);
    lemma_no_space(rest2);
    lemma_no_space(rest3);
    assert(s[0] == '(');
    assert(rest1[0] == '+');
    assert(rest2[0] == ')');
    assert(rest3[0] == '*');
    assert(s.drop_first() =~= u);
    assert(rest1.drop_first() =~= r1);
    assert(rest2.drop_first() =~= rest3);
    assert(rest3.drop_first() =~= decimal(c as int));
    assert(decimal(c as int) + e =~= decimal(c as int));
    lemma_atom(a, rest1);
    lemma_atom(b, rest2);
    lemma_atom(c, e);
    assert(term_tail_spec(rest1, na) == Ok::<(Seq<char>, ExprModel), ErrorModel>((rest1, na)));
    assert(term_spec(u) == Ok::<(Seq<char>, ExprModel), ErrorModel>((rest1, na)));
    assert(term_tail_spec(rest2, nb) == Ok::<(Seq<char>, ExprModel), ErrorModel>((rest2, nb)));
    assert(term_spec(r1) == Ok::<(Seq<char>, ExprModel), ErrorModel>((rest2, nb)));
    let sum = binary(BinOp::Add, na, nb);
    assert(expr_tail_spec(rest2, sum) == Ok::<(Seq<char>, ExprModel), ErrorModel>((rest2, sum)));
    assert(expr_tail_spec(rest1, na) == Ok::<(Seq<char>, ExprModel), ErrorModel>((rest2, sum)));
    assert(expr_spec(u) == Ok::<(Seq<char>, ExprModel), ErrorModel>((rest2, sum)));
    assert(name_spec(s) is Err);
    assert(number_spec(s) == Err::<(Seq<char>, i64), ErrorModel>(ErrorModel::InvalidChar('(')));
    assert(factor_spec(s) == Ok::<(Seq<char>, ExprModel), ErrorModel>((rest3, sum)));
    assert(pow_spec(s) == Ok::<(Seq<char>, ExprModel), ErrorModel>((rest3, sum)));
    let prod = binary(BinOp::Mul, sum, nc);
    assert(term_tail_spec(e, prod) == Ok::<(Seq<char>, ExprModel), ErrorModel>((e, prod)));
    assert(term_tail_spec(rest3, sum) == Ok::<(Seq<char>, ExprModel), ErrorModel>((e, prod)));
    assert(term_spec(s) == Ok::<(Seq<char>, ExprModel), ErrorModel>((e, prod)));
    assert(expr_tail_spec(e, prod) == Ok::<(Seq<char>, ExprModel), ErrorModel>((e, prod)));
}

proof fn lemma_empty_term()
    ensures
        term_spec(Seq::<char>::empty()) == Err::<(Seq<char>, ExprModel), ErrorModel>(ErrorModel::Empty),
{
    let e: Seq<char> = Seq::empty();
    lemma_no_space(e);
    assert(name_spec(e) is Err);
    assert(number_spec(e) == Err::<(Seq<char>, i64), ErrorModel>(ErrorModel::Empty));
    assert(factor_spec(e) == Err::<(Seq<char>, ExprModel), ErrorModel>(ErrorModel::Empty));
    assert(pow_spec(e) == Err::<(Seq<char>, ExprModel), ErrorModel>(ErrorModel::Empty));
}

proof fn lemma_dangling_operator(a: i64)
    ensures
        statement_spec(decimal(a as int) + seq!['+']) == Err::<(Seq<char>, StatementModel), ErrorModel>(ErrorModel::Empty),
{
    let e: Seq<char> = Seq::empty();
    let na = ExprModel::Number(a);
    lemma_empty_term();
    let plus = seq!['+'];
    let s1 = decimal(a as int) + plus;
    lemma_digits_of(if a < 0 { (-a) as nat } else { a as nat });
    assert(s1[0] == '-' || is_digit(s1[0]));
    lemma_no_space(s1);
    lemma_no_space(plus);
    assert(plus[0] == '+');
    assert(plus.drop_first() =~= e);
    lemma_atom(a, plus);
    assert(term_tail_spec(plus, na) == Ok::<(Seq<char>, ExprModel), ErrorModel>((plus, na)));
    assert(term_spec(s1) == Ok::<(Seq<char>, ExprModel), ErrorModel>((plus, na)));
    assert(expr_tail_spec(plus, na) == Err::<(Seq<char>, ExprModel), ErrorModel>(ErrorModel::Empty));
    assert(expr_spec(s1) == Err::<(Seq<char>, ExprModel), ErrorModel>(ErrorModel::Empty));
    assert(name_spec(s1) is Err);
}

proof fn lemma_open_parenthesis(a: i64, b: i64)
    ensures
        statement_spec(seq!['('] + (decimal(a as int) + (seq!['+'] + decimal(b as int))))
            == Err::<(Seq<char>, StatementModel), ErrorModel>(ErrorModel::Empty),
{
    let e: Seq<char> = Seq::empty();
    let na = ExprModel::Number(a);
    let nb = ExprModel::Number(b);
    lemma_no_space(e);
    let rest1 = seq!['+'] + decimal(b as int);
    let u = decimal(a as int) + rest1;
    let s2 = seq!['('] + u;
    lemma_no_space(s2);
    lemma_no_space(rest1);
    assert(s2[0] == '(');
    assert(rest1[0] == '+');
    assert(s2.drop_first() =~= u);
    assert(rest1.drop_first() =~= decimal(b as int));
    assert(decimal(b as int) + e =~= decimal(b as int));
    lemma_atom(a, rest1);
    lemma_atom(b, e);
    assert(term_tail_spec(rest1, na) == Ok::<(Seq<char>, ExprModel), ErrorModel>((rest1, na)));
    assert(term_spec(u) == Ok::<(Seq<char>, ExprModel), ErrorModel>((rest1, na)));
    assert(term_tail_spec(e, nb) == Ok::<(Seq<char>, ExprModel), ErrorModel>((e, nb)));
    assert(term_spec(decimal(b as int)) == Ok::<(Seq<char>, ExprModel), ErrorModel>((e, nb)));
    let sum = binary(BinOp::Add, na, nb);
    assert(expr_tail_spec(e, sum) == Ok::<(Seq<char>, ExprModel), ErrorModel>((e, sum)));
    assert(expr_spec(u) == Ok::<(Seq<char>, ExprModel), ErrorModel>((e, sum)));
    assert(name_spec(s2) is Err);
    assert(number_spec(s2) == Err::<(Seq<char>, i64), ErrorModel>(ErrorModel::InvalidChar('(')));
    assert(factor_spec(s2) == Err::<(Seq<char>, ExprModel), ErrorModel>(ErrorModel::Empty));
    assert(pow_spec(s2) == Err::<(Seq<char>, ExprModel), ErrorModel>(ErrorModel::Empty));
    assert(term_spec(s2) == Err::<(Seq<char>, ExprModel), ErrorModel>(ErrorModel::Empty));
}

/// A sum missing its right operand, `a+`, and a parenthesis left open,
/// `(a+b`, are parse errors: the input ends where more was required.
pub proof fn lemma_incomplete_input_fails(a: i64, b: i64)
    ensures
        statement_spec(decimal(a as int) + seq!['+']) == Err::<(Seq<char>, StatementModel), ErrorModel>(ErrorModel::Empty),
        statement_spec(seq!['('] + (decimal(a as int) + (seq!['+'] + decimal(b as int))))
            == Err::<(Seq<char>, StatementModel), ErrorModel>(ErrorModel::Empty),
{
    lemma_dangling_operator(a);
    lemma_open_parenthesis(a, b);
}

proof fn lemma_lower_char(c: char)
    ensures
        is_space(ascii_lower(c)) == is_space(c),
        is_name_start(ascii_lower(c)) == is_name_start(c),
        is_name_char(ascii_lower(c)) == is_name_char(c),
        ascii_lower(ascii_lower(c)) == ascii_lower(c),
{
    if 'A' <= c && c <= 'Z' {
        assert(ascii_lower(c) as u32 == c as u32 + 32);
    }
}

proof fn lemma_span_lower(s: Seq<char>, p: spec_fn(char) -> bool)
    requires
        forall|c: char| #[trigger] p(ascii_lower(c)) == p(c),
    ensures
        span(ascii_lower_seq(s), p) == span(s, p),
    decreases s.len(),
{
    if s.len() > 0 {
        assert(ascii_lower_seq(s).drop_first() =~= ascii_lower_seq(s.drop_first()));
        assert(ascii_lower_seq(s)[0] == ascii_lower(s[0]));
        lemma_span_lower(s.drop_first(), p);
    }
}

proof fn lemma_skip_space_lower(s: Seq<char>)
    ensures
        skip_space(ascii_lower_seq(s)) == ascii_lower_seq(skip_space(s)),
{
    let p = |c: char| is_space(c);
    assert forall|c: char| #[trigger] p(ascii_lower(c)) == p(c) by {
        lemma_lower_char(c);
    }
    lemma_span_lower(s, p);
    crate::chars::lemma_span_bound(s, p);
    assert(skip_space(ascii_lower_seq(s)) =~= ascii_lower_seq(skip_space(s)));
}

proof fn lemma_name_lower(s: Seq<char>)
    ensures
        match name_spec(s) {
            Ok((r, n)) => name_spec(ascii_lower_seq(s)) == Ok::<(Seq<char>, Seq<char>), ErrorModel>((ascii_lower_seq(r), n)),
            Err(_) => name_spec(ascii_lower_seq(s)) is Err,
        },
{
    let t = skip_space(s);
    let lt = ascii_lower_seq(t);
    lemma_skip_space_lower(s);
    crate::chars::lemma_skip_space(s);
    if t.len() > 0 {
        lemma_lower_char(t[0]);
        assert(lt[0] == ascii_lower(t[0]));
    }
    if t.len() > 0 && is_name_start(t[0]) {
        let p = |c: char| is_name_char(c);
        assert forall|c: char| #[trigger] p(ascii_lower(c)) == p(c) by {
            lemma_lower_char(c);
        }
        assert(lt.drop_first() =~= ascii_lower_seq(t.drop_first()));
        lemma_span_lower(t.drop_first(), p);
        let k = span(t.drop_first(), p);
        crate::chars::lemma_span_bound(t.drop_first(), p);
        assert(lt.drop_first().skip(k as int) =~= ascii_lower_seq(t.drop_first().skip(k as int)));
        lemma_skip_space_lower(t.drop_first().skip(k as int));
        assert forall|i: int| 0 <= i < t.take(k + 1int).len() implies #[trigger] ascii_lower_seq(lt.take(k + 1int))[i] == ascii_lower_seq(t.take(k + 1int))[i] by {
            lemma_lower_char(t[i]);
        }
        assert(ascii_lower_seq(lt.take(k + 1int)) =~= ascii_lower_seq(t.take(k + 1int)));
    }
}

/// Names that differ only in the case of their letters are the same name.
pub proof fn lemma_name_case_insensitive(s1: Seq<char>, s2: Seq<char>)
    requires
        ascii_lower_seq(s1) == ascii_lower_seq(s2),
    ensures
        match (name_spec(s1), name_spec(s2)) {
            (Ok((_, n1)), Ok((_, n2))) => n1 == n2,
            (Err(_), Err(_)) => true,
            _ => false,
        },
{
    lemma_name_lower(s1);
    lemma_name_lower(s2);
}

} // verus!
