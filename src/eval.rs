//! Evaluation of syntax trees against an environment.
use crate::arith::{add_checked, checked, checked_pow, div_checked, mul_checked, power, rem_checked, sub_checked, trunc_div, trunc_rem};
use crate::ast::{lemma_models, models, BinOp, Expr, ExprModel, Statement, StatementModel};
use crate::builtins::{apply, call_spec, lookup};
use crate::env::Env;
use vstd::prelude::*;

verus! {

broadcast use vstd::std_specs::vec::axiom_vec_decreases_to_view;

/// What a binary operator yields on two values: the exact result when it
/// fits in `i64`; division and remainder round toward zero and fail on a
/// zero divisor; a power fails on a negative exponent.
pub open spec fn binop_spec(op: BinOp, a: i64, b: i64) -> Option<i64> {
    match op {
        BinOp::Add => checked(a + b),
        BinOp::Sub => checked(a - b),
        BinOp::Mul => checked(a * b),
        BinOp::Div => if b == 0 {
            None
        } else {
            checked(trunc_div(a as int, b as int))
        },
        BinOp::Mod => if b == 0 {
            None
        } else {
            checked(trunc_rem(a as int, b as int))
        },
        BinOp::Pow => checked_pow(a as int, b as int),
    }
}

/// The value of an expression under the bindings `env`, or `None` when
/// evaluation fails.
pub open spec fn eval_spec(e: ExprModel, env: Map<Seq<char>, i64>) -> Option<i64>
    decreases e,
{
    match e {
        ExprModel::Number(v) => Some(v),
        ExprModel::Binary(op, l, r) => match eval_spec(*l, env) {
            Some(a) => match eval_spec(*r, env) {
                Some(b) => binop_spec(op, a, b),
                None => None,
            },
            None => None,
        },
        ExprModel::Call(name, args) => match eval_args_spec(args, env) {
            Some(vals) => call_spec(name, vals),
            None => None,
        },
        ExprModel::Var(name) => if env.contains_key(name) {
            Some(env[name])
        } else {
            None
        },
    }
}

/// The values of a list of expressions, or `None` when any of them fails.
pub open spec fn eval_args_spec(args: Seq<ExprModel>, env: Map<Seq<char>, i64>) -> Option<Seq<i64>>
    decreases args,
{
    if args.len() == 0 {
        Some(Seq::empty())
    } else {
        match eval_args_spec(args.drop_last(), env) {
            Some(vals) => match eval_spec(args.last(), env) {
                Some(v) => Some(vals.push(v)),
                None => None,
            },
            None => None,
        }
    }
}

/// What a statement yields.
pub open spec fn statement_value(s: StatementModel, env: Map<Seq<char>, i64>) -> Option<i64> {
    match s {
        StatementModel::Assign(_, e) => eval_spec(e, env),
        StatementModel::Expr(e) => eval_spec(e, env),
    }
}

/// The bindings after a statement: an assignment that succeeds binds its name.
pub open spec fn statement_env(s: StatementModel, env: Map<Seq<char>, i64>) -> Map<Seq<char>, i64> {
    match s {
        StatementModel::Assign(name, e) => match eval_spec(e, env) {
            Some(v) => env.insert(name, v),
            None => env,
        },
        StatementModel::Expr(_) => env,
    }
}

proof fn lemma_args_fail_prefix(args: Seq<ExprModel>, i: int, env: Map<Seq<char>, i64>)
    requires
        0 <= i <= args.len(),
        eval_args_spec(args.take(i), env) is None,
    ensures
        eval_args_spec(args, env) is None,
    decreases args.len(),
{
    if i < args.len() {
        assert(args.drop_last().take(i) =~= args.take(i));
        lemma_args_fail_prefix(args.drop_last(), i, env);
    } else {
        assert(args.take(i) =~= args);
    }
}

fn apply_binop(op: BinOp, a: i64, b: i64) -> (r: Option<i64>)
    ensures
        r == binop_spec(op, a, b),
{
    match op {
        BinOp::Add => add_checked(a, b),
        BinOp::Sub => sub_checked(a, b),
        BinOp::Mul => mul_checked(a, b),
        BinOp::Div => div_checked(a, b),
        BinOp::Mod => rem_checked(a, b),
        BinOp::Pow => power(a, b),
    }
}

/// Evaluates an expression; `None` on an unbound variable, an unknown
/// function or one given too few arguments, a zero divisor, a negative
/// exponent, or a result that does not fit in `i64`.
pub fn eval(expr: &Expr, env: &Env) -> (r: Option<i64>)
    ensures
        r == eval_spec(expr@, env@),
    decreases expr,
{
    match expr {
        Expr::Number(v) => Some(*v),
        Expr::Binary(op, l, r) => {
            let a = eval(l, env)?;
            let b = eval(r, env)?;
            apply_binop(*op, a, b)
        },
        Expr::Call(name, args) => {
            let mut vals: Vec<i64> = Vec::new();
            let mut i: usize = 0;
            while i < args.len()
                invariant
                    *expr == Expr::Call(*name, *args),
                    i <= args@.len(),
                    eval_args_spec(models(args@).take(i as int), env@) == Some(vals@),
                decreases args@.len() - i,
            {
                proof {
                    assert(decreases_to!(*expr => *args));
                    assert(decreases_to!(*args => args@));
                    assert(decreases_to!(args@ => args@[i as int]));
                    lemma_models(args@);
                    let ms = models(args@);
                    assert(ms.take(i + 1).drop_last() =~= ms.take(i as int));
                    assert(ms.take(i + 1).last() == args@[i as int]@);
                }
                match eval(&args[i], env) {
                    Some(v) => {
                        vals.push(v);
                    },
                    None => {
                        proof {
                            lemma_args_fail_prefix(models(args@), i + 1, env@);
                        }
                        return None;
                    },
                }
                i = i + 1;
            }
            proof {
                lemma_models(args@);
                assert(models(args@).take(i as int) =~= models(args@));
            }
            match lookup(name.as_str()) {
                Some(f) => apply(f, &vals),
                None => None,
            }
        },
        Expr::Var(name) => env.get(name),
    }
}

/// Runs a statement. An assignment binds its name to the value when
/// evaluation succeeds and leaves the environment as it was otherwise.
pub fn eval_statement(stmt: Statement, env: &mut Env) -> (r: Option<i64>)
    ensures
        r == statement_value(stmt@, old(env)@),
        final(env)@ == statement_env(stmt@, old(env)@),
{
    match stmt {
        Statement::Assign(name, e) => {
            let v = eval(&e, env)?;
            env.insert(name, v);
            Some(v)
        },
        Statement::Expr(e) => eval(&e, env),
    }
}

} // verus!
