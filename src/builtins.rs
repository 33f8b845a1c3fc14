//! The fixed table of built-in functions, resolved by name.
use crate::arith::{checked, factorial, factorial_checked, floor_log, floor_sqrt, log_floor, magnitude, mul_checked, narrow, sqrt_floor};
use vstd::prelude::*;
use vstd::string::StrSliceExecFns;

verus! {

/// A built-in function.
#[derive(Clone, Copy, Debug, PartialEq, Eq, Structural)]
pub enum Builtin {
    Sin,
    Cos,
    Tan,
    Hypot,
    Sqrt,
    Log,
    Log2,
    Log10,
    Abs,
    Rnd,
    Facto,
    Deg2Rad,
    Rad2Deg,
    /// Hands its argument back; kept under its historical name `encule`.
    Passthrough,
    /// Doubles its argument; kept under its historical name `meow`.
    Double,
}

/// The built-in that a lower-case name designates.
pub open spec fn builtin_named(name: Seq<char>) -> Option<Builtin> {
    if name == "sin"@ {
        Some(Builtin::Sin)
    } else if name == "cos"@ {
        Some(Builtin::Cos)
    } else if name == "tan"@ {
        Some(Builtin::Tan)
    } else if name == "hypot"@ {
        Some(Builtin::Hypot)
    } else if name == "sqrt"@ {
        Some(Builtin::Sqrt)
    } else if name == "log"@ {
        Some(Builtin::Log)
    } else if name == "log2"@ {
        Some(Builtin::Log2)
    } else if name == "log10"@ {
        Some(Builtin::Log10)
    } else if name == "abs"@ {
        Some(Builtin::Abs)
    } else if name == "rnd"@ {
        Some(Builtin::Rnd)
    } else if name == "facto"@ {
        Some(Builtin::Facto)
    } else if name == "deg2rad"@ {
        Some(Builtin::Deg2Rad)
    } else if name == "rad2deg"@ {
        Some(Builtin::Rad2Deg)
    } else if name == "encule"@ {
        Some(Builtin::Passthrough)
    } else if name == "meow"@ {
        Some(Builtin::Double)
    } else {
        None
    }
}

/// How many arguments a built-in reads; further ones are ignored.
pub open spec fn arity(f: Builtin) -> nat {
    match f {
        Builtin::Hypot | Builtin::Log => 2,
        _ => 1,
    }
}

/// The logarithm of `x` in base `b` rounded down, defined for `x >= 1` and `b >= 2`.
pub open spec fn checked_log(x: int, b: int) -> Option<i64> {
    if x >= 1 && b >= 2 {
        checked(floor_log(b, x))
    } else {
        None
    }
}

/// What a built-in yields on integer arguments. Results are exact integers:
/// square roots and logarithms are rounded down, and the trigonometric and
/// angle functions, whose value at a nonzero integer is never an integer,
/// yield a value at zero alone.
pub open spec fn apply_spec(f: Builtin, args: Seq<i64>) -> Option<i64> {
    if args.len() < arity(f) {
        None
    } else {
        let a = args[0] as int;
        match f {
            Builtin::Sin | Builtin::Tan | Builtin::Deg2Rad | Builtin::Rad2Deg => if a == 0 {
                Some(0i64)
            } else {
                None
            },
            Builtin::Cos => if a == 0 {
                Some(1i64)
            } else {
                None
            },
            Builtin::Hypot => checked(floor_sqrt(a * a + args[1] * args[1])),
            Builtin::Sqrt => if a < 0 {
                None
            } else {
                checked(floor_sqrt(a))
            },
            Builtin::Log => checked_log(a, args[1] as int),
            Builtin::Log2 => checked_log(a, 2),
            Builtin::Log10 => checked_log(a, 10),
            Builtin::Abs => checked(magnitude(a) as int),
            Builtin::Rnd | Builtin::Passthrough => Some(a as i64),
            Builtin::Facto => checked(factorial(a)),
            Builtin::Double => checked(2 * a),
        }
    }
}

/// What a call of the function named `name` yields: `None` for an unknown name.
pub open spec fn call_spec(name: Seq<char>, args: Seq<i64>) -> Option<i64> {
    match builtin_named(name) {
        Some(f) => apply_spec(f, args),
        None => None,
    }
}

/// Whether two strings hold the same characters.
pub fn same_text(a: &str, b: &str) -> (r: bool)
    ensures
        r == (a@ == b@),
{
    let n = a.unicode_len();
    if n != b.unicode_len() {
        return false;
    }
    let mut i: usize = 0;
    while i < n
        invariant
            n == a@.len() == b@.len(),
            i <= n,
            forall|t: int| 0 <= t < i ==> a@[t] == b@[t],
        decreases n - i,
    {
        if a.get_char(i) != b.get_char(i) {
            return false;
        }
        i = i + 1;
    }
    assert(a@ =~= b@);
    true
}

/// The built-in named `name`, if there is one.
pub fn lookup(name: &str) -> (r: Option<Builtin>)
    ensures
        r == builtin_named(name@),
{
    if same_text(name, "sin") {
        Some(Builtin::Sin)
    } else if same_text(name, "cos") {
        Some(Builtin::Cos)
    } else if same_text(name, "tan") {
        Some(Builtin::Tan)
    } else if same_text(name, "hypot") {
        Some(Builtin::Hypot)
    } else if same_text(name, "sqrt") {
        Some(Builtin::Sqrt)
    } else if same_text(name, "log") {
        Some(Builtin::Log)
    } else if same_text(name, "log2") {
        Some(Builtin::Log2)
    } else if same_text(name, "log10") {
        Some(Builtin::Log10)
    } else if same_text(name, "abs") {
        Some(Builtin::Abs)
    } else if same_text(name, "rnd") {
        Some(Builtin::Rnd)
    } else if same_text(name, "facto") {
        Some(Builtin::Facto)
    } else if same_text(name, "deg2rad") {
        Some(Builtin::Deg2Rad)
    } else if same_text(name, "rad2deg") {
        Some(Builtin::Rad2Deg)
    } else if same_text(name, "encule") {
        Some(Builtin::Passthrough)
    } else if same_text(name, "meow") {
        Some(Builtin::Double)
    } else {
        None
    }
}

fn log_checked(x: i64, b: i64) -> (r: Option<i64>)
    ensures
        r == checked_log(x as int, b as int),
{
    if x >= 1 && b >= 2 {
        Some(log_floor(b, x))
    } else {
        None
    }
}

fn square(a: i64) -> (r: u128)
    ensures
        r == a * a,
        r <= 0x4000_0000_0000_0000_0000_0000_0000_0000,
{
    let m: u128 = if a < 0 { (-(a as i128)) as u128 } else { a as u128 };
    assert(m * m == a * a && m * m <= 0x4000_0000_0000_0000_0000_0000_0000_0000) by (nonlinear_arith)
        requires
            m == magnitude(a as int),
            magnitude(a as int) <= 0x8000_0000_0000_0000,
    ;
    m * m
}

/// Applies a built-in to evaluated arguments.
pub fn apply(f: Builtin, args: &Vec<i64>) -> (r: Option<i64>)
    ensures
        r == apply_spec(f, args@),
{
    if args.len() < 1 || (args.len() < 2 && (f == Builtin::Hypot || f == Builtin::Log)) {
        return None;
    }
    let a = args[0];
    match f {
        Builtin::Sin | Builtin::Tan | Builtin::Deg2Rad | Builtin::Rad2Deg => if a == 0 {
            Some(0)
        } else {
            None
        },
        Builtin::Cos => if a == 0 {
            Some(1)
        } else {
            None
        },
        Builtin::Hypot => {
            let r = sqrt_floor(square(a) + square(args[1]));
            narrow(r as i128)
        },
        Builtin::Sqrt => if a < 0 {
            None
        } else {
            narrow(sqrt_floor(a as u128) as i128)
        },
        Builtin::Log => log_checked(a, args[1]),
        Builtin::Log2 => log_checked(a, 2),
        Builtin::Log10 => log_checked(a, 10),
        Builtin::Abs => if a == i64::MIN {
            None
        } else if a < 0 {
            Some(-a)
        } else {
            Some(a)
        },
        Builtin::Rnd | Builtin::Passthrough => Some(a),
        Builtin::Facto => factorial_checked(a),
        Builtin::Double => mul_checked(2, a),
    }
}

} // verus!
