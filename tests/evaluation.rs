use arith_eval::ast::{BinOp, Expr, ParseError, Statement};
use arith_eval::env::Env;
use arith_eval::eval::{eval, eval_statement};
use arith_eval::parser::{parse_expr, parse_name, parse_number, parse_statement, skip_ws, take_while};

fn run(env: &mut Env, line: &str) -> Option<i64> {
    let (_, stmt) = parse_statement(line).expect("the line should parse");
    eval_statement(stmt, env)
}

fn value_of(line: &str) -> Option<i64> {
    let mut env = Env::new();
    run(&mut env, line)
}

#[test]
fn precedence_and_grouping() {
    assert_eq!(value_of("2+3*4"), Some(14));
    assert_eq!(value_of("(2+3)*4"), Some(20));
    assert_eq!(value_of("2^3^2"), Some(512));
    assert_eq!(value_of("10-4-3"), Some(3));
    assert_eq!(value_of("100/10/5"), Some(2));
    assert_eq!(value_of("2*3^2"), Some(18));
}

#[test]
fn power_groups_to_the_right() {
    let (rest, e) = parse_expr("2^3^2").unwrap();
    assert_eq!(rest, "");
    let expected = Expr::Binary(
        BinOp::Pow,
        Box::new(Expr::Number(2)),
        Box::new(Expr::Binary(BinOp::Pow, Box::new(Expr::Number(3)), Box::new(Expr::Number(2)))),
    );
    assert_eq!(e, expected);
}

#[test]
fn evaluation_does_not_depend_on_bindings_for_closed_expressions() {
    let mut env = Env::new();
    let (_, e) = parse_expr("7*6-1").unwrap();
    assert_eq!(eval(&e, &env), Some(41));
    env.insert("x".to_string(), 3);
    assert_eq!(eval(&e, &env), Some(41));
}

#[test]
fn division_and_modulo_by_zero_fail() {
    assert_eq!(value_of("5/0"), None);
    assert_eq!(value_of("5%0"), None);
    assert_eq!(value_of("5/(3-3)"), None);
}

#[test]
fn division_rounds_toward_zero() {
    assert_eq!(value_of("-7/2"), Some(-3));
    assert_eq!(value_of("-7%2"), Some(-1));
    assert_eq!(value_of("7%-2"), Some(1));
    assert_eq!(value_of("-9223372036854775808/-1"), None);
    assert_eq!(value_of("-9223372036854775808%-1"), Some(0));
}

#[test]
fn assignment_binds_and_returns_value() {
    let mut env = Env::new();
    assert_eq!(run(&mut env, "x=10"), Some(10));
    assert_eq!(env.get(&"x".to_string()), Some(10));
    assert_eq!(run(&mut env, "x+1"), Some(11));
    assert_eq!(run(&mut env, "x = x * 2"), Some(20));
    assert_eq!(run(&mut env, "x"), Some(20));
}

#[test]
fn unknown_variable_fails_and_keeps_bindings() {
    let mut env = Env::new();
    assert_eq!(run(&mut env, "y=4"), Some(4));
    assert_eq!(run(&mut env, "unknownvar+1"), None);
    assert_eq!(run(&mut env, "z=unknownvar"), None);
    assert_eq!(env.get(&"z".to_string()), None);
    assert_eq!(env.get(&"y".to_string()), Some(4));
}

#[test]
fn function_dispatch() {
    assert_eq!(value_of("sqrt(16)"), Some(4));
    assert_eq!(value_of("hypot(3,4)"), Some(5));
    assert_eq!(value_of("nosuchfn(1)"), None);
    assert_eq!(value_of("hypot(3)"), None);
    assert_eq!(value_of("sqrt( 16 , 99 )"), Some(4));
}

#[test]
fn builtin_table() {
    assert_eq!(value_of("sin(0)"), Some(0));
    assert_eq!(value_of("cos(0)"), Some(1));
    assert_eq!(value_of("tan(0)"), Some(0));
    assert_eq!(value_of("sin(1)"), None);
    assert_eq!(value_of("deg2rad(0)"), Some(0));
    assert_eq!(value_of("rad2deg(0)"), Some(0));
    assert_eq!(value_of("sqrt(15)"), Some(3));
    assert_eq!(value_of("sqrt(-1)"), None);
    assert_eq!(value_of("hypot(1,1)"), Some(1));
    assert_eq!(value_of("log(8,2)"), Some(3));
    assert_eq!(value_of("log(9,2)"), Some(3));
    assert_eq!(value_of("log(8,1)"), None);
    assert_eq!(value_of("log2(1024)"), Some(10));
    assert_eq!(value_of("log10(999)"), Some(2));
    assert_eq!(value_of("log10(0)"), None);
    assert_eq!(value_of("abs(-5)"), Some(5));
    assert_eq!(value_of("abs(-9223372036854775808)"), None);
    assert_eq!(value_of("rnd(7)"), Some(7));
    assert_eq!(value_of("facto(5)"), Some(120));
    assert_eq!(value_of("facto(0)"), Some(1));
    assert_eq!(value_of("facto(-3)"), Some(1));
    assert_eq!(value_of("facto(20)"), Some(2432902008176640000));
    assert_eq!(value_of("facto(21)"), None);
    assert_eq!(value_of("encule(7)"), Some(7));
    assert_eq!(value_of("meow(21)"), Some(42));
}

#[test]
fn powers() {
    assert_eq!(value_of("2^62"), Some(4611686018427387904));
    assert_eq!(value_of("2^63"), None);
    assert_eq!(value_of("-2^63"), Some(i64::MIN));
    assert_eq!(value_of("2^-1"), None);
    assert_eq!(value_of("0^0"), Some(1));
    assert_eq!(value_of("-1^999999999999"), Some(-1));
    assert_eq!(value_of("1^9223372036854775807"), Some(1));
}

#[test]
fn overflow_fails() {
    assert_eq!(value_of("9223372036854775807+1"), None);
    assert_eq!(value_of("-9223372036854775807-2"), None);
    assert_eq!(value_of("4611686018427387904*2"), None);
    assert_eq!(value_of("9223372036854775807"), Some(i64::MAX));
}

#[test]
fn identifiers_fold_case() {
    let mut env = Env::new();
    assert_eq!(run(&mut env, "X=5"), Some(5));
    assert_eq!(run(&mut env, "x+1"), Some(6));
    assert_eq!(run(&mut env, "SQRT(81)"), Some(9));
    assert_eq!(parse_name("  FooBar_9 rest"), Ok(("rest", "foobar_9".to_string())));
}

#[test]
fn rendered_numbers_parse_back() {
    for v in [0i64, 1, -1, 42, -42, 1234567890, i64::MAX, i64::MIN] {
        let text = format!("{}", v);
        assert_eq!(parse_number(&text), Ok(("", v)));
        assert_eq!(value_of(&text), Some(v));
    }
}

#[test]
fn malformed_input_is_a_parse_error() {
    assert_eq!(parse_statement("2+"), Err(ParseError::Empty));
    assert_eq!(parse_statement("(2+3"), Err(ParseError::Empty));
    assert_eq!(parse_statement(")"), Err(ParseError::InvalidChar(')')));
    assert_eq!(parse_statement(""), Err(ParseError::Empty));
    assert_eq!(parse_statement("."), Err(ParseError::InvalidChar('.')));
    assert_eq!(
        parse_statement("99999999999999999999+1"),
        Err(ParseError::InvalidSequence("99999999999999999999"))
    );
    assert_eq!(parse_statement("x=*2"), Err(ParseError::InvalidChar('*')));
}

#[test]
fn parse_error_leaves_bindings_alone() {
    let mut env = Env::new();
    assert_eq!(run(&mut env, "a=1"), Some(1));
    assert!(parse_statement("a=(2+").is_err());
    assert_eq!(env.get(&"a".to_string()), Some(1));
}

#[test]
fn statements_and_trailing_text() {
    assert_eq!(
        parse_statement("  v = 1 + 2  "),
        Ok((
            "",
            Statement::Assign(
                "v".to_string(),
                Expr::Binary(BinOp::Add, Box::new(Expr::Number(1)), Box::new(Expr::Number(2)))
            )
        ))
    );
    let (rest, stmt) = parse_statement("1 2").unwrap();
    assert_eq!(rest, "2");
    assert_eq!(stmt, Statement::Expr(Expr::Number(1)));
    let (rest, e) = parse_expr("f(1, g(2)) + y ").unwrap();
    assert_eq!(rest, "");
    assert_eq!(
        e,
        Expr::Binary(
            BinOp::Add,
            Box::new(Expr::Call(
                "f".to_string(),
                vec![Expr::Number(1), Expr::Call("g".to_string(), vec![Expr::Number(2)])]
            )),
            Box::new(Expr::Var("y".to_string()))
        )
    );
}

#[test]
fn combinators() {
    assert_eq!(skip_ws(" \t\u{3000}x "), Ok(("x ", ())));
    assert_eq!(take_while(|c| c.is_ascii_digit(), "123ab"), Ok(("ab", "123")));
    assert_eq!(parse_number("-12x"), Ok(("x", -12)));
    assert_eq!(parse_number("-x"), Err(ParseError::InvalidChar('x')));
}

#[test]
fn grouping_laws_on_values() {
    assert_eq!(value_of("-3+5*-2"), Some(-13));
    assert_eq!(value_of("(-3+5)*-2"), Some(-4));
    assert_eq!(value_of("3^2^-1"), None);
    assert_eq!(value_of("(2^3)^2"), Some(64));
    assert_eq!(parse_statement("7+"), Err(ParseError::Empty));
    assert_eq!(parse_statement("(7+8"), Err(ParseError::Empty));
}
