use tinyexpr::{
    binomial, builtin_name, factorial, te_compile, Expr, Operator, Target, TeVariable,
    TE_CLOSURE0, TE_CLOSURE1, TE_CLOSURE2, TE_FUNCTION0, TE_FUNCTION1, TE_FUNCTION2,
    TE_FUNCTION3, TE_FUNCTION4, TE_FUNCTION5, TE_FUNCTION6, TE_FUNCTION7, TE_VARIABLE,
};

// ---------------------------------------------------------------------------
// A floating-point evaluator of compiled trees, used to check results.
// ---------------------------------------------------------------------------

/// What a binding stands for when a tree is evaluated.
enum Bound {
    Value(f64),
    Func(fn(&[f64]) -> f64),
}

fn fac(a: f64) -> f64 {
    if a < 0.0 {
        return f64::NAN;
    }
    if a > u32::MAX as f64 {
        return f64::INFINITY;
    }
    match factorial(a as u32) {
        Some(v) => v as f64,
        None => f64::INFINITY,
    }
}

fn ncr(n: f64, r: f64) -> f64 {
    if n < 0.0 || r < 0.0 || n < r {
        return f64::NAN;
    }
    if n > u32::MAX as f64 || r > u32::MAX as f64 {
        return f64::INFINITY;
    }
    match binomial(n as u32, r as u32) {
        Some(v) => v as f64,
        None => f64::INFINITY,
    }
}

fn builtin(name: &str, a: &[f64]) -> f64 {
    match name {
        "abs" => a[0].abs(),
        "acos" => a[0].acos(),
        "asin" => a[0].asin(),
        "atan" => a[0].atan(),
        "atan2" => a[0].atan2(a[1]),
        "ceil" => a[0].ceil(),
        "cos" => a[0].cos(),
        "cosh" => a[0].cosh(),
        "e" => std::f64::consts::E,
        "exp" => a[0].exp(),
        "fac" => fac(a[0]),
        "floor" => a[0].floor(),
        "ln" => a[0].ln(),
        "log" => a[0].log10(),
        "log10" => a[0].log10(),
        "ncr" => ncr(a[0], a[1]),
        "npr" => ncr(a[0], a[1]) * fac(a[1]),
        "pi" => std::f64::consts::PI,
        "pow" => a[0].powf(a[1]),
        "sin" => a[0].sin(),
        "sinh" => a[0].sinh(),
        "sqrt" => a[0].sqrt(),
        "tan" => a[0].tan(),
        "tanh" => a[0].tanh(),
        _ => panic!("unknown built-in {name}"),
    }
}

/// The value of a numeric literal: decimal, or hexadecimal (`0x`, hexadecimal
/// digits with an optional point, an optional binary exponent `p`).
fn literal_value(text: &str) -> f64 {
    let hex = text.strip_prefix("0x").or_else(|| text.strip_prefix("0X"));
    let Some(h) = hex else {
        return text.parse::<f64>().unwrap_or(f64::NAN);
    };
    let (mantissa, exponent) = match h.find(|c: char| c == 'p' || c == 'P') {
        Some(i) => (&h[..i], h[i + 1..].parse::<i64>().unwrap_or(0)),
        None => (h, 0),
    };
    let mut value = 0.0f64;
    let mut scale: i64 = 0;
    let mut after_point = false;
    for c in mantissa.chars() {
        if c == '.' {
            after_point = true;
            continue;
        }
        value = value * 16.0 + c.to_digit(16).unwrap_or(0) as f64;
        if after_point {
            scale -= 4;
        }
    }
    value * 2f64.powf(exponent.saturating_add(scale) as f64)
}

fn eval(e: &Expr, text: &str, env: &[Bound]) -> f64 {
    match e {
        Expr::Constant { start, end } => literal_value(&text[*start..*end]),
        Expr::Variable { index } => match &env[*index] {
            Bound::Value(v) => *v,
            Bound::Func(_) => panic!("a function read as a variable"),
        },
        Expr::Folded { inner } => eval(inner, text, env),
        Expr::Call { target, parameters, .. } => {
            let a: Vec<f64> = parameters.iter().map(|p| eval(p, text, env)).collect();
            match target {
                Target::Op(o) => match o {
                    Operator::Add => a[0] + a[1],
                    Operator::Sub => a[0] - a[1],
                    Operator::Mul => a[0] * a[1],
                    Operator::Divide => a[0] / a[1],
                    Operator::Pow => a[0].powf(a[1]),
                    Operator::Fmod => a[0] % a[1],
                    Operator::Negate => -a[0],
                    Operator::Comma => a[1],
                },
                Target::Builtin(j) => builtin(builtin_name(*j), &a),
                Target::Lookup(i) => match &env[*i] {
                    Bound::Func(f) => f(&a),
                    Bound::Value(_) => panic!("a variable called as a function"),
                },
            }
        }
    }
}

fn compile_eval(expr: &str, variables: &[TeVariable], env: &[Bound]) -> f64 {
    let compiled = te_compile(expr, variables)
        .unwrap_or_else(|err| panic!("failed to compile {expr:?}: {err}"));
    eval(&compiled, expr, env)
}

fn assert_eval(expr: &str, expected: f64, variables: &[TeVariable], env: &[Bound]) {
    let actual = compile_eval(expr, variables, env);
    assert!(
        (actual - expected).abs() < 1e-10,
        "expected {expr:?} to evaluate to {expected}, got {actual}"
    );
}

fn assert_near(expr: &str, expected: f64) {
    let actual = compile_eval(expr, &[], &[]);
    assert!(
        (actual - expected).abs() <= 1e-4,
        "expected {expr:?} to evaluate to about {expected}, got {actual}"
    );
}

fn assert_error(expr: &str, variables: &[TeVariable]) {
    assert!(te_compile(expr, variables).is_err(), "expected {expr:?} to fail compilation");
}

fn variable_lookup() -> [TeVariable; 2] {
    [TeVariable { name: "x", type_: TE_VARIABLE }, TeVariable { name: "y", type_: TE_VARIABLE }]
}

fn values(x: f64, y: f64) -> [Bound; 2] {
    [Bound::Value(x), Bound::Value(y)]
}

// ---------------------------------------------------------------------------
// Results of single expressions.
// ---------------------------------------------------------------------------

#[test]
fn test_integer_constant() {
    assert_eval("42", 42.0, &[], &[]);
}

#[test]
fn test_decimal_constant() {
    assert_eval("3.14159", 3.14159, &[], &[]);
}

#[test]
fn test_addition() {
    assert_eval("2+3", 5.0, &[], &[]);
}

#[test]
fn test_subtraction() {
    assert_eval("10-4", 6.0, &[], &[]);
}

#[test]
fn test_multiplication() {
    assert_eval("6*7", 42.0, &[], &[]);
}

#[test]
fn test_division() {
    assert_eval("8/2", 4.0, &[], &[]);
}

#[test]
fn test_modulus() {
    assert_eval("8%3", 2.0, &[], &[]);
}

#[test]
fn test_power_operator() {
    assert_eval("2^3", 8.0, &[], &[]);
}

#[test]
fn test_operator_precedence() {
    assert_eval("2+3*4", 14.0, &[], &[]);
    assert_eval("(2+3)*4", 20.0, &[], &[]);
}

#[test]
fn test_parentheses() {
    assert_eval("(1+2)*3", 9.0, &[], &[]);
}

#[test]
fn test_nested_parentheses() {
    assert_eval("((2+3)*2)", 10.0, &[], &[]);
}

#[test]
fn test_unary_plus() {
    assert_eval("+5", 5.0, &[], &[]);
}

#[test]
fn test_unary_minus() {
    assert_eval("-5", -5.0, &[], &[]);
}

#[test]
fn test_variable_lookup() {
    let lookup = variable_lookup();
    assert_eval("x", 3.0, &lookup, &values(3.0, 4.0));
}

#[test]
fn test_multiple_variables() {
    let lookup = variable_lookup();
    assert_eval("x+y", 5.0, &lookup, &values(2.0, 3.0));
}

#[test]
fn test_builtin_sqrt() {
    assert_eval("sqrt(9)", 3.0, &[], &[]);
}

#[test]
fn test_builtin_sin() {
    assert_eval("sin(0)", 0.0, &[], &[]);
}

#[test]
fn test_builtin_cos() {
    assert_eval("cos(0)", 1.0, &[], &[]);
}

#[test]
fn test_builtin_pow() {
    assert_eval("pow(2,3)", 8.0, &[], &[]);
}

#[test]
fn test_nested_functions() {
    assert_eval("sqrt(pow(2,2))", 2.0, &[], &[]);
}

#[test]
fn test_factorial() {
    assert_eval("fac(5)", 120.0, &[], &[]);
}

#[test]
fn test_ncr() {
    assert_eval("ncr(5,2)", 10.0, &[], &[]);
}

#[test]
fn test_npr() {
    assert_eval("npr(5,2)", 20.0, &[], &[]);
}

#[test]
fn test_invalid_expression() {
    assert_error("1+", &[]);
}

#[test]
fn test_unmatched_parentheses() {
    assert_error("(1+2", &[]);
}

#[test]
fn test_unknown_identifier() {
    assert_error("foo", &[]);
}

#[test]
fn test_empty_expression() {
    assert_error("", &[]);
}

// ---------------------------------------------------------------------------
// Whole-library scenarios.
// ---------------------------------------------------------------------------

#[test]
fn results_of_expressions() {
    let cases: &[(&str, f64)] = &[
        ("1", 1.0),
        ("1 ", 1.0),
        ("(1)", 1.0),
        ("pi", 3.14159),
        ("atan(1)*4 - pi", 0.0),
        ("e", 2.71828),
        ("2+1", 2.0 + 1.0),
        ("(((2+(1))))", 2.0 + 1.0),
        ("3+2", 3.0 + 2.0),
        ("3+2+4", 3.0 + 2.0 + 4.0),
        ("(3+2)+4", 3.0 + 2.0 + 4.0),
        ("3+(2+4)", 3.0 + 2.0 + 4.0),
        ("(3+2+4)", 3.0 + 2.0 + 4.0),
        ("3*2*4", 3.0 * 2.0 * 4.0),
        ("(3*2)*4", 3.0 * 2.0 * 4.0),
        ("3*(2*4)", 3.0 * 2.0 * 4.0),
        ("(3*2*4)", 3.0 * 2.0 * 4.0),
        ("3-2-4", 3.0 - 2.0 - 4.0),
        ("(3-2)-4", (3.0 - 2.0) - 4.0),
        ("3-(2-4)", 3.0 - (2.0 - 4.0)),
        ("(3-2-4)", 3.0 - 2.0 - 4.0),
        ("3/2/4", 3.0 / 2.0 / 4.0),
        ("(3/2)/4", (3.0 / 2.0) / 4.0),
        ("3/(2/4)", 3.0 / (2.0 / 4.0)),
        ("(3/2/4)", 3.0 / 2.0 / 4.0),
        ("(3*2/4)", 3.0 * 2.0 / 4.0),
        ("(3/2*4)", 3.0 / 2.0 * 4.0),
        ("3*(2/4)", 3.0 * (2.0 / 4.0)),
        ("asin sin .5", 0.5),
        ("sin asin .5", 0.5),
        ("ln exp .5", 0.5),
        ("exp ln .5", 0.5),
        ("asin sin-.5", -0.5),
        ("asin sin-0.5", -0.5),
        ("asin sin -0.5", -0.5),
        ("asin (sin -0.5)", -0.5),
        ("asin (sin (-0.5))", -0.5),
        ("asin sin (-0.5)", -0.5),
        ("(asin sin (-0.5))", -0.5),
        ("log10 1000", 3.0),
        ("log10 1e3", 3.0),
        ("log10 1000", 3.0),
        ("log10 1e3", 3.0),
        ("log10(1000)", 3.0),
        ("log10(1e3)", 3.0),
        ("log10 1.0e3", 3.0),
        ("10^5*5e-5", 5.0),
        ("log 1000", 3.0),
        ("ln (e^10)", 10.0),
        ("100^.5+1", 11.0),
        ("100 ^.5+1", 11.0),
        ("100^+.5+1", 11.0),
        ("100^--.5+1", 11.0),
        ("100^---+-++---++-+-+-.5+1", 11.0),
        ("100^-.5+1", 1.1),
        ("100^---.5+1", 1.1),
        ("100^+---.5+1", 1.1),
        ("1e2^+---.5e0+1e0", 1.1),
        ("--(1e2^(+(-(-(-.5e0))))+1e0)", 1.1),
        ("sqrt 100 + 7", 17.0),
        ("sqrt 100 * 7", 70.0),
        ("sqrt (100 * 100)", 100.0),
        ("1,2", 2.0),
        ("1,2+1", 3.0),
        ("1+1,2+2,2+1", 3.0),
        ("1,2,3", 3.0),
        ("(1,2),3", 3.0),
        ("1,(2,3)", 3.0),
        ("-(1,(2,3))", -3.0),
        ("2^2", 4.0),
        ("pow(2,2)", 4.0),
        ("atan2(1,1)", 0.7854),
        ("atan2(1,2)", 0.4636),
        ("atan2(2,1)", 1.1071),
        ("atan2(3,4)", 0.6435),
        ("atan2(3+3,4*2)", 0.6435),
        ("atan2(3+3,(4*2))", 0.6435),
        ("atan2((3+3),4*2)", 0.6435),
        ("atan2((3+3),(4*2))", 0.6435),
        ("5+5", 10.0),
        ("sqrt 100", 10.0),
        ("pi * 2", 6.2832),
    ];
    for &(expr, answer) in cases {
        assert_near(expr, answer);
    }
}

#[test]
fn results_that_are_not_numbers() {
    let nans = [
        "0/0", "1%0", "1%(1%0)", "(1%0)%1", "fac(-1)", "ncr(2, 4)", "ncr(-2, 4)", "ncr(2, -4)",
        "npr(2, 4)", "npr(-2, 4)", "npr(2, -4)",
    ];
    for expr in nans {
        let r = compile_eval(expr, &[], &[]);
        assert!(r.is_nan(), "expected {expr:?} to give NaN, got {r}");
    }
}

#[test]
fn results_that_are_infinite() {
    let infs = [
        "1/0",
        "log(0)",
        "pow(2,10000000)",
        "fac(300)",
        "ncr(300,100)",
        "ncr(300000,100)",
        "ncr(300000,100)*8",
        "npr(3,2)*ncr(300000,100)",
        "npr(100,90)",
        "npr(30,25)",
    ];
    for expr in infs {
        let r = compile_eval(expr, &[], &[]);
        assert!(r == r + 1.0, "expected {expr:?} to give an infinity, got {r}");
    }
}

#[test]
fn results_with_variables() {
    let lookup = [
        TeVariable { name: "x", type_: TE_VARIABLE },
        TeVariable { name: "y", type_: TE_VARIABLE },
        TeVariable { name: "te_st", type_: TE_VARIABLE },
    ];
    let mut y = 2.0;
    while y < 3.0 {
        let mut x = 0.0;
        while x < 5.0 {
            let env = [Bound::Value(x), Bound::Value(y), Bound::Value(0.0)];
            let close = |expr: &str, vars: &[TeVariable], expected: f64| {
                let r = compile_eval(expr, vars, &env);
                assert!((r - expected).abs() <= 1e-4, "{expr:?}: {r} against {expected}");
            };
            close("cos x + sin y", &lookup[..2], x.cos() + y.sin());
            close("x+x+x-y", &lookup[..2], x + x + x - y);
            close("x*y^3", &lookup[..2], x * y * y * y);
            close("te_st+5", &lookup, 5.0);
            x += 1.0;
        }
        y += 1.0;
    }
    assert!(te_compile("xx*y^3", &lookup[..2]).is_err());
    assert!(te_compile("tes", &lookup).is_err());
    assert!(te_compile("sinn x", &lookup[..2]).is_err());
    assert!(te_compile("si x", &lookup[..2]).is_err());
}

#[test]
fn results_of_builtins_against_std() {
    let lookup = variable_lookup();
    let mut x = -5.0;
    while x < 5.0 {
        let check = |expr: &str, y: f64, expected: f64| {
            if !expected.is_nan() {
                let r = compile_eval(expr, &lookup, &values(x, y));
                assert!((r - expected).abs() <= 1e-4, "{expr:?} at {x}: {r} against {expected}");
            }
        };
        check("abs x", 0.0, x.abs());
        check("acos x", 0.0, x.acos());
        check("asin x", 0.0, x.asin());
        check("atan x", 0.0, x.atan());
        check("ceil x", 0.0, x.ceil());
        check("cos x", 0.0, x.cos());
        check("cosh x", 0.0, x.cosh());
        check("exp x", 0.0, x.exp());
        check("floor x", 0.0, x.floor());
        check("ln x", 0.0, x.ln());
        check("log10 x", 0.0, x.log10());
        check("sin x", 0.0, x.sin());
        check("sinh x", 0.0, x.sinh());
        check("sqrt x", 0.0, x.sqrt());
        check("tan x", 0.0, x.tan());
        check("tanh x", 0.0, x.tanh());
        let mut y = -2.0;
        while y < 2.0 {
            if x.abs() < 0.01 {
                break;
            }
            check("atan2(x,y)", y, x.atan2(y));
            check("pow(x,y)", y, x.powf(y));
            y += 0.2;
        }
        x += 0.2;
    }
}

#[test]
fn results_with_bound_functions() {
    let lookup = [
        TeVariable { name: "x", type_: TE_VARIABLE },
        TeVariable { name: "f", type_: TE_VARIABLE },
        TeVariable { name: "sum0", type_: TE_FUNCTION0 },
        TeVariable { name: "sum1", type_: TE_FUNCTION1 },
        TeVariable { name: "sum2", type_: TE_FUNCTION2 },
        TeVariable { name: "sum3", type_: TE_FUNCTION3 },
        TeVariable { name: "sum4", type_: TE_FUNCTION4 },
        TeVariable { name: "sum5", type_: TE_FUNCTION5 },
        TeVariable { name: "sum6", type_: TE_FUNCTION6 },
        TeVariable { name: "sum7", type_: TE_FUNCTION7 },
    ];
    fn sum(a: &[f64]) -> f64 {
        a.iter().sum()
    }
    let env = [
        Bound::Value(2.0),
        Bound::Value(5.0),
        Bound::Func(|_| 6.0),
        Bound::Func(|a| a[0] * 2.0),
        Bound::Func(sum),
        Bound::Func(sum),
        Bound::Func(sum),
        Bound::Func(sum),
        Bound::Func(sum),
        Bound::Func(sum),
    ];
    let cases: &[(&str, f64)] = &[
        ("x", 2.0),
        ("f+x", 7.0),
        ("x+x", 4.0),
        ("x+f", 7.0),
        ("f+f", 10.0),
        ("f+sum0", 11.0),
        ("sum0+sum0", 12.0),
        ("sum0()+sum0", 12.0),
        ("sum0+sum0()", 12.0),
        ("sum0()+(0)+sum0()", 12.0),
        ("sum1 sum0", 12.0),
        ("sum1(sum0)", 12.0),
        ("sum1 f", 10.0),
        ("sum1 x", 4.0),
        ("sum2 (sum0, x)", 8.0),
        ("sum3 (sum0, x, 2)", 10.0),
        ("sum2(2,3)", 5.0),
        ("sum3(2,3,4)", 9.0),
        ("sum4(2,3,4,5)", 14.0),
        ("sum5(2,3,4,5,6)", 20.0),
        ("sum6(2,3,4,5,6,7)", 27.0),
        ("sum7(2,3,4,5,6,7,8)", 35.0),
    ];
    for &(expr, answer) in cases {
        assert_eval(expr, answer, &lookup, &env);
    }
}

#[test]
fn results_with_bound_closures() {
    let lookup = [
        TeVariable { name: "c0", type_: TE_CLOSURE0 },
        TeVariable { name: "c1", type_: TE_CLOSURE1 },
        TeVariable { name: "c2", type_: TE_CLOSURE2 },
        TeVariable { name: "cell", type_: TE_CLOSURE1 },
    ];
    let env = [
        Bound::Func(|_| 6.0),
        Bound::Func(|a| a[0] * 2.0),
        Bound::Func(|a| a[0] + a[1]),
        Bound::Func(|a| [5.0, 6.0, 7.0, 8.0, 9.0][a[0] as usize]),
    ];
    let cases: &[(&str, f64)] = &[
        ("c0", 6.0),
        ("c1 4", 8.0),
        ("c2 (10, 20)", 30.0),
        ("cell 0", 5.0),
        ("cell 1", 6.0),
        ("cell 0 + cell 1", 11.0),
        ("cell 1 * cell 3 + cell 4", 57.0),
    ];
    for &(expr, answer) in cases {
        assert_eval(expr, answer, &lookup, &env);
    }
}

#[test]
fn power_is_left_associative() {
    let cases = [
        ("2^3^4", "(2^3)^4"),
        ("-2^2", "(-2)^2"),
        ("(-2)^2", "4"),
        ("--2^2", "2^2"),
        ("---2^2", "(-2)^2"),
        ("-2^2", "4"),
        ("2^1.1^1.2^1.3", "((2^1.1)^1.2)^1.3"),
        ("-a^b", "(-a)^b"),
        ("-a^-b", "(-a)^(-b)"),
        ("1^0", "1"),
        ("(1)^0", "1"),
        ("(-1)^0", "1"),
        ("(-5)^0", "1"),
        ("-2^-3^-4", "((-2)^(-3))^(-4)"),
    ];
    let lookup = [TeVariable { name: "a", type_: TE_VARIABLE }, TeVariable { name: "b", type_: TE_VARIABLE }];
    let env = [Bound::Value(2.0), Bound::Value(3.0)];
    for (e1, e2) in cases {
        let r1 = compile_eval(e1, &lookup, &env);
        let r2 = compile_eval(e2, &lookup, &env);
        assert!((r1 - r2).abs() <= 1e-4, "{e1:?} gives {r1}, {e2:?} gives {r2}");
    }
}

#[test]
fn results_of_combinatorics() {
    let cases: &[(&str, f64)] = &[
        ("fac(0)", 1.0),
        ("fac(0.2)", 1.0),
        ("fac(1)", 1.0),
        ("fac(2)", 2.0),
        ("fac(3)", 6.0),
        ("fac(4.8)", 24.0),
        ("fac(10)", 3628800.0),
        ("ncr(0,0)", 1.0),
        ("ncr(10,1)", 10.0),
        ("ncr(10,0)", 1.0),
        ("ncr(10,10)", 1.0),
        ("ncr(16,7)", 11440.0),
        ("ncr(16,9)", 11440.0),
        ("ncr(100,95)", 75287520.0),
        ("npr(0,0)", 1.0),
        ("npr(10,1)", 10.0),
        ("npr(10,0)", 1.0),
        ("npr(10,10)", 3628800.0),
        ("npr(20,5)", 1860480.0),
        ("npr(100,4)", 94109400.0),
    ];
    for &(expr, answer) in cases {
        assert_near(expr, answer);
    }
}

#[test]
fn hexadecimal_constants() {
    let cases: &[(&str, f64)] = &[
        ("0x10", 16.0),
        ("0X1F", 31.0),
        ("0xff+1", 256.0),
        ("0x1p4", 16.0),
        ("0x1.8", 1.5),
        ("0x.8p1", 1.0),
        ("0x1P-2", 0.25),
        ("2*0xA", 20.0),
    ];
    for &(expr, answer) in cases {
        assert_eval(expr, answer, &[], &[]);
    }
}
