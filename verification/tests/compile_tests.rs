use tinyexpr::lexer::{next_token, State};
use tinyexpr::optimizer::optimize;
use tinyexpr::parser;
use tinyexpr::{
    te_compile, Expr, Operator, Target, TeVariable, TE_FLAG_PURE, TE_FUNCTION1, TE_FUNCTION2,
    TE_VARIABLE, TOK_CLOSE, TOK_END, TOK_ERROR, TOK_INFIX, TOK_NUMBER, TOK_OPEN, TOK_SEP,
    TOK_VARIABLE,
};

/// A compact text form of a tree: constants as their text, variables as
/// `$i`, folded nodes in square brackets, calls as `target(args)`.
fn describe(e: &Expr, text: &str) -> String {
    match e {
        Expr::Constant { start, end } => text[*start..*end].to_string(),
        Expr::Variable { index } => format!("${index}"),
        Expr::Folded { inner } => format!("[{}]", describe(inner, text)),
        Expr::Call { target, parameters, .. } => {
            let name = match target {
                Target::Op(o) => format!("{o:?}"),
                Target::Builtin(j) => tinyexpr::builtin_name(*j).to_string(),
                Target::Lookup(i) => format!("@{i}"),
            };
            let args: Vec<String> = parameters.iter().map(|p| describe(p, text)).collect();
            format!("{name}({})", args.join(","))
        }
    }
}

fn shape(expr: &str, vars: &[TeVariable]) -> String {
    let e = te_compile(expr, vars).unwrap_or_else(|c| panic!("{expr:?} failed at {c}"));
    describe(&e, expr)
}

fn error_at(expr: &str) -> i32 {
    match te_compile(expr, &[]) {
        Ok(_) => panic!("{expr:?} compiled"),
        Err(c) => c,
    }
}

#[test]
fn syntax_errors_report_their_position() {
    let cases = [
        ("", 1),
        ("1+", 2),
        ("1)", 2),
        ("(1", 2),
        ("1**1", 3),
        ("1*2(+4", 4),
        ("1*2(1+4", 4),
        ("a+5", 1),
        ("!+5", 1),
        ("_a+5", 1),
        ("#a+5", 1),
        ("1^^5", 3),
        ("1**5", 3),
        ("sin(cos5", 8),
    ];
    for (expr, pos) in cases {
        assert_eq!(error_at(expr), pos, "position for {expr:?}");
    }
}

#[test]
fn error_positions_lie_within_the_expression() {
    for expr in ["1+", "(1+2", "foo", "1+2)", "atan2(1)", "atan2(1,2,3)", "   ", "2*(3+"] {
        let c = error_at(expr);
        assert!(c >= 1 && (c as usize <= expr.len() || c == 1), "{expr:?} gave {c}");
    }
}

#[test]
fn a_lone_decimal_point_is_an_error() {
    assert_eq!(error_at("."), 1);
    assert_eq!(error_at("1+."), 3);
    assert_eq!(shape("5.", &[]), "5.");
    assert_eq!(shape(".5", &[]), ".5");
}

#[test]
fn numbers_take_a_signed_exponent() {
    assert_eq!(shape("5e-5", &[]), "5e-5");
    assert_eq!(shape("1.0e3", &[]), "1.0e3");
    assert_eq!(shape("1E+2", &[]), "1E+2");
}

#[test]
fn constant_parts_are_folded() {
    assert_eq!(shape("42", &[]), "42");
    assert_eq!(shape("2+3", &[]), "[Add(2,3)]");
    assert_eq!(shape("2+3*4", &[]), "[Add(2,[Mul(3,4)])]");
    assert_eq!(shape("pi*2", &[]), "[Mul([pi()],2)]");
    assert_eq!(shape("sqrt 100", &[]), "[sqrt(100)]");
    let x = [TeVariable { name: "x", type_: TE_VARIABLE }];
    assert_eq!(shape("x+2*3", &x), "Add($0,[Mul(2,3)])");
}

#[test]
fn power_binds_signs_first_and_groups_left() {
    assert_eq!(shape("-2^2", &[]), "[Pow([Negate(2)],2)]");
    assert_eq!(shape("2^3^4", &[]), "[Pow([Pow(2,3)],4)]");
    assert_eq!(shape("--2", &[]), "2");
    assert_eq!(shape("1,2", &[]), "[Comma(1,2)]");
}

#[test]
fn the_parser_alone_does_not_fold() {
    let e = parser::te_compile("2+3", &[]).unwrap();
    assert_eq!(describe(&e, "2+3"), "Add(2,3)");
    assert!(matches!(
        *e,
        Expr::Call { type_, target: Target::Op(Operator::Add), .. } if type_ == TE_FUNCTION2 | TE_FLAG_PURE
    ));
}

#[test]
fn calls_that_are_not_pure_keep_their_arguments() {
    let vars = [
        TeVariable { name: "f", type_: TE_FUNCTION1 },
        TeVariable { name: "g", type_: TE_FUNCTION1 | TE_FLAG_PURE },
    ];
    assert_eq!(shape("f(1+2)", &vars), "@0(Add(1,2))");
    assert_eq!(shape("g(1+2)", &vars), "[@1([Add(1,2)])]");
}

#[test]
fn folding_twice_changes_nothing() {
    let vars = [TeVariable { name: "x", type_: TE_VARIABLE }, TeVariable { name: "f", type_: TE_FUNCTION1 }];
    for expr in ["2+x*3", "sin(1)+f(2*3)", "-(1,(2,x))", "pow(2,2)^x"] {
        let mut e = te_compile(expr, &vars).unwrap();
        let once = describe(&e, expr);
        optimize(&mut e);
        assert_eq!(describe(&e, expr), once, "{expr:?}");
    }
}

#[test]
fn caller_bindings_shadow_builtins() {
    let vars = [TeVariable { name: "sin", type_: TE_VARIABLE }];
    assert_eq!(shape("sin", &vars), "$0");
    assert_eq!(shape("sin+1", &vars), "Add($0,1)");
    assert_eq!(shape("sin 1", &[]), "[sin(1)]");
}

#[test]
fn the_first_binding_of_a_name_wins() {
    let vars = [
        TeVariable { name: "a", type_: TE_VARIABLE },
        TeVariable { name: "a", type_: TE_VARIABLE },
    ];
    assert_eq!(shape("a", &vars), "$0");
}

#[test]
fn a_binding_of_unknown_kind_is_an_error() {
    let vars = [TeVariable { name: "q", type_: 3 }];
    assert_eq!(te_compile("q", &vars).err(), Some(1));
}

#[test]
fn arity_is_checked() {
    assert_eq!(error_at("atan2(1)"), 8);
    assert_eq!(error_at("atan2(1,2,3)"), 10);
    assert_eq!(shape("sin(1,2)", &[]), "[sin([Comma(1,2)])]");
    assert_eq!(shape("atan2(1,2)", &[]), "[atan2(1,2)]");
    assert_eq!(shape("pi()", &[]), "[pi()]");
}

#[test]
fn tokens_of_an_expression() {
    let vars = [TeVariable { name: "x", type_: TE_VARIABLE }];
    let mut s = State::new("x + (2.5, 3)", &vars);
    let mut seen = Vec::new();
    loop {
        next_token(&mut s);
        seen.push((s.tok.type_, s.tok.start, s.tok.end));
        if s.tok.type_ == TOK_END {
            break;
        }
    }
    assert_eq!(
        seen,
        vec![
            (TOK_VARIABLE, 0, 1),
            (TOK_INFIX, 2, 3),
            (TOK_OPEN, 4, 5),
            (TOK_NUMBER, 5, 8),
            (TOK_SEP, 8, 9),
            (TOK_NUMBER, 10, 11),
            (TOK_CLOSE, 11, 12),
            (TOK_END, 12, 12),
        ]
    );
    let mut s = State::new("@", &[]);
    next_token(&mut s);
    assert_eq!((s.tok.type_, s.tok.start, s.tok.end), (TOK_ERROR, 0, 1));
}

/// The tree with every folded node replaced by the call it stands for.
fn describe_unfolded(e: &Expr, text: &str) -> String {
    match e {
        Expr::Folded { inner } => describe_unfolded(inner, text),
        Expr::Call { target, parameters, .. } => {
            let args: Vec<String> = parameters.iter().map(|p| describe_unfolded(p, text)).collect();
            format!("{target:?}({})", args.join(","))
        }
        other => describe(other, text),
    }
}

fn is_known(e: &Expr) -> bool {
    matches!(e, Expr::Constant { .. } | Expr::Folded { .. })
}

/// No pure call outside a folded node has only known arguments.
fn fully_folded(e: &Expr) -> bool {
    match e {
        Expr::Call { type_, parameters, .. } => {
            !tinyexpr::is_pure(*type_)
                || (!parameters.iter().all(is_known) && parameters.iter().all(fully_folded))
        }
        _ => true,
    }
}

#[test]
fn folding_keeps_the_computation_and_leaves_nothing_to_fold() {
    let vars = [
        TeVariable { name: "x", type_: TE_VARIABLE },
        TeVariable { name: "f", type_: TE_FUNCTION1 },
        TeVariable { name: "g", type_: TE_FUNCTION2 | TE_FLAG_PURE },
    ];
    for expr in [
        "1+2*3",
        "x*(2+3)-sqrt 16",
        "f(1+2)+g(3,4)",
        "g(x,2^3)",
        "-(1,(2,x))",
        "atan2(1,2)^x^2",
        "f 2 * pi",
    ] {
        let parsed = parser::te_compile(expr, &vars).unwrap();
        let compiled = te_compile(expr, &vars).unwrap();
        assert_eq!(describe_unfolded(&compiled, expr), describe_unfolded(&parsed, expr), "{expr:?}");
        assert!(fully_folded(&compiled), "{expr:?}: {}", describe(&compiled, expr));
    }
}

#[test]
fn closed_expressions_fold_to_one_value() {
    for expr in ["5+5", "pow(2,2)", "sqrt 100", "pi * 2", "-(1,(2,3))", "42", "fac(5)/ncr(5,2)"] {
        let e = te_compile(expr, &[]).unwrap();
        assert!(is_known(&e), "{expr:?}: {}", describe(&e, expr));
    }
}

#[test]
fn nodes_are_built_from_their_parts() {
    assert!(matches!(Expr::new_constant(2, 5), Expr::Constant { start: 2, end: 5 }));
    assert!(matches!(Expr::new_variable(3), Expr::Variable { index: 3 }));
    let f = Expr::new_func(
        TE_FUNCTION2 | TE_FLAG_PURE,
        Target::Op(Operator::Mul),
        vec![Expr::new_constant(0, 1), Expr::new_variable(0)],
    );
    assert_eq!(describe(&f, "7"), "Mul(7,$0)");
    let c = Expr::new_closure(tinyexpr::TE_CLOSURE1, 4, vec![Expr::new_constant(0, 1)]);
    assert_eq!(describe(&c, "7"), "@4(7)");
    assert!(matches!(c, Expr::Call { type_, .. } if type_ == tinyexpr::TE_CLOSURE1));
}

#[test]
fn hexadecimal_numbers_are_single_tokens() {
    assert_eq!(shape("0x10", &[]), "0x10");
    assert_eq!(shape("0XaB.cp+3", &[]), "0XaB.cp+3");
    assert_eq!(error_at("0x1p"), 4);
    assert_eq!(error_at("0x"), 2);
    assert_eq!(error_at("0xg"), 3);
    assert_eq!(shape("0x1e2", &[]), "0x1e2");
}

#[test]
fn folding_visits_only_the_arguments_an_arity_counts() {
    let extra = Expr::new_func(
        TE_FUNCTION2 | TE_FLAG_PURE,
        Target::Op(Operator::Add),
        vec![Expr::new_constant(0, 1), Expr::new_constant(2, 3), parser::te_compile("1+2", &[]).map(|b| *b).unwrap()],
    );
    let mut e = extra;
    optimize(&mut e);
    assert_eq!(describe(&e, "1+2"), "[Add(1,2,Add(1,2))]");
}

#[test]
fn signs_fold_into_at_most_one_negation() {
    let cases = [
        ("5", "5"),
        ("-5", "[Negate(5)]"),
        ("--5", "5"),
        ("---5", "[Negate(5)]"),
        ("+-+-+5", "5"),
        ("-+-+-+-5", "5"),
        ("+++-5", "[Negate(5)]"),
    ];
    for (expr, tree) in cases {
        let e = parser::te_compile(expr, &[]).unwrap();
        let folded = te_compile(expr, &[]).unwrap();
        assert_eq!(describe(&folded, expr), tree, "{expr:?}");
        let negations = describe(&e, expr).matches("Negate").count();
        assert!(negations <= 1, "{expr:?}");
    }
}

#[test]
fn failures_stop_at_the_token_that_went_wrong() {
    // "(1+2" stops at the end, "1+*2" at the "*" no base can start with,
    // "(1 2)" at the "2" left over inside the parentheses.
    assert_eq!(error_at("(1+2"), 4);
    assert_eq!(error_at("1+*2"), 3);
    assert_eq!(error_at("(1 2)"), 4);
    assert_eq!(error_at("1 2"), 3);
}
