use tinyexpr::lexer::find_lookup;
use tinyexpr::{
    arity, binomial, builtin_name, builtin_type, factorial, find_builtin, is_closure,
    is_function, is_pure, type_mask, TeError, TeVariable, BUILTIN_COUNT, TE_CLOSURE0,
    TE_CLOSURE3, TE_CLOSURE7, TE_CONSTANT, TE_FLAG_PURE, TE_FUNCTION0, TE_FUNCTION1,
    TE_FUNCTION2, TE_FUNCTION7, TE_VARIABLE,
};

#[test]
fn factorial_exact_values() {
    assert_eq!(factorial(0), Some(1));
    assert_eq!(factorial(1), Some(1));
    assert_eq!(factorial(5), Some(120));
    assert_eq!(factorial(10), Some(3628800));
    assert_eq!(factorial(20), Some(2432902008176640000));
}

#[test]
fn factorial_overflow_is_none() {
    assert_eq!(factorial(21), None);
    assert_eq!(factorial(300), None);
    assert_eq!(factorial(u32::MAX), None);
}

#[test]
fn binomial_exact_values() {
    assert_eq!(binomial(0, 0), Some(1));
    assert_eq!(binomial(5, 2), Some(10));
    assert_eq!(binomial(10, 0), Some(1));
    assert_eq!(binomial(10, 10), Some(1));
    assert_eq!(binomial(16, 7), Some(11440));
    assert_eq!(binomial(100, 95), Some(75287520));
    assert_eq!(binomial(u32::MAX, 1), Some(4294967295));
}

#[test]
fn binomial_is_symmetric() {
    for n in 0..40u32 {
        for r in 0..=n {
            assert_eq!(binomial(n, r), binomial(n, n - r), "C({n}, {r})");
        }
    }
    assert_eq!(binomial(16, 9), binomial(16, 7));
}

#[test]
fn binomial_overflow_is_none() {
    assert_eq!(binomial(300, 100), None);
    assert_eq!(binomial(300000, 100), None);
    assert_eq!(binomial(67, 33), None);
}

#[test]
fn builtins_are_found_by_name() {
    assert_eq!(find_builtin(b"abs"), Some(0));
    assert_eq!(find_builtin(b"atan2"), Some(4));
    assert_eq!(find_builtin(b"e"), Some(8));
    assert_eq!(find_builtin(b"log"), Some(13));
    assert_eq!(find_builtin(b"sin"), Some(19));
    assert_eq!(find_builtin(b"tanh"), Some(23));
    for i in 0..BUILTIN_COUNT {
        assert_eq!(find_builtin(builtin_name(i).as_bytes()), Some(i));
    }
}

#[test]
fn unknown_names_are_not_builtins() {
    for name in ["", "a", "si", "sinn", "foo", "zzz", "Sin", "log2"] {
        assert_eq!(find_builtin(name.as_bytes()), None, "{name:?}");
    }
}

#[test]
fn builtin_table_is_sorted_and_typed() {
    for i in 1..BUILTIN_COUNT {
        assert!(builtin_name(i - 1) < builtin_name(i));
    }
    assert_eq!(builtin_type(find_builtin(b"pi").unwrap()), TE_FUNCTION0 | TE_FLAG_PURE);
    assert_eq!(builtin_type(find_builtin(b"sqrt").unwrap()), TE_FUNCTION1 | TE_FLAG_PURE);
    assert_eq!(builtin_type(find_builtin(b"pow").unwrap()), TE_FUNCTION2 | TE_FLAG_PURE);
}

#[test]
fn bindings_are_found_first_to_last() {
    let vars = [
        TeVariable { name: "x", type_: TE_VARIABLE },
        TeVariable { name: "y", type_: TE_VARIABLE },
        TeVariable { name: "x", type_: TE_FUNCTION1 },
    ];
    assert_eq!(find_lookup(&vars, b"x"), Some(0));
    assert_eq!(find_lookup(&vars, b"y"), Some(1));
    assert_eq!(find_lookup(&vars, b"z"), None);
    assert_eq!(find_lookup(&[], b"x"), None);
}

#[test]
fn type_bits() {
    assert_eq!(type_mask(TE_FUNCTION2 | TE_FLAG_PURE), TE_FUNCTION2);
    assert_eq!(type_mask(TE_CLOSURE7), TE_CLOSURE7);
    assert_eq!(type_mask(TE_CONSTANT), TE_CONSTANT);
    assert!(is_pure(TE_FUNCTION1 | TE_FLAG_PURE));
    assert!(!is_pure(TE_FUNCTION1));
    assert!(is_function(TE_FUNCTION0));
    assert!(!is_function(TE_VARIABLE));
    assert!(is_closure(TE_CLOSURE0));
    assert!(!is_closure(TE_FUNCTION7));
}

#[test]
fn arity_of_types() {
    assert_eq!(arity(TE_VARIABLE), 0);
    assert_eq!(arity(TE_CONSTANT), 0);
    assert_eq!(arity(TE_FUNCTION0), 0);
    assert_eq!(arity(TE_FUNCTION2 | TE_FLAG_PURE), 2);
    assert_eq!(arity(TE_FUNCTION7), 7);
    assert_eq!(arity(TE_CLOSURE3), 3);
}

#[test]
fn error_offsets() {
    assert_eq!(TeError::ParseError(3).offset(), Some(3));
    assert_eq!(TeError::Internal.offset(), None);
}
