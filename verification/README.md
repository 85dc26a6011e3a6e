# tinyexpr

A small recursive-descent compiler for mathematical expressions such as
`sqrt(x^2 + y^2)`, `atan2(1, 2)` or `ncr(10, 3)`, verified with Verus.

`te_compile(expression, bindings)` reads the expression with the caller's
bindings (variables, functions and closures of up to seven arguments), builds
the expression tree and folds its constant parts, or reports the 1-based
position at which reading stopped. Its contract states the result exactly,
over a mathematical grammar of the language, and every tree it returns is
valid: calls have as many arguments as their arity, names refer to bindings of
the right kind, and constants are decimal or hexadecimal numeric literals of
the expression. The language it accepts is stated independently, as a grammar
over the tokens, and proved to be exactly what the parser accepts.

## Layout

- `src/token.rs`: token kinds and the type bits of bindings and nodes.
- `src/lexer.rs`: the tokenizer and its specification.
- `src/parser.rs`: the grammar as spec functions, and the parser proved
  against it.
- `src/optimizer.rs`: constant folding.
- `src/functions.rs`: the table of built-in functions, its binary search, and
  the exact integer cores of `fac` and `ncr`.
- `src/validity.rs`: what every compiled tree satisfies.
- `src/grammar.rs`: the accepted language as a grammar over tokens.
- `src/failure.rs`: where a failed parse stops.
- `src/laws.rs`: properties of the library as a whole.
- `src/lib.rs`: `te_compile`.
- `app/lib.rs`: floating-point evaluation of compiled trees, the built-in
  math functions, and a caller-facing API with addresses and `f64` values.
- `tests/`: the test suite.
