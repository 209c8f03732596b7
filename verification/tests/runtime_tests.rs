use blockpipe::value::Value;
use blockpipe::interp::Interpreter;
use blockpipe::lex_and_parse;

fn interpreter_with_runtime(code: &str) -> Interpreter {
    let mut interpreter = Interpreter::new(lex_and_parse(code).unwrap());
    interpreter.env.push_stack_frame();
    interpreter.env.bind("plz".to_string(), Value::RuntimeInvocation);
    interpreter
}

#[test]
fn test_runtime_foo() {
    let code = r#"
        (() "foo") |* plz
    "#;
    let mut interpreter = interpreter_with_runtime(code);

    assert_eq!(
        interpreter.evaluate_from_root(None),
        Ok(Value::String("bar".to_string()))
    );
}

#[test]
fn test_binop_arith() {
    let mut interpreter = interpreter_with_runtime(
        r#"
        () | {
            add: {
                (($0 $1 "+") "binop_arith") |* plz
            }

            sub: {
                (($0 $1 "-") "binop_arith") |* plz
            }

            mul: {
                (($0 $1 "*") "binop_arith") |* plz
            }

            div: {
                (($0 $1 "/") "binop_arith") |* plz
            }

            data: (1.0 2.0)

            (
                data |* add
                data |* sub
                data |* mul
                data |* div
            )
        }
    "#,
    );

    assert_eq!(
        interpreter.evaluate_from_root(None),
        Ok(Value::Tuple(vec![
            Value::Float((3.0f64).to_bits()),
            Value::Float((-1.0f64).to_bits()),
            Value::Float((2.0f64).to_bits()),
            Value::Float((0.5f64).to_bits())
        ]))
    );
}

#[test]
fn test_binop_cmp() {
    let mut interpreter = interpreter_with_runtime(
        r#"
        () | {
            less_than: {
                (($0 $1 "<") "binop_cmp") |* plz
            }

            less_than_equal: {
                (($0 $1 "<=") "binop_cmp") |* plz
            }

            greater_than: {
                (($0 $1 ">") "binop_cmp") |* plz
            }

            greater_than_equal: {
                (($0 $1 ">=") "binop_cmp") |* plz
            }

            equal: {
                (($0 $1 "==") "binop_cmp") |* plz
            }

            not_equal: {
                (($0 $1 "!=") "binop_cmp") |* plz
            }

            data_int: (2 3)
            data_float: (2.0 3.0)
            data_mixed: (2 3.0)

            (
                data_int |* less_than
                data_int |* less_than_equal
                data_int |* greater_than
                data_int |* greater_than_equal
                data_int |* equal
                data_int |* not_equal
                data_float |* less_than
                data_float |* less_than_equal
                data_float |* greater_than
                data_float |* greater_than_equal
                data_float |* equal
                data_float |* not_equal
                data_mixed |* less_than
                data_mixed |* less_than_equal
                data_mixed |* greater_than
                data_mixed |* greater_than_equal
                data_mixed |* equal
                data_mixed |* not_equal
            )
        }
    "#,
    );

    assert_eq!(
        interpreter.evaluate_from_root(None),
        Ok(Value::Tuple(vec![
            Value::Boolean(true),
            Value::Boolean(true),
            Value::Boolean(false),
            Value::Boolean(false),
            Value::Boolean(false),
            Value::Boolean(true),
            Value::Boolean(true),
            Value::Boolean(true),
            Value::Boolean(false),
            Value::Boolean(false),
            Value::Boolean(false),
            Value::Boolean(true),
            Value::Boolean(true),
            Value::Boolean(true),
            Value::Boolean(false),
            Value::Boolean(false),
            Value::Boolean(false),
            Value::Boolean(true)
        ]))
    );
}

#[test]
fn test_strcat() {
    let mut interpreter = interpreter_with_runtime(
        r#"
        () | {
            data: ("hello " "world")

            data |* { (($0 $1) "strcat") } |* plz
        }
    "#,
    );

    assert_eq!(
        interpreter.evaluate_from_root(None),
        Ok(Value::String("hello world".to_string()))
    );
}

#[test]
fn test_if() {
    let mut interpreter = interpreter_with_runtime(
        r#"
        () | {
            if: {
                (($0 $1 $2) "if") |* plz
            }

            (T { "all good!" } { "oof something ain't right" }) |* if
        }
    "#,
    );

    assert_eq!(
        interpreter.evaluate_from_root(None),
        Ok(Value::String("all good!".to_string()))
    );
}

#[test]
fn test_recursive_if() {
    let mut interpreter = interpreter_with_runtime(
        r#"
        () | {
            if: {
                (($0 $1 $2) "if") |* plz
            }

            leq: {
                (($0 $1 "<=") "binop_cmp") |* plz
            }

            sub: {
                (($0 $1 "-") "binop_arith") |* plz
            }

            mul: {
                (($0 $1 "*") "binop_arith") |* plz
            }

            factorial: {
                x: $0
                fact_rec: rec
                (
                    (x 1) |* leq
                    {1}
                    {
                        (x 1)  |* sub | fact_rec | {(x $0)} |* mul
                    }
                ) |* if
            }

            5 | factorial
        }
    "#,
    );

    println!("{:?}", interpreter.evaluate_from_root(None));
}

#[test]
fn factorial_of_five_is_120() {
    let mut interpreter = interpreter_with_runtime(
        r#"
        () | {
            if: {
                (($0 $1 $2) "if") |* plz
            }

            leq: {
                (($0 $1 "<=") "binop_cmp") |* plz
            }

            sub: {
                (($0 $1 "-") "binop_arith") |* plz
            }

            mul: {
                (($0 $1 "*") "binop_arith") |* plz
            }

            factorial: {
                x: $0
                fact_rec: rec
                (
                    (x 1) |* leq
                    {1}
                    {
                        (x 1)  |* sub | fact_rec | {(x $0)} |* mul
                    }
                ) |* if
            }

            5 | factorial
        }
    "#,
    );

    assert_eq!(interpreter.evaluate_from_root(None), Ok(Value::Integer(120)));
}

#[test]
fn runtime_division_by_zero_integer() {
    let mut interpreter = interpreter_with_runtime(r#" ((4 0 "/") "binop_arith") |* plz "#);
    assert_eq!(
        interpreter.evaluate_from_root(None),
        Err("Division by zero".to_string())
    );
}

#[test]
fn runtime_division_by_zero_float() {
    let mut interpreter = interpreter_with_runtime(r#" ((4.0 0.0 "/") "binop_arith") |* plz "#);
    assert_eq!(
        interpreter.evaluate_from_root(None),
        Err("Division by zero".to_string())
    );
}

#[test]
fn runtime_integer_division_truncates() {
    let mut interpreter = interpreter_with_runtime(r#" ((-7 2 "/") "binop_arith") |* plz "#);
    assert_eq!(interpreter.evaluate_from_root(None), Ok(Value::Integer(-3)));
}

#[test]
fn runtime_unknown_arith_operation() {
    let mut interpreter = interpreter_with_runtime(r#" ((4 2 "%") "binop_arith") |* plz "#);
    assert_eq!(
        interpreter.evaluate_from_root(None),
        Err("Unknown arithmetic operation: %".to_string())
    );
}

#[test]
fn runtime_unknown_cmp_operation() {
    let mut interpreter = interpreter_with_runtime(r#" ((4 2 "~") "binop_cmp") |* plz "#);
    assert_eq!(
        interpreter.evaluate_from_root(None),
        Err("Unknown comparison operation: ~".to_string())
    );
}

#[test]
fn runtime_arith_needs_numbers() {
    let mut interpreter = interpreter_with_runtime(r#" (("a" 2 "+") "binop_arith") |* plz "#);
    assert_eq!(
        interpreter.evaluate_from_root(None),
        Err("binop_arith requires both operands to be numeric".to_string())
    );
}

#[test]
fn runtime_arith_wrong_arity() {
    let mut interpreter = interpreter_with_runtime(r#" ((4 2) "binop_arith") |* plz "#);
    assert_eq!(
        interpreter.evaluate_from_root(None),
        Err("binop_arith requires 2 numbers and an operation".to_string())
    );
}

#[test]
fn runtime_unknown_call() {
    let mut interpreter = interpreter_with_runtime(r#" (() "frobnicate") |* plz "#);
    assert_eq!(
        interpreter.evaluate_from_root(None),
        Err("Unknown runtime call: frobnicate".to_string())
    );
}

#[test]
fn runtime_strcat_needs_strings() {
    let mut interpreter = interpreter_with_runtime(r#" ((1 2) "strcat") |* plz "#);
    assert_eq!(
        interpreter.evaluate_from_root(None),
        Err("strcat requires two strings".to_string())
    );
}

#[test]
fn runtime_invocation_needs_two_arguments() {
    let mut interpreter = interpreter_with_runtime(r#" (() "foo" 3) |* plz "#);
    assert_eq!(
        interpreter.evaluate_from_root(None),
        Err("Runtime invocation requires 2 arguments - parameters to runtime and runtime call"
            .to_string())
    );
}

#[test]
fn runtime_invocation_shape_error() {
    let mut interpreter = interpreter_with_runtime(r#" ("foo" ()) |* plz "#);
    assert_eq!(
        interpreter.evaluate_from_root(None),
        Err("Runtime parameters should be tuple and runtime call should be string".to_string())
    );
}

#[test]
fn runtime_if_needs_closures() {
    let mut interpreter = interpreter_with_runtime(r#" ((T 1 2) "if") |* plz "#);
    assert_eq!(
        interpreter.evaluate_from_root(None),
        Err("if requires boolean and two closures".to_string())
    );
}

#[test]
fn runtime_print_yields_unit() {
    let mut interpreter = interpreter_with_runtime(r#" ((("out" 1 2.5)) "print") |* plz "#);
    assert_eq!(interpreter.evaluate_from_root(None), Ok(Value::Tuple(vec![])));
}
