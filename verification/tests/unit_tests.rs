use blockpipe::value::{Value, display_string};
use blockpipe::runtime::{perform_arith_int, perform_cmp_int, perform_arith_float};
use blockpipe::interp::{Interpreter, invoke_runtime};
use blockpipe::strings::{u64_to_string, i64_to_string};
use blockpipe::lexer::{lex, Token};
use blockpipe::{lex_and_parse, parse_from_string};

#[test]
fn arith_int_operations() {
    assert_eq!(perform_arith_int(2, 3, "+"), Ok(5));
    assert_eq!(perform_arith_int(2, 3, "-"), Ok(-1));
    assert_eq!(perform_arith_int(2, 3, "*"), Ok(6));
    assert_eq!(perform_arith_int(7, 2, "/"), Ok(3));
    assert_eq!(perform_arith_int(-7, 2, "/"), Ok(-3));
    assert_eq!(perform_arith_int(7, -2, "/"), Ok(-3));
    assert_eq!(perform_arith_int(-7, -2, "/"), Ok(3));
    assert_eq!(perform_arith_int(1, 0, "/"), Err("Division by zero".to_string()));
    assert_eq!(
        perform_arith_int(1, 2, "^"),
        Err("Unknown arithmetic operation: ^".to_string())
    );
    assert_eq!(perform_arith_int(i64::MAX, 1, "+"), Ok(i64::MIN));
    assert_eq!(perform_arith_int(i64::MIN, -1, "/"), Ok(i64::MIN));
}

#[test]
fn cmp_int_operations() {
    assert_eq!(perform_cmp_int(2, 3, "<"), Ok(true));
    assert_eq!(perform_cmp_int(3, 3, "<"), Ok(false));
    assert_eq!(perform_cmp_int(3, 3, "<="), Ok(true));
    assert_eq!(perform_cmp_int(4, 3, ">"), Ok(true));
    assert_eq!(perform_cmp_int(3, 3, ">="), Ok(true));
    assert_eq!(perform_cmp_int(3, 3, "=="), Ok(true));
    assert_eq!(perform_cmp_int(3, 3, "!="), Ok(false));
    assert_eq!(
        perform_cmp_int(1, 2, "<>"),
        Err("Unknown comparison operation: <>".to_string())
    );
}

#[test]
fn arith_float_matches_hardware() {
    let a = (0.1f64).to_bits();
    let b = (0.2f64).to_bits();
    assert_eq!(perform_arith_float(a, b, "+"), Ok((0.1f64 + 0.2f64).to_bits()));
    assert_eq!(perform_arith_float(a, b, "-"), Ok((0.1f64 - 0.2f64).to_bits()));
    assert_eq!(perform_arith_float(a, b, "*"), Ok((0.1f64 * 0.2f64).to_bits()));
    assert_eq!(perform_arith_float(a, b, "/"), Ok((0.1f64 / 0.2f64).to_bits()));
    assert_eq!(
        perform_arith_float(a, (-0.0f64).to_bits(), "/"),
        Err("Division by zero".to_string())
    );
}

#[test]
fn float_literals_parse_to_hardware_bits() {
    let lexed = lex("12.34");
    assert_eq!(lexed[0].0, Ok(Token::FloatLiteral((12.34f64).to_bits())));
}

#[test]
fn invoke_runtime_dispatches_by_name() {
    assert_eq!(
        invoke_runtime(vec![], "foo".to_string()),
        Ok(Value::String("bar".to_string()))
    );
    assert_eq!(
        invoke_runtime(
            vec![
                Value::Integer(2),
                Value::Integer(3),
                Value::String("+".to_string())
            ],
            "binop_arith".to_string()
        ),
        Ok(Value::Integer(5))
    );
    assert_eq!(
        invoke_runtime(vec![], "nonsense".to_string()),
        Err("Unknown runtime call: nonsense".to_string())
    );
}

#[test]
fn execute_closure_rejects_non_closures() {
    assert_eq!(
        Interpreter::execute_closure(vec![], &Value::Integer(1)),
        Err("Passed non-closure for evaluation".to_string())
    );
    assert_eq!(
        Interpreter::execute_closure(vec![], &Value::RuntimeInvocation),
        Err("Passed non-closure for evaluation".to_string())
    );
}

#[test]
fn display_forms() {
    assert_eq!(display_string(&Value::Integer(-42)), "-42");
    assert_eq!(display_string(&Value::Integer(0)), "0");
    assert_eq!(display_string(&Value::Boolean(true)), "true");
    assert_eq!(display_string(&Value::String("hey".to_string())), "hey");
    assert_eq!(
        display_string(&Value::Tuple(vec![
            Value::Integer(1),
            Value::Integer(2),
            Value::String("x".to_string())
        ])),
        "(1 2 x)"
    );
    assert_eq!(display_string(&Value::Tuple(vec![])), "()");
    assert_eq!(display_string(&Value::Closure(vec![], vec![])), "<closure>");
    assert_eq!(
        display_string(&Value::RuntimeInvocation),
        "<runtime invocation>"
    );
}

#[test]
fn decimal_renderings() {
    assert_eq!(u64_to_string(0), "0");
    assert_eq!(u64_to_string(1234567890), "1234567890");
    assert_eq!(u64_to_string(u64::MAX), "18446744073709551615");
    assert_eq!(i64_to_string(i64::MIN), "-9223372036854775808");
    assert_eq!(i64_to_string(7), "7");
}

#[test]
fn lexing_extreme_integers() {
    let lexed = lex("-9223372036854775808 9223372036854775807");
    assert_eq!(lexed[0].0, Ok(Token::IntegerLiteral(i64::MIN)));
    assert_eq!(lexed[1].0, Ok(Token::IntegerLiteral(i64::MAX)));
}

#[test]
fn lexing_integer_out_of_range_is_unrecognised() {
    let lexed = lex("9223372036854775808");
    assert_eq!(lexed[0].0, Err(()));
}

#[test]
fn lexing_unterminated_string_is_unrecognised() {
    let lexed = lex("\"oops");
    assert_eq!(lexed[0].0, Err(()));
}

#[test]
fn lexing_leading_zeros() {
    let lexed = lex("007");
    assert_eq!(lexed[0].0, Ok(Token::IntegerLiteral(7)));
}

#[test]
fn lexing_escaped_quote_stays_escaped() {
    let lexed = lex("\"a\\\"b\"");
    assert_eq!(lexed[0].0, Ok(Token::StringLiteral("a\\\"b".to_string())));
}

#[test]
fn parse_rejects_unrecognised_input() {
    assert!(parse_from_string(".10").is_err());
}

#[test]
fn parse_rejects_trailing_tokens() {
    assert!(parse_from_string("1 2").is_err());
    assert!(parse_from_string("()").is_ok());
}

#[test]
fn parse_rejects_unclosed_tuple() {
    assert!(lex_and_parse("(1 2").is_err());
}

#[test]
fn parse_rejects_stray_colon() {
    assert!(lex_and_parse(": 2").is_err());
}

#[test]
fn parse_rejects_empty_input() {
    assert!(lex_and_parse("").is_err());
}
