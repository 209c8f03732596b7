use vstd::prelude::*;
use crate::value::{Value, ValModel, vals_model, lemma_vals_model_prefix_len,
    lemma_vals_model_prefix_index, display_string};
use crate::semantics::{arith_int_spec, arith_float_spec, cmp_int_spec, cmp_float_spec,
    binop_arith_spec, binop_cmp_spec, strcat_spec, print_spec, wrap_i64, abs_int};
use crate::strings::{str_eq, string_concat};
use crate::float_bits::{FloatCmp, add_double, sub_double, mul_double, div_double, cmp_double,
    i64_to_double};

verus! {

/// An evaluation error is a human-readable string.
pub type EvaluationError = String;

pub type EvaluateResult = Result<Value, EvaluationError>;

pub open spec fn lift_i64(r: Result<i64, String>) -> Result<i64, Seq<char>> {
    match r {
        Result::Ok(v) => Result::Ok(v),
        Result::Err(s) => Result::Err(s@),
    }
}

pub open spec fn lift_bool(r: Result<bool, String>) -> Result<bool, Seq<char>> {
    match r {
        Result::Ok(v) => Result::Ok(v),
        Result::Err(s) => Result::Err(s@),
    }
}

pub open spec fn lift_u64(r: Result<u64, String>) -> Result<u64, Seq<char>> {
    match r {
        Result::Ok(v) => Result::Ok(v),
        Result::Err(s) => Result::Err(s@),
    }
}

pub open spec fn lift_val(r: Result<Value, String>) -> Result<ValModel, Seq<char>> {
    match r {
        Result::Ok(v) => Result::Ok(v@),
        Result::Err(s) => Result::Err(s@),
    }
}

/// Wrapping stays put inside the representable range.
proof fn lemma_wrap_in_range(x: int)
    ensures
        -0x8000_0000_0000_0000 <= x < 0x8000_0000_0000_0000 ==> wrap_i64(x) == x,
{
    if -0x8000_0000_0000_0000 <= x < 0x8000_0000_0000_0000 {
        assert(0 <= x + 0x8000_0000_0000_0000 < 0x1_0000_0000_0000_0000);
        assert((x + 0x8000_0000_0000_0000) % 0x1_0000_0000_0000_0000
            == x + 0x8000_0000_0000_0000);
    }
}

/// One step past either end wraps around by one modulus.
proof fn lemma_wrap_off_range(x: int)
    ensures
        0x8000_0000_0000_0000 <= x < 0x1_8000_0000_0000_0000
            ==> wrap_i64(x) == x - 0x1_0000_0000_0000_0000,
        -0x1_8000_0000_0000_0000 <= x < -0x8000_0000_0000_0000
            ==> wrap_i64(x) == x + 0x1_0000_0000_0000_0000,
{
    if 0x8000_0000_0000_0000 <= x < 0x1_8000_0000_0000_0000 {
        let y = x + 0x8000_0000_0000_0000;
        assert(0x1_0000_0000_0000_0000 <= y < 0x2_0000_0000_0000_0000);
        assert(y % 0x1_0000_0000_0000_0000 == y - 0x1_0000_0000_0000_0000);
    }
    if -0x1_8000_0000_0000_0000 <= x < -0x8000_0000_0000_0000 {
        let y = x + 0x8000_0000_0000_0000;
        assert(-0x1_0000_0000_0000_0000 <= y < 0);
        assert(y % 0x1_0000_0000_0000_0000 == y + 0x1_0000_0000_0000_0000);
    }
}

/// Wrapping agrees with reduction modulo the value range.
proof fn lemma_wrap_eq_crop(p: int)
    ensures
        wrap_i64(p) == vstd::wrapping::i64_specs::signed_crop(p),
{
    let m = 0x1_0000_0000_0000_0000int;
    let h = 0x8000_0000_0000_0000int;
    let r = p % m;
    assert(0 <= r < m);
    assert((p + h) % m == (r + h) % m) by {
        vstd::arithmetic::div_mod::lemma_add_mod_noop(p, h, m);
        assert(h % m == h);
        vstd::arithmetic::div_mod::lemma_mod_twice(p, m);
        vstd::arithmetic::div_mod::lemma_add_mod_noop(r, h, m);
    }
    if r < h {
        assert((r + h) % m == r + h);
    } else {
        assert(m <= r + h < 2 * m);
        assert((r + h) % m == r + h - m);
    }
}

/// Integer arithmetic: wrap-around addition, subtraction and multiplication;
/// truncating division, failing on a zero divisor.
pub fn perform_arith_int(left: i64, right: i64, op: &str) -> (r: Result<i64, String>)
    ensures
        lift_i64(r) == arith_int_spec(left, right, op@),
{
    if str_eq(op, "+") {
        let v = left.wrapping_add(right);
        proof {
            lemma_wrap_in_range(left + right);
            lemma_wrap_off_range(left + right);
        }
        Result::Ok(v)
    } else if str_eq(op, "-") {
        let v = left.wrapping_sub(right);
        proof {
            lemma_wrap_in_range(left - right);
            lemma_wrap_off_range(left - right);
        }
        Result::Ok(v)
    } else if str_eq(op, "*") {
        let v = left.wrapping_mul(right);
        proof {
            lemma_wrap_eq_crop(left * right);
        }
        Result::Ok(v)
    } else if str_eq(op, "/") {
        if right == 0 {
            Result::Err("Division by zero".to_owned())
        } else {
            let la: u64 = if left < 0 {
                ((-(left as i128)) as u64)
            } else {
                left as u64
            };
            let lb: u64 = if right < 0 {
                ((-(right as i128)) as u64)
            } else {
                right as u64
            };
            let q: u64 = la / lb;
            proof {
                assert(la == abs_int(left as int));
                assert(lb == abs_int(right as int));
                assert(q == abs_int(left as int) / abs_int(right as int));
                vstd::arithmetic::div_mod::lemma_div_nonincreasing(la as int, lb as int);
                vstd::arithmetic::div_mod::lemma_div_pos_is_pos(la as int, lb as int);
                assert(q <= la);
            }
            let sign_neg = (left < 0) != (right < 0);
            if sign_neg {
                proof {
                    lemma_wrap_in_range(-(q as int));
                }
                if q == 0x8000_0000_0000_0000 {
                    Result::Ok(i64::MIN)
                } else {
                    Result::Ok(-(q as i64))
                }
            } else {
                if q == 0x8000_0000_0000_0000 {
                    proof {
                        lemma_wrap_off_range(q as int);
                    }
                    Result::Ok(i64::MIN)
                } else {
                    proof {
                        lemma_wrap_in_range(q as int);
                    }
                    Result::Ok(q as i64)
                }
            }
        }
    } else {
        Result::Err(string_concat("Unknown arithmetic operation: ", op))
    }
}

/// Integer comparison.
pub fn perform_cmp_int(left: i64, right: i64, op: &str) -> (r: Result<bool, String>)
    ensures
        lift_bool(r) == cmp_int_spec(left, right, op@),
{
    if str_eq(op, "<") {
        Result::Ok(left < right)
    } else if str_eq(op, "<=") {
        Result::Ok(left <= right)
    } else if str_eq(op, ">") {
        Result::Ok(left > right)
    } else if str_eq(op, ">=") {
        Result::Ok(left >= right)
    } else if str_eq(op, "==") {
        Result::Ok(left == right)
    } else if str_eq(op, "!=") {
        Result::Ok(left != right)
    } else {
        Result::Err(string_concat("Unknown comparison operation: ", op))
    }
}

/// Float arithmetic over IEEE-754 bits; fails on division by an exact zero.
pub fn perform_arith_float(left: u64, right: u64, op: &str) -> (r: Result<u64, String>)
    ensures
        lift_u64(r) == arith_float_spec(left, right, op@),
{
    if str_eq(op, "+") {
        Result::Ok(add_double(left, right))
    } else if str_eq(op, "-") {
        Result::Ok(sub_double(left, right))
    } else if str_eq(op, "*") {
        Result::Ok(mul_double(left, right))
    } else if str_eq(op, "/") {
        if right == 0 || right == 0x8000_0000_0000_0000 {
            Result::Err("Division by zero".to_owned())
        } else {
            Result::Ok(div_double(left, right))
        }
    } else {
        Result::Err(string_concat("Unknown arithmetic operation: ", op))
    }
}

/// Float comparison over IEEE-754 bits.
pub fn perform_cmp_float(left: u64, right: u64, op: &str) -> (r: Result<bool, String>)
    ensures
        lift_bool(r) == cmp_float_spec(left, right, op@),
{
    let c = cmp_double(left, right);
    if str_eq(op, "<") {
        Result::Ok(match c { FloatCmp::Less => true, _ => false })
    } else if str_eq(op, "<=") {
        Result::Ok(match c { FloatCmp::Less => true, FloatCmp::Equal => true, _ => false })
    } else if str_eq(op, ">") {
        Result::Ok(match c { FloatCmp::Greater => true, _ => false })
    } else if str_eq(op, ">=") {
        Result::Ok(match c { FloatCmp::Greater => true, FloatCmp::Equal => true, _ => false })
    } else if str_eq(op, "==") {
        Result::Ok(match c { FloatCmp::Equal => true, _ => false })
    } else if str_eq(op, "!=") {
        Result::Ok(match c { FloatCmp::Equal => false, _ => true })
    } else {
        Result::Err(string_concat("Unknown comparison operation: ", op))
    }
}

/// The `foo` probe call: yields the string "bar" whatever its parameters.
pub fn foo(parameters: Vec<Value>) -> (r: EvaluateResult)
    ensures
        lift_val(r) == Result::<ValModel, Seq<char>>::Ok(ValModel::Str("bar"@)),
{
    Result::Ok(Value::String("bar".to_owned()))
}

/// Arithmetic on a parameter tuple `(a, b, op)`; integers stay in integer,
/// a float operand widens the other side.
pub fn binop_arith(parameters: Vec<Value>) -> (r: EvaluateResult)
    ensures
        lift_val(r) == binop_arith_spec(vals_model(parameters)),
{
    let ghost ps = vals_model(parameters);
    proof {
        lemma_vals_model_prefix_len(parameters, parameters@.len() as int);
    }
    if parameters.len() != 3 {
        return Result::Err("binop_arith requires 2 numbers and an operation".to_owned());
    }
    proof {
        lemma_vals_model_prefix_index(parameters, 3, 0);
        lemma_vals_model_prefix_index(parameters, 3, 1);
        lemma_vals_model_prefix_index(parameters, 3, 2);
    }
    let op: &String = match &parameters[2] {
        Value::String(op) => op,
        _ => {
            return Result::Err("Third parameter must be an operation string".to_owned());
        },
    };
    match (&parameters[0], &parameters[1]) {
        (Value::Integer(left), Value::Integer(right)) => {
            match perform_arith_int(*left, *right, op.as_str()) {
                Result::Ok(v) => Result::Ok(Value::Integer(v)),
                Result::Err(m) => Result::Err(m),
            }
        },
        (Value::Float(left), Value::Float(right)) => {
            match perform_arith_float(*left, *right, op.as_str()) {
                Result::Ok(v) => Result::Ok(Value::Float(v)),
                Result::Err(m) => Result::Err(m),
            }
        },
        (Value::Integer(left), Value::Float(right)) => {
            match perform_arith_float(i64_to_double(*left), *right, op.as_str()) {
                Result::Ok(v) => Result::Ok(Value::Float(v)),
                Result::Err(m) => Result::Err(m),
            }
        },
        (Value::Float(left), Value::Integer(right)) => {
            match perform_arith_float(*left, i64_to_double(*right), op.as_str()) {
                Result::Ok(v) => Result::Ok(Value::Float(v)),
                Result::Err(m) => Result::Err(m),
            }
        },
        _ => Result::Err("binop_arith requires both operands to be numeric".to_owned()),
    }
}

/// Comparison on a parameter tuple `(a, b, op)`, with the same promotion as
/// arithmetic.
pub fn binop_cmp(parameters: Vec<Value>) -> (r: EvaluateResult)
    ensures
        lift_val(r) == binop_cmp_spec(vals_model(parameters)),
{
    let ghost ps = vals_model(parameters);
    proof {
        lemma_vals_model_prefix_len(parameters, parameters@.len() as int);
    }
    if parameters.len() != 3 {
        return Result::Err("binop_cmp requires 2 numbers and a comparison operation".to_owned());
    }
    proof {
        lemma_vals_model_prefix_index(parameters, 3, 0);
        lemma_vals_model_prefix_index(parameters, 3, 1);
        lemma_vals_model_prefix_index(parameters, 3, 2);
    }
    let op: &String = match &parameters[2] {
        Value::String(op) => op,
        _ => {
            return Result::Err("Third parameter must be a comparison operation string".to_owned());
        },
    };
    match (&parameters[0], &parameters[1]) {
        (Value::Integer(left), Value::Integer(right)) => {
            match perform_cmp_int(*left, *right, op.as_str()) {
                Result::Ok(v) => Result::Ok(Value::Boolean(v)),
                Result::Err(m) => Result::Err(m),
            }
        },
        (Value::Float(left), Value::Float(right)) => {
            match perform_cmp_float(*left, *right, op.as_str()) {
                Result::Ok(v) => Result::Ok(Value::Boolean(v)),
                Result::Err(m) => Result::Err(m),
            }
        },
        (Value::Integer(left), Value::Float(right)) => {
            match perform_cmp_float(i64_to_double(*left), *right, op.as_str()) {
                Result::Ok(v) => Result::Ok(Value::Boolean(v)),
                Result::Err(m) => Result::Err(m),
            }
        },
        (Value::Float(left), Value::Integer(right)) => {
            match perform_cmp_float(*left, i64_to_double(*right), op.as_str()) {
                Result::Ok(v) => Result::Ok(Value::Boolean(v)),
                Result::Err(m) => Result::Err(m),
            }
        },
        _ => Result::Err("binop_cmp requires both operands to be numeric".to_owned()),
    }
}

/// Concatenation of two strings.
pub fn strcat(parameters: Vec<Value>) -> (r: EvaluateResult)
    ensures
        lift_val(r) == strcat_spec(vals_model(parameters)),
{
    proof {
        lemma_vals_model_prefix_len(parameters, parameters@.len() as int);
    }
    if parameters.len() != 2 {
        return Result::Err("strcat requires 2 arguments".to_owned());
    }
    proof {
        lemma_vals_model_prefix_index(parameters, 2, 0);
        lemma_vals_model_prefix_index(parameters, 2, 1);
    }
    match (&parameters[0], &parameters[1]) {
        (Value::String(left), Value::String(right)) => {
            Result::Ok(Value::String(string_concat(left.as_str(), right.as_str())))
        },
        _ => Result::Err("strcat requires two strings".to_owned()),
    }
}

/// Prints the value's display form, one line, and yields the empty tuple.
pub fn print(parameters: Vec<Value>) -> (r: EvaluateResult)
    ensures
        lift_val(r) == print_spec(vals_model(parameters)),
{
    proof {
        lemma_vals_model_prefix_len(parameters, parameters@.len() as int);
    }
    if parameters.len() != 1 {
        return Result::Err("print requires 1 argument".to_owned());
    }
    let shown = display_string(&parameters[0]);
    crate::strings::emit_line(shown.as_str());
    Result::Ok(Value::Tuple(Vec::new()))
}

} // verus!
