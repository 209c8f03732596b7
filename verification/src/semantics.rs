use vstd::prelude::*;
use crate::ast::{ExprModel, LitModel, PipeType};
use crate::value::ValModel;
use crate::environment::EnvModel;
use crate::float_bits::{FloatCmp, f64_add_bits, f64_sub_bits, f64_mul_bits, f64_div_bits,
    f64_cmp_bits, f64_of_i64, f64_is_zero};
use crate::strings::dec_chars;

verus! {

// ---------------------------------------------------------------------------
// Outcomes.

/// What one evaluation yields: a value, an error message, or exhaustion of
/// the evaluation depth budget.
#[verifier::ext_equal]
pub enum Outcome {
    Val(ValModel),
    Fail(Seq<char>),
    OutOfFuel,
}

/// An evaluation's result: the outcome, and the environment after it.
#[verifier::ext_equal]
pub struct EvalStep {
    pub env: EnvModel,
    pub out: Outcome,
}

/// What evaluating a sequence of expressions yields.
#[verifier::ext_equal]
pub enum ListOutcome {
    Vals(Seq<ValModel>),
    Fail(Seq<char>),
    OutOfFuel,
}

#[verifier::ext_equal]
pub struct ListStep {
    pub env: EnvModel,
    pub out: ListOutcome,
}

// ---------------------------------------------------------------------------
// Error messages.

pub open spec fn unbound_msg(n: Seq<char>) -> Seq<char> {
    "Unbound symbol '"@ + n + "'"@
}

pub open spec fn unsupported_node_msg() -> Seq<char> {
    "Unsupported AST node for evaluation"@
}

pub open spec fn empty_pipe_msg() -> Seq<char> {
    "Pipe with no sections"@
}

pub open spec fn destructure_msg() -> Seq<char> {
    "Trying to destructure non-tuple value"@
}

pub open spec fn non_closure_msg() -> Seq<char> {
    "Passed non-closure for evaluation"@
}

pub open spec fn runtime_arity_msg() -> Seq<char> {
    "Runtime invocation requires 2 arguments - parameters to runtime and runtime call"@
}

pub open spec fn runtime_shape_msg() -> Seq<char> {
    "Runtime parameters should be tuple and runtime call should be string"@
}

pub open spec fn unknown_call_msg(call: Seq<char>) -> Seq<char> {
    "Unknown runtime call: "@ + call
}

pub open spec fn depth_msg() -> Seq<char> {
    "Evaluation depth limit exceeded"@
}

// ---------------------------------------------------------------------------
// Sizes, for termination of the semantics.

pub open spec fn expr_size(e: ExprModel) -> nat
    decreases e, 1int,
{
    match e {
        ExprModel::Block(es) => 1,
        ExprModel::Tuple(cs) => 1 + exprs_size(cs),
        ExprModel::Pipe(ss, ks) => 1 + exprs_size(ss),
        ExprModel::Paste(inner) => 1,
        ExprModel::Type(inner) => 1,
        ExprModel::Binding(n, v) => 1 + expr_size(*v),
        ExprModel::Identifier(n) => 1,
        ExprModel::Literal(l) => 1,
    }
}

pub open spec fn exprs_size(cs: Seq<ExprModel>) -> nat
    decreases cs, 0int,
{
    if cs.len() == 0 {
        0
    } else {
        expr_size(cs.first()) + 1 + exprs_size(cs.drop_first())
    }
}

pub broadcast proof fn lemma_exprs_size_index(cs: Seq<ExprModel>, i: int)
    requires
        0 <= i < cs.len(),
    ensures
        expr_size(#[trigger] cs[i]) < exprs_size(cs),
        exprs_size(cs) > 0,
    decreases cs.len(),
{
    if i == 0 {
        assert(cs.first() == cs[0]);
    } else {
        lemma_exprs_size_index(cs.drop_first(), i - 1);
        assert(cs.drop_first()[i - 1] == cs[i]);
    }
}

pub broadcast proof fn lemma_exprs_size_drop(cs: Seq<ExprModel>)
    requires
        cs.len() > 0,
    ensures
        #[trigger] exprs_size(cs.drop_first()) < exprs_size(cs),
{
}

// ---------------------------------------------------------------------------
// The built-in runtime.

pub open spec fn lit_val(l: LitModel) -> ValModel {
    match l {
        LitModel::Str(s) => ValModel::Str(s),
        LitModel::Int(i) => ValModel::Int(i),
        LitModel::Bool(b) => ValModel::Bool(b),
        LitModel::Float(f) => ValModel::Float(f),
    }
}

/// Two's-complement wrap of an integer into the value type's range.
pub open spec fn wrap_i64(x: int) -> i64 {
    (((x + 0x8000_0000_0000_0000) % 0x1_0000_0000_0000_0000) - 0x8000_0000_0000_0000) as i64
}

pub open spec fn abs_int(x: int) -> int {
    if x < 0 { -x } else { x }
}

/// Division truncating toward zero, as the value type divides.
pub open spec fn trunc_div(a: int, b: int) -> int {
    if (a < 0) == (b < 0) {
        abs_int(a) / abs_int(b)
    } else {
        -(abs_int(a) / abs_int(b))
    }
}

/// Integer arithmetic: wrap-around addition, subtraction and multiplication;
/// truncating division that fails on a zero divisor.
pub open spec fn arith_int_spec(a: i64, b: i64, op: Seq<char>) -> Result<i64, Seq<char>> {
    if op == "+"@ {
        Result::Ok(wrap_i64(a + b))
    } else if op == "-"@ {
        Result::Ok(wrap_i64(a - b))
    } else if op == "*"@ {
        Result::Ok(wrap_i64(a * b))
    } else if op == "/"@ {
        if b == 0 {
            Result::Err("Division by zero"@)
        } else {
            Result::Ok(wrap_i64(trunc_div(a as int, b as int)))
        }
    } else {
        Result::Err("Unknown arithmetic operation: "@ + op)
    }
}

/// Float arithmetic over IEEE-754 bits; division fails on an exactly zero
/// divisor.
pub open spec fn arith_float_spec(a: u64, b: u64, op: Seq<char>) -> Result<u64, Seq<char>> {
    if op == "+"@ {
        Result::Ok(f64_add_bits(a, b))
    } else if op == "-"@ {
        Result::Ok(f64_sub_bits(a, b))
    } else if op == "*"@ {
        Result::Ok(f64_mul_bits(a, b))
    } else if op == "/"@ {
        if f64_is_zero(b) {
            Result::Err("Division by zero"@)
        } else {
            Result::Ok(f64_div_bits(a, b))
        }
    } else {
        Result::Err("Unknown arithmetic operation: "@ + op)
    }
}

/// Arithmetic with numeric promotion: two integers stay in integer; a float
/// operand widens the other side to float.
pub open spec fn arith_spec(a: ValModel, b: ValModel, op: Seq<char>) -> Result<ValModel, Seq<char>> {
    match (a, b) {
        (ValModel::Int(x), ValModel::Int(y)) => match arith_int_spec(x, y, op) {
            Result::Ok(v) => Result::Ok(ValModel::Int(v)),
            Result::Err(m) => Result::Err(m),
        },
        (ValModel::Float(x), ValModel::Float(y)) => match arith_float_spec(x, y, op) {
            Result::Ok(v) => Result::Ok(ValModel::Float(v)),
            Result::Err(m) => Result::Err(m),
        },
        (ValModel::Int(x), ValModel::Float(y)) => match arith_float_spec(f64_of_i64(x), y, op) {
            Result::Ok(v) => Result::Ok(ValModel::Float(v)),
            Result::Err(m) => Result::Err(m),
        },
        (ValModel::Float(x), ValModel::Int(y)) => match arith_float_spec(x, f64_of_i64(y), op) {
            Result::Ok(v) => Result::Ok(ValModel::Float(v)),
            Result::Err(m) => Result::Err(m),
        },
        _ => Result::Err("binop_arith requires both operands to be numeric"@),
    }
}

pub open spec fn cmp_int_spec(a: i64, b: i64, op: Seq<char>) -> Result<bool, Seq<char>> {
    if op == "<"@ {
        Result::Ok(a < b)
    } else if op == "<="@ {
        Result::Ok(a <= b)
    } else if op == ">"@ {
        Result::Ok(a > b)
    } else if op == ">="@ {
        Result::Ok(a >= b)
    } else if op == "=="@ {
        Result::Ok(a == b)
    } else if op == "!="@ {
        Result::Ok(a != b)
    } else {
        Result::Err("Unknown comparison operation: "@ + op)
    }
}

/// Float comparison over IEEE-754 bits; a NaN is ordered with nothing, so
/// against it only `!=` holds.
pub open spec fn cmp_float_spec(a: u64, b: u64, op: Seq<char>) -> Result<bool, Seq<char>> {
    let c = f64_cmp_bits(a, b);
    if op == "<"@ {
        Result::Ok(c == FloatCmp::Less)
    } else if op == "<="@ {
        Result::Ok(c == FloatCmp::Less || c == FloatCmp::Equal)
    } else if op == ">"@ {
        Result::Ok(c == FloatCmp::Greater)
    } else if op == ">="@ {
        Result::Ok(c == FloatCmp::Greater || c == FloatCmp::Equal)
    } else if op == "=="@ {
        Result::Ok(c == FloatCmp::Equal)
    } else if op == "!="@ {
        Result::Ok(c != FloatCmp::Equal)
    } else {
        Result::Err("Unknown comparison operation: "@ + op)
    }
}

/// Comparison with the same numeric promotion as arithmetic.
pub open spec fn cmp_spec(a: ValModel, b: ValModel, op: Seq<char>) -> Result<bool, Seq<char>> {
    match (a, b) {
        (ValModel::Int(x), ValModel::Int(y)) => cmp_int_spec(x, y, op),
        (ValModel::Float(x), ValModel::Float(y)) => cmp_float_spec(x, y, op),
        (ValModel::Int(x), ValModel::Float(y)) => cmp_float_spec(f64_of_i64(x), y, op),
        (ValModel::Float(x), ValModel::Int(y)) => cmp_float_spec(x, f64_of_i64(y), op),
        _ => Result::Err("binop_cmp requires both operands to be numeric"@),
    }
}

/// The name the execution of a closure binds its `i`-th argument to.
pub open spec fn dollar_name(i: nat) -> Seq<char> {
    seq!['$'] + dec_chars(i)
}

// ---------------------------------------------------------------------------
// The evaluator.

/// Evaluating one expression in an environment, with a budget of `fuel`
/// closure activations.
pub open spec fn eval_expr(env: EnvModel, e: ExprModel, fuel: nat) -> EvalStep
    decreases fuel, expr_size(e), 0int,
    via eval_expr_dec
{
    match e {
        ExprModel::Literal(l) => EvalStep { env, out: Outcome::Val(lit_val(l)) },
        ExprModel::Identifier(n) => match env.lookup(n) {
            Option::Some(v) => EvalStep { env, out: Outcome::Val(v) },
            Option::None => EvalStep { env, out: Outcome::Fail(unbound_msg(n)) },
        },
        ExprModel::Tuple(cs) => {
            let ls = eval_exprs(env, cs, fuel);
            match ls.out {
                ListOutcome::Vals(vs) => EvalStep { env: ls.env, out: Outcome::Val(ValModel::Tup(vs)) },
                ListOutcome::Fail(m) => EvalStep { env: ls.env, out: Outcome::Fail(m) },
                ListOutcome::OutOfFuel => EvalStep { env: ls.env, out: Outcome::OutOfFuel },
            }
        },
        ExprModel::Block(es) => EvalStep {
            env,
            out: Outcome::Val(ValModel::Closure(es, env.image())),
        },
        ExprModel::Binding(n, v) => {
            let s1 = eval_expr(env, *v, fuel);
            match s1.out {
                Outcome::Val(val) => EvalStep {
                    env: s1.env.bind(n, val),
                    out: Outcome::Val(ValModel::Tup(Seq::empty())),
                },
                _ => s1,
            }
        },
        ExprModel::Pipe(ss, ks) => {
            if ss.len() == 0 {
                EvalStep { env, out: Outcome::Fail(empty_pipe_msg()) }
            } else {
                let s1 = eval_expr(env, ss.first(), fuel);
                match s1.out {
                    Outcome::Val(cur) => eval_pipe_tail(s1.env, cur, ss.drop_first(), ks, fuel),
                    _ => s1,
                }
            }
        },
        ExprModel::Paste(inner) => EvalStep { env, out: Outcome::Fail(unsupported_node_msg()) },
        ExprModel::Type(inner) => EvalStep { env, out: Outcome::Fail(unsupported_node_msg()) },
    }
}

/// Evaluating a sequence of expressions left to right, stopping at the first
/// failure.
pub open spec fn eval_exprs(env: EnvModel, cs: Seq<ExprModel>, fuel: nat) -> ListStep
    decreases fuel, exprs_size(cs), 0int,
{
    if cs.len() == 0 {
        ListStep { env, out: ListOutcome::Vals(Seq::empty()) }
    } else {
        let s1 = eval_expr(env, cs.first(), fuel);
        match s1.out {
            Outcome::Val(v) => {
                let rest = eval_exprs(s1.env, cs.drop_first(), fuel);
                match rest.out {
                    ListOutcome::Vals(vs) => ListStep { env: rest.env, out: ListOutcome::Vals(seq![v] + vs) },
                    _ => rest,
                }
            },
            Outcome::Fail(m) => ListStep { env: s1.env, out: ListOutcome::Fail(m) },
            Outcome::OutOfFuel => ListStep { env: s1.env, out: ListOutcome::OutOfFuel },
        }
    }
}

/// Threading the current value through the remaining pipe sections: each
/// stage is evaluated, the current value is turned into an argument vector
/// per the joining operator, and the stage is applied.
pub open spec fn eval_pipe_tail(
    env: EnvModel,
    cur: ValModel,
    ss: Seq<ExprModel>,
    ks: Seq<PipeType>,
    fuel: nat,
) -> EvalStep
    decreases fuel, exprs_size(ss), 1int,
    via eval_pipe_tail_dec
{
    if ss.len() == 0 || ks.len() == 0 {
        EvalStep { env, out: Outcome::Val(cur) }
    } else {
        let s1 = eval_expr(env, ss.first(), fuel);
        match s1.out {
            Outcome::Val(stage) => {
                let args_opt: Option<Seq<ValModel>> = match ks.first() {
                    PipeType::Standard => Option::Some(seq![cur]),
                    PipeType::Destructure => match cur {
                        ValModel::Tup(vs) => Option::Some(vs),
                        _ => Option::None,
                    },
                };
                match args_opt {
                    Option::None => EvalStep { env: s1.env, out: Outcome::Fail(destructure_msg()) },
                    Option::Some(args) => {
                        let out = apply_stage(stage, args, fuel);
                        match out {
                            Outcome::Val(v) => eval_pipe_tail(s1.env, v, ss.drop_first(), ks.drop_first(), fuel),
                            _ => EvalStep { env: s1.env, out },
                        }
                    },
                }
            },
            _ => s1,
        }
    }
}


#[via_fn]
proof fn eval_expr_dec(env: EnvModel, e: ExprModel, fuel: nat) {
    match e {
        ExprModel::Pipe(ss, ks) => {
            if ss.len() > 0 {
                lemma_exprs_size_index(ss, 0);
                assert(ss.first() == ss[0]);
                lemma_exprs_size_drop(ss);
            }
        },
        _ => {},
    }
}

#[via_fn]
proof fn eval_pipe_tail_dec(env: EnvModel, cur: ValModel, ss: Seq<ExprModel>, ks: Seq<PipeType>, fuel: nat) {
    if ss.len() > 0 {
        lemma_exprs_size_index(ss, 0);
        assert(ss.first() == ss[0]);
        lemma_exprs_size_drop(ss);
    }
}

/// Applying a pipe stage to its arguments: the runtime sentinel dispatches to
/// the built-in table, anything else must be a closure.
pub open spec fn apply_stage(stage: ValModel, args: Seq<ValModel>, fuel: nat) -> Outcome
    decreases fuel, 0int, 3int,
{
    match stage {
        ValModel::Runtime => {
            if args.len() != 2 {
                Outcome::Fail(runtime_arity_msg())
            } else {
                match (args[0], args[1]) {
                    (ValModel::Tup(ps), ValModel::Str(call)) => runtime_call_spec(ps, call, fuel),
                    _ => Outcome::Fail(runtime_shape_msg()),
                }
            }
        },
        _ => exec_closure_spec(stage, args, fuel),
    }
}


/// The `binop_arith` call: numeric arithmetic on a two-operand parameter
/// tuple with the operation as a string.
pub open spec fn binop_arith_spec(params: Seq<ValModel>) -> Result<ValModel, Seq<char>> {
    if params.len() != 3 {
        Result::Err("binop_arith requires 2 numbers and an operation"@)
    } else {
        match params[2] {
            ValModel::Str(op) => arith_spec(params[0], params[1], op),
            _ => Result::Err("Third parameter must be an operation string"@),
        }
    }
}

/// The `binop_cmp` call: numeric comparison with the same shapes.
pub open spec fn binop_cmp_spec(params: Seq<ValModel>) -> Result<ValModel, Seq<char>> {
    if params.len() != 3 {
        Result::Err("binop_cmp requires 2 numbers and a comparison operation"@)
    } else {
        match params[2] {
            ValModel::Str(op) => match cmp_spec(params[0], params[1], op) {
                Result::Ok(v) => Result::Ok(ValModel::Bool(v)),
                Result::Err(m) => Result::Err(m),
            },
            _ => Result::Err("Third parameter must be a comparison operation string"@),
        }
    }
}

/// The `strcat` call: concatenation of two strings.
pub open spec fn strcat_spec(params: Seq<ValModel>) -> Result<ValModel, Seq<char>> {
    if params.len() != 2 {
        Result::Err("strcat requires 2 arguments"@)
    } else {
        match (params[0], params[1]) {
            (ValModel::Str(a), ValModel::Str(b)) => Result::Ok(ValModel::Str(a + b)),
            _ => Result::Err("strcat requires two strings"@),
        }
    }
}

/// The `print` call: prints the value's display form and yields the empty
/// tuple.
pub open spec fn print_spec(params: Seq<ValModel>) -> Result<ValModel, Seq<char>> {
    if params.len() != 1 {
        Result::Err("print requires 1 argument"@)
    } else {
        Result::Ok(ValModel::Tup(Seq::empty()))
    }
}

/// The built-in runtime table, dispatched by name.
pub open spec fn runtime_call_spec(params: Seq<ValModel>, call: Seq<char>, fuel: nat) -> Outcome
    decreases fuel, 0int, 2int,
{
    if call == "foo"@ {
        Outcome::Val(ValModel::Str("bar"@))
    } else if call == "binop_arith"@ {
        match binop_arith_spec(params) {
            Result::Ok(v) => Outcome::Val(v),
            Result::Err(m) => Outcome::Fail(m),
        }
    } else if call == "binop_cmp"@ {
        match binop_cmp_spec(params) {
            Result::Ok(v) => Outcome::Val(v),
            Result::Err(m) => Outcome::Fail(m),
        }
    } else if call == "strcat"@ {
        match strcat_spec(params) {
            Result::Ok(v) => Outcome::Val(v),
            Result::Err(m) => Outcome::Fail(m),
        }
    } else if call == "print"@ {
        match print_spec(params) {
            Result::Ok(v) => Outcome::Val(v),
            Result::Err(m) => Outcome::Fail(m),
        }
    } else if call == "if"@ {
        if params.len() != 3 {
            Outcome::Fail("if requires 3 arguments"@)
        } else {
            match (params[0], params[1], params[2]) {
                (ValModel::Bool(c), ValModel::Closure(tb, ti), ValModel::Closure(fb, fi)) => {
                    if c {
                        exec_closure_spec(ValModel::Closure(tb, ti), Seq::empty(), fuel)
                    } else {
                        exec_closure_spec(ValModel::Closure(fb, fi), Seq::empty(), fuel)
                    }
                },
                _ => Outcome::Fail("if requires boolean and two closures"@),
            }
        }
    } else {
        Outcome::Fail(unknown_call_msg(call))
    }
}

/// The environment a closure body starts in: a fresh single frame holding the
/// captured image, then `rec` bound to the closure itself, then the
/// positional parameters and their count.
pub open spec fn closure_start_env(
    image: Map<Seq<char>, ValModel>,
    c: ValModel,
    args: Seq<ValModel>,
) -> EnvModel {
    let env0 = EnvModel {
        frames: seq![image.dom()],
        bindings: Map::new(
            |n: Seq<char>| image.dom().contains(n),
            |n: Seq<char>| seq![image[n]],
        ),
    };
    let env1 = env0.bind("rec"@, c);
    bind_params(env1, args, 0)
}

/// Binding the arguments from position `i` on, then the argument count.
pub open spec fn bind_params(env: EnvModel, args: Seq<ValModel>, i: nat) -> EnvModel
    decreases args.len() - i,
{
    if i >= args.len() {
        env.bind("$n"@, ValModel::Int(wrap_i64(args.len() as int)))
    } else {
        bind_params(env.bind(dollar_name(i), args[i as int]), args, i + 1)
    }
}

/// Executing a closure: a fresh environment with one frame receives the
/// captured image, `rec`, and the parameters; the body runs in it and the
/// value of its last expression (the empty tuple for an empty body) is the
/// result. Each activation consumes one unit of fuel.
pub open spec fn exec_closure_spec(c: ValModel, args: Seq<ValModel>, fuel: nat) -> Outcome
    decreases fuel, 0int, 1int,
{
    match c {
        ValModel::Closure(body, image) => {
            if fuel == 0 {
                Outcome::OutOfFuel
            } else {
                let env = closure_start_env(image, c, args);
                let ls = eval_exprs(env, body, (fuel - 1) as nat);
                match ls.out {
                    ListOutcome::Vals(vs) => {
                        if vs.len() == 0 {
                            Outcome::Val(ValModel::Tup(Seq::empty()))
                        } else {
                            Outcome::Val(vs.last())
                        }
                    },
                    ListOutcome::Fail(m) => Outcome::Fail(m),
                    ListOutcome::OutOfFuel => Outcome::OutOfFuel,
                }
            }
        },
        _ => Outcome::Fail(non_closure_msg()),
    }
}



/// What evaluating from the root yields: a fresh frame is pushed, the
/// parameters (when given) are bound in it, the root is evaluated, and the
/// frame is popped on every path.
pub open spec fn eval_from_root_spec(
    env: EnvModel,
    root: ExprModel,
    params: Option<Seq<ValModel>>,
    fuel: nat,
) -> EvalStep {
    let env1 = env.push_frame();
    let env2 = match params {
        Option::Some(vs) => bind_params(env1, vs, 0),
        Option::None => env1,
    };
    let step = eval_expr(env2, root, fuel);
    EvalStep { env: step.env.pop_frame(), out: step.out }
}

/// Binding parameters does not open or close frames.
pub proof fn lemma_bind_params_frames(env: EnvModel, args: Seq<ValModel>, i: nat)
    ensures
        bind_params(env, args, i).frames.len() == env.frames.len(),
    decreases args.len() - i,
{
    if i >= args.len() {
        assert(env.bind("$n"@, ValModel::Int(wrap_i64(args.len() as int))).frames.len()
            == env.frames.len());
    } else {
        lemma_bind_params_frames(env.bind(dollar_name(i), args[i as int]), args, i + 1);
    }
}

/// Evaluation never changes how many frames are open: every frame a
/// closure-body execution pushes is popped again inside it.
pub proof fn lemma_eval_expr_frames(env: EnvModel, e: ExprModel, fuel: nat)
    ensures
        eval_expr(env, e, fuel).env.frames.len() == env.frames.len(),
    decreases fuel, expr_size(e), 0int,
{
    broadcast use lemma_exprs_size_index, lemma_exprs_size_drop;

    match e {
        ExprModel::Tuple(cs) => {
            lemma_eval_exprs_frames(env, cs, fuel);
        },
        ExprModel::Binding(n, v) => {
            lemma_eval_expr_frames(env, *v, fuel);
            let s1 = eval_expr(env, *v, fuel);
            match s1.out {
                Outcome::Val(val) => {
                    assert(s1.env.bind(n, val).frames.len() == s1.env.frames.len());
                },
                _ => {},
            }
        },
        ExprModel::Pipe(ss, ks) => {
            if ss.len() > 0 {
                assert(ss.first() == ss[0]);
                lemma_eval_expr_frames(env, ss.first(), fuel);
                let s1 = eval_expr(env, ss.first(), fuel);
                match s1.out {
                    Outcome::Val(cur) => {
                        lemma_eval_pipe_tail_frames(s1.env, cur, ss.drop_first(), ks, fuel);
                    },
                    _ => {},
                }
            }
        },
        _ => {},
    }
}

pub proof fn lemma_eval_exprs_frames(env: EnvModel, cs: Seq<ExprModel>, fuel: nat)
    ensures
        eval_exprs(env, cs, fuel).env.frames.len() == env.frames.len(),
    decreases fuel, exprs_size(cs), 0int,
{
    broadcast use lemma_exprs_size_index, lemma_exprs_size_drop;

    if cs.len() > 0 {
        assert(cs.first() == cs[0]);
        lemma_eval_expr_frames(env, cs.first(), fuel);
        let s1 = eval_expr(env, cs.first(), fuel);
        match s1.out {
            Outcome::Val(v) => {
                lemma_eval_exprs_frames(s1.env, cs.drop_first(), fuel);
            },
            _ => {},
        }
    }
}

pub proof fn lemma_eval_pipe_tail_frames(
    env: EnvModel,
    cur: ValModel,
    ss: Seq<ExprModel>,
    ks: Seq<PipeType>,
    fuel: nat,
)
    ensures
        eval_pipe_tail(env, cur, ss, ks, fuel).env.frames.len() == env.frames.len(),
    decreases fuel, exprs_size(ss), 1int,
{
    broadcast use lemma_exprs_size_index, lemma_exprs_size_drop;

    if ss.len() > 0 && ks.len() > 0 {
        assert(ss.first() == ss[0]);
        lemma_eval_expr_frames(env, ss.first(), fuel);
        let s1 = eval_expr(env, ss.first(), fuel);
        match s1.out {
            Outcome::Val(stage) => {
                let args_opt: Option<Seq<ValModel>> = match ks.first() {
                    PipeType::Standard => Option::Some(seq![cur]),
                    PipeType::Destructure => match cur {
                        ValModel::Tup(vs) => Option::Some(vs),
                        _ => Option::None,
                    },
                };
                match args_opt {
                    Option::Some(args) => {
                        match apply_stage(stage, args, fuel) {
                            Outcome::Val(v) => {
                                lemma_eval_pipe_tail_frames(s1.env, v, ss.drop_first(), ks.drop_first(), fuel);
                            },
                            _ => {},
                        }
                    },
                    Option::None => {},
                }
            },
            _ => {},
        }
    }
}

} // verus!
