use vstd::prelude::*;
use crate::ast::ExprModel;
use crate::value::ValModel;
use crate::environment::{EnvModel, lemma_bind_lookup_other, lemma_bind_then_lookup,
    lemma_bind_preserves_wf, frames_count};
use crate::semantics::{Outcome, EvalStep, eval_expr, eval_exprs, eval_pipe_tail, apply_stage,
    exec_closure_spec, closure_start_env, bind_params, dollar_name, lit_val, destructure_msg,
    wrap_i64};
use crate::ast::{LitModel, PipeType};
use crate::strings::{dec_chars, lemma_dec_chars_len};

verus! {

/// A literal evaluates to the corresponding value, and the environment is
/// untouched.
pub proof fn lemma_literal_evaluates_to_itself(env: EnvModel, l: LitModel, fuel: nat)
    ensures
        eval_expr(env, ExprModel::Literal(l), fuel)
            == (EvalStep { env, out: Outcome::Val(lit_val(l)) }),
{
}

/// Evaluating a block never executes its body: the result is a closure over
/// the body and the snapshot of the current environment, and the environment
/// is untouched.
pub proof fn lemma_block_captures_snapshot(env: EnvModel, es: Seq<ExprModel>, fuel: nat)
    ensures
        eval_expr(env, ExprModel::Block(es), fuel)
            == (EvalStep { env, out: Outcome::Val(ValModel::Closure(es, env.image())) }),
{
}

/// Two evaluations of the same block in the same environment produce closures
/// with equal captured images.
pub proof fn lemma_block_twice_equal_captures(env: EnvModel, es: Seq<ExprModel>, fuel: nat)
    ensures
        ({
            let s1 = eval_expr(env, ExprModel::Block(es), fuel);
            let s2 = eval_expr(s1.env, ExprModel::Block(es), fuel);
            s1.out == s2.out
        }),
{
}


/// A closure-body execution leaves the environment stack depth exactly as it
/// found it: the body runs in its activation environment without opening or
/// closing frames on balance, and the caller's environment is never touched.
pub proof fn lemma_closure_body_preserves_depth(
    image: Map<Seq<char>, ValModel>,
    c: ValModel,
    args: Seq<ValModel>,
    body: Seq<ExprModel>,
    fuel: nat,
)
    ensures
        eval_exprs(closure_start_env(image, c, args), body, fuel).env.frames.len()
            == closure_start_env(image, c, args).frames.len(),
{
    crate::semantics::lemma_eval_exprs_frames(closure_start_env(image, c, args), body, fuel);
}

/// The block `{ $0 }`: a closure body that yields its first argument.
pub open spec fn identity_block() -> ExprModel {
    ExprModel::Block(seq![ExprModel::Identifier("$0"@)])
}

/// The block `{ ($0) }`: a closure body that yields the one-tuple of its
/// first argument.
pub open spec fn singleton_block() -> ExprModel {
    ExprModel::Block(seq![ExprModel::Tuple(seq![ExprModel::Identifier("$0"@)])])
}

/// The environment a closure starts in is well formed, has one frame, and
/// looks `$0` up as the first argument.
proof fn lemma_closure_start_lookup_arg0(
    image: Map<Seq<char>, ValModel>,
    c: ValModel,
    args: Seq<ValModel>,
)
    requires
        args.len() >= 1,
    ensures
        closure_start_env(image, c, args).lookup("$0"@) == Option::Some(args[0]),
{
    let env0 = EnvModel {
        frames: seq![image.dom()],
        bindings: Map::new(
            |n: Seq<char>| image.dom().contains(n),
            |n: Seq<char>| seq![image[n]],
        ),
    };
    assert forall|n: Seq<char>| true implies
        frames_count(env0.frames, n) == (if image.dom().contains(n) { 1nat } else { 0nat }) by {
        assert(env0.frames.len() == 1);
        assert(env0.frames.drop_last() =~= Seq::<Set<Seq<char>>>::empty());
        assert(frames_count(Seq::<Set<Seq<char>>>::empty(), n) == 0);
        assert(env0.frames.last() == image.dom());
    }
    assert(env0.wf()) by {
        assert forall|n: Seq<char>| env0.bindings.dom().contains(n)
            implies (#[trigger] env0.bindings[n]).len() == frames_count(env0.frames, n)
                && env0.bindings[n].len() > 0 by {
            assert(image.dom().contains(n));
            assert(env0.bindings[n] == seq![image[n]]);
        }
        assert forall|n: Seq<char>| frames_count(env0.frames, n) > 0
            implies env0.bindings.dom().contains(n) by {
            assert(image.dom().contains(n));
        }
    }
    let env1 = env0.bind("rec"@, c);
    lemma_bind_preserves_wf(env0, "rec"@, c);
    let env2 = env1.bind(dollar_name(0), args[0]);
    lemma_bind_preserves_wf(env1, dollar_name(0), args[0]);
    lemma_bind_then_lookup(env1, dollar_name(0), args[0]);
    assert(env2.lookup(dollar_name(0)) == Option::Some(args[0]));
    // the later parameters and the count leave `$0` alone
    assert forall|j: nat| 1 <= j < args.len() implies #[trigger] dollar_name(j) != dollar_name(0) by {
        lemma_dollar_zero_distinct(j);
    }
    lemma_dollar_zero_distinct(1);
    lemma_bind_params_preserves_other(env2, args, 1, dollar_name(0));
    assert(bind_params(env1, args, 0) == bind_params(env2, args, 1));
    proof_dollar_name_is_dollar_zero();
}

/// `$0` written out.
proof fn proof_dollar_name_is_dollar_zero()
    ensures
        dollar_name(0) == "$0"@,
{
    reveal_strlit("$0");
    assert(dec_chars(0) =~= seq!['0']);
    assert(dollar_name(0) =~= "$0"@);
}

/// Binding parameters from position `i` on never touches a name that is
/// neither one of those positions nor the count.
proof fn lemma_bind_params_preserves_other(env: EnvModel, args: Seq<ValModel>, i: nat, n: Seq<char>)
    requires
        forall|j: nat| i <= j < args.len() ==> #[trigger] dollar_name(j) != n,
        n != "$n"@,
    ensures
        bind_params(env, args, i).lookup(n) == env.lookup(n),
    decreases args.len() - i,
{
    if i >= args.len() {
        lemma_bind_lookup_other(env, "$n"@, ValModel::Int(wrap_i64(args.len() as int)), n);
    } else {
        assert(dollar_name(i) != n);
        lemma_bind_lookup_other(env, dollar_name(i), args[i as int], n);
        lemma_bind_params_preserves_other(env.bind(dollar_name(i), args[i as int]), args, i + 1, n);
    }
}

/// `$0` is distinct from every later positional name and from the count.
proof fn lemma_dollar_zero_distinct(j: nat)
    requires
        j >= 1,
    ensures
        dollar_name(j) != dollar_name(0),
        dollar_name(0) != "$n"@,
{
    proof_dollar_name_is_dollar_zero();
    reveal_strlit("$n");
    assert(dollar_name(0).len() == 2);
    assert(dollar_name(0)[1] == '0');
    if j < 10 {
        assert(dec_chars(j) =~= seq![crate::strings::dec_digit_char(j as int)]);
        assert(dollar_name(j)[1] == crate::strings::dec_digit_char(j as int));
        assert(crate::strings::dec_digit_char(j as int) != '0');
    } else {
        lemma_dec_chars_len(j);
        assert(dollar_name(j).len() >= 3);
    }
}

/// Executing the closure of `{ $0 }` over one argument yields that argument:
/// piping any value through `{ $0 }` with `|` is the identity.
pub proof fn lemma_identity_closure(image: Map<Seq<char>, ValModel>, t: ValModel, fuel: nat)
    requires
        fuel >= 1,
    ensures
        exec_closure_spec(
            ValModel::Closure(seq![ExprModel::Identifier("$0"@)], image),
            seq![t],
            fuel,
        ) == Outcome::Val(t),
{
    let c = ValModel::Closure(seq![ExprModel::Identifier("$0"@)], image);
    let args = seq![t];
    let env = closure_start_env(image, c, args);
    assert forall|j: nat| 1 <= j < args.len() implies #[trigger] dollar_name(j) != dollar_name(0) by {
        lemma_dollar_zero_distinct(j);
    }
    lemma_dollar_zero_distinct(1);
    proof_dollar_name_is_dollar_zero();
    lemma_closure_start_lookup_arg0(image, c, args);
    assert(env.lookup("$0"@) == Option::Some(t));
    let body = seq![ExprModel::Identifier("$0"@)];
    assert(body.first() == ExprModel::Identifier("$0"@));
    assert(body.drop_first() =~= Seq::<ExprModel>::empty());
    let s1 = eval_expr(env, body.first(), (fuel - 1) as nat);
    assert(s1.out == Outcome::Val(t));
    let ls = eval_exprs(env, body, (fuel - 1) as nat);
    assert(ls.out == crate::semantics::ListOutcome::Vals(seq![t] + Seq::empty()));
    assert((seq![t] + Seq::<ValModel>::empty()).last() == t);
    assert((seq![t] + Seq::<ValModel>::empty()).len() == 1);
    assert(exec_closure_spec(c, args, fuel) == Outcome::Val(t));
}

/// Piping a value through `{ $0 }` with the flow operator yields the value
/// unchanged and leaves the environment untouched.
pub proof fn lemma_pipe_standard_identity(env: EnvModel, t: ValModel, fuel: nat)
    requires
        fuel >= 1,
    ensures
        eval_pipe_tail(env, t, seq![identity_block()], seq![PipeType::Standard], fuel)
            == (EvalStep { env, out: Outcome::Val(t) }),
{
    let ss = seq![identity_block()];
    let ks = seq![PipeType::Standard];
    assert(ss.first() == identity_block());
    assert(ks.first() == PipeType::Standard);
    let c = ValModel::Closure(seq![ExprModel::Identifier("$0"@)], env.image());
    let s1 = eval_expr(env, ss.first(), fuel);
    assert(s1 == EvalStep { env, out: Outcome::Val(c) });
    lemma_identity_closure(env.image(), t, fuel);
    assert(apply_stage(c, seq![t], fuel) == Outcome::Val(t));
    assert(ss.drop_first() =~= Seq::<ExprModel>::empty());
    assert(ks.drop_first() =~= Seq::<PipeType>::empty());
    assert(eval_pipe_tail(env, t, ss.drop_first(), ks.drop_first(), fuel)
        == (EvalStep { env, out: Outcome::Val(t) }));
    assert(eval_pipe_tail(env, t, ss, ks, fuel) == (EvalStep { env, out: Outcome::Val(t) }));
}

/// Destructuring a non-tuple value fails with the destructuring error, and
/// the environment is untouched.
pub proof fn lemma_pipe_destructure_non_tuple(env: EnvModel, v: ValModel, fuel: nat)
    requires
        !(v is Tup),
    ensures
        eval_pipe_tail(env, v, seq![identity_block()], seq![PipeType::Destructure], fuel)
            == (EvalStep { env, out: Outcome::Fail(destructure_msg()) }),
{
    let ss = seq![identity_block()];
    let ks = seq![PipeType::Destructure];
    assert(ss.first() == identity_block());
    assert(ks.first() == PipeType::Destructure);
    let c = ValModel::Closure(seq![ExprModel::Identifier("$0"@)], env.image());
    let s1 = eval_expr(env, ss.first(), fuel);
    assert(s1 == EvalStep { env, out: Outcome::Val(c) });
    assert(eval_pipe_tail(env, v, ss, ks, fuel)
        == (EvalStep { env, out: Outcome::Fail(destructure_msg()) }));
}

/// Piping a non-empty tuple through `{ ($0) }` with the destructuring
/// operator yields the one-tuple of the tuple's first element.
pub proof fn lemma_pipe_destructure_head(env: EnvModel, vs: Seq<ValModel>, fuel: nat)
    requires
        fuel >= 1,
        vs.len() >= 1,
    ensures
        eval_pipe_tail(env, ValModel::Tup(vs), seq![singleton_block()], seq![PipeType::Destructure], fuel)
            == (EvalStep { env, out: Outcome::Val(ValModel::Tup(seq![vs[0]])) }),
{
    let ss = seq![singleton_block()];
    let ks = seq![PipeType::Destructure];
    assert(ss.first() == singleton_block());
    let body = seq![ExprModel::Tuple(seq![ExprModel::Identifier("$0"@)])];
    let c = ValModel::Closure(body, env.image());
    let s1 = eval_expr(env, ss.first(), fuel);
    assert(s1 == EvalStep { env, out: Outcome::Val(c) });
    // executing the closure over the tuple's elements
    let cenv = closure_start_env(env.image(), c, vs);
    assert forall|j: nat| 1 <= j < vs.len() implies #[trigger] dollar_name(j) != dollar_name(0) by {
        lemma_dollar_zero_distinct(j);
    }
    if vs.len() > 1 {
        lemma_dollar_zero_distinct(1);
    }
    proof_dollar_name_is_dollar_zero();
    lemma_closure_start_lookup_arg0(env.image(), c, vs);
    assert(cenv.lookup("$0"@) == Option::Some(vs[0]));
    assert(body.first() == ExprModel::Tuple(seq![ExprModel::Identifier("$0"@)]));
    assert(body.drop_first() =~= Seq::<ExprModel>::empty());
    let inner = seq![ExprModel::Identifier("$0"@)];
    assert(inner.first() == ExprModel::Identifier("$0"@));
    assert(inner.drop_first() =~= Seq::<ExprModel>::empty());
    let li = eval_exprs(cenv, inner, (fuel - 1) as nat);
    assert(li.out == crate::semantics::ListOutcome::Vals(seq![vs[0]] + Seq::empty()));
    assert(seq![vs[0]] + Seq::<ValModel>::empty() =~= seq![vs[0]]);
    let st = eval_expr(cenv, body.first(), (fuel - 1) as nat);
    assert(st.out == Outcome::Val(ValModel::Tup(seq![vs[0]])));
    let lb = eval_exprs(cenv, body, (fuel - 1) as nat);
    assert(lb.out == crate::semantics::ListOutcome::Vals(
        seq![ValModel::Tup(seq![vs[0]])] + Seq::empty()));
    assert((seq![ValModel::Tup(seq![vs[0]])] + Seq::<ValModel>::empty()).last()
        == ValModel::Tup(seq![vs[0]]));
    assert(exec_closure_spec(c, vs, fuel) == Outcome::Val(ValModel::Tup(seq![vs[0]])));
    assert(ks.first() == PipeType::Destructure);
    assert(apply_stage(c, vs, fuel) == Outcome::Val(ValModel::Tup(seq![vs[0]])));
    assert(ss.drop_first() =~= Seq::<ExprModel>::empty());
    assert(ks.drop_first() =~= Seq::<PipeType>::empty());
    assert(eval_pipe_tail(env, ValModel::Tup(seq![vs[0]]), ss.drop_first(), ks.drop_first(), fuel)
        == (EvalStep { env, out: Outcome::Val(ValModel::Tup(seq![vs[0]])) }));
    assert(eval_pipe_tail(env, ValModel::Tup(vs), ss, ks, fuel)
        == (EvalStep { env, out: Outcome::Val(ValModel::Tup(seq![vs[0]])) }));
}

} // verus!
