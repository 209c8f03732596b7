use vstd::prelude::*;
use crate::ast::{ASTNode, ExprModel, PipeType, expr_model, exprs_model,
    lemma_exprs_model_prefix_len, lemma_exprs_model_prefix_index};
use crate::value::{Value, ValModel, val_model, vals_model, image_model, image_model_prefix,
    lemma_vals_model_prefix_len, lemma_vals_model_prefix_index};
use crate::environment::{Environment, EnvModel};
use crate::semantics::{Outcome, ListOutcome, EvalStep, ListStep, eval_expr, eval_exprs,
    eval_pipe_tail, apply_stage, runtime_call_spec, exec_closure_spec, closure_start_env,
    bind_params, dollar_name, depth_msg, wrap_i64, expr_size, exprs_size,
    lemma_exprs_size_index, lemma_eval_exprs_frames,
    eval_from_root_spec, lemma_bind_params_frames};
use crate::runtime::{EvaluateResult, EvaluationError, foo, binop_arith, binop_cmp, strcat, print};
use crate::strings::{str_eq, string_concat, u64_to_string};

verus! {

/// The evaluation depth budget the public entry points run with: how many
/// closure activations may be outstanding before evaluation is cut off.
pub const DEFAULT_FUEL: u64 = 18446744073709551615;

/// Whether an executable result is the one the semantics prescribe.
pub open spec fn outcome_matches(r: Result<Value, String>, o: Outcome) -> bool {
    match o {
        Outcome::Val(v) => match r {
            Result::Ok(x) => x@ == v,
            Result::Err(s) => false,
        },
        Outcome::Fail(m) => match r {
            Result::Ok(x) => false,
            Result::Err(s) => s@ == m,
        },
        Outcome::OutOfFuel => match r {
            Result::Ok(x) => false,
            Result::Err(s) => s@ == depth_msg(),
        },
    }
}

pub open spec fn list_matches(r: Result<Vec<Value>, String>, o: ListOutcome) -> bool {
    match o {
        ListOutcome::Vals(vs) => match r {
            Result::Ok(xs) => vals_model(xs) == vs,
            Result::Err(s) => false,
        },
        ListOutcome::Fail(m) => match r {
            Result::Ok(xs) => false,
            Result::Err(s) => s@ == m,
        },
        ListOutcome::OutOfFuel => match r {
            Result::Ok(xs) => false,
            Result::Err(s) => s@ == depth_msg(),
        },
    }
}

/// Prefixing already-computed values onto the rest of a list evaluation.
pub open spec fn prepend_vals(vs: Seq<ValModel>, ls: ListStep) -> ListStep {
    ListStep {
        env: ls.env,
        out: match ls.out {
            ListOutcome::Vals(ws) => ListOutcome::Vals(vs + ws),
            o => o,
        },
    }
}

/// The tree-walking interpreter: the root it was created over and the live
/// environment.
pub struct Interpreter {
    pub root_node: ASTNode,
    pub env: Environment,
}

impl Interpreter {
    pub fn new(root_node: ASTNode) -> (r: Interpreter)
        ensures
            r.env@ == EnvModel::empty(),
            r.env.inv(),
            r.root_node == root_node,
    {
        Interpreter { root_node, env: Environment::new() }
    }

    /// Binds each argument `i` as `$i` and the argument count as `$n`, in the
    /// current frame.
    pub fn bind_parameters(&mut self, parameters: Vec<Value>)
        requires
            old(self).env.inv(),
            old(self).env@.frames.len() > 0,
        ensures
            final(self).env.inv(),
            final(self).env@ == bind_params(old(self).env@, vals_model(parameters), 0),
            final(self).env@.frames.len() == old(self).env@.frames.len(),
            final(self).root_node == old(self).root_node,
    {
        let ghost env0 = self.env@;
        let ghost args = vals_model(parameters);
        proof {
            lemma_vals_model_prefix_len(parameters, parameters@.len() as int);
        }
        let mut i: usize = 0;
        while i < parameters.len()
            invariant
                self.env.inv(),
                i <= parameters@.len(),
                args == vals_model(parameters),
                args.len() == parameters@.len(),
                self.env@.frames.len() == env0.frames.len() && env0.frames.len() > 0,
                bind_params(env0, args, 0) == bind_params(self.env@, args, i as nat),
                self.root_node == old(self).root_node,
            decreases parameters@.len() - i,
        {
            proof {
                lemma_vals_model_prefix_index(parameters, parameters@.len() as int, i as int);
            }
            let digits = u64_to_string(i as u64);
            let parameter_id = string_concat("$", digits.as_str());
            proof {
                reveal_strlit("$");
                assert(parameter_id@ =~= dollar_name(i as nat));
            }
            let ghost before = self.env@;
            self.env.bind(parameter_id, parameters[i].deep_clone());
            proof {
                assert(self.env@ == before.bind(dollar_name(i as nat), args[i as int]));
                assert(self.env@.frames.len() == before.frames.len());
                assert(bind_params(before, args, i as nat)
                    == bind_params(self.env@, args, i as nat + 1));
            }
            i = i + 1;
        }
        // the argument count, wrapped into the value type
        let n64 = parameters.len() as u64;
        let n_val: i64 = if n64 <= 0x7fff_ffff_ffff_ffffu64 {
            proof {
                assert(0 <= n64 as int + 0x8000_0000_0000_0000 < 0x1_0000_0000_0000_0000);
                assert(wrap_i64(n64 as int) == n64 as int);
            }
            n64 as i64
        } else {
            let wide: i128 = (n64 as i128) - 0x1_0000_0000_0000_0000;
            proof {
                let y = n64 as int + 0x8000_0000_0000_0000;
                assert(0x1_0000_0000_0000_0000 <= y < 0x2_0000_0000_0000_0000);
                assert(y % 0x1_0000_0000_0000_0000 == y - 0x1_0000_0000_0000_0000);
                assert(wrap_i64(n64 as int) == n64 as int - 0x1_0000_0000_0000_0000);
            }
            wide as i64
        };
        let ghost before = self.env@;
        self.env.bind("$n".to_owned(), Value::Integer(n_val));
        proof {
            assert(n_val == wrap_i64(args.len() as int));
            assert(self.env@ == before.bind("$n"@, ValModel::Int(wrap_i64(args.len() as int))));
            assert(self.env@.frames.len() == before.frames.len());
            assert(bind_params(before, args, args.len() as nat) == self.env@);
        }
    }

    /// Evaluates the node with the default depth budget.
    pub fn evaluate(&mut self, node: &ASTNode) -> (r: EvaluateResult)
        requires
            old(self).env.inv(),
        ensures
            final(self).env.inv(),
            final(self).env@ == eval_expr(old(self).env@, node@, DEFAULT_FUEL as nat).env,
            outcome_matches(r, eval_expr(old(self).env@, node@, DEFAULT_FUEL as nat).out),
            final(self).root_node == old(self).root_node,
    {
        self.evaluate_fueled(node, DEFAULT_FUEL)
    }

    /// Evaluates the node: the result and the environment after it are
    /// exactly what the semantics prescribe.
    pub fn evaluate_fueled(&mut self, node: &ASTNode, fuel: u64) -> (r: EvaluateResult)
        requires
            old(self).env.inv(),
        ensures
            final(self).env.inv(),
            final(self).env@ == eval_expr(old(self).env@, node@, fuel as nat).env,
            outcome_matches(r, eval_expr(old(self).env@, node@, fuel as nat).out),
            final(self).root_node == old(self).root_node,
        decreases fuel, expr_size(node@), 0int,
    {
        broadcast use lemma_exprs_model_prefix_len, lemma_exprs_model_prefix_index;

        let ghost env0 = self.env@;
        match node {
            ASTNode::Literal(l) => {
                let copied = l.deep_clone();
                match copied {
                    crate::ast::LiteralVariant::IntegerLiteral(i) => Result::Ok(Value::Integer(i)),
                    crate::ast::LiteralVariant::BooleanLiteral(b) => Result::Ok(Value::Boolean(b)),
                    crate::ast::LiteralVariant::StringLiteral(s) => Result::Ok(Value::String(s)),
                    crate::ast::LiteralVariant::FloatLiteral(f) => Result::Ok(Value::Float(f)),
                }
            },
            ASTNode::Identifier(name) => {
                match self.env.lookup(name) {
                    Option::Some(v) => Result::Ok(v),
                    Option::None => {
                        let partial = string_concat("Unbound symbol '", name.as_str());
                        let message = string_concat(partial.as_str(), "'");
                        Result::Err(message)
                    },
                }
            },
            ASTNode::Tuple(children) => {
                proof {
                    assert(expr_size(node@) == 1 + exprs_size(exprs_model(*children)));
                }
                match self.evaluate_nodes(children, fuel) {
                    Result::Ok(values) => Result::Ok(Value::Tuple(values)),
                    Result::Err(m) => Result::Err(m),
                }
            },
            ASTNode::Block(children) => {
                let body = Self::clone_nodes(children);
                let image = self.env.image();
                let closure = Value::Closure(body, image);
                proof {
                    assert(closure@ == ValModel::Closure(exprs_model(*children), env0.image()));
                }
                Result::Ok(closure)
            },
            ASTNode::Binding(name, value) => {
                proof {
                    assert(expr_size(node@) == 1 + expr_size(value@));
                }
                match self.evaluate_fueled(value, fuel) {
                    Result::Ok(v) => {
                        if self.env.stack_frames.len() > 0 {
                            self.env.bind(name.clone(), v);
                        }
                        Result::Ok(Value::Tuple(Vec::new()))
                    },
                    Result::Err(m) => Result::Err(m),
                }
            },
            ASTNode::Pipe(sections, kinds) => {
                let ghost ss = exprs_model(*sections);
                proof {
                    assert(node@ == ExprModel::Pipe(ss, kinds@));
                    assert(expr_size(node@) == 1 + exprs_size(ss));
                }
                if sections.len() == 0 {
                    return Result::Err("Pipe with no sections".to_owned());
                }
                proof {
                    assert(ss[0] == sections@[0]@);
                    assert(ss.first() == ss[0]);
                    lemma_exprs_size_index(ss, 0);
                }
                match self.evaluate_fueled(&sections[0], fuel) {
                    Result::Ok(cur) => self.evaluate_pipe_rest(cur, sections, kinds, fuel),
                    Result::Err(m) => Result::Err(m),
                }
            },
            ASTNode::Paste(inner) => Result::Err("Unsupported AST node for evaluation".to_owned()),
            ASTNode::Type(inner) => Result::Err("Unsupported AST node for evaluation".to_owned()),
        }
    }

    /// Structural copies of the nodes.
    fn clone_nodes(nodes: &Vec<ASTNode>) -> (r: Vec<ASTNode>)
        ensures
            exprs_model(r) == exprs_model(*nodes),
        decreases *nodes,
    {
        broadcast use lemma_exprs_model_prefix_len, lemma_exprs_model_prefix_index;

        let mut r: Vec<ASTNode> = Vec::new();
        let mut i: usize = 0;
        while i < nodes.len()
            invariant
                i <= nodes@.len(),
                r@.len() == i,
                forall|j: int| 0 <= j < i ==> expr_model(#[trigger] r@[j]) == expr_model(nodes@[j]),
            decreases nodes@.len() - i,
        {
            r.push(nodes[i].deep_clone());
            i = i + 1;
        }
        proof {
            crate::ast::lemma_exprs_models_equal(r, *nodes);
        }
        r
    }

    /// Evaluates the nodes left to right, stopping at the first failure.
    fn evaluate_nodes(&mut self, nodes: &Vec<ASTNode>, fuel: u64) -> (r: Result<Vec<Value>, String>)
        requires
            old(self).env.inv(),
        ensures
            final(self).env.inv(),
            final(self).env@ == eval_exprs(old(self).env@, exprs_model(*nodes), fuel as nat).env,
            list_matches(r, eval_exprs(old(self).env@, exprs_model(*nodes), fuel as nat).out),
            final(self).root_node == old(self).root_node,
        decreases fuel, exprs_size(exprs_model(*nodes)), 0int,
    {
        broadcast use lemma_exprs_model_prefix_len, lemma_exprs_model_prefix_index;

        let ghost env0 = self.env@;
        let ghost cs = exprs_model(*nodes);
        let ghost full = eval_exprs(env0, cs, fuel as nat);
        let mut values: Vec<Value> = Vec::new();
        proof {
            assert(vals_model(values) =~= Seq::<ValModel>::empty());
            assert(cs.skip(0) =~= cs);
            match full.out {
                ListOutcome::Vals(ws) => {
                    assert(Seq::<ValModel>::empty() + ws =~= ws);
                },
                _ => {},
            }
            assert(prepend_vals(vals_model(values), eval_exprs(env0, cs.skip(0), fuel as nat))
                =~= full);
        }
        let mut i: usize = 0;
        while i < nodes.len()
            invariant
                self.env.inv(),
                i <= nodes@.len(),
                cs == exprs_model(*nodes),
                cs.len() == nodes@.len(),
                full == eval_exprs(env0, cs, fuel as nat),
                full == eval_exprs(old(self).env@, exprs_model(*nodes), fuel as nat),
                full == prepend_vals(vals_model(values), eval_exprs(self.env@, cs.skip(i as int), fuel as nat)),
                self.root_node == old(self).root_node,
            decreases nodes@.len() - i,
        {
            let ghost envi = self.env@;
            let ghost rest = cs.skip(i as int);
            proof {
                assert(rest.len() > 0);
                assert(rest.first() == cs[i as int]);
                lemma_exprs_model_prefix_index(*nodes, nodes@.len() as int, i as int);
                assert(cs[i as int] == nodes@[i as int]@);
                lemma_exprs_size_index(cs, i as int);
                assert(rest.drop_first() =~= cs.skip(i as int + 1));
            }
            let ghost vals_before = vals_model(values);
            let ghost values_old = values;
            match self.evaluate_fueled(&nodes[i], fuel) {
                Result::Ok(v) => {
                    let ghost vm = v@;
                    values.push(v);
                    proof {
                        lemma_vals_model_prefix_len(values, values@.len() as int);
                        lemma_vals_model_prefix_len(values_old, values_old@.len() as int);
                        assert forall|j: int| 0 <= j < values@.len() implies
                            #[trigger] vals_model(values)[j] == val_model(values@[j]) by {
                            lemma_vals_model_prefix_index(values, values@.len() as int, j);
                        }
                        assert forall|j: int| 0 <= j < values_old@.len() implies
                            #[trigger] vals_model(values_old)[j] == val_model(values_old@[j]) by {
                            lemma_vals_model_prefix_index(values_old, values_old@.len() as int, j);
                        }
                        assert(vals_model(values) =~= vals_before.push(vm));
                        let after = eval_exprs(self.env@, cs.skip(i as int + 1), fuel as nat);
                        assert(eval_exprs(envi, rest, fuel as nat)
                            == prepend_vals(seq![vm], after));
                        match after.out {
                            ListOutcome::Vals(ws) => {
                                assert(vals_before + (seq![vm] + ws) =~= vals_before.push(vm) + ws);
                            },
                            _ => {},
                        }
                        assert(prepend_vals(vals_before, prepend_vals(seq![vm], after))
                            =~= prepend_vals(vals_before.push(vm), after));
                    }
                    i = i + 1;
                },
                Result::Err(m) => {
                    proof {
                        let s1 = eval_expr(envi, rest.first(), fuel as nat);
                        let lrest = eval_exprs(envi, rest, fuel as nat);
                        assert(!(s1.out is Val));
                        assert(lrest.env == s1.env);
                        match s1.out {
                            Outcome::Fail(mm) => {
                                assert(full.out == ListOutcome::Fail(mm));
                            },
                            Outcome::OutOfFuel => {
                                assert(full.out == ListOutcome::OutOfFuel);
                            },
                            _ => {},
                        }
                    }
                    return Result::Err(m);
                },
            }
        }
        proof {
            assert(cs.skip(cs.len() as int) =~= Seq::<ExprModel>::empty());
            assert(eval_exprs(self.env@, cs.skip(cs.len() as int), fuel as nat)
                == ListStep { env: self.env@, out: ListOutcome::Vals(Seq::empty()) });
            assert(vals_model(values) + Seq::<ValModel>::empty() =~= vals_model(values));
        }
        Result::Ok(values)
    }

    /// Threads the current value through the pipe sections after the first.
    fn evaluate_pipe_rest(
        &mut self,
        cur: Value,
        sections: &Vec<ASTNode>,
        kinds: &Vec<PipeType>,
        fuel: u64,
    ) -> (r: EvaluateResult)
        requires
            old(self).env.inv(),
            sections@.len() > 0,
        ensures
            final(self).env.inv(),
            final(self).env@ == eval_pipe_tail(old(self).env@, cur@,
                exprs_model(*sections).drop_first(), kinds@, fuel as nat).env,
            outcome_matches(r, eval_pipe_tail(old(self).env@, cur@,
                exprs_model(*sections).drop_first(), kinds@, fuel as nat).out),
            final(self).root_node == old(self).root_node,
        decreases fuel, exprs_size(exprs_model(*sections)), 1int,
    {
        broadcast use lemma_exprs_model_prefix_len, lemma_exprs_model_prefix_index;

        let ghost env0 = self.env@;
        let ghost ss = exprs_model(*sections);
        let ghost full = eval_pipe_tail(env0, cur@, ss.drop_first(), kinds@, fuel as nat);
        proof {
            assert(ss.drop_first() =~= ss.skip(1));
            assert(full == eval_pipe_tail(old(self).env@, cur@,
                exprs_model(*sections).drop_first(), kinds@, fuel as nat));
        }
        let mut current = cur;
        proof {
            assert(kinds@.skip(0) =~= kinds@);
        }
        let mut i: usize = 0;
        loop
            invariant
                self.env.inv(),
                i <= kinds@.len(),
                i + 1 <= sections@.len(),
                ss == exprs_model(*sections),
                ss.len() == sections@.len(),
                full == eval_pipe_tail(env0, cur@, ss.skip(1), kinds@, fuel as nat),
                full == eval_pipe_tail(old(self).env@, cur@,
                    exprs_model(*sections).drop_first(), kinds@, fuel as nat),
                full == eval_pipe_tail(self.env@, current@, ss.skip(i as int + 1),
                    kinds@.skip(i as int), fuel as nat),
                self.root_node == old(self).root_node,
            decreases kinds@.len() - i,
        {
            broadcast use lemma_exprs_model_prefix_len, lemma_exprs_model_prefix_index;

            if i >= kinds.len() || i + 1 >= sections.len() {
                proof {
                    assert(ss.skip(i as int + 1).len() == 0 || kinds@.skip(i as int).len() == 0);
                    assert(eval_pipe_tail(self.env@, current@, ss.skip(i as int + 1),
                            kinds@.skip(i as int), fuel as nat)
                        == EvalStep { env: self.env@, out: Outcome::Val(current@) });
                }
                return Result::Ok(current);
            }
            let ghost envi = self.env@;
            let ghost rest_ss = ss.skip(i as int + 1);
            let ghost rest_ks = kinds@.skip(i as int);
            proof {
                assert(rest_ss.len() > 0 && rest_ks.len() > 0);
                assert(rest_ss.first() == ss[i as int + 1]);
                lemma_exprs_model_prefix_index(*sections, sections@.len() as int, i as int + 1);
                assert(ss[i as int + 1] == sections@[i as int + 1]@);
                lemma_exprs_size_index(ss, i as int + 1);
                assert(rest_ks.first() == kinds@[i as int]);
                assert(rest_ss.drop_first() =~= ss.skip(i as int + 2));
                assert(rest_ks.drop_first() =~= kinds@.skip(i as int + 1));
            }
            let stage = match self.evaluate_fueled(&sections[i + 1], fuel) {
                Result::Ok(s) => s,
                Result::Err(m) => {
                    return Result::Err(m);
                },
            };
            // derive the argument vector from the current value
            let args: Vec<Value> = match kinds[i] {
                PipeType::Standard => {
                    let mut a: Vec<Value> = Vec::new();
                    a.push(current);
                    proof {
                        lemma_vals_model_prefix_len(a, 1);
                        lemma_vals_model_prefix_index(a, 1, 0);
                        assert(vals_model(a) =~= seq![a@[0]@]);
                    }
                    a
                },
                PipeType::Destructure => {
                    match current {
                        Value::Tuple(vs) => {
                            proof {
                                lemma_vals_model_prefix_len(vs, vs@.len() as int);
                            }
                            vs
                        },
                        other => {
                            return Result::Err("Trying to destructure non-tuple value".to_owned());
                        },
                    }
                },
            };
            let result = apply_stage_exec(stage, args, fuel);
            match result {
                Result::Ok(v) => {
                    current = v;
                    i = i + 1;
                },
                Result::Err(m) => {
                    return Result::Err(m);
                },
            }
        }
    }

    /// Executes the closure with the default depth budget.
    pub fn execute_closure(parameters: Vec<Value>, closure: &Value) -> (r: EvaluateResult)
        ensures
            outcome_matches(r, exec_closure_spec(closure@, vals_model(parameters), DEFAULT_FUEL as nat)),
    {
        execute_closure_fueled(parameters, closure, DEFAULT_FUEL)
    }

    /// Evaluates the root in a fresh frame, binding the parameters when they
    /// are given; the frame is popped again on every path.
    pub fn evaluate_from_root(&mut self, parameters: Option<Vec<Value>>) -> (r: EvaluateResult)
        requires
            old(self).env.inv(),
        ensures
            final(self).env.inv(),
            final(self).env@ == eval_from_root_spec(old(self).env@, old(self).root_node@,
                opt_vals_model(parameters), DEFAULT_FUEL as nat).env,
            outcome_matches(r, eval_from_root_spec(old(self).env@, old(self).root_node@,
                opt_vals_model(parameters), DEFAULT_FUEL as nat).out),
            final(self).root_node == old(self).root_node,
    {
        let ghost env0 = self.env@;
        let ghost params_m = opt_vals_model(parameters);
        self.env.push_stack_frame();
        let root = self.root_node.deep_clone();
        match parameters {
            Option::Some(p) => {
                proof {
                    assert(params_m == Option::Some(vals_model(p)));
                }
                self.bind_parameters(p);
            },
            Option::None => {},
        }
        let ghost env2 = self.env@;
        proof {
            assert(env2.frames.len() > 0) by {
                match params_m {
                    Option::Some(vs) => {
                        lemma_bind_params_frames(env0.push_frame(), vs, 0);
                    },
                    Option::None => {},
                }
            }
        }
        let result = self.evaluate_fueled(&root, DEFAULT_FUEL);
        proof {
            crate::semantics::lemma_eval_expr_frames(env2, old(self).root_node@, DEFAULT_FUEL as nat);
        }
        let popped = self.env.pop_stack_frame();
        proof {
            assert(popped is Ok);
        }
        result
    }
}

/// The models of an optional argument vector.
pub open spec fn opt_vals_model(p: Option<Vec<Value>>) -> Option<Seq<ValModel>> {
    match p {
        Option::Some(vs) => Option::Some(vals_model(vs)),
        Option::None => Option::None,
    }
}

/// Applies one pipe stage to the argument vector: the runtime sentinel
/// dispatches to the built-in table; anything else must be a closure.
fn apply_stage_exec(stage: Value, args: Vec<Value>, fuel: u64) -> (r: EvaluateResult)
    ensures
        outcome_matches(r, apply_stage(stage@, vals_model(args), fuel as nat)),
    decreases fuel, 0int, 3int,
{
    let is_runtime = match &stage {
        Value::RuntimeInvocation => true,
        _ => false,
    };
    if is_runtime {
        let ghost am = vals_model(args);
        proof {
            lemma_vals_model_prefix_len(args, args@.len() as int);
        }
        if args.len() != 2 {
            return Result::Err(
                "Runtime invocation requires 2 arguments - parameters to runtime and runtime call".to_owned());
        }
        proof {
            lemma_vals_model_prefix_index(args, 2, 0);
            lemma_vals_model_prefix_index(args, 2, 1);
        }
        let mut args = args;
        let second = match args.pop() {
            Option::Some(v) => v,
            Option::None => vstd::pervasive::unreached(),
        };
        let first = match args.pop() {
            Option::Some(v) => v,
            Option::None => vstd::pervasive::unreached(),
        };
        proof {
            assert(first@ == am[0] && second@ == am[1]);
        }
        match (first, second) {
            (Value::Tuple(ps), Value::String(call)) => {
                proof {
                    lemma_vals_model_prefix_len(ps, ps@.len() as int);
                }
                invoke_runtime_fueled(ps, call, fuel)
            },
            _ => Result::Err(
                "Runtime parameters should be tuple and runtime call should be string".to_owned()),
        }
    } else {
        execute_closure_fueled(args, &stage, fuel)
    }
}

/// Dispatches a named call to the built-in runtime table.
fn invoke_runtime_fueled(parameters: Vec<Value>, call: String, fuel: u64) -> (r: EvaluateResult)
    ensures
        outcome_matches(r, runtime_call_spec(vals_model(parameters), call@, fuel as nat)),
    decreases fuel, 0int, 2int,
{
    if str_eq(call.as_str(), "foo") {
        foo(parameters)
    } else if str_eq(call.as_str(), "binop_arith") {
        binop_arith(parameters)
    } else if str_eq(call.as_str(), "binop_cmp") {
        binop_cmp(parameters)
    } else if str_eq(call.as_str(), "strcat") {
        strcat(parameters)
    } else if str_eq(call.as_str(), "print") {
        print(parameters)
    } else if str_eq(call.as_str(), "if") {
        let ghost pm = vals_model(parameters);
        proof {
            lemma_vals_model_prefix_len(parameters, parameters@.len() as int);
        }
        if parameters.len() != 3 {
            return Result::Err("if requires 3 arguments".to_owned());
        }
        proof {
            lemma_vals_model_prefix_index(parameters, 3, 0);
            lemma_vals_model_prefix_index(parameters, 3, 1);
            lemma_vals_model_prefix_index(parameters, 3, 2);
        }
        let mut parameters = parameters;
        let else_branch = match parameters.pop() {
            Option::Some(v) => v,
            Option::None => vstd::pervasive::unreached(),
        };
        let then_branch = match parameters.pop() {
            Option::Some(v) => v,
            Option::None => vstd::pervasive::unreached(),
        };
        let condition = match parameters.pop() {
            Option::Some(v) => v,
            Option::None => vstd::pervasive::unreached(),
        };
        proof {
            assert(condition@ == pm[0] && then_branch@ == pm[1] && else_branch@ == pm[2]);
        }
        let shapes_ok = (matches!(condition, Value::Boolean(_)))
            && (matches!(then_branch, Value::Closure(_, _)))
            && (matches!(else_branch, Value::Closure(_, _)));
        if !shapes_ok {
            return Result::Err("if requires boolean and two closures".to_owned());
        }
        let cond = match condition {
            Value::Boolean(b) => b,
            _ => vstd::pervasive::unreached(),
        };
        if cond {
            execute_closure_fueled(Vec::new(), &then_branch, fuel)
        } else {
            execute_closure_fueled(Vec::new(), &else_branch, fuel)
        }
    } else {
        Result::Err(string_concat("Unknown runtime call: ", call.as_str()))
    }
}


/// Dispatches a named call to the built-in runtime table, with the default
/// depth budget.
pub fn invoke_runtime(parameters: Vec<Value>, call: String) -> (r: EvaluateResult)
    ensures
        outcome_matches(r, runtime_call_spec(vals_model(parameters), call@, DEFAULT_FUEL as nat)),
{
    invoke_runtime_fueled(parameters, call, DEFAULT_FUEL)
}

/// Executes a closure: a fresh environment with one frame receives the
/// captured image, `rec` bound to the closure itself, and the parameters;
/// the body's last value (the empty tuple for an empty body) is the result.
fn execute_closure_fueled(parameters: Vec<Value>, closure: &Value, fuel: u64) -> (r: EvaluateResult)
    ensures
        outcome_matches(r, exec_closure_spec(closure@, vals_model(parameters), fuel as nat)),
    decreases fuel, 0int, 1int,
{
    broadcast use lemma_exprs_model_prefix_len, lemma_exprs_model_prefix_index;

    match closure {
        Value::Closure(c_exps, env_image) => {
            if fuel == 0 {
                return Result::Err("Evaluation depth limit exceeded".to_owned());
            }
            let ghost img = image_model(*env_image);
            proof {
                assert(closure@ == ValModel::Closure(exprs_model(*c_exps), img));
            }
            let mut interpreter = Interpreter::new(ASTNode::Block(Vec::new()));
            interpreter.env.push_stack_frame();
            proof {
                assert(interpreter.env@ =~= fresh_with(image_model_prefix(*env_image, 0)));
            }
            // bind the captured image into the fresh frame
            let mut k: usize = 0;
            while k < env_image.len()
                invariant
                    interpreter.env.inv(),
                    k <= env_image@.len(),
                    img == image_model(*env_image),
                    interpreter.env@ == fresh_with(image_model_prefix(*env_image, k as int)),
                decreases env_image@.len() - k,
            {
                let ghost before = interpreter.env@;
                let ghost mk = image_model_prefix(*env_image, k as int);
                let name = env_image[k].0.clone();
                let val = env_image[k].1.deep_clone();
                proof {
                    assert(before.frames.len() == 1);
                }
                interpreter.env.bind(name, val);
                proof {
                    lemma_fresh_with_bind(mk, env_image@[k as int].0@, val_model(env_image@[k as int].1));
                    assert(image_model_prefix(*env_image, k as int + 1)
                        == mk.insert(env_image@[k as int].0@, val_model(env_image@[k as int].1)));
                }
                k = k + 1;
            }
            proof {
                assert(image_model_prefix(*env_image, env_image@.len() as int) == img);
            }
            // the closure can reach itself under `rec`
            let ghost before_rec = interpreter.env@;
            interpreter.env.bind("rec".to_owned(), closure.deep_clone());
            proof {
                assert(interpreter.env@ == before_rec.bind("rec"@, closure@));
                assert(interpreter.env@.frames.len() == 1);
            }
            // the positional parameters and their count
            let ghost args = vals_model(parameters);
            interpreter.bind_parameters(parameters);
            proof {
                assert(interpreter.env@ == closure_start_env(img, closure@, args));
            }
            // run the body; its last value is the closure's value
            let body_r = interpreter.evaluate_nodes(c_exps, fuel - 1);
            let mut values = match body_r {
                Result::Ok(vs) => vs,
                Result::Err(m) => {
                    return Result::Err(m);
                },
            };
            proof {
                lemma_vals_model_prefix_len(values, values@.len() as int);
                lemma_eval_exprs_frames(closure_start_env(img, closure@, args),
                    exprs_model(*c_exps), (fuel - 1) as nat);
            }
            let last_value = if values.len() == 0 {
                Value::Tuple(Vec::new())
            } else {
                proof {
                    lemma_vals_model_prefix_index(values, values@.len() as int,
                        values@.len() as int - 1);
                }
                match values.pop() {
                    Option::Some(v) => v,
                    Option::None => vstd::pervasive::unreached(),
                }
            };
            let popped = interpreter.env.pop_stack_frame();
            proof {
                assert(popped is Ok);
            }
            Result::Ok(last_value)
        },
        _ => Result::Err("Passed non-closure for evaluation".to_owned()),
    }
}

/// A fresh environment holding exactly the map's entries in its single frame.
pub open spec fn fresh_with(m: Map<Seq<char>, ValModel>) -> EnvModel {
    EnvModel {
        frames: seq![m.dom()],
        bindings: Map::new(
            |n: Seq<char>| m.dom().contains(n),
            |n: Seq<char>| seq![m[n]],
        ),
    }
}

/// Binding into the fresh environment inserts into its map.
proof fn lemma_fresh_with_bind(m: Map<Seq<char>, ValModel>, n: Seq<char>, v: ValModel)
    ensures
        fresh_with(m).bind(n, v) == fresh_with(m.insert(n, v)),
{
    let e = fresh_with(m);
    assert(e.frames.len() == 1);
    assert(e.top() == m.dom());
    if m.dom().contains(n) {
        assert(e.stack_of(n) == seq![m[n]]);
        assert(e.stack_of(n).len() == 1);
        assert(e.bind(n, v).bindings =~= fresh_with(m.insert(n, v)).bindings) by {
            assert(seq![m[n]].update(0, v) =~= seq![v]);
        }
        assert(e.bind(n, v).frames =~= fresh_with(m.insert(n, v)).frames) by {
            assert(m.insert(n, v).dom() =~= m.dom());
        }
        assert(e.bind(n, v) =~= fresh_with(m.insert(n, v)));
    } else {
        assert(e.stack_of(n) =~= Seq::<ValModel>::empty());
        assert(e.bind(n, v).frames =~= fresh_with(m.insert(n, v)).frames) by {
            assert(m.insert(n, v).dom() =~= m.dom().insert(n));
        }
        assert(e.bind(n, v).bindings =~= fresh_with(m.insert(n, v)).bindings) by {
            assert(Seq::<ValModel>::empty().push(v) =~= seq![v]);
        }
        assert(e.bind(n, v) =~= fresh_with(m.insert(n, v)));
    }
}

} // verus!
