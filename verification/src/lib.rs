use vstd::prelude::*;

pub mod ast;
pub mod value;
pub mod environment;
pub mod strings;
pub mod float_bits;
pub mod lexer;
pub mod parser;
pub mod semantics;
pub mod runtime;
pub mod interp;
pub mod laws;

use crate::ast::{ASTNode, ExprModel, pipe_wf};
use crate::value::{Value, ValModel, vals_model, val_model, lemma_vals_model_prefix_len,
    lemma_vals_model_prefix_index};
use crate::environment::EnvModel;
use crate::lexer::{Token, TokenModel, Span, lex, lex_from, lex_output_model, token_model};
use crate::parser::{Parser, ParserError, ParseResult, tokens_of_expr, toks_of, tok_entries,
    spec_parse_expr, parse_err_model, ErrModel, lemma_tok_entries_len,
    lemma_tok_entries_index};
use crate::semantics::{Outcome, eval_from_root_spec, exec_closure_spec};
use crate::interp::{Interpreter, DEFAULT_FUEL, outcome_matches, opt_vals_model};
use crate::runtime::EvaluateResult;

verus! {

/// Which entry point the interpreter front-end runs.
#[derive(Debug, PartialEq, Eq, Structural, Clone, Copy)]
pub enum InterpreterMode {
    Expression,
    Program,
}

/// Arguments of the interpreter front-end: what to run and on which file.
#[derive(Debug)]
pub struct InterpreterArgs {
    pub mode: InterpreterMode,
    pub filename: String,
}

/// Which grammar root the parser front-end parses.
#[derive(Debug, PartialEq, Eq, Structural, Clone, Copy)]
pub enum ParseType {
    Expression,
    Identifier,
}

/// Arguments of the parser front-end: what to parse and on which file.
#[derive(Debug)]
pub struct ParserArgs {
    pub parse_type: ParseType,
    pub filename: String,
}

/// The token models of a lexer output in which every region was recognised.
pub open spec fn lex_all_ok(entries: Seq<(Option<TokenModel>, (int, int))>) -> bool {
    forall|i: int| 0 <= i < entries.len() ==> (#[trigger] entries[i]).0 is Some
}

pub open spec fn lexed_models(entries: Seq<(Option<TokenModel>, (int, int))>) -> Seq<TokenModel> {
    entries.map_values(|e: (Option<TokenModel>, (int, int))| e.0->Some_0)
}

/// The source lexes cleanly and the expression renders back to exactly its
/// tokens, the whole input.
pub open spec fn parse_of_source(s: Seq<char>, ast: ExprModel) -> bool {
    &&& lex_all_ok(lex_from(s, 0, 0))
    &&& tokens_of_expr(ast) == lexed_models(lex_from(s, 0, 0))
    &&& pipe_wf(ast)
}

/// The tokens of a source whose every region lexes, with their byte spans.
pub open spec fn lexed_entries(s: Seq<char>) -> Seq<(TokenModel, (int, int))> {
    lex_from(s, 0, 0).map_values(|e: (Option<TokenModel>, (int, int))| (e.0->Some_0, e.1))
}

pub broadcast proof fn lemma_lexed_entries_index(s: Seq<char>, i: int)
    requires
        0 <= i < lex_from(s, 0, 0).len(),
    ensures
        lexed_entries(s).len() == lex_from(s, 0, 0).len(),
        #[trigger] lexed_entries(s)[i] == (lex_from(s, 0, 0)[i].0->Some_0, lex_from(s, 0, 0)[i].1),
{
}

pub broadcast proof fn lemma_lexed_entries_len(s: Seq<char>)
    ensures
        #[trigger] lexed_entries(s).len() == lex_from(s, 0, 0).len(),
{
}

/// What the source parses to: nothing when some region does not lex, when no
/// expression parses, or when tokens trail the expression; otherwise the one
/// expression whose rendering is the whole token stream.
pub open spec fn source_parses(s: Seq<char>) -> Option<ExprModel> {
    if !lex_all_ok(lex_from(s, 0, 0)) {
        Option::None
    } else {
        let (r, n) = spec_parse_expr(lexed_entries(s), 0);
        match r {
            Result::Ok(e) => if n == lexed_entries(s).len() as int {
                Option::Some(e)
            } else {
                Option::None
            },
            Result::Err(m) => Option::None,
        }
    }
}

/// Lexes the input and collects the tokens, failing when some region is not
/// recognised.
fn tokens_or_fail(input: &str) -> (r: Result<Vec<(Token, Span)>, ParserError>)
    ensures
        match r {
            Result::Ok(tokens) => {
                &&& lex_all_ok(lex_from(input@, 0, 0))
                &&& toks_of(tokens@) == lexed_models(lex_from(input@, 0, 0))
                &&& tok_entries(tokens@) == lexed_entries(input@)
            },
            Result::Err(e) => {
                &&& !lex_all_ok(lex_from(input@, 0, 0))
                &&& parse_err_model(e) == ("Root"@, "Parsing Failed"@, (0int, 1int))
            },
        },
{
    broadcast use lemma_tok_entries_len, lemma_tok_entries_index,
        lemma_lexed_entries_len, lemma_lexed_entries_index;

    let entries = lex(input);
    let ghost lm = lex_from(input@, 0, 0);
    let mut tokens: Vec<(Token, Span)> = Vec::new();
    let mut i: usize = 0;
    while i < entries.len()
        invariant
            i <= entries@.len(),
            lm == lex_from(input@, 0, 0),
            lex_output_model(entries@) == lm,
            entries@.len() == lm.len(),
            tokens@.len() == i,
            forall|j: int| 0 <= j < i ==> (#[trigger] lm[j]).0 is Some,
            forall|j: int| 0 <= j < i
                ==> token_model((#[trigger] tokens@[j]).0) == lm[j].0->Some_0,
            forall|j: int| 0 <= j < i
                ==> ((#[trigger] tokens@[j]).1.start as int, tokens@[j].1.end as int) == lm[j].1,
        decreases entries@.len() - i,
    {
        proof {
            assert(lex_output_model(entries@)[i as int]
                == (match entries@[i as int].0 {
                    Result::Ok(t) => Option::Some(token_model(t)),
                    Result::Err(u) => Option::<TokenModel>::None,
                }, (entries@[i as int].1.start as int, entries@[i as int].1.end as int)));
        }
        let entry = &entries[i];
        match &entry.0 {
            Result::Ok(t) => {
                let copied = copy_token(t);
                let sp: Span = entry.1.start..entry.1.end;
                tokens.push((copied, sp));
            },
            Result::Err(u) => {
                proof {
                    assert(!((lm[i as int]).0 is Some));
                    assert(!lex_all_ok(lm));
                }
                return Result::Err(("Root".to_owned(), "Parsing Failed".to_owned(), 0..1));
            },
        }
        i = i + 1;
    }
    proof {
        assert(toks_of(tokens@) =~= lexed_models(lm));
        assert forall|j: int| 0 <= j < tokens@.len() implies
            #[trigger] tok_entries(tokens@)[j] == lexed_entries(input@)[j] by {
            lemma_tok_entries_index(tokens@, j);
            lemma_lexed_entries_index(input@, j);
        }
        assert(tok_entries(tokens@) =~= lexed_entries(input@));
    }
    Result::Ok(tokens)
}

/// A copy of the token, with the same model.
fn copy_token(t: &Token) -> (r: Token)
    ensures
        r@ == t@,
{
    match t {
        Token::LeftParen => Token::LeftParen,
        Token::RightParen => Token::RightParen,
        Token::LeftBrace => Token::LeftBrace,
        Token::RightBrace => Token::RightBrace,
        Token::Pipe => Token::Pipe,
        Token::PipeStar => Token::PipeStar,
        Token::Colon => Token::Colon,
        Token::Identifier(s) => Token::Identifier(s.clone()),
        Token::StringLiteral(s) => Token::StringLiteral(s.clone()),
        Token::BooleanLiteral(b) => Token::BooleanLiteral(*b),
        Token::IntegerLiteral(i) => Token::IntegerLiteral(*i),
        Token::FloatLiteral(f) => Token::FloatLiteral(*f),
        Token::Type => Token::Type,
        Token::Paste => Token::Paste,
    }
}

/// Lexes and parses one expression from the front of the input; tokens after
/// it are left unread.
pub fn lex_and_parse(input: &str) -> (r: Result<ASTNode, ParserError>)
    ensures
        lex_all_ok(lex_from(input@, 0, 0)) ==> match r {
            Result::Ok(ast) => {
                &&& spec_parse_expr(lexed_entries(input@), 0).0
                    == Result::<ExprModel, ErrModel>::Ok(ast@)
                &&& pipe_wf(ast@)
                &&& exists|n: int|
                    0 <= n <= lexed_models(lex_from(input@, 0, 0)).len()
                    && tokens_of_expr(ast@)
                        == #[trigger] lexed_models(lex_from(input@, 0, 0)).subrange(0, n)
            },
            Result::Err(e) => spec_parse_expr(lexed_entries(input@), 0).0
                == Result::<ExprModel, ErrModel>::Err(parse_err_model(e)),
        },
        !lex_all_ok(lex_from(input@, 0, 0)) ==> (r matches Result::Err(e)
            && parse_err_model(e) == ("Root"@, "Parsing Failed"@, (0int, 1int))),
{
    let tokens = match tokens_or_fail(input) {
        Result::Ok(ts) => ts,
        Result::Err(e) => {
            return Result::Err(e);
        },
    };
    let ghost tms = toks_of(tokens@);
    let mut parser = Parser::new(tokens);
    let r = parser.parse();
    proof {
        match &r {
            Result::Ok(ast) => {
                assert(tokens_of_expr(ast@)
                    == lexed_models(lex_from(input@, 0, 0)).subrange(0, parser.index as int));
            },
            Result::Err(e) => {},
        }
    }
    r
}

/// Lexes and parses the whole input into one expression; unrecognised input,
/// a malformed expression, and tokens left over after it are all errors.
pub fn parse_from_string(input: &str) -> (r: ParseResult)
    ensures
        match r {
            Result::Ok(ast) => parse_of_source(input@, ast@)
                && source_parses(input@) == Option::Some(ast@),
            Result::Err(e) => source_parses(input@) is None,
        },
{
    broadcast use lemma_lexed_entries_len;

    let tokens = match tokens_or_fail(input) {
        Result::Ok(ts) => ts,
        Result::Err(e) => {
            return Result::Err(e);
        },
    };
    let n_tokens = tokens.len();
    let ghost tms = toks_of(tokens@);
    let ghost entries = tok_entries(tokens@);
    proof {
        lemma_tok_entries_len(tokens@);
        assert(entries == lexed_entries(input@));
    }
    let mut parser = Parser::new(tokens);
    let r = match parser.parse() {
        Result::Ok(ast) => ast,
        Result::Err(e) => {
            proof {
                assert(spec_parse_expr(entries, 0).0
                    == Result::<ExprModel, ErrModel>::Err(parse_err_model(e)));
            }
            return Result::Err(e);
        },
    };
    if parser.index < n_tokens {
        proof {
            assert(spec_parse_expr(entries, 0).1 < entries.len() as int);
        }
        let sp: Span = parser.tokens[parser.index].1.start..parser.tokens[parser.index].1.end;
        return Result::Err(("Root".to_owned(), "Trailing tokens after expression".to_owned(), sp));
    }
    proof {
        assert(tokens_of_expr(r@) =~= lexed_models(lex_from(input@, 0, 0)));
        assert(spec_parse_expr(entries, 0)
            == (Result::<ExprModel, ErrModel>::Ok(r@), entries.len() as int));
        assert(source_parses(input@) == Option::Some(r@));
    }
    Result::Ok(r)
}

/// The models of optional string arguments, as string values.
pub open spec fn opt_strs_model(p: Option<Vec<String>>) -> Option<Seq<ValModel>> {
    match p {
        Option::Some(ps) => Option::Some(ps@.map_values(|s: String| ValModel::Str(s@))),
        Option::None => Option::None,
    }
}

/// What interpreting a parsed program yields: the root is evaluated in an
/// environment holding only `plz`, and, when re-invocation is asked for, the
/// result is executed as a closure over the same arguments.
pub open spec fn interpret_pipeline(
    ast: ExprModel,
    params: Option<Seq<ValModel>>,
    execute_root: bool,
) -> Outcome {
    let env0 = EnvModel::empty().push_frame().bind("plz"@, ValModel::Runtime);
    let step = eval_from_root_spec(env0, ast, params, DEFAULT_FUEL as nat);
    if execute_root {
        match step.out {
            Outcome::Val(v) => exec_closure_spec(
                v,
                match params {
                    Option::Some(vs) => vs,
                    Option::None => Seq::empty(),
                },
                DEFAULT_FUEL as nat,
            ),
            o => o,
        }
    } else {
        step.out
    }
}

/// Converts the string arguments to values; both results hold the same
/// values.
fn strings_to_values(parameters: &Vec<String>) -> (r: Vec<Value>)
    ensures
        vals_model(r) == parameters@.map_values(|s: String| ValModel::Str(s@)),
{
    let mut r: Vec<Value> = Vec::new();
    let mut i: usize = 0;
    while i < parameters.len()
        invariant
            i <= parameters@.len(),
            r@.len() == i,
            forall|j: int| 0 <= j < i ==> val_model(#[trigger] r@[j]) == ValModel::Str(parameters@[j]@),
        decreases parameters@.len() - i,
    {
        r.push(Value::String(parameters[i].clone()));
        i = i + 1;
    }
    proof {
        lemma_vals_model_prefix_len(r, r@.len() as int);
        assert forall|j: int| 0 <= j < r@.len() implies
            #[trigger] vals_model(r)[j] == val_model(r@[j]) by {
            lemma_vals_model_prefix_index(r, r@.len() as int, j);
        }
        assert(vals_model(r) =~= parameters@.map_values(|s: String| ValModel::Str(s@)));
    }
    r
}

/// Interprets the source: parse it, bind `plz` to the runtime sentinel in the
/// outermost frame, bind the arguments when given, and evaluate; when
/// `execute_root` is set the result must be a closure and is executed over
/// the same arguments.
pub fn interpret_from_string(
    input: &str,
    parameters: Option<Vec<String>>,
    execute_root: bool,
) -> (r: EvaluateResult)
    ensures
        match source_parses(input@) {
            Option::Some(ast) => outcome_matches(r,
                interpret_pipeline(ast, opt_strs_model(parameters), execute_root)),
            Option::None => r matches Result::Err(s) && s@ == "Failed to interpret"@,
        },
{
    let ast = match parse_from_string(input) {
        Result::Ok(ast) => ast,
        Result::Err(e) => {
            return Result::Err("Failed to interpret".to_owned());
        },
    };
    let ghost ast_m = ast@;
    let ghost params_m = opt_strs_model(parameters);
    let mut interpreter = Interpreter::new(ast);
    interpreter.env.push_stack_frame();
    interpreter.env.bind("plz".to_owned(), Value::RuntimeInvocation);
    let ghost env0 = interpreter.env@;
    proof {
        assert(env0 == EnvModel::empty().push_frame().bind("plz"@, ValModel::Runtime));
    }
    let (first_copy, second_copy): (Option<Vec<Value>>, Option<Vec<Value>>) = match &parameters {
        Option::Some(ps) => (Option::Some(strings_to_values(ps)), Option::Some(strings_to_values(ps))),
        Option::None => (Option::None, Option::None),
    };
    proof {
        assert(opt_vals_model(first_copy) == params_m);
    }
    let res = match interpreter.evaluate_from_root(first_copy) {
        Result::Ok(v) => v,
        Result::Err(e) => {
            return Result::Err(e);
        },
    };
    if execute_root {
        let parameters_vector = match second_copy {
            Option::Some(ps) => ps,
            Option::None => Vec::new(),
        };
        proof {
            match params_m {
                Option::Some(vs) => {
                    assert(vals_model(parameters_vector) == vs);
                },
                Option::None => {
                    assert(vals_model(parameters_vector)
                        =~= Seq::<ValModel>::empty());
                },
            }
        }
        Interpreter::execute_closure(parameters_vector, &res)
    } else {
        Result::Ok(res)
    }
}

} // verus!
