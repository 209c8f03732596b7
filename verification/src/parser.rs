use vstd::prelude::*;
use crate::ast::{ASTNode, ExprModel, LitModel, LiteralVariant, PipeType, pipe_wf, all_pipe_wf,
    expr_model, exprs_model, lemma_exprs_model_prefix_len, lemma_exprs_model_prefix_index,
    lemma_all_pipe_wf_push};
use crate::lexer::{Token, TokenModel, Span, token_model};

verus! {

/// A parser error: the construct being parsed, a message, and the byte span
/// at which parsing failed.
pub type ParserError = (String, String, Span);

pub type ParseResult = Result<ASTNode, ParserError>;

/// Parses a vector of tokens into an abstract syntax tree.
pub struct Parser {
    pub tokens: Vec<(Token, Span)>,
    pub index: usize,
}

/// The models of the tokens, spans dropped.
pub open spec fn toks_of(tokens: Seq<(Token, Span)>) -> Seq<TokenModel> {
    tokens.map_values(|e: (Token, Span)| token_model(e.0))
}

/// The token a literal renders back to.
pub open spec fn lit_token(l: LitModel) -> TokenModel {
    match l {
        LitModel::Str(s) => TokenModel::StringLiteral(s),
        LitModel::Int(i) => TokenModel::IntegerLiteral(i),
        LitModel::Bool(b) => TokenModel::BooleanLiteral(b),
        LitModel::Float(f) => TokenModel::FloatLiteral(f),
    }
}

pub open spec fn pipe_token(k: PipeType) -> TokenModel {
    match k {
        PipeType::Standard => TokenModel::Pipe,
        PipeType::Destructure => TokenModel::PipeStar,
    }
}

/// The tokens an expression renders back to. A successful parse consumes
/// exactly the tokens its result renders to.
pub open spec fn tokens_of_expr(e: ExprModel) -> Seq<TokenModel>
    decreases e, 1int,
{
    match e {
        ExprModel::Literal(l) => seq![lit_token(l)],
        ExprModel::Identifier(n) => seq![TokenModel::Identifier(n)],
        ExprModel::Tuple(cs) => seq![TokenModel::LeftParen] + tokens_of_exprs(cs) + seq![TokenModel::RightParen],
        ExprModel::Block(cs) => seq![TokenModel::LeftBrace] + tokens_of_exprs(cs) + seq![TokenModel::RightBrace],
        ExprModel::Binding(n, v) => seq![TokenModel::Identifier(n), TokenModel::Colon] + tokens_of_expr(*v),
        ExprModel::Pipe(sections, kinds) => {
            if sections.len() == 0 {
                Seq::empty()
            } else {
                tokens_of_expr(sections.first()) + tokens_of_pipe_tail(sections.drop_first(), kinds)
            }
        },
        ExprModel::Paste(inner) => seq![TokenModel::Paste] + tokens_of_expr(*inner),
        ExprModel::Type(inner) => seq![TokenModel::Type] + tokens_of_expr(*inner),
    }
}

/// The tokens of the later pipe sections, each preceded by its joining
/// operator.
pub open spec fn tokens_of_pipe_tail(sections: Seq<ExprModel>, kinds: Seq<PipeType>) -> Seq<TokenModel>
    decreases sections, 0int,
{
    if sections.len() == 0 || kinds.len() == 0 {
        Seq::empty()
    } else {
        seq![pipe_token(kinds.first())] + tokens_of_expr(sections.first())
            + tokens_of_pipe_tail(sections.drop_first(), kinds.drop_first())
    }
}

/// The tokens of a sequence of expressions, in order.
pub open spec fn tokens_of_exprs(cs: Seq<ExprModel>) -> Seq<TokenModel>
    decreases cs, 0int,
{
    if cs.len() == 0 {
        Seq::empty()
    } else {
        tokens_of_expr(cs.first()) + tokens_of_exprs(cs.drop_first())
    }
}

pub proof fn lemma_tokens_of_exprs_snoc(cs: Seq<ExprModel>, e: ExprModel)
    ensures
        tokens_of_exprs(cs.push(e)) == tokens_of_exprs(cs) + tokens_of_expr(e),
    decreases cs.len(),
{
    if cs.len() == 0 {
        assert(cs.push(e).first() == e);
        assert(cs.push(e).drop_first() =~= Seq::<ExprModel>::empty());
        assert(tokens_of_exprs(Seq::<ExprModel>::empty()) == Seq::<TokenModel>::empty());
        assert(tokens_of_exprs(cs.push(e))
            == tokens_of_expr(e) + tokens_of_exprs(Seq::<ExprModel>::empty()));
        assert(tokens_of_exprs(cs.push(e)) =~= tokens_of_exprs(cs) + tokens_of_expr(e));
    } else {
        assert(cs.push(e).first() == cs.first());
        assert(cs.push(e).drop_first() =~= cs.drop_first().push(e));
        lemma_tokens_of_exprs_snoc(cs.drop_first(), e);
        assert(tokens_of_exprs(cs.push(e))
            == tokens_of_expr(cs.first()) + (tokens_of_exprs(cs.drop_first()) + tokens_of_expr(e)));
        assert(tokens_of_expr(cs.first()) + (tokens_of_exprs(cs.drop_first()) + tokens_of_expr(e))
            =~= tokens_of_exprs(cs) + tokens_of_expr(e));
    }
}


// ---------------------------------------------------------------------------
// The parse, as a function. The executable parser is proved equal to it, so
// the parser's whole behaviour — which prefix is consumed, which tree comes
// back, and which error triple surfaces — is pinned.

/// A parser error, in the model: construct, message, byte span.
pub type ErrModel = (Seq<char>, Seq<char>, (int, int));

/// A token with its byte span, in the model.
pub open spec fn tok_entries(tokens: Seq<(Token, Span)>) -> Seq<(TokenModel, (int, int))> {
    tokens.map_values(|e: (Token, Span)| (token_model(e.0), (e.1.start as int, e.1.end as int)))
}

pub broadcast proof fn lemma_tok_entries_len(tokens: Seq<(Token, Span)>)
    ensures
        #[trigger] tok_entries(tokens).len() == tokens.len(),
{
}

pub broadcast proof fn lemma_tok_entries_index(tokens: Seq<(Token, Span)>, i: int)
    requires
        0 <= i < tokens.len(),
    ensures
        tok_entries(tokens).len() == tokens.len(),
        #[trigger] tok_entries(tokens)[i]
            == (token_model(tokens[i].0), (tokens[i].1.start as int, tokens[i].1.end as int)),
{
}

pub open spec fn parse_err_model(e: ParserError) -> ErrModel {
    (e.0@, e.1@, (e.2.start as int, e.2.end as int))
}

/// The end-of-input error for a construct: the last token's span, or the
/// first byte when there are no tokens.
pub open spec fn spec_eof_err(entries: Seq<(TokenModel, (int, int))>, construct: Seq<char>) -> ErrModel {
    let sp = if entries.len() > 0 {
        entries.last().1
    } else {
        (0int, 1int)
    };
    (construct, "Unexpected end of the input"@, sp)
}

/// The unexpected-token error for a construct, at the token's span.
pub open spec fn spec_tok_err(
    entries: Seq<(TokenModel, (int, int))>,
    construct: Seq<char>,
    i: int,
) -> ErrModel {
    (construct, "undefined error"@, entries[i].1)
}

/// The next position after a sub-parse, held inside `(i, len]`; the parser
/// always makes progress, so the bound never actually binds.
pub open spec fn next_pos(i: int, j: int, len: int) -> int {
    if j <= i {
        i + 1
    } else if j > len {
        len
    } else {
        j
    }
}

/// Folding a pipe on the right into one flat pipe node.
pub open spec fn spec_pipe_fold(e1: ExprModel, kind: PipeType, e2: ExprModel) -> ExprModel {
    match e2 {
        ExprModel::Pipe(ss, ks) => ExprModel::Pipe(seq![e1] + ss, seq![kind] + ks),
        _ => ExprModel::Pipe(seq![e1, e2], seq![kind]),
    }
}

/// One expression from position `i`, extended by a binding or a pipe chain
/// by one-token look-ahead, and the position just after it.
pub open spec fn spec_parse_expr(
    entries: Seq<(TokenModel, (int, int))>,
    i: int,
) -> (Result<ExprModel, ErrModel>, int)
    decreases entries.len() - i, 3int,
{
    if i < 0 || i >= entries.len() {
        (Result::Err(spec_eof_err(entries, "self contained"@)), i)
    } else {
        let (r1, i1) = spec_parse_self(entries, i);
        match r1 {
            Result::Err(e) => (Result::Err(e), i1),
            Result::Ok(e1) => {
                let i1c = next_pos(i, i1, entries.len() as int);
                if i1c >= entries.len() {
                    (Result::Ok(e1), i1)
                } else {
                    let tm = entries[i1c].0;
                    if tm is Colon && e1 is Identifier {
                        let (r2, i2) = spec_parse_expr(entries, i1c + 1);
                        match r2 {
                            Result::Ok(rhs) => {
                                (Result::Ok(ExprModel::Binding(e1->Identifier_0, Box::new(rhs))), i2)
                            },
                            Result::Err(e) => (Result::Err(e), i2),
                        }
                    } else if tm is Pipe || tm is PipeStar {
                        let kind = if tm is Pipe { PipeType::Standard } else { PipeType::Destructure };
                        let (r2, i2) = spec_parse_expr(entries, i1c + 1);
                        match r2 {
                            Result::Ok(e2) => (Result::Ok(spec_pipe_fold(e1, kind, e2)), i2),
                            Result::Err(e) => (Result::Err(e), i2),
                        }
                    } else {
                        (Result::Ok(e1), i1)
                    }
                }
            },
        }
    }
}

/// One self-contained expression from position `i`.
pub open spec fn spec_parse_self(
    entries: Seq<(TokenModel, (int, int))>,
    i: int,
) -> (Result<ExprModel, ErrModel>, int)
    decreases entries.len() - i, 2int,
{
    if i < 0 || i >= entries.len() {
        (Result::Err(spec_eof_err(entries, "self contained"@)), i)
    } else {
        match entries[i].0 {
            TokenModel::StringLiteral(v) => (Result::Ok(ExprModel::Literal(LitModel::Str(v))), i + 1),
            TokenModel::IntegerLiteral(v) => (Result::Ok(ExprModel::Literal(LitModel::Int(v))), i + 1),
            TokenModel::BooleanLiteral(v) => (Result::Ok(ExprModel::Literal(LitModel::Bool(v))), i + 1),
            TokenModel::FloatLiteral(v) => (Result::Ok(ExprModel::Literal(LitModel::Float(v))), i + 1),
            TokenModel::Identifier(v) => (Result::Ok(ExprModel::Identifier(v)), i + 1),
            TokenModel::LeftParen => spec_parse_tuple(entries, i),
            TokenModel::LeftBrace => spec_parse_block(entries, i),
            TokenModel::Type => {
                let (r, i2) = spec_parse_tuple(entries, i + 1);
                match r {
                    Result::Ok(t) => (Result::Ok(ExprModel::Type(Box::new(t))), i2),
                    Result::Err(e) => (Result::Err(e), i2),
                }
            },
            TokenModel::Paste => {
                let (r, i2) = spec_parse_tuple(entries, i + 1);
                match r {
                    Result::Ok(t) => (Result::Ok(ExprModel::Paste(Box::new(t))), i2),
                    Result::Err(e) => (Result::Err(e), i2),
                }
            },
            _ => (Result::Err(spec_tok_err(entries, "expression"@, i)), i),
        }
    }
}

/// A parenthesised tuple whose opening token stands at `i`.
pub open spec fn spec_parse_tuple(
    entries: Seq<(TokenModel, (int, int))>,
    i: int,
) -> (Result<ExprModel, ErrModel>, int)
    decreases entries.len() - i, 1int,
{
    if i < 0 || i >= entries.len() {
        (Result::Err(spec_eof_err(entries, "tuple"@)), i)
    } else if !(entries[i].0 is LeftParen) {
        (Result::Err(spec_tok_err(entries, "tuple"@, i)), i)
    } else {
        let (r, i2) = spec_parse_items(entries, i + 1, true);
        match r {
            Result::Ok(children) => (Result::Ok(ExprModel::Tuple(children)), i2),
            Result::Err(e) => (Result::Err(e), i2),
        }
    }
}

/// A braced block whose opening token stands at `i`.
pub open spec fn spec_parse_block(
    entries: Seq<(TokenModel, (int, int))>,
    i: int,
) -> (Result<ExprModel, ErrModel>, int)
    decreases entries.len() - i, 1int,
{
    if i < 0 || i >= entries.len() {
        (Result::Err(spec_eof_err(entries, "block"@)), i)
    } else if !(entries[i].0 is LeftBrace) {
        (Result::Err(spec_tok_err(entries, "block"@, i)), i)
    } else {
        let (r, i2) = spec_parse_items(entries, i + 1, false);
        match r {
            Result::Ok(children) => (Result::Ok(ExprModel::Block(children)), i2),
            Result::Err(e) => (Result::Err(e), i2),
        }
    }
}

/// Expressions in order until the closing delimiter, which is consumed.
pub open spec fn spec_parse_items(
    entries: Seq<(TokenModel, (int, int))>,
    i: int,
    paren: bool,
) -> (Result<Seq<ExprModel>, ErrModel>, int)
    decreases entries.len() - i, 4int,
{
    let construct = if paren { "tuple"@ } else { "block"@ };
    if i < 0 || i >= entries.len() {
        (Result::Err(spec_eof_err(entries, construct)), i)
    } else if (paren && entries[i].0 is RightParen) || (!paren && entries[i].0 is RightBrace) {
        (Result::Ok(Seq::empty()), i + 1)
    } else {
        let (r, j) = spec_parse_expr(entries, i);
        match r {
            Result::Err(e) => (Result::Err(e), j),
            Result::Ok(e) => {
                let jc = next_pos(i, j, entries.len() as int);
                let (rrest, k) = spec_parse_items(entries, jc, paren);
                match rrest {
                    Result::Ok(rest) => (Result::Ok(seq![e] + rest), k),
                    Result::Err(e2) => (Result::Err(e2), k),
                }
            },
        }
    }
}

/// Prefixing already-parsed expressions onto the rest of an item parse.
pub open spec fn prepend_parsed(
    acc: Seq<ExprModel>,
    s: (Result<Seq<ExprModel>, ErrModel>, int),
) -> (Result<Seq<ExprModel>, ErrModel>, int) {
    (
        match s.0 {
            Result::Ok(rest) => Result::Ok(acc + rest),
            Result::Err(e) => Result::Err(e),
        },
        s.1,
    )
}

/// Whether the executable result is the one the parse function prescribes.
pub open spec fn matches_spec_parse(
    r: (ParseResult, usize),
    s: (Result<ExprModel, ErrModel>, int),
) -> bool {
    &&& r.1 as int == s.1
    &&& match r.0 {
        Result::Ok(ast) => s.0 is Ok && ast@ == (match s.0 {
            Result::Ok(e) => e,
            Result::Err(m) => ast@,
        }),
        Result::Err(pe) => s.0 is Err && parse_err_model(pe) == (match s.0 {
            Result::Err(m) => m,
            Result::Ok(e) => parse_err_model(pe),
        }),
    }
}

/// The end-of-input error for the construct.
fn eof_error(tokens: &Vec<(Token, Span)>, construct: &str) -> (r: ParserError)
    ensures
        parse_err_model(r) == spec_eof_err(tok_entries(tokens@), construct@),
{
    broadcast use lemma_tok_entries_len, lemma_tok_entries_index;

    let sp: Span = if tokens.len() > 0 {
        proof {
            lemma_tok_entries_index(tokens@, tokens@.len() - 1);
        }
        let last = &tokens[tokens.len() - 1].1;
        last.start..last.end
    } else {
        0..1
    };
    (construct.to_owned(), "Unexpected end of the input".to_owned(), sp)
}

/// What a successful parse guarantees: progress, and that the result renders
/// back to exactly the consumed tokens.
pub open spec fn parse_ok(
    tokens: Seq<(Token, Span)>,
    start: int,
    r: (Result<ASTNode, ParserError>, usize),
) -> bool {
    &&& r.1 <= tokens.len()
    &&& match r.0 {
        Result::Ok(ast) => {
            &&& start < r.1 as int
            &&& tokens_of_expr(ast@) == toks_of(tokens).subrange(start, r.1 as int)
            &&& pipe_wf(ast@)
        },
        Result::Err(e) => start <= r.1 as int,
    }
}

/// Parses one expression starting at `index`, extending it with a binding or
/// a pipe chain by one-token look-ahead; pipe chains are folded flat.
fn parse_expr(tokens: &Vec<(Token, Span)>, index: usize) -> (r: (ParseResult, usize))
    requires
        index <= tokens@.len(),
    ensures
        parse_ok(tokens@, index as int, r),
        matches_spec_parse(r, spec_parse_expr(tok_entries(tokens@), index as int)),
    decreases tokens@.len() - index, 2int,
{
    broadcast use lemma_exprs_model_prefix_len, lemma_exprs_model_prefix_index,
        lemma_tok_entries_len, lemma_tok_entries_index;

    let ghost ts = toks_of(tokens@);
    let ghost entries = tok_entries(tokens@);
    let (first, i1) = parse_self_contained(tokens, index);
    let expr1 = match first {
        Result::Ok(e) => e,
        Result::Err(err) => {
            proof {
                if index >= tokens.len() {
                    assert(spec_parse_self(entries, index as int)
                        == (Result::<ExprModel, ErrModel>::Err(
                            spec_eof_err(entries, "self contained"@)), index as int));
                    assert(spec_parse_expr(entries, index as int)
                        == (Result::<ExprModel, ErrModel>::Err(
                            spec_eof_err(entries, "self contained"@)), index as int));
                } else {
                    assert(spec_parse_expr(entries, index as int)
                        == (Result::<ExprModel, ErrModel>::Err(parse_err_model(err)), i1 as int));
                }
            }
            return (Result::Err(err), i1);
        },
    };
    proof {
        assert(index < i1 && i1 <= tokens@.len());
        assert(index < tokens@.len());
    }
    if i1 >= tokens.len() {
        proof {
            assert(next_pos(index as int, i1 as int, entries.len() as int) == i1 as int);
            assert(spec_parse_expr(entries, index as int)
                == (Result::<ExprModel, ErrModel>::Ok(expr_model(expr1)), i1 as int));
        }
        return (Result::Ok(expr1), i1);
    }
    proof {
        lemma_tok_entries_index(tokens@, i1 as int);
        assert(next_pos(index as int, i1 as int, entries.len() as int) == i1 as int);
    }
    let is_colon = match &tokens[i1].0 {
        Token::Colon => true,
        _ => false,
    };
    let is_ident = match &expr1 {
        ASTNode::Identifier(v) => true,
        _ => false,
    };
    if is_colon && is_ident {
        let ghost e1 = expr_model(expr1);
        let name = match expr1 {
            ASTNode::Identifier(v) => v,
            _ => vstd::pervasive::unreached(),
        };
        proof {
            assert(e1 == ExprModel::Identifier(name@));
            assert(entries[i1 as int].0 is Colon);
            assert(tokens_of_expr(ASTNode::Identifier(name)@)
                == seq![TokenModel::Identifier(name@)]);
            assert(ts.subrange(index as int, i1 as int).len() == 1);
            assert(i1 == index + 1);
            assert(ts.subrange(index as int, i1 as int)[0] == ts[index as int]);
            assert(ts[index as int] == TokenModel::Identifier(name@));
            assert(ts[i1 as int] == token_model(tokens@[i1 as int].0));
        }
        let (rhs_r, i2) = parse_expr(tokens, i1 + 1);
        proof {
            assert(matches_spec_parse((rhs_r, i2), spec_parse_expr(entries, i1 as int + 1)));
        }
        match rhs_r {
            Result::Ok(rhs) => {
                let ghost rm = expr_model(rhs);
                let result = ASTNode::Binding(name, Box::new(rhs));
                proof {
                    assert(tokens_of_expr(result@)
                        =~= ts.subrange(index as int, i2 as int));
                    assert(result@ == ExprModel::Binding(name@, Box::new(rm)));
                    assert(spec_parse_expr(entries, index as int)
                        == (Result::<ExprModel, ErrModel>::Ok(
                            ExprModel::Binding(name@, Box::new(rm))), i2 as int));
                }
                (Result::Ok(result), i2)
            },
            Result::Err(err) => (Result::Err(err), i2),
        }
    } else {
        let ghost e1 = expr_model(expr1);
        proof {
            assert((entries[i1 as int].0 is Colon && e1 is Identifier) == (is_colon && is_ident));
        }
        let kind_opt: Option<PipeType> = match &tokens[i1].0 {
            Token::Pipe => Option::Some(PipeType::Standard),
            Token::PipeStar => Option::Some(PipeType::Destructure),
            _ => Option::None,
        };
        match kind_opt {
            Option::None => {
                proof {
                    assert(!(entries[i1 as int].0 is Pipe) && !(entries[i1 as int].0 is PipeStar));
                    assert(spec_parse_expr(entries, index as int)
                        == (Result::<ExprModel, ErrModel>::Ok(e1), i1 as int));
                }
                (Result::Ok(expr1), i1)
            },
            Option::Some(kind) => {
                proof {
                    assert(ts[i1 as int] == pipe_token(kind));
                    assert(!(entries[i1 as int].0 is Colon && e1 is Identifier));
                    if kind is Standard {
                        assert(entries[i1 as int].0 is Pipe);
                    } else {
                        assert(entries[i1 as int].0 is PipeStar);
                    }
                }
                let (rhs_r, i2) = parse_expr(tokens, i1 + 1);
                proof {
                    assert(matches_spec_parse((rhs_r, i2), spec_parse_expr(entries, i1 as int + 1)));
                }
                let expr2 = match rhs_r {
                    Result::Ok(e) => e,
                    Result::Err(err) => {
                        proof {
                            assert(spec_parse_expr(entries, index as int)
                                == (Result::<ExprModel, ErrModel>::Err(parse_err_model(err)), i2 as int));
                        }
                        return (Result::Err(err), i2);
                    },
                };
                // fold a pipe chain on the right into one flat pipe node
                let is_pipe = match &expr2 {
                    ASTNode::Pipe(ev, kv) => true,
                    _ => false,
                };
                if is_pipe {
                    let (mut expr_vec, mut kind_vec) = match expr2 {
                        ASTNode::Pipe(ev, kv) => (ev, kv),
                        _ => vstd::pervasive::unreached(),
                    };
                    let ghost ev0 = exprs_model(expr_vec);
                    let ghost kv0 = kind_vec@;
                    proof {
                        assert(pipe_wf(ExprModel::Pipe(ev0, kv0)));
                        assert(ev0.len() == kv0.len() + 1);
                        assert(kv0.len() >= 1);
                        assert(tokens_of_expr(ExprModel::Pipe(ev0, kv0))
                            == ts.subrange(i1 as int + 1, i2 as int));
                    }
                    expr_vec.insert(0, expr1);
                    kind_vec.insert(0, kind);
                    let result = ASTNode::Pipe(expr_vec, kind_vec);
                    proof {
                        let ev1 = exprs_model(expr_vec);
                        assert(ev1.len() == ev0.len() + 1);
                        assert(ev1 =~= seq![expr_model(expr1)] + ev0);
                        assert(kind_vec@ =~= seq![kind] + kv0);
                        assert(ev1.first() == expr_model(expr1));
                        assert(ev1.drop_first() =~= ev0);
                        assert(kind_vec@.first() == kind);
                        assert(kind_vec@.drop_first() =~= kv0);
                        assert(ev0.len() > 0);
                        assert(result@ == ExprModel::Pipe(ev1, kind_vec@));
                        assert(tokens_of_expr(result@)
                            == tokens_of_expr(ev1.first())
                                + tokens_of_pipe_tail(ev1.drop_first(), kind_vec@));
                        assert(tokens_of_pipe_tail(ev0, kind_vec@)
                            == seq![pipe_token(kind)] + tokens_of_expr(ev0.first())
                                + tokens_of_pipe_tail(ev0.drop_first(), kv0));
                        assert(tokens_of_expr(ExprModel::Pipe(ev0, kv0))
                            == tokens_of_expr(ev0.first()) + tokens_of_pipe_tail(ev0.drop_first(), kv0));
                        assert(tokens_of_expr(expr_model(expr1))
                            == ts.subrange(index as int, i1 as int));
                        assert(tokens_of_expr(ExprModel::Pipe(ev0, kv0))
                            == ts.subrange(i1 as int + 1, i2 as int));
                        assert(tokens_of_expr(result@)
                            == tokens_of_expr(expr_model(expr1))
                                + (seq![pipe_token(kind)]
                                    + tokens_of_expr(ev0.first())
                                    + tokens_of_pipe_tail(ev0.drop_first(), kv0)));
                        assert(seq![pipe_token(kind)] + tokens_of_expr(ev0.first())
                                + tokens_of_pipe_tail(ev0.drop_first(), kv0)
                            =~= seq![pipe_token(kind)]
                                + (tokens_of_expr(ev0.first())
                                    + tokens_of_pipe_tail(ev0.drop_first(), kv0)));
                        assert(tokens_of_expr(result@)
                            =~= ts.subrange(index as int, i1 as int)
                                + (seq![pipe_token(kind)] + ts.subrange(i1 as int + 1, i2 as int)));
                        assert(ts.subrange(index as int, i2 as int)
                            =~= ts.subrange(index as int, i1 as int)
                                + (seq![pipe_token(kind)] + ts.subrange(i1 as int + 1, i2 as int)));
                        assert(tokens_of_expr(result@)
                            =~= ts.subrange(index as int, i2 as int));
                        assert(all_pipe_wf(ev1)) by {
                            assert(all_pipe_wf(ev0));
                            assert(ev1.first() == expr_model(expr1));
                            assert(ev1.drop_first() =~= ev0);
                        }
                        assert(pipe_wf(result@));
                        assert(ev1 == seq![e1] + ev0);
                        assert(kind_vec@ == seq![kind] + kv0);
                        assert(spec_pipe_fold(e1, kind, ExprModel::Pipe(ev0, kv0))
                            == ExprModel::Pipe(seq![e1] + ev0, seq![kind] + kv0));
                        assert(result@ == spec_pipe_fold(e1, kind, ExprModel::Pipe(ev0, kv0)));
                        assert(spec_parse_expr(entries, index as int)
                            == (Result::<ExprModel, ErrModel>::Ok(result@), i2 as int));
                    }
                    (Result::Ok(result), i2)
                } else {
                    let mut expr_vec: Vec<ASTNode> = Vec::new();
                    let ghost m1 = expr_model(expr1);
                    let ghost m2 = expr_model(expr2);
                    expr_vec.push(expr1);
                    expr_vec.push(expr2);
                    let mut kind_vec: Vec<PipeType> = Vec::new();
                    kind_vec.push(kind);
                    let result = ASTNode::Pipe(expr_vec, kind_vec);
                    proof {
                        let ev = exprs_model(expr_vec);
                        assert(ev =~= seq![m1, m2]);
                        assert(kind_vec@ =~= seq![kind]);
                        assert(ev.first() == m1);
                        assert(ev.drop_first() =~= seq![m2]);
                        assert(seq![m2].first() == m2);
                        assert(seq![m2].drop_first() =~= Seq::<ExprModel>::empty());
                        assert(seq![kind].first() == kind);
                        assert(seq![kind].drop_first() =~= Seq::<PipeType>::empty());
                        assert(result@ == ExprModel::Pipe(ev, kind_vec@));
                        assert(tokens_of_expr(result@)
                            == tokens_of_expr(m1) + tokens_of_pipe_tail(seq![m2], seq![kind]));
                        assert(tokens_of_pipe_tail(seq![m2], seq![kind])
                            == seq![pipe_token(kind)] + tokens_of_expr(m2)
                                + tokens_of_pipe_tail(Seq::<ExprModel>::empty(), Seq::<PipeType>::empty()));
                        assert(tokens_of_pipe_tail(Seq::<ExprModel>::empty(), Seq::<PipeType>::empty())
                            == Seq::<TokenModel>::empty());
                        assert(tokens_of_expr(m1) == ts.subrange(index as int, i1 as int));
                        assert(tokens_of_expr(m2) == ts.subrange(i1 as int + 1, i2 as int));
                        assert(ts.subrange(index as int, i2 as int)
                            =~= ts.subrange(index as int, i1 as int)
                                + (seq![pipe_token(kind)] + ts.subrange(i1 as int + 1, i2 as int)));
                        assert(tokens_of_expr(result@)
                            =~= ts.subrange(index as int, i2 as int));
                        assert(all_pipe_wf(ev)) by {
                            assert(all_pipe_wf(seq![m2].drop_first()));
                            assert(all_pipe_wf(seq![m2]));
                        }
                        assert(pipe_wf(result@));
                        assert(!(m2 is Pipe));
                        assert(spec_pipe_fold(e1, kind, m2)
                            == ExprModel::Pipe(seq![m1, m2], seq![kind]));
                        assert(result@ == spec_pipe_fold(e1, kind, m2));
                        assert(spec_parse_expr(entries, index as int)
                            == (Result::<ExprModel, ErrModel>::Ok(result@), i2 as int));
                    }
                    (Result::Ok(result), i2)
                }
            },
        }
    }
}

/// Parses one self-contained expression: a literal, an identifier, a tuple,
/// a block, or a keyword form.
fn parse_self_contained(tokens: &Vec<(Token, Span)>, index: usize) -> (r: (ParseResult, usize))
    requires
        index <= tokens@.len(),
    ensures
        parse_ok(tokens@, index as int, r),
        matches_spec_parse(r, spec_parse_self(tok_entries(tokens@), index as int)),
    decreases tokens@.len() - index, 1int,
{
    broadcast use lemma_tok_entries_len, lemma_tok_entries_index;

    let ghost ts = toks_of(tokens@);
    let ghost entries = tok_entries(tokens@);
    if index >= tokens.len() {
        return (Result::Err(eof_error(tokens, "self contained")), index);
    }
    proof {
        lemma_tok_entries_index(tokens@, index as int);
    }
    match &tokens[index].0 {
        Token::StringLiteral(v) => {
            let result = ASTNode::Literal(LiteralVariant::StringLiteral(v.clone()));
            proof {
                assert(tokens_of_expr(result@) =~= ts.subrange(index as int, index as int + 1));
                assert(entries[index as int].0 == TokenModel::StringLiteral(v@));
            }
            (Result::Ok(result), index + 1)
        },
        Token::IntegerLiteral(v) => {
            let result = ASTNode::Literal(LiteralVariant::IntegerLiteral(*v));
            proof {
                assert(tokens_of_expr(result@) =~= ts.subrange(index as int, index as int + 1));
                assert(entries[index as int].0 == TokenModel::IntegerLiteral(*v));
            }
            (Result::Ok(result), index + 1)
        },
        Token::BooleanLiteral(v) => {
            let result = ASTNode::Literal(LiteralVariant::BooleanLiteral(*v));
            proof {
                assert(tokens_of_expr(result@) =~= ts.subrange(index as int, index as int + 1));
                assert(entries[index as int].0 == TokenModel::BooleanLiteral(*v));
            }
            (Result::Ok(result), index + 1)
        },
        Token::FloatLiteral(v) => {
            let result = ASTNode::Literal(LiteralVariant::FloatLiteral(*v));
            proof {
                assert(tokens_of_expr(result@) =~= ts.subrange(index as int, index as int + 1));
                assert(entries[index as int].0 == TokenModel::FloatLiteral(*v));
            }
            (Result::Ok(result), index + 1)
        },
        Token::Identifier(v) => {
            let result = ASTNode::Identifier(v.clone());
            proof {
                assert(tokens_of_expr(result@) =~= ts.subrange(index as int, index as int + 1));
                assert(entries[index as int].0 == TokenModel::Identifier(v@));
            }
            (Result::Ok(result), index + 1)
        },
        Token::LeftParen => {
            proof {
                assert(entries[index as int].0 is LeftParen);
                assert(spec_parse_self(entries, index as int)
                    == spec_parse_tuple(entries, index as int));
            }
            parse_tuple(tokens, index)
        },
        Token::LeftBrace => {
            proof {
                assert(entries[index as int].0 is LeftBrace);
                assert(spec_parse_self(entries, index as int)
                    == spec_parse_block(entries, index as int));
            }
            parse_block(tokens, index)
        },
        Token::Type => {
            proof {
                assert(entries[index as int].0 is Type);
            }
            let (inner, i2) = parse_tuple(tokens, index + 1);
            proof {
                assert(matches_spec_parse((inner, i2), spec_parse_tuple(entries, index as int + 1)));
            }
            match inner {
                Result::Ok(t) => {
                    let ghost tm = expr_model(t);
                    let result = ASTNode::Type(Box::new(t));
                    proof {
                        assert(result@ == ExprModel::Type(Box::new(tm)));
                        assert(tokens_of_expr(result@)
                            =~= ts.subrange(index as int, i2 as int));
                        assert(matches_spec_parse((Result::Ok(result), i2),
                            spec_parse_self(entries, index as int)));
                    }
                    (Result::Ok(result), i2)
                },
                Result::Err(err) => (Result::Err(err), i2),
            }
        },
        Token::Paste => {
            proof {
                assert(entries[index as int].0 is Paste);
            }
            let (inner, i2) = parse_tuple(tokens, index + 1);
            proof {
                assert(matches_spec_parse((inner, i2), spec_parse_tuple(entries, index as int + 1)));
            }
            match inner {
                Result::Ok(t) => {
                    let ghost tm = expr_model(t);
                    let result = ASTNode::Paste(Box::new(t));
                    proof {
                        assert(result@ == ExprModel::Paste(Box::new(tm)));
                        assert(tokens_of_expr(result@)
                            =~= ts.subrange(index as int, i2 as int));
                        assert(matches_spec_parse((Result::Ok(result), i2),
                            spec_parse_self(entries, index as int)));
                    }
                    (Result::Ok(result), i2)
                },
                Result::Err(err) => (Result::Err(err), i2),
            }
        },
        _ => {
            proof {
                assert(!(entries[index as int].0 is StringLiteral)
                    && !(entries[index as int].0 is IntegerLiteral)
                    && !(entries[index as int].0 is BooleanLiteral)
                    && !(entries[index as int].0 is FloatLiteral)
                    && !(entries[index as int].0 is Identifier)
                    && !(entries[index as int].0 is LeftParen)
                    && !(entries[index as int].0 is LeftBrace)
                    && !(entries[index as int].0 is Type)
                    && !(entries[index as int].0 is Paste));
            }
            let sp = tokens[index].1.start..tokens[index].1.end;
            let failed = ("expression".to_owned(), "undefined error".to_owned(), sp);
            proof {
                assert(parse_err_model(failed) == spec_tok_err(entries, "expression"@, index as int));
            }
            (Result::Err(failed), index)
        },
    }
}

/// Parses a parenthesised tuple whose opening token is at `index`.
fn parse_tuple(tokens: &Vec<(Token, Span)>, index: usize) -> (r: (ParseResult, usize))
    requires
        index <= tokens@.len(),
    ensures
        parse_ok(tokens@, index as int, r),
        r.0 is Ok ==> toks_of(tokens@)[index as int] == TokenModel::LeftParen,
        matches_spec_parse(r, spec_parse_tuple(tok_entries(tokens@), index as int)),
    decreases tokens@.len() - index, 0int,
{
    broadcast use lemma_exprs_model_prefix_len, lemma_exprs_model_prefix_index,
        lemma_tok_entries_len, lemma_tok_entries_index;

    let ghost ts = toks_of(tokens@);
    let ghost entries = tok_entries(tokens@);
    if index >= tokens.len() {
        return (Result::Err(eof_error(tokens, "tuple")), index);
    }
    proof {
        lemma_tok_entries_index(tokens@, index as int);
    }
    let is_open = match &tokens[index].0 {
        Token::LeftParen => true,
        _ => false,
    };
    if !is_open {
        proof {
            assert(!(entries[index as int].0 is LeftParen));
        }
        let sp = tokens[index].1.start..tokens[index].1.end;
        return (Result::Err(("tuple".to_owned(), "undefined error".to_owned(), sp)), index);
    }
    let mut ret_vec: Vec<ASTNode> = Vec::new();
    proof {
        let x = spec_parse_items(entries, index as int + 1, true);
        match x.0 {
            Result::Ok(rest) => {
                assert(Seq::<ExprModel>::empty() + rest =~= rest);
            },
            _ => {},
        }
        assert(exprs_model(ret_vec) =~= Seq::<ExprModel>::empty());
        assert(prepend_parsed(exprs_model(ret_vec), x) == x);
    }
    let mut i = index + 1;
    loop
        invariant
            index < i && i <= tokens@.len(),
            ts == toks_of(tokens@),
            entries == tok_entries(tokens@),
            entries.len() == tokens@.len(),
            ts[index as int] == TokenModel::LeftParen,
            entries[index as int].0 is LeftParen,
            tokens_of_exprs(exprs_model(ret_vec)) =~= ts.subrange(index as int + 1, i as int),
            all_pipe_wf(exprs_model(ret_vec)),
            spec_parse_items(entries, index as int + 1, true)
                == prepend_parsed(exprs_model(ret_vec), spec_parse_items(entries, i as int, true)),
        decreases tokens@.len() - i,
    {
        broadcast use lemma_exprs_model_prefix_len, lemma_exprs_model_prefix_index,
            lemma_tok_entries_len, lemma_tok_entries_index;

        if i >= tokens.len() {
            proof {
                assert(spec_parse_items(entries, i as int, true)
                    == (Result::<Seq<ExprModel>, ErrModel>::Err(spec_eof_err(entries, "tuple"@)), i as int));
            }
            return (Result::Err(eof_error(tokens, "tuple")), i);
        }
        proof {
            lemma_tok_entries_index(tokens@, i as int);
        }
        let is_close = match &tokens[i].0 {
            Token::RightParen => true,
            _ => false,
        };
        if is_close {
            let ghost acc = exprs_model(ret_vec);
            let result = ASTNode::Tuple(ret_vec);
            proof {
                assert(ts[i as int] == TokenModel::RightParen);
                assert(tokens_of_expr(result@)
                    =~= ts.subrange(index as int, i as int + 1));
                assert(entries[i as int].0 is RightParen);
                assert(spec_parse_items(entries, i as int, true)
                    == (Result::<Seq<ExprModel>, ErrModel>::Ok(Seq::empty()), i as int + 1));
                assert(acc + Seq::<ExprModel>::empty() =~= acc);
                assert(spec_parse_items(entries, index as int + 1, true)
                    == (Result::<Seq<ExprModel>, ErrModel>::Ok(acc), i as int + 1));
                assert(result@ == ExprModel::Tuple(acc));
            }
            return (Result::Ok(result), i + 1);
        }
        proof {
            assert(!(entries[i as int].0 is RightParen));
        }
        let (item, i2) = parse_expr(tokens, i);
        proof {
            assert(matches_spec_parse((item, i2), spec_parse_expr(entries, i as int)));
        }
        match item {
            Result::Ok(ast) => {
                let ghost before = exprs_model(ret_vec);
                let ghost m = expr_model(ast);
                ret_vec.push(ast);
                proof {
                    assert(exprs_model(ret_vec) =~= before.push(m));
                    lemma_tokens_of_exprs_snoc(before, m);
                    lemma_all_pipe_wf_push(before, m);
                    assert(tokens_of_exprs(exprs_model(ret_vec))
                        =~= ts.subrange(index as int + 1, i2 as int));
                    assert(next_pos(i as int, i2 as int, entries.len() as int) == i2 as int);
                    let after = spec_parse_items(entries, i2 as int, true);
                    assert(spec_parse_items(entries, i as int, true)
                        == prepend_parsed(seq![m], after));
                    match after.0 {
                        Result::Ok(rest) => {
                            assert(before + (seq![m] + rest) =~= before.push(m) + rest);
                        },
                        _ => {},
                    }
                    assert(prepend_parsed(before, prepend_parsed(seq![m], after))
                        == prepend_parsed(before.push(m), after));
                }
                i = i2;
            },
            Result::Err(err) => {
                proof {
                    assert(spec_parse_items(entries, i as int, true)
                        == (Result::<Seq<ExprModel>, ErrModel>::Err(parse_err_model(err)), i2 as int));
                }
                return (Result::Err(err), i2);
            },
        }
    }
}

/// Parses a braced block whose opening token is at `index`.
fn parse_block(tokens: &Vec<(Token, Span)>, index: usize) -> (r: (ParseResult, usize))
    requires
        index <= tokens@.len(),
    ensures
        parse_ok(tokens@, index as int, r),
        matches_spec_parse(r, spec_parse_block(tok_entries(tokens@), index as int)),
    decreases tokens@.len() - index, 0int,
{
    broadcast use lemma_exprs_model_prefix_len, lemma_exprs_model_prefix_index,
        lemma_tok_entries_len, lemma_tok_entries_index;

    let ghost ts = toks_of(tokens@);
    let ghost entries = tok_entries(tokens@);
    if index >= tokens.len() {
        return (Result::Err(eof_error(tokens, "block")), index);
    }
    proof {
        lemma_tok_entries_index(tokens@, index as int);
    }
    let is_open = match &tokens[index].0 {
        Token::LeftBrace => true,
        _ => false,
    };
    if !is_open {
        proof {
            assert(!(entries[index as int].0 is LeftBrace));
        }
        let sp = tokens[index].1.start..tokens[index].1.end;
        return (Result::Err(("block".to_owned(), "undefined error".to_owned(), sp)), index);
    }
    let mut ret_vec: Vec<ASTNode> = Vec::new();
    proof {
        let x = spec_parse_items(entries, index as int + 1, false);
        match x.0 {
            Result::Ok(rest) => {
                assert(Seq::<ExprModel>::empty() + rest =~= rest);
            },
            _ => {},
        }
        assert(exprs_model(ret_vec) =~= Seq::<ExprModel>::empty());
        assert(prepend_parsed(exprs_model(ret_vec), x) == x);
    }
    let mut i = index + 1;
    loop
        invariant
            index < i && i <= tokens@.len(),
            ts == toks_of(tokens@),
            entries == tok_entries(tokens@),
            entries.len() == tokens@.len(),
            ts[index as int] == TokenModel::LeftBrace,
            entries[index as int].0 is LeftBrace,
            tokens_of_exprs(exprs_model(ret_vec)) =~= ts.subrange(index as int + 1, i as int),
            all_pipe_wf(exprs_model(ret_vec)),
            spec_parse_items(entries, index as int + 1, false)
                == prepend_parsed(exprs_model(ret_vec), spec_parse_items(entries, i as int, false)),
        decreases tokens@.len() - i,
    {
        broadcast use lemma_exprs_model_prefix_len, lemma_exprs_model_prefix_index,
            lemma_tok_entries_len, lemma_tok_entries_index;

        if i >= tokens.len() {
            proof {
                assert(spec_parse_items(entries, i as int, false)
                    == (Result::<Seq<ExprModel>, ErrModel>::Err(spec_eof_err(entries, "block"@)), i as int));
            }
            return (Result::Err(eof_error(tokens, "block")), i);
        }
        proof {
            lemma_tok_entries_index(tokens@, i as int);
        }
        let is_close = match &tokens[i].0 {
            Token::RightBrace => true,
            _ => false,
        };
        if is_close {
            let ghost acc = exprs_model(ret_vec);
            let result = ASTNode::Block(ret_vec);
            proof {
                assert(ts[i as int] == TokenModel::RightBrace);
                assert(tokens_of_expr(result@)
                    =~= ts.subrange(index as int, i as int + 1));
                assert(entries[i as int].0 is RightBrace);
                assert(spec_parse_items(entries, i as int, false)
                    == (Result::<Seq<ExprModel>, ErrModel>::Ok(Seq::empty()), i as int + 1));
                assert(acc + Seq::<ExprModel>::empty() =~= acc);
                assert(spec_parse_items(entries, index as int + 1, false)
                    == (Result::<Seq<ExprModel>, ErrModel>::Ok(acc), i as int + 1));
                assert(result@ == ExprModel::Block(acc));
            }
            return (Result::Ok(result), i + 1);
        }
        proof {
            assert(!(entries[i as int].0 is RightBrace));
        }
        let (item, i2) = parse_expr(tokens, i);
        proof {
            assert(matches_spec_parse((item, i2), spec_parse_expr(entries, i as int)));
        }
        match item {
            Result::Ok(ast) => {
                let ghost before = exprs_model(ret_vec);
                let ghost m = expr_model(ast);
                ret_vec.push(ast);
                proof {
                    assert(exprs_model(ret_vec) =~= before.push(m));
                    lemma_tokens_of_exprs_snoc(before, m);
                    lemma_all_pipe_wf_push(before, m);
                    assert(tokens_of_exprs(exprs_model(ret_vec))
                        =~= ts.subrange(index as int + 1, i2 as int));
                    assert(next_pos(i as int, i2 as int, entries.len() as int) == i2 as int);
                    let after = spec_parse_items(entries, i2 as int, false);
                    assert(spec_parse_items(entries, i as int, false)
                        == prepend_parsed(seq![m], after));
                    match after.0 {
                        Result::Ok(rest) => {
                            assert(before + (seq![m] + rest) =~= before.push(m) + rest);
                        },
                        _ => {},
                    }
                    assert(prepend_parsed(before, prepend_parsed(seq![m], after))
                        == prepend_parsed(before.push(m), after));
                }
                i = i2;
            },
            Result::Err(err) => {
                proof {
                    assert(spec_parse_items(entries, i as int, false)
                        == (Result::<Seq<ExprModel>, ErrModel>::Err(parse_err_model(err)), i2 as int));
                }
                return (Result::Err(err), i2);
            },
        }
    }
}

impl Parser {
    pub fn new(tokens: Vec<(Token, Span)>) -> (r: Parser)
        ensures
            r.tokens == tokens,
            r.index == 0,
    {
        Parser { tokens, index: 0 }
    }

    /// Parses one expression from the current position. The result, the
    /// consumed prefix, and any error triple are exactly what the parse
    /// function prescribes; on success the result also renders back to
    /// exactly the consumed tokens, and every pipe node in it joins `n + 1`
    /// sections with `n` operators.
    pub fn parse(&mut self) -> (r: ParseResult)
        requires
            old(self).index <= old(self).tokens@.len(),
        ensures
            final(self).tokens@ == old(self).tokens@,
            final(self).index <= final(self).tokens@.len(),
            matches_spec_parse((r, final(self).index),
                spec_parse_expr(tok_entries(old(self).tokens@), old(self).index as int)),
            match r {
                Result::Ok(ast) => {
                    &&& old(self).index < final(self).index
                    &&& tokens_of_expr(ast@) == toks_of(old(self).tokens@)
                        .subrange(old(self).index as int, final(self).index as int)
                    &&& pipe_wf(ast@)
                },
                Result::Err(e) => true,
            },
    {
        let (r, i2) = parse_expr(&self.tokens, self.index);
        self.index = i2;
        r
    }
}

} // verus!
