use vstd::prelude::*;

verus! {

/// The operator joining two pipe sections: `|` hands the current value on
/// whole, `|*` requires a tuple and spreads its elements as arguments.
#[derive(Debug, PartialEq, Eq, Structural, Clone, Copy)]
pub enum PipeType {
    Standard,
    Destructure,
}

/// A literal as it appears in the source. A float literal carries the bits of
/// its IEEE-754 double value.
#[derive(Debug, PartialEq)]
pub enum LiteralVariant {
    StringLiteral(String),
    IntegerLiteral(i64),
    BooleanLiteral(bool),
    FloatLiteral(u64),
}

/// One node of the abstract syntax tree.
#[derive(Debug, PartialEq)]
pub enum ASTNode {
    Block(Vec<ASTNode>),
    Tuple(Vec<ASTNode>),
    Pipe(Vec<ASTNode>, Vec<PipeType>),
    Paste(Box<ASTNode>),
    Type(Box<ASTNode>),
    Binding(String, Box<ASTNode>),
    Identifier(String),
    Literal(LiteralVariant),
}

/// Mathematical model of a literal.
#[verifier::ext_equal]
pub enum LitModel {
    Str(Seq<char>),
    Int(i64),
    Bool(bool),
    Float(u64),
}

/// Mathematical model of an expression; strings become character sequences
/// and vectors become sequences.
#[verifier::ext_equal]
pub enum ExprModel {
    Block(Seq<ExprModel>),
    Tuple(Seq<ExprModel>),
    Pipe(Seq<ExprModel>, Seq<PipeType>),
    Paste(Box<ExprModel>),
    Type(Box<ExprModel>),
    Binding(Seq<char>, Box<ExprModel>),
    Identifier(Seq<char>),
    Literal(LitModel),
}

pub open spec fn lit_model(l: LiteralVariant) -> LitModel {
    match l {
        LiteralVariant::StringLiteral(s) => LitModel::Str(s@),
        LiteralVariant::IntegerLiteral(i) => LitModel::Int(i),
        LiteralVariant::BooleanLiteral(b) => LitModel::Bool(b),
        LiteralVariant::FloatLiteral(f) => LitModel::Float(f),
    }
}

pub open spec fn expr_model(e: ASTNode) -> ExprModel
    decreases e, 0int,
{
    match e {
        ASTNode::Block(children) => ExprModel::Block(exprs_model_prefix(children, children.len() as int)),
        ASTNode::Tuple(children) => ExprModel::Tuple(exprs_model_prefix(children, children.len() as int)),
        ASTNode::Pipe(sections, kinds) => ExprModel::Pipe(
            exprs_model_prefix(sections, sections.len() as int),
            kinds@,
        ),
        ASTNode::Paste(inner) => ExprModel::Paste(Box::new(expr_model(*inner))),
        ASTNode::Type(inner) => ExprModel::Type(Box::new(expr_model(*inner))),
        ASTNode::Binding(name, value) => ExprModel::Binding(name@, Box::new(expr_model(*value))),
        ASTNode::Identifier(name) => ExprModel::Identifier(name@),
        ASTNode::Literal(l) => ExprModel::Literal(lit_model(l)),
    }
}

/// Models of the first `n` elements of `children`, in order.
pub open spec fn exprs_model_prefix(children: Vec<ASTNode>, n: int) -> Seq<ExprModel>
    decreases children, n,
{
    if n <= 0 || n > children.len() {
        Seq::empty()
    } else {
        exprs_model_prefix(children, n - 1).push(expr_model(children[n - 1]))
    }
}

pub open spec fn exprs_model(children: Vec<ASTNode>) -> Seq<ExprModel> {
    exprs_model_prefix(children, children.len() as int)
}

impl View for ASTNode {
    type V = ExprModel;

    open spec fn view(&self) -> ExprModel {
        expr_model(*self)
    }
}

impl View for LiteralVariant {
    type V = LitModel;

    open spec fn view(&self) -> LitModel {
        lit_model(*self)
    }
}

pub broadcast proof fn lemma_exprs_model_prefix_len(children: Vec<ASTNode>, n: int)
    requires
        0 <= n <= children.len(),
    ensures
        (#[trigger] exprs_model_prefix(children, n)).len() == n,
    decreases n,
{
    if n > 0 {
        lemma_exprs_model_prefix_len(children, n - 1);
    }
}

pub broadcast proof fn lemma_exprs_model_prefix_index(children: Vec<ASTNode>, n: int, i: int)
    requires
        0 <= i < n <= children.len(),
    ensures
        #[trigger] exprs_model_prefix(children, n)[i] == expr_model(children[i]),
    decreases n,
{
    lemma_exprs_model_prefix_len(children, n);
    if i < n - 1 {
        lemma_exprs_model_prefix_index(children, n - 1, i);
    }
}

impl ASTNode {
    /// A structural copy of the node; the copy has the same model.
    pub fn deep_clone(&self) -> (r: ASTNode)
        ensures
            r@ == self@,
        decreases *self,
    {
        broadcast use lemma_exprs_model_prefix_len, lemma_exprs_model_prefix_index;

        match self {
            ASTNode::Block(children) => ASTNode::Block(Self::deep_clone_vec(children)),
            ASTNode::Tuple(children) => ASTNode::Tuple(Self::deep_clone_vec(children)),
            ASTNode::Pipe(sections, kinds) => {
                let mut kinds_copy: Vec<PipeType> = Vec::new();
                let mut i: usize = 0;
                while i < kinds.len()
                    invariant
                        i <= kinds.len(),
                        kinds_copy@ =~= kinds@.subrange(0, i as int),
                    decreases kinds.len() - i,
                {
                    kinds_copy.push(kinds[i]);
                    i = i + 1;
                }
                assert(kinds_copy@ =~= kinds@);
                ASTNode::Pipe(Self::deep_clone_vec(sections), kinds_copy)
            },
            ASTNode::Paste(inner) => ASTNode::Paste(Box::new(inner.deep_clone())),
            ASTNode::Type(inner) => ASTNode::Type(Box::new(inner.deep_clone())),
            ASTNode::Binding(name, value) => ASTNode::Binding(name.clone(), Box::new(value.deep_clone())),
            ASTNode::Identifier(name) => ASTNode::Identifier(name.clone()),
            ASTNode::Literal(l) => ASTNode::Literal(l.deep_clone()),
        }
    }

    /// Copies of all elements, with the same models.
    fn deep_clone_vec(children: &Vec<ASTNode>) -> (r: Vec<ASTNode>)
        ensures
            exprs_model(r) == exprs_model(*children),
            r@.len() == children@.len(),
        decreases *children,
    {
        broadcast use lemma_exprs_model_prefix_len, lemma_exprs_model_prefix_index;

        let mut r: Vec<ASTNode> = Vec::new();
        let mut i: usize = 0;
        while i < children.len()
            invariant
                i <= children.len(),
                r@.len() == i,
                forall|j: int| 0 <= j < i ==> expr_model(#[trigger] r@[j]) == expr_model(children@[j]),
            decreases children.len() - i,
        {
            r.push(children[i].deep_clone());
            i = i + 1;
        }
        proof {
            lemma_exprs_models_equal(r, *children);
        }
        r
    }
}

/// Two vectors whose elements have pointwise equal models have equal models.
pub proof fn lemma_exprs_models_equal(a: Vec<ASTNode>, b: Vec<ASTNode>)
    requires
        a@.len() == b@.len(),
        forall|j: int| 0 <= j < a@.len() ==> expr_model(#[trigger] a@[j]) == expr_model(b@[j]),
    ensures
        exprs_model(a) == exprs_model(b),
{
    broadcast use lemma_exprs_model_prefix_len, lemma_exprs_model_prefix_index;

    assert(exprs_model(a) =~= exprs_model(b));
}

impl LiteralVariant {
    pub fn deep_clone(&self) -> (r: LiteralVariant)
        ensures
            r@ == self@,
    {
        match self {
            LiteralVariant::StringLiteral(s) => LiteralVariant::StringLiteral(s.clone()),
            LiteralVariant::IntegerLiteral(i) => LiteralVariant::IntegerLiteral(*i),
            LiteralVariant::BooleanLiteral(b) => LiteralVariant::BooleanLiteral(*b),
            LiteralVariant::FloatLiteral(f) => LiteralVariant::FloatLiteral(*f),
        }
    }
}

/// Every pipe node of the tree joins `n + 1` sections with `n` operators,
/// and has at least one operator.
pub open spec fn pipe_wf(e: ExprModel) -> bool
    decreases e, 0int,
{
    match e {
        ExprModel::Block(children) => all_pipe_wf(children),
        ExprModel::Tuple(children) => all_pipe_wf(children),
        ExprModel::Pipe(sections, kinds) => {
            &&& sections.len() == kinds.len() + 1
            &&& kinds.len() >= 1
            &&& all_pipe_wf(sections)
        },
        ExprModel::Paste(inner) => pipe_wf(*inner),
        ExprModel::Type(inner) => pipe_wf(*inner),
        ExprModel::Binding(_, value) => pipe_wf(*value),
        ExprModel::Identifier(_) => true,
        ExprModel::Literal(_) => true,
    }
}

pub open spec fn all_pipe_wf(children: Seq<ExprModel>) -> bool
    decreases children, 0int,
{
    if children.len() == 0 {
        true
    } else {
        pipe_wf(children.first()) && all_pipe_wf(children.drop_first())
    }
}

pub broadcast proof fn lemma_all_pipe_wf_index(children: Seq<ExprModel>, i: int)
    requires
        all_pipe_wf(children),
        0 <= i < children.len(),
    ensures
        pipe_wf(#[trigger] children[i]),
    decreases children.len(),
{
    if i > 0 {
        lemma_all_pipe_wf_index(children.drop_first(), i - 1);
    }
}

pub broadcast proof fn lemma_all_pipe_wf_push(children: Seq<ExprModel>, e: ExprModel)
    requires
        all_pipe_wf(children),
        pipe_wf(e),
    ensures
        all_pipe_wf(#[trigger] children.push(e)),
    decreases children.len(),
{
    if children.len() == 0 {
        assert(children.push(e).first() == e);
        assert(children.push(e).drop_first() =~= Seq::<ExprModel>::empty());
        assert(all_pipe_wf(Seq::<ExprModel>::empty()));
        assert(all_pipe_wf(children.push(e)));
    } else {
        assert(children.push(e).first() == children.first());
        assert(children.push(e).drop_first() =~= children.drop_first().push(e));
        lemma_all_pipe_wf_push(children.drop_first(), e);
    }
}

} // verus!
