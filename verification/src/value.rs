use vstd::prelude::*;
use crate::ast::{ASTNode, ExprModel, exprs_model};

verus! {

/// A runtime value. A float carries the bits of its IEEE-754 double value;
/// a closure pairs its body with the snapshot of the environment taken when
/// the block was evaluated.
#[derive(Debug, PartialEq)]
pub enum Value {
    Integer(i64),
    Boolean(bool),
    String(String),
    Float(u64),
    Tuple(Vec<Value>),
    Closure(Vec<ASTNode>, Vec<(String, Value)>),
    RuntimeInvocation,
}

/// Mathematical model of a value; a captured environment image is a map from
/// name to value.
#[verifier::ext_equal]
pub enum ValModel {
    Int(i64),
    Bool(bool),
    Str(Seq<char>),
    Float(u64),
    Tup(Seq<ValModel>),
    Closure(Seq<ExprModel>, Map<Seq<char>, ValModel>),
    Runtime,
}

pub open spec fn val_model(v: Value) -> ValModel
    decreases v, 0int,
{
    match v {
        Value::Integer(i) => ValModel::Int(i),
        Value::Boolean(b) => ValModel::Bool(b),
        Value::String(s) => ValModel::Str(s@),
        Value::Float(f) => ValModel::Float(f),
        Value::Tuple(vs) => ValModel::Tup(vals_model_prefix(vs, vs.len() as int)),
        Value::Closure(body, captured) => ValModel::Closure(
            exprs_model(body),
            image_model_prefix(captured, captured.len() as int),
        ),
        Value::RuntimeInvocation => ValModel::Runtime,
    }
}

/// Models of the first `n` elements of `vs`, in order.
pub open spec fn vals_model_prefix(vs: Vec<Value>, n: int) -> Seq<ValModel>
    decreases vs, n,
{
    if n <= 0 || n > vs.len() {
        Seq::empty()
    } else {
        vals_model_prefix(vs, n - 1).push(val_model(vs[n - 1]))
    }
}

pub open spec fn vals_model(vs: Vec<Value>) -> Seq<ValModel> {
    vals_model_prefix(vs, vs.len() as int)
}

/// The map held by the first `n` entries of an association vector; a later
/// entry with the same name wins.
pub open spec fn image_model_prefix(entries: Vec<(String, Value)>, n: int) -> Map<Seq<char>, ValModel>
    decreases entries, n,
{
    if n <= 0 || n > entries.len() {
        Map::empty()
    } else {
        image_model_prefix(entries, n - 1).insert(entries[n - 1].0@, val_model(entries[n - 1].1))
    }
}

pub open spec fn image_model(entries: Vec<(String, Value)>) -> Map<Seq<char>, ValModel> {
    image_model_prefix(entries, entries.len() as int)
}


/// The map held by an association sequence; a later entry with the same name
/// wins.
pub open spec fn image_model_seq(entries: Seq<(String, Value)>) -> Map<Seq<char>, ValModel>
    decreases entries.len(),
{
    if entries.len() == 0 {
        Map::empty()
    } else {
        image_model_seq(entries.drop_last()).insert(entries.last().0@, val_model(entries.last().1))
    }
}

pub proof fn lemma_image_model_seq_agrees(entries: Vec<(String, Value)>, n: int)
    requires
        0 <= n <= entries@.len(),
    ensures
        image_model_prefix(entries, n) == image_model_seq(entries@.take(n)),
    decreases n,
{
    if n == 0 {
        assert(entries@.take(0) =~= Seq::<(String, Value)>::empty());
    } else {
        lemma_image_model_seq_agrees(entries, n - 1);
        assert(entries@.take(n).drop_last() =~= entries@.take(n - 1));
        assert(entries@.take(n).last() == entries@[n - 1]);
    }
}

pub proof fn lemma_image_model_is_seq(entries: Vec<(String, Value)>)
    ensures
        image_model(entries) == image_model_seq(entries@),
{
    lemma_image_model_seq_agrees(entries, entries@.len() as int);
    assert(entries@.take(entries@.len() as int) =~= entries@);
}

/// A name is in the image exactly when some entry holds it.
pub proof fn lemma_image_model_dom(entries: Seq<(String, Value)>, n: Seq<char>)
    ensures
        image_model_seq(entries).dom().contains(n)
            <==> exists|i: int| 0 <= i < entries.len() && (#[trigger] entries[i]).0@ == n,
    decreases entries.len(),
{
    if entries.len() > 0 {
        lemma_image_model_dom(entries.drop_last(), n);
        if image_model_seq(entries).dom().contains(n) {
            if entries.last().0@ != n {
                let i = choose|i: int|
                    0 <= i < entries.drop_last().len() && (#[trigger] entries.drop_last()[i]).0@ == n;
                assert(entries[i].0@ == n);
            }
        }
        if exists|i: int| 0 <= i < entries.len() && (#[trigger] entries[i]).0@ == n {
            let i = choose|i: int| 0 <= i < entries.len() && (#[trigger] entries[i]).0@ == n;
            if i < entries.len() - 1 {
                assert(entries.drop_last()[i].0@ == n);
            }
        }
    }
}

/// With distinct names, the image sends each entry's name to that entry's
/// value.
pub proof fn lemma_image_model_at(entries: Seq<(String, Value)>, i: int)
    requires
        0 <= i < entries.len(),
        forall|a: int, b: int| 0 <= a < b < entries.len()
            ==> (#[trigger] entries[a]).0@ != (#[trigger] entries[b]).0@,
    ensures
        image_model_seq(entries).dom().contains(entries[i].0@),
        image_model_seq(entries)[entries[i].0@] == val_model(entries[i].1),
    decreases entries.len(),
{
    if i == entries.len() - 1 {
    } else {
        lemma_image_model_at(entries.drop_last(), i);
        assert(entries.drop_last()[i] == entries[i]);
    }
}

impl View for Value {
    type V = ValModel;

    open spec fn view(&self) -> ValModel {
        val_model(*self)
    }
}

pub broadcast proof fn lemma_vals_model_prefix_len(vs: Vec<Value>, n: int)
    requires
        0 <= n <= vs.len(),
    ensures
        (#[trigger] vals_model_prefix(vs, n)).len() == n,
    decreases n,
{
    if n > 0 {
        lemma_vals_model_prefix_len(vs, n - 1);
    }
}

pub broadcast proof fn lemma_vals_model_prefix_index(vs: Vec<Value>, n: int, i: int)
    requires
        0 <= i < n <= vs.len(),
    ensures
        #[trigger] vals_model_prefix(vs, n)[i] == val_model(vs[i]),
    decreases n,
{
    lemma_vals_model_prefix_len(vs, n);
    if i < n - 1 {
        lemma_vals_model_prefix_index(vs, n - 1, i);
    }
}

/// Two vectors whose elements have pointwise equal models have equal models.
pub proof fn lemma_vals_models_equal(a: Vec<Value>, b: Vec<Value>)
    requires
        a@.len() == b@.len(),
        forall|j: int| 0 <= j < a@.len() ==> val_model(#[trigger] a@[j]) == val_model(b@[j]),
    ensures
        vals_model(a) == vals_model(b),
{
    broadcast use lemma_vals_model_prefix_len, lemma_vals_model_prefix_index;

    assert(vals_model(a) =~= vals_model(b));
}

/// Two association vectors whose entries have pointwise equal names and
/// models hold equal maps.
pub proof fn lemma_image_models_equal(a: Vec<(String, Value)>, b: Vec<(String, Value)>)
    requires
        a@.len() == b@.len(),
        forall|j: int| 0 <= j < a@.len() ==> (#[trigger] a@[j]).0@ == b@[j].0@,
        forall|j: int| 0 <= j < a@.len() ==> val_model((#[trigger] a@[j]).1) == val_model(b@[j].1),
    ensures
        image_model(a) == image_model(b),
{
    lemma_image_model_prefix_equal(a, b, a@.len() as int);
}

proof fn lemma_image_model_prefix_equal(a: Vec<(String, Value)>, b: Vec<(String, Value)>, n: int)
    requires
        a@.len() == b@.len(),
        n <= a@.len(),
        forall|j: int| 0 <= j < a@.len() ==> (#[trigger] a@[j]).0@ == b@[j].0@,
        forall|j: int| 0 <= j < a@.len() ==> val_model((#[trigger] a@[j]).1) == val_model(b@[j].1),
    ensures
        image_model_prefix(a, n) == image_model_prefix(b, n),
    decreases n,
{
    if n > 0 {
        lemma_image_model_prefix_equal(a, b, n - 1);
    }
}

impl Value {
    /// A structural copy of the value; the copy has the same model.
    pub fn deep_clone(&self) -> (r: Value)
        ensures
            r@ == self@,
        decreases *self,
    {
        match self {
            Value::Integer(i) => Value::Integer(*i),
            Value::Boolean(b) => Value::Boolean(*b),
            Value::String(s) => Value::String(s.clone()),
            Value::Float(f) => Value::Float(*f),
            Value::Tuple(vs) => Value::Tuple(Self::deep_clone_vec(vs)),
            Value::Closure(body, captured) => {
                let mut body_copy: Vec<ASTNode> = Vec::new();
                let mut i: usize = 0;
                while i < body.len()
                    invariant
                        i <= body.len(),
                        body_copy@.len() == i,
                        forall|j: int| 0 <= j < i ==>
                            crate::ast::expr_model(#[trigger] body_copy@[j]) == crate::ast::expr_model(body@[j]),
                    decreases body.len() - i,
                {
                    body_copy.push(body[i].deep_clone());
                    i = i + 1;
                }
                let captured_copy = Self::deep_clone_image(captured);
                proof {
                    crate::ast::lemma_exprs_models_equal(body_copy, *body);
                }
                Value::Closure(body_copy, captured_copy)
            },
            Value::RuntimeInvocation => Value::RuntimeInvocation,
        }
    }

    /// Copies of all elements, with the same models.
    fn deep_clone_vec(vs: &Vec<Value>) -> (r: Vec<Value>)
        ensures
            vals_model(r) == vals_model(*vs),
            r@.len() == vs@.len(),
        decreases *vs,
    {
        let mut r: Vec<Value> = Vec::new();
        let mut i: usize = 0;
        while i < vs.len()
            invariant
                i <= vs.len(),
                r@.len() == i,
                forall|j: int| 0 <= j < i ==> val_model(#[trigger] r@[j]) == val_model(vs@[j]),
            decreases vs.len() - i,
        {
            r.push(vs[i].deep_clone());
            i = i + 1;
        }
        proof {
            lemma_vals_models_equal(r, *vs);
        }
        r
    }

    /// Copies of all entries, with the same names and models.
    fn deep_clone_image(entries: &Vec<(String, Value)>) -> (r: Vec<(String, Value)>)
        ensures
            image_model(r) == image_model(*entries),
            r@.len() == entries@.len(),
            forall|j: int| 0 <= j < entries@.len() ==> (#[trigger] r@[j]).0@ == entries@[j].0@,
            forall|j: int| 0 <= j < entries@.len() ==> val_model((#[trigger] r@[j]).1) == val_model(entries@[j].1),
        decreases *entries,
    {
        let mut r: Vec<(String, Value)> = Vec::new();
        let mut k: usize = 0;
        while k < entries.len()
            invariant
                k <= entries.len(),
                r@.len() == k,
                forall|j: int| 0 <= j < k ==> (#[trigger] r@[j]).0@ == entries@[j].0@,
                forall|j: int| 0 <= j < k ==>
                    val_model((#[trigger] r@[j]).1) == val_model(entries@[j].1),
            decreases entries.len() - k,
        {
            let name = entries[k].0.clone();
            let val = entries[k].1.deep_clone();
            r.push((name, val));
            k = k + 1;
        }
        proof {
            lemma_image_models_equal(r, *entries);
        }
        r
    }
}


// ---------------------------------------------------------------------------
// The display form of a value.

/// The display form: primitives print as themselves, a tuple as its elements
/// space-separated inside parentheses, a closure and the runtime sentinel as
/// fixed tags.
pub open spec fn display_of(v: ValModel) -> Seq<char>
    decreases v, 0int,
{
    match v {
        ValModel::Int(i) => crate::strings::dec_int_chars(i as int),
        ValModel::Bool(b) => if b { "true"@ } else { "false"@ },
        ValModel::Str(s) => s,
        ValModel::Float(f) => crate::float_bits::f64_text(f),
        ValModel::Tup(vs) => seq!['('] + display_list(vs) + seq![')'],
        ValModel::Closure(body, image) => "<closure>"@,
        ValModel::Runtime => "<runtime invocation>"@,
    }
}

pub open spec fn display_list(vs: Seq<ValModel>) -> Seq<char>
    decreases vs, 1int,
{
    if vs.len() == 0 {
        Seq::empty()
    } else if vs.len() == 1 {
        display_of(vs.first())
    } else {
        display_of(vs.first()) + seq![' '] + display_list(vs.drop_first())
    }
}

/// Renders the display form of the value.
pub fn display_string(v: &Value) -> (r: String)
    ensures
        r@ == display_of(v@),
    decreases *v,
{
    broadcast use lemma_vals_model_prefix_len, lemma_vals_model_prefix_index;

    match v {
        Value::Integer(i) => crate::strings::i64_to_string(*i),
        Value::Boolean(b) => {
            if *b {
                "true".to_owned()
            } else {
                "false".to_owned()
            }
        },
        Value::String(s) => s.clone(),
        Value::Float(f) => crate::float_bits::double_to_string(*f),
        Value::Tuple(vs) => {
            let inner = display_vals(vs);
            let opened = crate::strings::string_concat("(", inner.as_str());
            let closed = crate::strings::string_concat(opened.as_str(), ")");
            proof {
                reveal_strlit("(");
                reveal_strlit(")");
                assert(closed@ =~= seq!['('] + display_list(vals_model(*vs)) + seq![')']);
            }
            closed
        },
        Value::Closure(body, captured) => "<closure>".to_owned(),
        Value::RuntimeInvocation => "<runtime invocation>".to_owned(),
    }
}

/// Renders the elements space-separated.
fn display_vals(vs: &Vec<Value>) -> (r: String)
    ensures
        r@ == display_list(vals_model(*vs)),
    decreases *vs,
{
    broadcast use lemma_vals_model_prefix_len, lemma_vals_model_prefix_index;

    let ghost m = vals_model(*vs);
    let mut out = String::new();
    let mut i: usize = 0;
    while i < vs.len()
        invariant
            i <= vs@.len(),
            m == vals_model(*vs),
            m.len() == vs@.len(),
            out@ == display_prefix(m, i as int),
        decreases vs@.len() - i,
    {
        proof {
            lemma_vals_model_prefix_index(*vs, vs@.len() as int, i as int);
        }
        if i > 0 {
            let spaced = crate::strings::string_concat(out.as_str(), " ");
            let shown = display_string(&vs[i]);
            out = crate::strings::string_concat(spaced.as_str(), shown.as_str());
            proof {
                reveal_strlit(" ");
                lemma_display_prefix_step(m, i as int);
                assert(out@ =~= display_prefix(m, i as int + 1));
            }
        } else {
            let shown = display_string(&vs[i]);
            out = crate::strings::string_concat(out.as_str(), shown.as_str());
            proof {
                lemma_display_prefix_step(m, 0);
                assert(out@ =~= display_prefix(m, 1));
            }
        }
        i = i + 1;
    }
    proof {
        lemma_display_prefix_full(m);
    }
    out
}

/// The display of the first `i` elements, space-separated.
pub open spec fn display_prefix(vs: Seq<ValModel>, i: int) -> Seq<char>
    decreases i,
{
    if i <= 0 || i > vs.len() {
        Seq::empty()
    } else if i == 1 {
        display_of(vs[0])
    } else {
        display_prefix(vs, i - 1) + seq![' '] + display_of(vs[i - 1])
    }
}

proof fn lemma_display_prefix_step(vs: Seq<ValModel>, i: int)
    requires
        0 <= i < vs.len(),
    ensures
        i == 0 ==> display_prefix(vs, 1) == display_of(vs[0]),
        i > 0 ==> display_prefix(vs, i + 1)
            == display_prefix(vs, i) + seq![' '] + display_of(vs[i]),
{
}

/// Appending an element appends a space and its display, except to an empty
/// list.
proof fn lemma_display_list_snoc(s: Seq<ValModel>, x: ValModel)
    ensures
        s.len() == 0 ==> display_list(s.push(x)) == display_of(x),
        s.len() > 0 ==> display_list(s.push(x)) == display_list(s) + seq![' '] + display_of(x),
    decreases s.len(),
{
    if s.len() == 0 {
        assert(s.push(x).first() == x);
    } else if s.len() == 1 {
        assert(s.push(x).first() == s.first());
        assert(s.push(x).drop_first() =~= seq![x]);
        assert(seq![x].first() == x);
        assert(display_list(seq![x]) == display_of(x));
    } else {
        assert(s.push(x).first() == s.first());
        assert(s.push(x).drop_first() =~= s.drop_first().push(x));
        lemma_display_list_snoc(s.drop_first(), x);
        assert(display_list(s.push(x))
            == display_of(s.first()) + seq![' ']
                + (display_list(s.drop_first()) + seq![' '] + display_of(x)));
        assert(display_of(s.first()) + seq![' ']
                + (display_list(s.drop_first()) + seq![' '] + display_of(x))
            =~= display_list(s) + seq![' '] + display_of(x));
    }
}

proof fn lemma_display_prefix_is_list(vs: Seq<ValModel>, i: int)
    requires
        0 <= i <= vs.len(),
    ensures
        display_prefix(vs, i) == display_list(vs.take(i)),
    decreases i,
{
    if i == 0 {
        assert(vs.take(0) =~= Seq::<ValModel>::empty());
    } else {
        lemma_display_prefix_is_list(vs, i - 1);
        assert(vs.take(i) =~= vs.take(i - 1).push(vs[i - 1]));
        lemma_display_list_snoc(vs.take(i - 1), vs[i - 1]);
        if i == 1 {
            assert(vs.take(0).len() == 0);
        }
    }
}

proof fn lemma_display_prefix_full(vs: Seq<ValModel>)
    ensures
        display_prefix(vs, vs.len() as int) == display_list(vs),
{
    lemma_display_prefix_is_list(vs, vs.len() as int);
    assert(vs.take(vs.len() as int) =~= vs);
}
} // verus!
