//! The syntax tree of a `ucon` document and its mathematical model.
use vstd::prelude::*;

verus! {

/// A symbol: a name that starts with an ASCII letter.
#[derive(Debug, PartialEq, Clone)]
pub struct Symbol<'a>(pub &'a str);

/// A value that an attribute of an assertion can take.
#[derive(Debug, PartialEq)]
pub enum Value<'a> {
    Symbol(Symbol<'a>),
    String(&'a str),
    MultilineString(&'a str),
    Assertion(Box<Assertion<'a>>),
    Multi(Vec<Value<'a>>),
    Ref(Symbol<'a>),
    Assignment(Symbol<'a>, Box<Value<'a>>, Box<Value<'a>>),
    Muted(Box<Value<'a>>),
}

/// Whether an assertion asserts a new construct (optionally bound to a name)
/// or duplicates an existing one.
#[derive(Debug, PartialEq, Clone)]
pub enum AssertMode<'a> {
    Assert(Option<Symbol<'a>>),
    Duplicate,
}

/// An assertion: a class with a list of attributes.
#[derive(Debug, PartialEq)]
pub struct Assertion<'a> {
    pub mode: AssertMode<'a>,
    pub class: Symbol<'a>,
    pub attrs: Vec<(Symbol<'a>, Value<'a>)>,
}

/// The model of a value: texts are their character sequences.
pub enum ValueModel {
    Symbol(Seq<char>),
    String(Seq<char>),
    MultilineString(Seq<char>),
    Assertion(Box<AssertionModel>),
    Multi(Seq<ValueModel>),
    Ref(Seq<char>),
    Assignment(Seq<char>, Box<ValueModel>, Box<ValueModel>),
    Muted(Box<ValueModel>),
}

/// The model of an assertion mode.
pub enum ModeModel {
    Assert(Option<Seq<char>>),
    Duplicate,
}

/// The model of an assertion.
pub struct AssertionModel {
    pub mode: ModeModel,
    pub class: Seq<char>,
    pub attrs: Seq<(Seq<char>, ValueModel)>,
}

impl<'a> View for Symbol<'a> {
    type V = Seq<char>;

    open spec fn view(&self) -> Seq<char> {
        self.0@
    }
}

pub open spec fn mode_model(m: AssertMode) -> ModeModel {
    match m {
        AssertMode::Assert(None) => ModeModel::Assert(None),
        AssertMode::Assert(Some(s)) => ModeModel::Assert(Some(s.0@)),
        AssertMode::Duplicate => ModeModel::Duplicate,
    }
}

pub open spec fn value_model(v: Value) -> ValueModel
    decreases v,
{
    match v {
        Value::Symbol(s) => ValueModel::Symbol(s.0@),
        Value::String(t) => ValueModel::String(t@),
        Value::MultilineString(t) => ValueModel::MultilineString(t@),
        Value::Assertion(a) => ValueModel::Assertion(Box::new(assertion_model(*a))),
        Value::Multi(vs) => ValueModel::Multi(values_model(vs@)),
        Value::Ref(s) => ValueModel::Ref(s.0@),
        Value::Assignment(n, b, s) => ValueModel::Assignment(
            n.0@,
            Box::new(value_model(*b)),
            Box::new(value_model(*s)),
        ),
        Value::Muted(b) => ValueModel::Muted(Box::new(value_model(*b))),
    }
}

pub open spec fn values_model(vs: Seq<Value>) -> Seq<ValueModel>
    decreases vs,
{
    if vs.len() == 0 {
        Seq::empty()
    } else {
        values_model(vs.subrange(0, vs.len() - 1)).push(value_model(vs[vs.len() - 1]))
    }
}

pub open spec fn assertion_model(a: Assertion) -> AssertionModel
    decreases a,
{
    AssertionModel { mode: mode_model(a.mode), class: a.class.0@, attrs: attrs_model(a.attrs@) }
}

pub open spec fn attrs_model(attrs: Seq<(Symbol, Value)>) -> Seq<(Seq<char>, ValueModel)>
    decreases attrs,
{
    if attrs.len() == 0 {
        Seq::empty()
    } else {
        attrs_model(attrs.subrange(0, attrs.len() - 1)).push(
            (attrs[attrs.len() - 1].0.0@, value_model(attrs[attrs.len() - 1].1)),
        )
    }
}

/// The models of a list of assertions.
pub open spec fn assertions_model(v: Seq<Assertion>) -> Seq<AssertionModel>
    decreases v.len(),
{
    if v.len() == 0 {
        Seq::empty()
    } else {
        assertions_model(v.subrange(0, v.len() - 1)).push(assertion_model(v[v.len() - 1]))
    }
}

impl<'a> View for Value<'a> {
    type V = ValueModel;

    open spec fn view(&self) -> ValueModel {
        value_model(*self)
    }
}

impl<'a> View for AssertMode<'a> {
    type V = ModeModel;

    open spec fn view(&self) -> ModeModel {
        mode_model(*self)
    }
}

impl<'a> View for Assertion<'a> {
    type V = AssertionModel;

    open spec fn view(&self) -> AssertionModel {
        assertion_model(*self)
    }
}


/// A list of values has one model per value.
pub proof fn lemma_values_model(vs: Seq<Value>)
    ensures
        values_model(vs).len() == vs.len(),
        forall|i: int| 0 <= i < vs.len() ==> #[trigger] values_model(vs)[i] == vs[i]@,
    decreases vs.len(),
{
    if vs.len() > 0 {
        lemma_values_model(vs.subrange(0, vs.len() - 1));
    }
}

/// A list of attributes has one model per attribute.
pub proof fn lemma_attrs_model(attrs: Seq<(Symbol, Value)>)
    ensures
        attrs_model(attrs).len() == attrs.len(),
        forall|i: int|
            0 <= i < attrs.len() ==> #[trigger] attrs_model(attrs)[i] == (attrs[i].0@, attrs[i].1@),
    decreases attrs.len(),
{
    if attrs.len() > 0 {
        lemma_attrs_model(attrs.subrange(0, attrs.len() - 1));
    }
}


/// A list of assertions has one model per assertion.
pub proof fn lemma_assertions_model(v: Seq<Assertion>)
    ensures
        assertions_model(v).len() == v.len(),
        forall|i: int| 0 <= i < v.len() ==> #[trigger] assertions_model(v)[i] == v[i]@,
    decreases v.len(),
{
    if v.len() > 0 {
        lemma_assertions_model(v.subrange(0, v.len() - 1));
    }
}


/// A copy of a value: the same tree, sharing the texts.
fn clone_value<'a>(v: &Value<'a>) -> (r: Value<'a>)
    ensures
        r@ == v@,
    decreases v,
{
    match v {
        Value::Symbol(s) => Value::Symbol(Symbol(s.0)),
        Value::String(t) => Value::String(t),
        Value::MultilineString(t) => Value::MultilineString(t),
        Value::Assertion(a) => Value::Assertion(Box::new(clone_assertion(a))),
        Value::Multi(vals) => {
            let mut out: Vec<Value<'a>> = Vec::new();
            let mut k: usize = 0;
            while k < vals.len()
                invariant
                    *v == Value::Multi(*vals),
                    k <= vals@.len(),
                    values_model(out@) == values_model(vals@.take(k as int)),
                decreases vals@.len() - k,
            {
                proof {
                    assert((*v)->Multi_0 == *vals);
                    assert(decreases_to!(*v => (*v)->Multi_0));
                    assert(decreases_to!(*vals => vals@));
                    assert(decreases_to!(vals@ => vals@[k as int]));
                }
                let c = clone_value(&vals[k]);
                let ghost before = out@;
                out.push(c);
                proof {
                    assert(out@.subrange(0, out@.len() - 1) =~= before);
                    let taken = vals@.take(k + 1);
                    assert(taken.subrange(0, k as int) =~= vals@.take(k as int));
                }
                k = k + 1;
            }
            assert(vals@.take(vals@.len() as int) =~= vals@);
            Value::Multi(out)
        },
        Value::Ref(s) => Value::Ref(Symbol(s.0)),
        Value::Assignment(n, b, sc) => Value::Assignment(
            Symbol(n.0),
            Box::new(clone_value(b)),
            Box::new(clone_value(sc)),
        ),
        Value::Muted(b) => Value::Muted(Box::new(clone_value(b))),
    }
}

/// A copy of an assertion.
fn clone_assertion<'a>(a: &Assertion<'a>) -> (r: Assertion<'a>)
    ensures
        r@ == a@,
    decreases a,
{
    let mode = match &a.mode {
        AssertMode::Assert(None) => AssertMode::Assert(None),
        AssertMode::Assert(Some(s)) => AssertMode::Assert(Some(Symbol(s.0))),
        AssertMode::Duplicate => AssertMode::Duplicate,
    };
    let mut attrs: Vec<(Symbol<'a>, Value<'a>)> = Vec::new();
    let mut k: usize = 0;
    while k < a.attrs.len()
        invariant
            k <= a.attrs@.len(),
            attrs_model(attrs@) == attrs_model(a.attrs@.take(k as int)),
        decreases a.attrs@.len() - k,
    {
        proof {
            assert(decreases_to!(*a => a.attrs));
            assert(decreases_to!(a.attrs => a.attrs@));
            assert(decreases_to!(a.attrs@ => a.attrs@[k as int]));
            assert(decreases_to!(a.attrs@[k as int] => a.attrs@[k as int].1));
        }
        let (name, v) = &a.attrs[k];
        let c = clone_value(v);
        let ghost before = attrs@;
        attrs.push((Symbol(name.0), c));
        proof {
            assert(attrs@.subrange(0, attrs@.len() - 1) =~= before);
            let taken = a.attrs@.take(k + 1);
            assert(taken.subrange(0, k as int) =~= a.attrs@.take(k as int));
        }
        k = k + 1;
    }
    assert(a.attrs@.take(a.attrs@.len() as int) =~= a.attrs@);
    Assertion { mode, class: Symbol(a.class.0), attrs }
}

impl<'a> Clone for Value<'a> {
    fn clone(&self) -> (r: Self)
        ensures
            r@ == self@,
    {
        clone_value(self)
    }
}

impl<'a> Clone for Assertion<'a> {
    fn clone(&self) -> (r: Self)
        ensures
            r@ == self@,
    {
        clone_assertion(self)
    }
}

} // verus!
