//! Document values and their mathematical model.
use vstd::prelude::*;

verus! {

/// The mathematical meaning of a [`Value`]: strings are character sequences,
/// arrays are sequences, and objects are sequences of named members.
pub enum Json {
    Null,
    Bool(bool),
    /// A number, by the decimal text that denotes it.
    Number(Seq<char>),
    Text(Seq<char>),
    Array(Seq<Json>),
    Object(Seq<(Seq<char>, Json)>),
}

/// A document node: an object is a mapping from member names to nodes; every
/// other variant is a leaf. Arrays are leaves too and are never descended into.
pub enum Value {
    Null,
    Bool(bool),
    /// A number, held as its decimal text (`1`, `-3`, `2.5`).
    Number(String),
    String(String),
    Array(Vec<Value>),
    Object(Vec<(String, Value)>),
}

pub open spec fn model(v: Value) -> Json
    decreases v,
{
    match v {
        Value::Null => Json::Null,
        Value::Bool(b) => Json::Bool(b),
        Value::Number(n) => Json::Number(n@),
        Value::String(s) => Json::Text(s@),
        Value::Array(items) => Json::Array(model_items(items@)),
        Value::Object(members) => Json::Object(model_members(members@)),
    }
}

pub open spec fn model_items(s: Seq<Value>) -> Seq<Json>
    decreases s,
{
    if s.len() == 0 {
        Seq::empty()
    } else {
        model_items(s.subrange(0, s.len() - 1)).push(model(s[s.len() - 1]))
    }
}

pub open spec fn model_members(s: Seq<(String, Value)>) -> Seq<(Seq<char>, Json)>
    decreases s,
{
    if s.len() == 0 {
        Seq::empty()
    } else {
        model_members(s.subrange(0, s.len() - 1)).push(
            (s[s.len() - 1].0@, model(s[s.len() - 1].1)),
        )
    }
}

impl View for Value {
    type V = Json;

    open spec fn view(&self) -> Json {
        model(*self)
    }
}

pub proof fn lemma_model_items(s: Seq<Value>)
    ensures
        model_items(s).len() == s.len(),
        forall|i: int| 0 <= i < s.len() ==> #[trigger] model_items(s)[i] == model(s[i]),
    decreases s.len(),
{
    if s.len() > 0 {
        lemma_model_items(s.subrange(0, s.len() - 1));
    }
}

pub proof fn lemma_model_members(s: Seq<(String, Value)>)
    ensures
        model_members(s).len() == s.len(),
        forall|i: int|
            0 <= i < s.len() ==> #[trigger] model_members(s)[i] == (s[i].0@, model(s[i].1)),
    decreases s.len(),
{
    if s.len() > 0 {
        lemma_model_members(s.subrange(0, s.len() - 1));
    }
}

/// A value and its model have the same variant.
pub proof fn lemma_model_variant(v: Value)
    ensures
        (v is Null) == (model(v) is Null),
        (v is Bool) == (model(v) is Bool),
        (v is Number) == (model(v) is Number),
        (v is String) == (model(v) is Text),
        (v is Array) == (model(v) is Array),
        (v is Object) == (model(v) is Object),
{
    match v {
        Value::Null => {},
        Value::Bool(_) => {},
        Value::Number(_) => {},
        Value::String(_) => {},
        Value::Array(_) => {},
        Value::Object(_) => {},
    }
}

impl Value {
    /// Deep structural equality: same variant, and equal contents throughout.
    #[verifier::loop_isolation(false)]
    pub fn equals(&self, other: &Value) -> (r: bool)
        ensures
            r == (self@ == other@),
        decreases self,
    {
        proof {
            lemma_model_variant(*self);
            lemma_model_variant(*other);
        }
        match self {
            Value::Null => match other {
                Value::Null => true,
                _ => false,
            },
            Value::Bool(x) => match other {
                Value::Bool(y) => *x == *y,
                _ => false,
            },
            Value::Number(x) => match other {
                Value::Number(y) => *x == *y,
                _ => false,
            },
            Value::String(x) => match other {
                Value::String(y) => *x == *y,
                _ => false,
            },
            Value::Array(xs) => match other {
                Value::Array(ys) => {
                    proof {
                        lemma_model_items(xs@);
                        lemma_model_items(ys@);
                    }
                    if xs.len() != ys.len() {
                        return false;
                    }
                    let mut i: usize = 0;
                    while i < xs.len()
                        invariant
                            xs.len() == ys.len(),
                            i <= xs.len(),
                            forall|j: int| 0 <= j < i ==> model(xs@[j]) == model(ys@[j]),
                        decreases xs.len() - i,
                    {
                        proof {
                            lemma_model_items(xs@);
                            lemma_model_items(ys@);
                        }
                        if !xs[i].equals(&ys[i]) {
                            assert(model_items(xs@)[i as int] != model_items(ys@)[i as int]);
                            return false;
                        }
                        i += 1;
                    }
                    assert(model_items(xs@) =~= model_items(ys@));
                    true
                },
                _ => false,
            },
            Value::Object(xs) => match other {
                Value::Object(ys) => {
                    proof {
                        lemma_model_members(xs@);
                        lemma_model_members(ys@);
                    }
                    if xs.len() != ys.len() {
                        return false;
                    }
                    let mut i: usize = 0;
                    while i < xs.len()
                        invariant
                            xs.len() == ys.len(),
                            i <= xs.len(),
                            forall|j: int|
                                0 <= j < i ==> model_members(xs@)[j] == model_members(ys@)[j],
                        decreases xs.len() - i,
                    {
                        proof {
                            lemma_model_members(xs@);
                            lemma_model_members(ys@);
                        }
                        if xs[i].0 != ys[i].0 || !xs[i].1.equals(&ys[i].1) {
                            assert(model_members(xs@)[i as int] != model_members(ys@)[i as int]);
                            return false;
                        }
                        i += 1;
                    }
                    assert(model_members(xs@) =~= model_members(ys@));
                    true
                },
                _ => false,
            },
        }
    }

    /// A deep copy with the same meaning.
    #[verifier::loop_isolation(false)]
    pub fn duplicate(&self) -> (r: Value)
        ensures
            r@ == self@,
        decreases self,
    {
        match self {
            Value::Null => Value::Null,
            Value::Bool(b) => Value::Bool(*b),
            Value::Number(n) => Value::Number(n.clone()),
            Value::String(s) => Value::String(s.clone()),
            Value::Array(xs) => {
                let mut out: Vec<Value> = Vec::new();
                let mut i: usize = 0;
                while i < xs.len()
                    invariant
                        i <= xs.len(),
                        out@.len() == i,
                        forall|j: int| 0 <= j < i ==> model(out@[j]) == model(xs@[j]),
                    decreases xs.len() - i,
                {
                    out.push(xs[i].duplicate());
                    i += 1;
                }
                proof {
                    lemma_model_items(xs@);
                    lemma_model_items(out@);
                    assert(model_items(xs@) =~= model_items(out@));
                }
                Value::Array(out)
            },
            Value::Object(xs) => {
                let mut out: Vec<(String, Value)> = Vec::new();
                let mut i: usize = 0;
                while i < xs.len()
                    invariant
                        i <= xs.len(),
                        out@.len() == i,
                        forall|j: int|
                            0 <= j < i ==> out@[j].0@ == xs@[j].0@ && model(out@[j].1) == model(
                                xs@[j].1,
                            ),
                    decreases xs.len() - i,
                {
                    let v = xs[i].1.duplicate();
                    out.push((xs[i].0.clone(), v));
                    i += 1;
                }
                proof {
                    lemma_model_members(xs@);
                    lemma_model_members(out@);
                    assert(model_members(xs@) =~= model_members(out@));
                }
                Value::Object(out)
            },
        }
    }
}

} // verus!
