//! The self-describing value model: null, booleans, integers, text, bytes,
//! lists, string-keyed maps and links.
use vstd::prelude::*;
use crate::cid::Cid;

verus! {

/// A value of the model, as held at run time.
#[derive(Debug, PartialEq)]
pub enum Value {
    Null,
    Bool(bool),
    Integer(i64),
    Text(String),
    Bytes(Vec<u8>),
    List(Vec<Value>),
    /// Entries of a map. They are encoded in key order, a later entry for a
    /// key replacing an earlier one (see [`crate::codec::encode`]).
    Dict(Vec<(String, Value)>),
    Link(Cid),
}

/// The mathematical form of a [`Value`].
pub enum Val {
    Null,
    Bool(bool),
    Integer(int),
    Text(Seq<char>),
    Bytes(Seq<u8>),
    List(Seq<Val>),
    Dict(Seq<(Seq<char>, Val)>),
    Link(Seq<u8>),
}

impl View for Value {
    type V = Val;

    open spec fn view(&self) -> Val {
        value_view(*self)
    }
}

/// The mathematical form of a value.
pub open spec fn value_view(v: Value) -> Val
    decreases v, 1int,
{
        match v {
            Value::Null => Val::Null,
            Value::Bool(b) => Val::Bool(b),
            Value::Integer(i) => Val::Integer(i as int),
            Value::Text(s) => Val::Text(s@),
            Value::Bytes(b) => Val::Bytes(b@),
            Value::List(l) => Val::List(view_items(l@)),
            Value::Dict(d) => Val::Dict(view_entries(d@)),
            Value::Link(c) => Val::Link(c@),
        }
}

/// The mathematical form of the items of a list.
pub open spec fn view_items(l: Seq<Value>) -> Seq<Val>
    decreases l, 0int,
{
    if l.len() == 0 {
        Seq::empty()
    } else {
        seq![value_view(l[0])] + view_items(l.subrange(1, l.len() as int))
    }
}

/// The mathematical form of the entries of a map.
pub open spec fn view_entries(d: Seq<(String, Value)>) -> Seq<(Seq<char>, Val)>
    decreases d, 0int,
{
    if d.len() == 0 {
        Seq::empty()
    } else {
        seq![(d[0].0@, value_view(d[0].1))] + view_entries(d.subrange(1, d.len() as int))
    }
}

pub proof fn lemma_view_items(l: Seq<Value>)
    ensures
        view_items(l).len() == l.len(),
        forall|j: int| 0 <= j < l.len() ==> #[trigger] view_items(l)[j] == l[j]@,
    decreases l.len(),
{
    if l.len() > 0 {
        let rest = l.subrange(1, l.len() as int);
        lemma_view_items(rest);
        assert forall|j: int| 0 <= j < l.len() implies #[trigger] view_items(l)[j] == l[j]@ by {
            if j > 0 {
                assert(rest[j - 1] == l[j]);
            }
        }
    }
}

pub proof fn lemma_view_entries(d: Seq<(String, Value)>)
    ensures
        view_entries(d).len() == d.len(),
        forall|j: int| 0 <= j < d.len() ==> #[trigger] view_entries(d)[j] == (d[j].0@, d[j].1@),
    decreases d.len(),
{
    if d.len() > 0 {
        let rest = d.subrange(1, d.len() as int);
        lemma_view_entries(rest);
        assert forall|j: int| 0 <= j < d.len() implies #[trigger] view_entries(d)[j] == (d[j].0@, d[j].1@) by {
            if j > 0 {
                assert(rest[j - 1] == d[j]);
            }
        }
    }
}

/// Pushing an item pushes its mathematical form.
pub proof fn lemma_view_items_push(a: Seq<Value>, x: Value)
    ensures
        view_items(a.push(x)) == view_items(a).push(x@),
{
    lemma_view_items(a);
    lemma_view_items(a.push(x));
    assert(view_items(a.push(x)) =~= view_items(a).push(x@));
}

/// Pushing an entry pushes its mathematical form.
pub proof fn lemma_view_entries_push(a: Seq<(String, Value)>, x: (String, Value))
    ensures
        view_entries(a.push(x)) == view_entries(a).push((x.0@, x.1@)),
{
    lemma_view_entries(a);
    lemma_view_entries(a.push(x));
    assert(view_entries(a.push(x)) =~= view_entries(a).push((x.0@, x.1@)));
}

impl Value {
    /// A copy of this value.
    pub fn copy(&self) -> (r: Value)
        ensures
            r@ == self@,
        decreases self,
    {
        match self {
            Value::Null => Value::Null,
            Value::Bool(b) => Value::Bool(*b),
            Value::Integer(i) => Value::Integer(*i),
            Value::Text(s) => Value::Text(s.clone()),
            Value::Bytes(b) => Value::Bytes(b.clone()),
            Value::List(l) => {
                let mut out: Vec<Value> = Vec::new();
                let mut i: usize = 0;
                proof {
                    lemma_view_items(l@);
                    lemma_view_items(out@);
                }
                while i < l.len()
                    invariant
                        *self == Value::List(*l),
                        i <= l@.len(),
                        view_items(out@) == view_items(l@.subrange(0, i as int)),
                    decreases l@.len() - i,
                {
                    proof {
                        assert(decreases_to!(*self => (*self)->List_0));
                    }
                    let c = l[i].copy();
                    proof {
                        lemma_view_items_push(out@, c);
                        lemma_view_items_push(l@.subrange(0, i as int), l@[i as int]);
                        assert(l@.subrange(0, i + 1) =~= l@.subrange(0, i as int).push(l@[i as int]));
                    }
                    out.push(c);
                    i = i + 1;
                }
                assert(l@.subrange(0, i as int) =~= l@);
                Value::List(out)
            },
            Value::Dict(d) => {
                let mut out: Vec<(String, Value)> = Vec::new();
                let mut i: usize = 0;
                proof {
                    lemma_view_entries(d@);
                    lemma_view_entries(out@);
                }
                while i < d.len()
                    invariant
                        *self == Value::Dict(*d),
                        i <= d@.len(),
                        view_entries(out@) == view_entries(d@.subrange(0, i as int)),
                    decreases d@.len() - i,
                {
                    proof {
                        assert(decreases_to!(*self => (*self)->Dict_0));
                    }
                    let k = d[i].0.clone();
                    let c = d[i].1.copy();
                    proof {
                        lemma_view_entries_push(out@, (k, c));
                        lemma_view_entries_push(d@.subrange(0, i as int), d@[i as int]);
                        assert(d@.subrange(0, i + 1) =~= d@.subrange(0, i as int).push(d@[i as int]));
                    }
                    out.push((k, c));
                    i = i + 1;
                }
                assert(d@.subrange(0, i as int) =~= d@);
                Value::Dict(out)
            },
            Value::Link(c) => Value::Link(c.clone()),
        }
    }
}

} // verus!
