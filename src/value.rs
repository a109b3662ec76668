use crate::span::Spanned;
use crate::context::find_key;
use crate::text::str_eq;
use vstd::prelude::*;

verus! {

/// A GraphQL literal value, as written in a query document or handed in as a variable.
#[derive(Debug)]
pub enum Value {
    Null,
    /// A `$name` reference, legal only inside a query document.
    Variable(String),
    Int(i64),
    /// A floating-point literal, kept as its decimal text.
    Float(String),
    String(String),
    Boolean(bool),
    Enum(String),
    List(Vec<Spanned<Value>>),
    /// Fields in the order they were written.
    Object(Vec<(Spanned<String>, Spanned<Value>)>),
}

/// The first index at or after `start` whose name is `key`, or -1.
pub open spec fn key_pos_from(pairs: Seq<(Spanned<String>, Spanned<Value>)>, key: Seq<char>, start: int) -> int
    decreases pairs.len() - start,
{
    if start < 0 || start >= pairs.len() {
        -1
    } else if pairs[start].0.node@ == key {
        start
    } else {
        key_pos_from(pairs, key, start + 1)
    }
}

/// The first index whose name is `key`, or -1.
pub open spec fn key_pos(pairs: Seq<(Spanned<String>, Spanned<Value>)>, key: Seq<char>) -> int {
    key_pos_from(pairs, key, 0)
}

/// Structural equality: spans are ignored, and objects are compared as maps
/// from names to values, whatever the order of their fields: the same names,
/// and under each name the values its first fields hold are equal.
pub open spec fn value_eq(a: Value, b: Value) -> bool
    decreases a,
{
    match (a, b) {
        (Value::Null, Value::Null) => true,
        (Value::Variable(x), Value::Variable(y)) => x@ == y@,
        (Value::Int(x), Value::Int(y)) => x == y,
        (Value::Float(x), Value::Float(y)) => x@ == y@,
        (Value::String(x), Value::String(y)) => x@ == y@,
        (Value::Boolean(x), Value::Boolean(y)) => x == y,
        (Value::Enum(x), Value::Enum(y)) => x@ == y@,
        (Value::List(x), Value::List(y)) => {
            &&& x@.len() == y@.len()
            &&& forall|i: int| #![trigger x@[i]] 0 <= i < x@.len() ==> value_eq(x@[i].node, y@[i].node)
        },
        (Value::Object(x), Value::Object(y)) => {
            &&& forall|i: int|
                #![trigger x@[i]]
                0 <= i < x@.len() ==> {
                    let p = key_pos(x@, x@[i].0.node@);
                    let q = key_pos(y@, x@[i].0.node@);
                    &&& 0 <= p < x@.len()
                    &&& q >= 0
                    &&& value_eq(x@[p].1.node, y@[q].1.node)
                }
            &&& forall|j: int| #![trigger y@[j]] 0 <= j < y@.len() ==> key_pos(x@, y@[j].0.node@) >= 0
        },
        _ => false,
    }
}

/// The same value written the same way: equal in every part but the spans,
/// with list elements and object fields in the same order.
pub open spec fn same_value(a: Value, b: Value) -> bool
    decreases a,
{
    match (a, b) {
        (Value::Null, Value::Null) => true,
        (Value::Variable(x), Value::Variable(y)) => x@ == y@,
        (Value::Int(x), Value::Int(y)) => x == y,
        (Value::Float(x), Value::Float(y)) => x@ == y@,
        (Value::String(x), Value::String(y)) => x@ == y@,
        (Value::Boolean(x), Value::Boolean(y)) => x == y,
        (Value::Enum(x), Value::Enum(y)) => x@ == y@,
        (Value::List(x), Value::List(y)) => {
            &&& x@.len() == y@.len()
            &&& forall|i: int| #![trigger x@[i]] 0 <= i < x@.len() ==> same_value(x@[i].node, y@[i].node)
        },
        (Value::Object(x), Value::Object(y)) => {
            &&& x@.len() == y@.len()
            &&& forall|i: int|
                #![trigger x@[i]]
                0 <= i < x@.len() ==> x@[i].0.node@ == y@[i].0.node@ && same_value(
                    x@[i].1.node,
                    y@[i].1.node,
                )
        },
        _ => false,
    }
}

/// The names of an object's fields are pairwise distinct.
pub open spec fn keys_unique(pairs: Seq<(Spanned<String>, Spanned<Value>)>) -> bool {
    forall|i: int, j: int|
        0 <= i < j < pairs.len() ==> pairs[i].0.node@ != pairs[j].0.node@
}


/// A name held at index `i` is found at or before `i`.
pub proof fn lemma_key_pos_found(pairs: Seq<(Spanned<String>, Spanned<Value>)>, key: Seq<char>, start: int, i: int)
    requires
        0 <= start <= i < pairs.len(),
        pairs[i].0.node@ == key,
    ensures
        start <= key_pos_from(pairs, key, start) <= i,
        pairs[key_pos_from(pairs, key, start)].0.node@ == key,
    decreases i - start,
{
    if pairs[start].0.node@ != key {
        lemma_key_pos_found(pairs, key, start + 1, i);
    }
}

/// A name not found is held at no index from `start` on.
pub proof fn lemma_key_pos_absent(pairs: Seq<(Spanned<String>, Spanned<Value>)>, key: Seq<char>, start: int)
    requires
        0 <= start,
        key_pos_from(pairs, key, start) < 0,
    ensures
        forall|m: int| start <= m < pairs.len() ==> pairs[m].0.node@ != key,
    decreases pairs.len() - start,
{
    if start < pairs.len() {
        lemma_key_pos_absent(pairs, key, start + 1);
    }
}

/// A name found is held at the index found.
pub proof fn lemma_key_pos_valid(pairs: Seq<(Spanned<String>, Spanned<Value>)>, key: Seq<char>, start: int)
    requires
        key_pos_from(pairs, key, start) >= 0,
    ensures
        0 <= key_pos_from(pairs, key, start) < pairs.len(),
        pairs[key_pos_from(pairs, key, start)].0.node@ == key,
    decreases pairs.len() - start,
{
    if start >= 0 && start < pairs.len() && pairs[start].0.node@ != key {
        lemma_key_pos_valid(pairs, key, start + 1);
    }
}

/// Equality of values does not depend on the order of its operands.
pub proof fn lemma_value_eq_symmetric(a: Value, b: Value)
    requires
        value_eq(a, b),
    ensures
        value_eq(b, a),
    decreases a,
{
    match (a, b) {
        (Value::List(x), Value::List(y)) => {
            assert forall|i: int| #![trigger y@[i]] 0 <= i < y@.len() implies value_eq(y@[i].node, x@[i].node) by {
                assert(value_eq(x@[i].node, y@[i].node));
                lemma_list_elem_decreases(a, i);
                lemma_value_eq_symmetric(x@[i].node, y@[i].node);
            }
        },
        (Value::Object(x), Value::Object(y)) => {
            assert forall|j: int| #![trigger y@[j]] 0 <= j < y@.len() implies {
                let p = key_pos(y@, y@[j].0.node@);
                let q = key_pos(x@, y@[j].0.node@);
                &&& 0 <= p < y@.len()
                &&& q >= 0
                &&& value_eq(y@[p].1.node, x@[q].1.node)
            } by {
                let k = y@[j].0.node@;
                lemma_key_pos_found(y@, k, 0, j);
                assert(key_pos(x@, k) >= 0);
                lemma_key_pos_valid(x@, k, 0);
                let i = key_pos(x@, k);
                assert(x@[i].0.node@ == k);
                assert(key_pos(x@, x@[i].0.node@) == i);
                assert(value_eq(x@[i].1.node, y@[key_pos(y@, k)].1.node));
                lemma_field_decreases(a, i);
                lemma_value_eq_symmetric(x@[i].1.node, y@[key_pos(y@, k)].1.node);
            }
            assert forall|i: int| #![trigger x@[i]] 0 <= i < x@.len() implies key_pos(y@, x@[i].0.node@) >= 0 by {}
        },
        _ => {},
    }
}

pub(crate) proof fn lemma_list_elem_decreases(v: Value, i: int)
    requires
        v is List,
        0 <= i < v->List_0@.len(),
    ensures
        decreases_to!(v => v->List_0@[i].node),
{
    let x = v->List_0;
    assert(decreases_to!(v => x));
    assert(decreases_to!(x => x@));
    assert(decreases_to!(x@ => x@[i]));
    assert(decreases_to!(x@[i] => x@[i].node));
}

pub(crate) proof fn lemma_field_decreases(v: Value, i: int)
    requires
        v is Object,
        0 <= i < v->Object_0@.len(),
    ensures
        decreases_to!(v => v->Object_0@[i].1.node),
{
    let x = v->Object_0;
    assert(decreases_to!(v => x));
    assert(decreases_to!(x => x@));
    assert(decreases_to!(x@ => x@[i]));
    assert(decreases_to!(x@[i] => x@[i].1));
    assert(decreases_to!(x@[i].1 => x@[i].1.node));
}

impl Value {
    /// A copy of the value, element by element.
    #[verifier::loop_isolation(false)]
    pub fn deep_clone(&self) -> (r: Value)
        ensures
            same_value(r, *self),
        decreases self,
    {
        match self {
            Value::Null => Value::Null,
            Value::Variable(x) => Value::Variable(x.clone()),
            Value::Int(x) => Value::Int(*x),
            Value::Float(x) => Value::Float(x.clone()),
            Value::String(x) => Value::String(x.clone()),
            Value::Boolean(x) => Value::Boolean(*x),
            Value::Enum(x) => Value::Enum(x.clone()),
            Value::List(x) => {
                let mut out: Vec<Spanned<Value>> = Vec::new();
                let mut i: usize = 0;
                while i < x.len()
                    invariant
                        0 <= i <= x@.len(),
                        out@.len() == i,
                        forall|k: int| #![trigger out@[k]] 0 <= k < i ==> same_value(out@[k].node, x@[k].node),
                    decreases x@.len() - i,
                {
                    proof { lemma_list_elem_decreases(*self, i as int); }
                    let node = x[i].node.deep_clone();
                    out.push(Spanned { span: x[i].span, node });
                    i = i + 1;
                }
                let r = Value::List(out);
                assert(same_value(r, *self));
                r
            },
            Value::Object(x) => {
                let mut out: Vec<(Spanned<String>, Spanned<Value>)> = Vec::new();
                let mut i: usize = 0;
                while i < x.len()
                    invariant
                        0 <= i <= x@.len(),
                        out@.len() == i,
                        forall|k: int|
                            #![trigger out@[k]]
                            0 <= k < i ==> out@[k].0.node@ == x@[k].0.node@ && same_value(
                                out@[k].1.node,
                                x@[k].1.node,
                            ),
                    decreases x@.len() - i,
                {
                    proof { lemma_field_decreases(*self, i as int); }
                    let node = x[i].1.node.deep_clone();
                    let key = Spanned { span: x[i].0.span, node: x[i].0.node.clone() };
                    out.push((key, Spanned { span: x[i].1.span, node }));
                    i = i + 1;
                }
                let r = Value::Object(out);
                assert(same_value(r, *self));
                r
            },
        }
    }

    /// Structural equality of two values.
    #[verifier::loop_isolation(false)]
    pub fn value_eq(&self, other: &Value) -> (r: bool)
        ensures
            r == value_eq(*self, *other),
        decreases self,
    {
        match (self, other) {
            (Value::Null, Value::Null) => true,
            (Value::Variable(x), Value::Variable(y)) => str_eq(x, y),
            (Value::Int(x), Value::Int(y)) => *x == *y,
            (Value::Float(x), Value::Float(y)) => str_eq(x, y),
            (Value::String(x), Value::String(y)) => str_eq(x, y),
            (Value::Boolean(x), Value::Boolean(y)) => *x == *y,
            (Value::Enum(x), Value::Enum(y)) => str_eq(x, y),
            (Value::List(x), Value::List(y)) => {
                if x.len() != y.len() {
                    return false;
                }
                let mut i: usize = 0;
                while i < x.len()
                    invariant
                        x@.len() == y@.len(),
                        0 <= i <= x@.len(),
                        forall|k: int| #![trigger x@[k]] 0 <= k < i ==> value_eq(x@[k].node, y@[k].node),
                    decreases x@.len() - i,
                {
                    proof { lemma_list_elem_decreases(*self, i as int); }
                    if !x[i].node.value_eq(&y[i].node) {
                        assert(!value_eq(*self, *other));
                        return false;
                    }
                    i = i + 1;
                }
                true
            },
            (Value::Object(x), Value::Object(y)) => {
                let mut i: usize = 0;
                while i < x.len()
                    invariant
                        0 <= i <= x@.len(),
                        forall|k: int|
                            #![trigger x@[k]]
                            0 <= k < i ==> {
                                let p = key_pos(x@, x@[k].0.node@);
                                let q = key_pos(y@, x@[k].0.node@);
                                &&& 0 <= p < x@.len()
                                &&& q >= 0
                                &&& value_eq(x@[p].1.node, y@[q].1.node)
                            },
                    decreases x@.len() - i,
                {
                    let key = &x[i].0.node;
                    proof { lemma_key_pos_found(x@, key@, 0, i as int); }
                    let p = match find_key(x, key) {
                        Some(p) => p,
                        None => { return false; },
                    };
                    let q = match find_key(y, key) {
                        Some(q) => q,
                        None => { return false; },
                    };
                    proof { lemma_field_decreases(*self, p as int); }
                    if !x[p].1.node.value_eq(&y[q].1.node) {
                        return false;
                    }
                    i = i + 1;
                }
                let mut j: usize = 0;
                while j < y.len()
                    invariant
                        0 <= j <= y@.len(),
                        forall|k: int| #![trigger y@[k]] 0 <= k < j ==> key_pos(x@, y@[k].0.node@) >= 0,
                    decreases y@.len() - j,
                {
                    match find_key(x, &y[j].0.node) {
                        Some(_) => {},
                        None => { return false; },
                    }
                    j = j + 1;
                }
                true
            },
            _ => false,
        }
    }
}

impl Clone for Value {
    fn clone(&self) -> (r: Value)
        ensures
            same_value(r, *self),
    {
        self.deep_clone()
    }
}

impl PartialEq for Value {
    fn eq(&self, other: &Value) -> (r: bool) {
        self.value_eq(other)
    }
}

impl vstd::std_specs::cmp::PartialEqSpecImpl for Value {
    open spec fn obeys_eq_spec() -> bool {
        true
    }

    open spec fn eq_spec(&self, other: &Value) -> bool {
        value_eq(*self, *other)
    }
}

} // verus!
