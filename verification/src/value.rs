//! Plain payload values that can be bound to a node under string keys.

use vstd::prelude::*;

verus! {

/// A payload value: the well-defined null, a boolean, an integer, or text.
#[derive(Debug)]
pub enum Value {
    Null,
    Bool(bool),
    Int(i64),
    Text(String),
}

/// The mathematical value of a `Value`.
pub enum ValView {
    Null,
    Bool(bool),
    Int(int),
    Text(Seq<char>),
}

impl View for Value {
    type V = ValView;

    open spec fn view(&self) -> ValView {
        match self {
            Value::Null => ValView::Null,
            Value::Bool(b) => ValView::Bool(*b),
            Value::Int(i) => ValView::Int(*i as int),
            Value::Text(s) => ValView::Text(s@),
        }
    }
}

impl Value {
    /// A fresh copy of the value, equal in view.
    pub fn dup(&self) -> (r: Value)
        ensures
            r@ == self@,
    {
        match self {
            Value::Null => Value::Null,
            Value::Bool(b) => Value::Bool(*b),
            Value::Int(i) => Value::Int(*i),
            Value::Text(s) => Value::Text(s.clone()),
        }
    }
}

} // verus!
