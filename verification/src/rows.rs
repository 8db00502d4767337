//! The values a change can give a cell, and rows as maps from column to value.

use vstd::prelude::*;
use crate::text_map::{Duplicate, TextMap};

verus! {

/// A number as a change log carries it. A floating point number is held by the
/// bit pattern of its double precision form, so it is copied without rounding.
#[derive(Clone, Copy, Debug, PartialEq, Eq, Structural)]
pub enum Number {
    /// A whole number that fits a signed word.
    Int(i64),
    /// A whole number, as an unsigned word.
    UInt(u64),
    /// The bits of a double precision number.
    Float(u64),
}

/// The value of one cell as a change log carries it.
#[derive(Debug, PartialEq, Eq)]
pub enum Value {
    Null,
    Bool(bool),
    Number(Number),
    Text(String),
    /// A list or an object, kept as the text it was written in. No column
    /// accepts one.
    Nested(String),
}

/// What a [`Value`] says.
pub enum ValueView {
    Null,
    Bool(bool),
    Number(Number),
    Text(Seq<char>),
    Nested(Seq<char>),
}

impl View for Value {
    type V = ValueView;

    open spec fn view(&self) -> ValueView {
        match self {
            Value::Null => ValueView::Null,
            Value::Bool(b) => ValueView::Bool(*b),
            Value::Number(n) => ValueView::Number(*n),
            Value::Text(s) => ValueView::Text(s@),
            Value::Nested(s) => ValueView::Nested(s@),
        }
    }
}

impl Value {

    /// A text value.
    pub fn text(s: &str) -> (r: Self)
        ensures
            r@ == ValueView::Text(s@),
    {
        Value::Text(s.to_owned())
    }
}

impl Clone for Value {
    fn clone(&self) -> (r: Self)
        ensures
            r@ == self@,
    {
        match self {
            Value::Null => Value::Null,
            Value::Bool(b) => Value::Bool(*b),
            Value::Number(n) => Value::Number(*n),
            Value::Text(s) => Value::Text(s.clone()),
            Value::Nested(s) => Value::Nested(s.clone()),
        }
    }
}

/// One row: its columns, kept in the order of their names, each with a value.
pub type Row = TextMap<Value>;

impl Duplicate for Value {
    fn duplicate(&self) -> (r: Self) {
        self.clone()
    }
}

} // verus!
