//! Literal values as they appear in the syntax tree.

use vstd::prelude::*;

verus! {

/// A literal. A floating-point literal is kept as the digits it was written
/// with, so that no precision is lost before evaluation.
#[derive(Clone, Debug, PartialEq, Eq)]
pub enum Value {
    /// The absence of a value.
    Null,
    Bool(bool),
    Int(i64),
    Float(String),
    Str(String),
}

/// The mathematical content of a [`Value`].
pub enum ValueView {
    Null,
    Bool(bool),
    Int(i64),
    Float(Seq<char>),
    Str(Seq<char>),
}

impl View for Value {
    type V = ValueView;

    open spec fn view(&self) -> ValueView {
        match *self {
            Value::Null => ValueView::Null,
            Value::Bool(b) => ValueView::Bool(b),
            Value::Int(i) => ValueView::Int(i),
            Value::Float(s) => ValueView::Float(s@),
            Value::Str(s) => ValueView::Str(s@),
        }
    }
}

} // verus!
