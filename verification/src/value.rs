//! Field values: a JSON-shaped sum type.
//!
//! Scalar values are carried directly. Composite or non-scalar values
//! (arrays, objects, floating-point numbers) are carried as their serialized
//! JSON text and compared byte for byte; the host-facing layer converts them
//! at the boundary. The engine itself never looks inside a value: it only
//! stores, returns and compares them.

use vstd::prelude::*;

verus! {

/// Mathematical shape of a [`Value`]: the same alternatives over `Seq<char>`.
pub enum ValueView {
    /// JSON `null`.
    Null,
    /// A boolean.
    Bool(bool),
    /// An integer.
    Int(i64),
    /// A text string.
    Str(Seq<char>),
    /// Any other JSON value, as its serialized text.
    Json(Seq<char>),
}

/// A field value: null, boolean, integer or string, or any other JSON value
/// carried as its serialized text.
#[derive(Debug)]
pub enum Value {
    /// JSON `null`.
    Null,
    /// A boolean.
    Bool(bool),
    /// An integer.
    Int(i64),
    /// A text string.
    Str(String),
    /// Any other JSON value (array, object, float), as its serialized text.
    Json(String),
}

impl View for Value {
    type V = ValueView;

    open spec fn view(&self) -> ValueView {
        match self {
            Value::Null => ValueView::Null,
            Value::Bool(b) => ValueView::Bool(*b),
            Value::Int(i) => ValueView::Int(*i),
            Value::Str(s) => ValueView::Str(s@),
            Value::Json(s) => ValueView::Json(s@),
        }
    }
}

impl Clone for Value {
    /// Cloning preserves the value.
    fn clone(&self) -> (res: Value)
        ensures
            res@ == self@,
    {
        match self {
            Value::Null => Value::Null,
            Value::Bool(b) => Value::Bool(*b),
            Value::Int(i) => Value::Int(*i),
            Value::Str(s) => Value::Str(s.clone()),
            Value::Json(s) => Value::Json(s.clone()),
        }
    }
}

impl PartialEq for Value {
    fn eq(&self, other: &Value) -> (r: bool) {
        match (self, other) {
            (Value::Null, Value::Null) => true,
            (Value::Bool(a), Value::Bool(b)) => *a == *b,
            (Value::Int(a), Value::Int(b)) => *a == *b,
            (Value::Str(a), Value::Str(b)) => *a == *b,
            (Value::Json(a), Value::Json(b)) => *a == *b,
            _ => false,
        }
    }
}

impl vstd::std_specs::cmp::PartialEqSpecImpl for Value {
    open spec fn obeys_eq_spec() -> bool {
        true
    }

    open spec fn eq_spec(&self, other: &Value) -> bool {
        self@ == other@
    }
}

} // verus!
