//! What a SQL value holds.

use vstd::prelude::*;

verus! {

/// The content of a null value.
#[derive(Clone, Copy, Debug, PartialEq, Eq)]
pub struct Empty {}

/// A SQL value's storage class and content.
#[derive(Debug, PartialEq, Eq)]
pub enum Value {
    Null(Empty),
    Integer(i64),
    /// The IEEE 754 bits of a double.
    Float(u64),
    Text(String),
    Blob(Vec<u8>),
    /// The bytes of a text that is not UTF-8.
    RawText(Vec<u8>),
}

/// A SQL value, mathematically.
#[verifier::ext_equal]
pub enum Scalar {
    Null,
    Integer(i64),
    Float(u64),
    Text(Seq<char>),
    Blob(Seq<u8>),
    RawText(Seq<u8>),
}

impl View for Value {
    type V = Scalar;

    open spec fn view(&self) -> Scalar {
        match self {
            Value::Null(_) => Scalar::Null,
            Value::Integer(v) => Scalar::Integer(*v),
            Value::Float(bits) => Scalar::Float(*bits),
            Value::Text(s) => Scalar::Text(s@),
            Value::Blob(b) => Scalar::Blob(b@),
            Value::RawText(b) => Scalar::RawText(b@),
        }
    }
}

impl Clone for Value {
    fn clone(&self) -> (r: Self)
        ensures
            r@ == self@,
    {
        match self {
            Value::Null(_) => Value::Null(Empty {  }),
            Value::Integer(v) => Value::Integer(*v),
            Value::Float(bits) => Value::Float(*bits),
            Value::Text(s) => Value::Text(s.clone()),
            Value::Blob(b) => Value::Blob(vstd::slice::slice_to_vec(b.as_slice())),
            Value::RawText(b) => Value::RawText(vstd::slice::slice_to_vec(b.as_slice())),
        }
    }
}

impl Value {
    /// Whether two values are the same.
    pub fn same(&self, other: &Value) -> (r: bool)
        ensures
            r == (self@ == other@),
    {
        match (self, other) {
            (Value::Null(_), Value::Null(_)) => true,
            (Value::Integer(a), Value::Integer(b)) => *a == *b,
            (Value::Float(a), Value::Float(b)) => *a == *b,
            (Value::Text(a), Value::Text(b)) => crate::text::same_text(a.as_str(), b.as_str()),
            (Value::Blob(a), Value::Blob(b)) => same_bytes(a.as_slice(), b.as_slice()),
            (Value::RawText(a), Value::RawText(b)) => same_bytes(a.as_slice(), b.as_slice()),
            _ => false,
        }
    }
}

/// Whether two byte sequences are the same.
pub fn same_bytes(a: &[u8], b: &[u8]) -> (r: bool)
    ensures
        r == (a@ == b@),
{
    if a.len() != b.len() {
        return false;
    }
    let mut i: usize = 0;
    while i < a.len()
        invariant
            i <= a@.len() == b@.len(),
            forall|k: int| 0 <= k < i ==> a@[k] == b@[k],
        decreases a@.len() - i,
    {
        if a[i] != b[i] {
            return false;
        }
        i = i + 1;
    }
    assert(a@ =~= b@);
    true
}

} // verus!
