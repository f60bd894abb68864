use vstd::prelude::*;

verus! {

/// A value of the machine language: an integer, the empty list, or a pair.
pub enum V {
    I(i64),
    Nil,
    P(Box<V>, Box<V>),
}

/// Whether `v` is a pair.
pub fn is_pair(v: &V) -> (r: bool)
    ensures
        r == (v is P),
{
    match v {
        V::P(_, _) => true,
        _ => false,
    }
}

/// Structural equality of two values.
pub fn deep_eq(a: &V, b: &V) -> (r: bool)
    ensures
        r == (*a == *b),
    decreases a,
{
    match (a, b) {
        (V::I(x), V::I(y)) => *x == *y,
        (V::Nil, V::Nil) => true,
        (V::P(a1, a2), V::P(b1, b2)) => deep_eq(a1, b1) && deep_eq(a2, b2),
        _ => false,
    }
}

/// Truth of a value: everything but the integer zero is true.
pub open spec fn spec_truthy(v: V) -> bool {
    v != V::I(0)
}

/// Truth of a value: everything but the integer zero is true.
pub fn truthy(v: &V) -> (r: bool)
    ensures
        r == spec_truthy(*v),
{
    match v {
        V::I(n) => *n != 0,
        _ => true,
    }
}

/// A copy of `v`.
pub fn clone_v(v: &V) -> (r: V)
    ensures
        r == *v,
    decreases v,
{
    match v {
        V::I(n) => V::I(*n),
        V::Nil => V::Nil,
        V::P(a, d) => V::P(Box::new(clone_v(a)), Box::new(clone_v(d))),
    }
}

/// The head of a result stack: the car of a pair, or the value itself.
pub open spec fn spec_top(v: V) -> V {
    match v {
        V::P(car, _) => *car,
        other => other,
    }
}

/// The head of a result stack: the car of a pair, or the value itself.
pub fn top(v: V) -> (r: V)
    ensures
        r == spec_top(v),
{
    match v {
        V::P(car, _) => *car,
        other => other,
    }
}

} // verus!
