//! Parsed JSON values, as the biaser reconstructs them from accepted tokens.

use vstd::prelude::*;
use crate::decimal::Decimal;

verus! {

/// A finished (or partially reconstituted) JSON value. Objects keep their
/// keys in commit order; numbers are exact decimals.
#[derive(Debug, PartialEq)]
pub enum JsonValue {
    Null,
    Bool(bool),
    Number(Decimal),
    String(String),
    Array(Vec<JsonValue>),
    Object(Vec<(String, JsonValue)>),
}

/// Structural equality of two values: same shape, same text, same numbers.
pub open spec fn veq(a: JsonValue, b: JsonValue) -> bool
    decreases a,
{
    match (a, b) {
        (JsonValue::Null, JsonValue::Null) => true,
        (JsonValue::Bool(x), JsonValue::Bool(y)) => x == y,
        (JsonValue::Number(x), JsonValue::Number(y)) => x.scaled() == y.scaled(),
        (JsonValue::String(x), JsonValue::String(y)) => x@ == y@,
        (JsonValue::Array(xs), JsonValue::Array(ys)) => xs@.len() == ys@.len() && (forall|i: int|
            0 <= i < xs@.len() ==> veq(#[trigger] xs@[i], ys@[i])),
        (JsonValue::Object(xs), JsonValue::Object(ys)) => xs@.len() == ys@.len() && (forall|i: int|
            0 <= i < xs@.len() ==> (#[trigger] xs@[i]).0@ == ys@[i].0@ && veq(xs@[i].1, ys@[i].1)),
        _ => false,
    }
}

pub proof fn lemma_veq_refl(a: JsonValue)
    ensures
        veq(a, a),
    decreases a,
{
    match a {
        JsonValue::Array(xs) => {
            assert forall|i: int| 0 <= i < xs@.len() implies veq(#[trigger] xs@[i], xs@[i]) by {
                lemma_veq_refl(xs@[i]);
            }
        },
        JsonValue::Object(xs) => {
            assert forall|i: int| 0 <= i < xs@.len() implies (#[trigger] xs@[i]).0@ == xs@[i].0@
                && veq(xs@[i].1, xs@[i].1) by {
                lemma_veq_refl(xs@[i].1);
            }
        },
        _ => {},
    }
}

/// Deep copy with a contract: the copy is structurally equal.
pub fn clone_value(v: &JsonValue) -> (r: JsonValue)
    ensures
        veq(*v, r),
    decreases *v,
{
    match v {
        JsonValue::Null => JsonValue::Null,
        JsonValue::Bool(b) => JsonValue::Bool(*b),
        JsonValue::Number(d) => JsonValue::Number(*d),
        JsonValue::String(s) => JsonValue::String(s.clone()),
        JsonValue::Array(xs) => {
            let n = xs.len();
            let mut out: Vec<JsonValue> = Vec::new();
            let mut i: usize = 0;
            while i < n
                invariant
                    i <= n,
                    n == xs@.len(),
                    out@.len() == i,
                    forall|j: int| 0 <= j < i ==> veq(#[trigger] xs@[j], out@[j]),
                decreases n - i,
            {
                proof {
                    assert(*xs == (*v)->Array_0);
                    assert(decreases_to!(*v => (*v)->Array_0));
                    assert(decreases_to!(*xs => xs@));
                    assert(decreases_to!(xs@ => xs@[i as int]));
                }
                let c = clone_value(&xs[i]);
                out.push(c);
                i = i + 1;
            }
            JsonValue::Array(out)
        },
        JsonValue::Object(xs) => {
            let n = xs.len();
            let mut out: Vec<(String, JsonValue)> = Vec::new();
            let mut i: usize = 0;
            while i < n
                invariant
                    i <= n,
                    n == xs@.len(),
                    out@.len() == i,
                    forall|j: int|
                        0 <= j < i ==> (#[trigger] xs@[j]).0@ == out@[j].0@ && veq(
                            xs@[j].1,
                            out@[j].1,
                        ),
                decreases n - i,
            {
                proof {
                    assert(*xs == (*v)->Object_0);
                    assert(decreases_to!(*v => (*v)->Object_0));
                    assert(decreases_to!(*xs => xs@));
                    assert(decreases_to!(xs@ => xs@[i as int]));
                    assert(decreases_to!(xs@[i as int] => xs@[i as int].1));
                }
                let key = xs[i].0.clone();
                let val = clone_value(&xs[i].1);
                out.push((key, val));
                i = i + 1;
            }
            JsonValue::Object(out)
        },
    }
}

} // verus!
