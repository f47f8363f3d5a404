//! JSON schemas: the tagged sum the biaser enforces, its well-formedness,
//! and validity of a parsed value against a schema.

use vstd::prelude::*;
use vstd::string::*;
use crate::decimal::Decimal;
use crate::text::str_eq;
use crate::value::{veq, JsonValue};

verus! {

/// A JSON schema. Object properties are an ordered association list with
/// distinct keys; number bounds are exact decimals.
#[derive(Debug)]
pub enum JsonSchema {
    Boolean,
    Null,
    Object { required: Vec<String>, properties: Vec<(String, JsonSchema)> },
    Number { min: Option<Decimal>, max: Option<Decimal>, max_decimals: Option<usize> },
    Array { items: Box<JsonSchema>, min_items: Option<usize>, max_items: Option<usize> },
    String { max_length: Option<usize>, enum_values: Option<Vec<String>> },
}

/// First schema associated with key `k`, if any.
pub open spec fn prop_of(props: Seq<(String, JsonSchema)>, k: Seq<char>) -> Option<JsonSchema>
    decreases props.len(),
{
    if props.len() == 0 {
        None
    } else if props[0].0@ == k {
        Some(props[0].1)
    } else {
        prop_of(props.drop_first(), k)
    }
}

pub open spec fn has_prop(props: Seq<(String, JsonSchema)>, k: Seq<char>) -> bool {
    prop_of(props, k) is Some
}

/// Structural well-formedness of a schema: required keys name properties,
/// property keys are distinct, bounds are ordered, and numbers carry at most
/// twelve fractional digits (the exact range of [`Decimal`]).
pub open spec fn schema_wf(s: JsonSchema) -> bool
    decreases s,
{
    match s {
        JsonSchema::Boolean => true,
        JsonSchema::Null => true,
        JsonSchema::Object { required, properties } => {
            &&& forall|i: int|
                0 <= i < required@.len() ==> has_prop(properties@, (#[trigger] required@[i])@)
            &&& forall|i: int, j: int|
                0 <= i < j < properties@.len() ==> (#[trigger] properties@[i]).0@ != (
                #[trigger] properties@[j]).0@
            &&& forall|i: int|
                0 <= i < properties@.len() ==> schema_wf((#[trigger] properties@[i]).1)
        },
        JsonSchema::Number { min, max, max_decimals } => {
            &&& (min is Some && max is Some) ==> min->0.scaled() <= max->0.scaled()
            &&& max_decimals is Some ==> max_decimals->0 <= 12
        },
        JsonSchema::Array { items, min_items, max_items } => {
            &&& (min_items is Some && max_items is Some) ==> min_items->0 <= max_items->0
            &&& schema_wf(*items)
        },
        JsonSchema::String { max_length, enum_values } => {
            enum_values is Some ==> enum_values->0@.len() > 0
        },
    }
}

/// Whether a number schema proposes a leading minus sign.
pub open spec fn minus_offered(min: Option<Decimal>, max: Option<Decimal>) -> bool {
    ||| min is None
    ||| min->0.scaled() < 0
    ||| max->0.scaled() < 0 && max is Some
}

/// A fixed-point value within the given bounds.
pub open spec fn in_bounds(min: Option<Decimal>, max: Option<Decimal>, x: int) -> bool {
    &&& min is Some ==> min->0.scaled() <= x
    &&& max is Some ==> x <= max->0.scaled()
}

/// The whole number `-d` lies within the bounds.
pub open spec fn neg_digit_in_bounds(min: Option<Decimal>, max: Option<Decimal>, d: int) -> bool {
    in_bounds(min, max, -d * crate::decimal::DECIMAL_ONE)
}

/// The whole number `d` lies within the bounds.
pub open spec fn pos_digit_in_bounds(min: Option<Decimal>, max: Option<Decimal>, d: int) -> bool {
    in_bounds(min, max, d * crate::decimal::DECIMAL_ONE)
}

/// Liveness: from every state this schema can put the machine in, some
/// token remains valid until the value can end. Number bounds must admit a
/// one-digit literal on each side they propose, and a string enum must hold
/// a value that fits the length cap.
pub open spec fn schema_live(s: JsonSchema) -> bool
    decreases s,
{
    match s {
        JsonSchema::Boolean => true,
        JsonSchema::Null => true,
        JsonSchema::Object { required, properties } => forall|i: int|
            0 <= i < properties@.len() ==> schema_live((#[trigger] properties@[i]).1),
        JsonSchema::Number { min, max, max_decimals } => {
            &&& (minus_offered(min, max) ==> exists|d: int|
                1 <= d <= 9 && #[trigger] neg_digit_in_bounds(min, max, d))
            &&& (minus_offered(min, max) || exists|d: int|
                1 <= d <= 9 && #[trigger] pos_digit_in_bounds(min, max, d))
        },
        JsonSchema::Array { items, max_items, .. } => {
            &&& (max_items is Some ==> max_items->0 >= 1)
            &&& schema_live(*items)
        },
        JsonSchema::String { max_length, enum_values } => {
            enum_values is Some ==> exists|i: int|
                0 <= i < enum_values->0@.len() && (max_length is Some ==> (
                #[trigger] enum_values->0@[i])@.len() <= max_length->0)
        },
    }
}

/// Some pair in `pairs` carries key `k`.
pub open spec fn pairs_have_key(pairs: Seq<(String, JsonValue)>, k: Seq<char>) -> bool {
    exists|j: int| 0 <= j < pairs.len() && (#[trigger] pairs[j]).0@ == k
}

/// Validity of a value against a schema: required keys present, every key
/// schema-known and recursively valid, array lengths and number bounds
/// respected.
pub open spec fn spec_is_valid(s: JsonSchema, v: JsonValue) -> bool
    decreases v,
{
    match (s, v) {
        (JsonSchema::Boolean, JsonValue::Bool(_)) => true,
        (JsonSchema::Null, JsonValue::Null) => true,
        (JsonSchema::Object { required, properties }, JsonValue::Object(pairs)) => {
            &&& forall|i: int|
                0 <= i < required@.len() ==> pairs_have_key(pairs@, (#[trigger] required@[i])@)
            &&& forall|i: int|
                0 <= i < pairs@.len() ==> match prop_of(properties@, (#[trigger] pairs@[i]).0@) {
                    Some(ps) => spec_is_valid(ps, pairs@[i].1),
                    None => false,
                }
        },
        (JsonSchema::Array { items, min_items, max_items }, JsonValue::Array(vs)) => {
            &&& min_items is Some ==> min_items->0 <= vs@.len()
            &&& max_items is Some ==> vs@.len() <= max_items->0
            &&& forall|i: int| 0 <= i < vs@.len() ==> spec_is_valid(*items, #[trigger] vs@[i])
        },
        (JsonSchema::Number { min, max, .. }, JsonValue::Number(d)) => in_bounds(
            min,
            max,
            d.scaled(),
        ),
        (JsonSchema::String { .. }, JsonValue::String(_)) => true,
        _ => false,
    }
}

/// Validity only looks at the structure of a value: structurally equal
/// values validate alike.
pub proof fn lemma_is_valid_veq(s: JsonSchema, a: JsonValue, b: JsonValue)
    requires
        veq(a, b),
        spec_is_valid(s, a),
    ensures
        spec_is_valid(s, b),
    decreases a,
{
    match (s, a, b) {
        (
            JsonSchema::Object { required, properties },
            JsonValue::Object(xs),
            JsonValue::Object(ys),
        ) => {
            assert forall|i: int| 0 <= i < required@.len() implies pairs_have_key(
                ys@,
                (#[trigger] required@[i])@,
            ) by {
                assert(pairs_have_key(xs@, required@[i]@));
                let j = choose|j: int|
                    0 <= j < xs@.len() && (#[trigger] xs@[j]).0@ == required@[i]@;
                assert(ys@[j].0@ == required@[i]@);
            }
            assert forall|i: int| 0 <= i < ys@.len() implies match prop_of(
                properties@,
                (#[trigger] ys@[i]).0@,
            ) {
                Some(ps) => spec_is_valid(ps, ys@[i].1),
                None => false,
            } by {
                assert(xs@[i].0@ == ys@[i].0@ && veq(xs@[i].1, ys@[i].1));
                let ps = prop_of(properties@, xs@[i].0@);
                assert(ps is Some);
                lemma_is_valid_veq(ps->0, xs@[i].1, ys@[i].1);
            }
        },
        (JsonSchema::Array { items, .. }, JsonValue::Array(xs), JsonValue::Array(ys)) => {
            assert forall|i: int| 0 <= i < ys@.len() implies spec_is_valid(
                *items,
                #[trigger] ys@[i],
            ) by {
                assert(veq(xs@[i], ys@[i]));
                assert(spec_is_valid(*items, xs@[i]));
                lemma_is_valid_veq(*items, xs@[i], ys@[i]);
            }
        },
        _ => {},
    }
}

/// Look a key up in a property list.
pub(crate) fn find_prop<'a>(props: &'a Vec<(String, JsonSchema)>, k: &str) -> (r: Option<
    &'a JsonSchema,
>)
    ensures
        match r {
            Some(p) => prop_of(props@, k@) == Some(*p),
            None => prop_of(props@, k@) is None,
        },
{
    let n = props.len();
    proof {
        assert(props@.skip(0int) =~= props@);
    }
    let mut i: usize = 0;
    while i < n
        invariant
            i <= n,
            n == props@.len(),
            prop_of(props@, k@) == prop_of(props@.skip(i as int), k@),
        decreases n - i,
    {
        proof {
            assert(props@.skip(i as int)[0] == props@[i as int]);
        }
        if str_eq(props[i].0.as_str(), k) {
            return Some(&props[i].1);
        }
        proof {
            assert(props@.skip(i as int).drop_first() =~= props@.skip(i + 1));
        }
        i = i + 1;
    }
    proof {
        assert(props@.skip(n as int).len() == 0);
    }
    None
}

impl JsonSchema {
    /// Whether `value` is a valid instance of this schema.
    pub fn is_valid(&self, value: &JsonValue) -> (r: bool)
        ensures
            r == spec_is_valid(*self, *value),
        decreases *value,
    {
        match (self, value) {
            (JsonSchema::Boolean, JsonValue::Bool(_)) => true,
            (JsonSchema::Null, JsonValue::Null) => true,
            (JsonSchema::Object { required, properties }, JsonValue::Object(pairs)) => {
                let nreq = required.len();
                let mut i: usize = 0;
                while i < nreq
                    invariant
                        i <= nreq,
                        forall|x: int|
                            0 <= x < i ==> pairs_have_key(pairs@, (#[trigger] required@[x])@),
                    decreases nreq - i,
                {
                    if !contains_key(pairs, required[i].as_str()) {
                        return false;
                    }
                    i = i + 1;
                }
                let npairs = pairs.len();
                let mut p: usize = 0;
                while p < npairs
                    invariant
                        p <= npairs,
                        forall|x: int|
                            0 <= x < p ==> match prop_of(properties@, (#[trigger] pairs@[x]).0@) {
                                Some(ps) => spec_is_valid(ps, pairs@[x].1),
                                None => false,
                            },
                    decreases npairs - p,
                {
                    match find_prop(properties, pairs[p].0.as_str()) {
                        Some(ps) => {
                            proof {
                                assert(decreases_to!(pairs@[p as int] => pairs@[p as int].1));
                            }
                            if !ps.is_valid(&pairs[p].1) {
                                return false;
                            }
                        },
                        None => {
                            return false;
                        },
                    }
                    p = p + 1;
                }
                true
            },
            (JsonSchema::Array { items, min_items, max_items }, JsonValue::Array(vs)) => {
                let len = vs.len();
                if let Some(mn) = min_items {
                    if *mn > len {
                        return false;
                    }
                }
                if let Some(mx) = max_items {
                    if *mx < len {
                        return false;
                    }
                }
                let mut i: usize = 0;
                while i < len
                    invariant
                        i <= len,
                        forall|x: int| 0 <= x < i ==> spec_is_valid(**items, #[trigger] vs@[x]),
                    decreases len - i,
                {
                    if !items.is_valid(&vs[i]) {
                        return false;
                    }
                    i = i + 1;
                }
                true
            },
            (JsonSchema::Number { min, max, .. }, JsonValue::Number(d)) => {
                if let Some(mn) = min {
                    if d.lt(mn) {
                        return false;
                    }
                }
                if let Some(mx) = max {
                    if mx.lt(d) {
                        return false;
                    }
                }
                true
            },
            (JsonSchema::String { .. }, JsonValue::String(_)) => true,
            _ => false,
        }
    }
}

/// Whether some pair in `pairs` has key `k`.
fn contains_key(pairs: &Vec<(String, JsonValue)>, k: &str) -> (r: bool)
    ensures
        r == pairs_have_key(pairs@, k@),
{
    let n = pairs.len();
    let mut i: usize = 0;
    while i < n
        invariant
            i <= n,
            n == pairs@.len(),
            forall|j: int| 0 <= j < i ==> (#[trigger] pairs@[j]).0@ != k@,
        decreases n - i,
    {
        if str_eq(pairs[i].0.as_str(), k) {
            return true;
        }
        i = i + 1;
    }
    false
}

} // verus!
