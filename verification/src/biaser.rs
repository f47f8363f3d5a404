//! The schema-guided parser state machine.
//!
//! A [`JsonBiaser`] tracks how far a JSON value has been built against a
//! schema. `next_valid_tokens` proposes the abstract tokens that may come
//! next, `advance` consumes one, `can_end` says whether the value is a valid
//! terminal, and `value` reconstructs the value parsed so far. Parent
//! machines own their child machines: an array or object value in progress
//! is a nested [`ParserState`].

use vstd::prelude::*;
use vstd::string::*;
use crate::decimal::{pow10, Decimal, DECIMAL_ONE};
use crate::schema::{in_bounds, minus_offered, pos_digit_in_bounds, prop_of, JsonSchema};
use crate::text::{starts_with, str_eq, str_starts_with};
use crate::token::{token_text, tv, BiaserError, JsonToken, TokenV};
use crate::value::{clone_value, veq, JsonValue};

verus! {

/// Accumulator for a number literal: sign, digit presence, decimal point,
/// fractional digits so far, and the magnitude as a fixed-point value
/// (`|value| * 10^12`).
#[derive(Debug)]
pub struct NumAcc {
    pub neg: bool,
    pub has_digit: bool,
    pub has_decimal: bool,
    pub frac_digits: u32,
    pub magnitude: u128,
}

/// Progress inside an object: between entries, inside a key, after a key,
/// inside a value, or closed.
#[derive(Debug)]
pub enum ObjectPart {
    BeforeKey,
    InKey(String),
    AfterKey(String),
    InValue { key: String, inner: Box<ParserState> },
    Finished,
}

/// The parser state: what has been consumed of one JSON value.
#[derive(Debug)]
pub enum ParserState {
    /// No input received yet.
    Start,
    /// Object opening brace consumed; committed entries and current part.
    InObject { so_far: Vec<(String, JsonValue)>, part: ObjectPart },
    /// Array opening bracket consumed; committed items and the machine for
    /// the element in progress.
    InArray { items: Vec<JsonValue>, inner: Box<ParserState> },
    /// Inside a number literal.
    InInteger(NumAcc),
    /// Inside a string, no closing quote yet.
    InString(String),
    /// The value is finished; no further input is acceptable.
    End(JsonValue),
}

/// The signed fixed-point value of a number accumulator.
pub open spec fn num_fixed(a: NumAcc) -> int {
    if a.neg {
        -(a.magnitude as int)
    } else {
        a.magnitude as int
    }
}

/// Magnitude cap: a literal refuses to continue once it reaches
/// `u32::MAX`, kept here in fixed-point form.
pub open spec fn mag_limit() -> int {
    0xffff_ffffint * 1_000_000_000_000
}

/// The magnitude after appending digit `d`: one more integer digit, or one
/// more fractional digit at the next position.
pub open spec fn mag_after_digit(a: NumAcc, d: int) -> int {
    if a.has_decimal {
        a.magnitude + d * pow10((11 - a.frac_digits) as nat)
    } else {
        a.magnitude * 10 + d * pow10(12)
    }
}

/// The signed fixed-point value after appending digit `d`.
pub open spec fn fixed_after_digit(a: NumAcc, d: int) -> int {
    if a.neg {
        -mag_after_digit(a, d)
    } else {
        mag_after_digit(a, d)
    }
}

/// Appending digit `d` keeps the literal within the schema bounds.
pub open spec fn digit_ok(min: Option<Decimal>, max: Option<Decimal>, a: NumAcc, d: int) -> bool {
    in_bounds(min, max, fixed_after_digit(a, d))
}

/// `Digit(d)` tokens for each `d` in `lo..hi` that satisfies `ok`, in
/// ascending order.
pub open spec fn digits_where(ok: spec_fn(int) -> bool, lo: int, hi: int) -> Seq<TokenV>
    decreases hi - lo,
{
    if lo >= hi {
        Seq::empty()
    } else {
        (if ok(lo) {
            seq![TokenV::Digit(lo as nat)]
        } else {
            Seq::empty()
        }) + digits_where(ok, lo + 1, hi)
    }
}

pub proof fn lemma_digits_where_snoc(ok: spec_fn(int) -> bool, lo: int, hi: int)
    requires
        lo <= hi,
    ensures
        digits_where(ok, lo, hi + 1) == digits_where(ok, lo, hi) + (if ok(hi) {
            seq![TokenV::Digit(hi as nat)]
        } else {
            Seq::<TokenV>::empty()
        }),
    decreases hi - lo,
{
    if lo == hi {
        assert(digits_where(ok, hi, hi) == Seq::<TokenV>::empty());
        assert(digits_where(ok, hi + 1, hi + 1) == Seq::<TokenV>::empty());
        assert(digits_where(ok, lo, hi + 1) =~= digits_where(ok, lo, hi) + (if ok(hi) {
            seq![TokenV::Digit(hi as nat)]
        } else {
            Seq::<TokenV>::empty()
        }));
    } else {
        lemma_digits_where_snoc(ok, lo + 1, hi);
        assert(digits_where(ok, lo, hi + 1) =~= digits_where(ok, lo, hi) + (if ok(hi) {
            seq![TokenV::Digit(hi as nat)]
        } else {
            Seq::<TokenV>::empty()
        }));
    }
}

/// Every token in a digit run is a `Digit(d)` with `lo <= d < hi` and
/// `ok(d)`, and conversely every such digit appears.
pub proof fn lemma_digits_where_members(ok: spec_fn(int) -> bool, lo: int, hi: int)
    requires
        0 <= lo,
    ensures
        forall|k: int|
            #![trigger digits_where(ok, lo, hi)[k]]
            0 <= k < digits_where(ok, lo, hi).len() ==> {
                &&& digits_where(ok, lo, hi)[k] is Digit
                &&& lo <= digits_where(ok, lo, hi)[k]->Digit_0 < hi
                &&& ok(digits_where(ok, lo, hi)[k]->Digit_0 as int)
            },
        forall|d: int| lo <= d < hi && #[trigger] ok(d) ==> digits_where(ok, lo, hi).len() > 0,
    decreases hi - lo,
{
    if lo < hi {
        lemma_digits_where_members(ok, lo + 1, hi);
        let s = digits_where(ok, lo, hi);
        let head = if ok(lo) {
            seq![TokenV::Digit(lo as nat)]
        } else {
            Seq::<TokenV>::empty()
        };
        let rest = digits_where(ok, lo + 1, hi);
        assert(s == head + rest);
        assert forall|k: int| #![trigger s[k]] 0 <= k < s.len() implies {
            &&& s[k] is Digit
            &&& lo <= s[k]->Digit_0 < hi
            &&& ok(s[k]->Digit_0 as int)
        } by {
            if k < head.len() {
                assert(s[k] == head[0]);
            } else {
                assert(s[k] == rest[k - head.len()]);
                assert(digits_where(ok, lo + 1, hi)[k - head.len()] is Digit);
            }
        }
        assert forall|d: int| lo <= d < hi && #[trigger] ok(d) implies digits_where(
            ok,
            lo,
            hi,
        ).len() > 0 by {
            if d > lo {
                assert(digits_where(ok, lo + 1, hi).len() > 0);
            }
        }
    }
}

/// The string-enum remainders: for each enum value that fits the length
/// cap, is not the text so far, and extends it, the unread suffix.
pub open spec fn enum_remainders(
    vs: Seq<Seq<char>>,
    s: Seq<char>,
    max_length: Option<usize>,
) -> Seq<Seq<char>>
    decreases vs.len(),
{
    if vs.len() == 0 {
        Seq::empty()
    } else {
        (if enum_value_extends(vs[0], s, max_length) {
            seq![vs[0].skip(s.len() as int)]
        } else {
            Seq::empty()
        }) + enum_remainders(vs.drop_first(), s, max_length)
    }
}

/// `v` fits the length cap and strictly extends the text so far.
pub open spec fn enum_value_extends(v: Seq<char>, s: Seq<char>, max_length: Option<usize>) -> bool {
    &&& max_length is Some ==> v.len() <= max_length->0
    &&& v != s
    &&& starts_with(v, s)
}

/// Some enum value equals the text so far and fits the length cap.
pub open spec fn enum_can_close(vs: Seq<Seq<char>>, s: Seq<char>, max_length: Option<usize>) -> bool {
    exists|i: int|
        0 <= i < vs.len() && #[trigger] vs[i] == s && (max_length is Some ==> s.len()
            <= max_length->0)
}

pub proof fn lemma_enum_remainders_snoc(vs: Seq<Seq<char>>, i: int, s: Seq<char>, ml: Option<usize>)
    requires
        0 <= i < vs.len(),
    ensures
        enum_remainders(vs.take(i + 1), s, ml) == enum_remainders(vs.take(i), s, ml) + (
        if enum_value_extends(vs[i], s, ml) {
            seq![vs[i].skip(s.len() as int)]
        } else {
            Seq::<Seq<char>>::empty()
        }),
    decreases i,
{
    if i == 0 {
        assert(vs.take(0) =~= Seq::<Seq<char>>::empty());
        assert(vs.take(1)[0] == vs[0]);
        assert(vs.take(1).drop_first() =~= Seq::<Seq<char>>::empty());
    } else {
        lemma_enum_remainders_snoc(vs.drop_first(), i - 1, s, ml);
        assert(vs.take(i + 1)[0] == vs[0]);
        assert(vs.take(i + 1).drop_first() =~= vs.drop_first().take(i));
        assert(vs.take(i)[0] == vs[0]);
        assert(vs.take(i).drop_first() =~= vs.drop_first().take(i - 1));
        assert(vs.drop_first()[i - 1] == vs[i]);
    }
}

/// The keys of `required` not yet committed in `so_far`, in order.
pub open spec fn remaining_required(
    required: Seq<String>,
    so_far: Seq<(String, JsonValue)>,
) -> Seq<Seq<char>>
    decreases required.len(),
{
    if required.len() == 0 {
        Seq::empty()
    } else {
        (if committed_key(so_far, required[0]@) {
            Seq::empty()
        } else {
            seq![required[0]@]
        }) + remaining_required(required.drop_first(), so_far)
    }
}

/// `so_far` already holds an entry for key `k`.
pub open spec fn committed_key(so_far: Seq<(String, JsonValue)>, k: Seq<char>) -> bool {
    exists|j: int| 0 <= j < so_far.len() && (#[trigger] so_far[j]).0@ == k
}

pub proof fn lemma_remaining_required_snoc(
    required: Seq<String>,
    i: int,
    so_far: Seq<(String, JsonValue)>,
)
    requires
        0 <= i < required.len(),
    ensures
        remaining_required(required.take(i + 1), so_far) == remaining_required(
            required.take(i),
            so_far,
        ) + (if committed_key(so_far, required[i]@) {
            Seq::<Seq<char>>::empty()
        } else {
            seq![required[i]@]
        }),
    decreases i,
{
    if i == 0 {
        assert(required.take(0) =~= Seq::<String>::empty());
        assert(required.take(1)[0] == required[0]);
        assert(required.take(1).drop_first() =~= Seq::<String>::empty());
    } else {
        lemma_remaining_required_snoc(required.drop_first(), i - 1, so_far);
        assert(required.take(i + 1)[0] == required[0]);
        assert(required.take(i + 1).drop_first() =~= required.drop_first().take(i));
        assert(required.take(i)[0] == required[0]);
        assert(required.take(i).drop_first() =~= required.drop_first().take(i - 1));
        assert(required.drop_first()[i - 1] == required[i]);
    }
}

/// The accumulator stays in the machine's numeric range: at most twelve
/// fractional digits, and a magnitude that never strays past one more digit
/// beyond the continuation cap.
pub open spec fn acc_bounded(a: NumAcc) -> bool {
    &&& a.frac_digits <= 12
    &&& a.magnitude <= 100_000_000_000_000_000_000_000u128
}

/// Every number accumulator nested in the state is in range.
pub open spec fn num_ranges_ok(state: ParserState) -> bool
    decreases state,
{
    match state {
        ParserState::InInteger(a) => acc_bounded(a),
        ParserState::InArray { items, inner } => num_ranges_ok(*inner),
        ParserState::InObject { so_far, part } => match part {
            ObjectPart::InValue { key, inner } => num_ranges_ok(*inner),
            _ => true,
        },
        _ => true,
    }
}

/// Whether the current state is a valid terminal. Objects end only once
/// closed; arrays end only through their closing bracket; numbers end on any
/// complete literal.
pub open spec fn spec_can_end(state: ParserState) -> bool {
    match state {
        ParserState::Start => false,
        ParserState::InObject { so_far, part } => part is Finished,
        ParserState::InArray { .. } => false,
        ParserState::InInteger(a) => a.has_digit && !(a.has_decimal && a.frac_digits == 0),
        ParserState::InString(_) => false,
        ParserState::End(_) => true,
    }
}

/// Whether the state denotes a value at all (a prefix of an object or array
/// can, as long as every child in progress can end).
pub open spec fn spec_has_value(state: ParserState) -> bool
    decreases state,
{
    match state {
        ParserState::Start => false,
        ParserState::InObject { so_far, part } => match part {
            ObjectPart::BeforeKey => true,
            ObjectPart::Finished => true,
            ObjectPart::InKey(_) => false,
            ObjectPart::AfterKey(_) => false,
            ObjectPart::InValue { key, inner } => spec_can_end(*inner) && spec_has_value(*inner),
        },
        ParserState::InArray { .. } => true,
        ParserState::InInteger(a) => a.has_digit,
        ParserState::InString(_) => true,
        ParserState::End(_) => true,
    }
}

/// The value a state denotes, relationally: `v` is (structurally) the value
/// parsed so far.
pub open spec fn value_rel(state: ParserState, v: JsonValue) -> bool
    decreases state,
{
    match state {
        ParserState::Start => false,
        ParserState::InString(s) => v matches JsonValue::String(x) && x@ == s@,
        ParserState::InInteger(a) => v matches JsonValue::Number(d) && d.scaled() == num_fixed(a),
        ParserState::End(x) => veq(x, v),
        ParserState::InArray { items, inner } => {
            &&& v matches JsonValue::Array(vs)
            &&& if spec_has_value(*inner) {
                &&& vs@.len() == items@.len() + 1
                &&& forall|i: int| 0 <= i < items@.len() ==> veq(#[trigger] items@[i], vs@[i])
                &&& value_rel(*inner, vs@.last())
            } else {
                &&& vs@.len() == items@.len()
                &&& forall|i: int| 0 <= i < items@.len() ==> veq(#[trigger] items@[i], vs@[i])
            }
        },
        ParserState::InObject { so_far, part } => match part {
            ObjectPart::BeforeKey | ObjectPart::Finished => {
                &&& v matches JsonValue::Object(pairs)
                &&& pairs@.len() == so_far@.len()
                &&& forall|i: int|
                    0 <= i < so_far@.len() ==> (#[trigger] so_far@[i]).0@ == pairs@[i].0@ && veq(
                        so_far@[i].1,
                        pairs@[i].1,
                    )
            },
            ObjectPart::InValue { key, inner } => {
                &&& v matches JsonValue::Object(pairs)
                &&& pairs@.len() == so_far@.len() + 1
                &&& forall|i: int|
                    0 <= i < so_far@.len() ==> (#[trigger] so_far@[i]).0@ == pairs@[i].0@ && veq(
                        so_far@[i].1,
                        pairs@[i].1,
                    )
                &&& pairs@.last().0@ == key@
                &&& value_rel(*inner, pairs@.last().1)
            },
            ObjectPart::InKey(_) => false,
            ObjectPart::AfterKey(_) => false,
        },
    }
}

/// Whether the current state can end, executably.
pub(crate) fn state_can_end(state: &ParserState) -> (r: bool)
    ensures
        r == spec_can_end(*state),
{
    match state {
        ParserState::Start => false,
        ParserState::InObject { so_far: _, part } => matches!(part, ObjectPart::Finished),
        ParserState::InArray { .. } => false,
        ParserState::InInteger(a) => a.has_digit && !(a.has_decimal && a.frac_digits == 0),
        ParserState::InString(_) => false,
        ParserState::End(_) => true,
    }
}

/// Consume a state that denotes a value, yielding that value. Used when an
/// element or entry is committed: the child machine is spent.
pub(crate) fn take_value(state: ParserState) -> (r: JsonValue)
    requires
        spec_has_value(state),
        num_ranges_ok(state),
    ensures
        value_rel(state, r),
    decreases state,
{
    match state {
        ParserState::Start => JsonValue::Null,
        ParserState::InString(s) => JsonValue::String(s),
        ParserState::InInteger(a) => {
            let mag = a.magnitude as i128;
            proof {
                crate::decimal::lemma_pow10_pos(0);
            }
            let fixed: i128 = if a.neg {
                -mag
            } else {
                mag
            };
            JsonValue::Number(Decimal::from_fixed(fixed))
        },
        ParserState::End(x) => {
            proof {
                crate::value::lemma_veq_refl(x);
            }
            x
        },
        ParserState::InArray { items, inner } => {
            let mut out = items;
            proof {
                assert forall|i: int| 0 <= i < out@.len() implies veq(
                    #[trigger] out@[i],
                    out@[i],
                ) by {
                    crate::value::lemma_veq_refl(out@[i]);
                }
            }
            if state_can_end_has_value(&*inner) {
                let last = take_value(*inner);
                out.push(last);
            }
            JsonValue::Array(out)
        },
        ParserState::InObject { so_far, part } => {
            let mut pairs = so_far;
            proof {
                assert forall|i: int| 0 <= i < pairs@.len() implies (#[trigger] pairs@[i]).0@
                    == pairs@[i].0@ && veq(pairs@[i].1, pairs@[i].1) by {
                    crate::value::lemma_veq_refl(pairs@[i].1);
                }
            }
            match part {
                ObjectPart::InValue { key, inner } => {
                    let last = take_value(*inner);
                    pairs.push((key, last));
                },
                _ => {},
            }
            JsonValue::Object(pairs)
        },
    }
}

/// Helper for `take_value`: whether a child state denotes a value.
fn state_can_end_has_value(state: &ParserState) -> (r: bool)
    ensures
        r == spec_has_value(*state),
    decreases *state,
{
    match state {
        ParserState::Start => false,
        ParserState::InObject { so_far: _, part } => match part {
            ObjectPart::BeforeKey => true,
            ObjectPart::Finished => true,
            ObjectPart::InKey(_) => false,
            ObjectPart::AfterKey(_) => false,
            ObjectPart::InValue { key: _, inner } => state_can_end(&**inner)
                && state_can_end_has_value(&**inner),
        },
        ParserState::InArray { .. } => true,
        ParserState::InInteger(a) => a.has_digit,
        ParserState::InString(_) => true,
        ParserState::End(_) => true,
    }
}

} // verus!

// ------------------------------------------------------------------
// Token proposals
// ------------------------------------------------------------------

verus! {

/// The view of a token list.
pub open spec fn tokens_viewed(s: Seq<JsonToken>) -> Seq<TokenV> {
    s.map_values(|t: JsonToken| tv(t))
}

/// Proposals in the start state, by schema kind. Zero never leads a number
/// literal, so start digits run from one; a minus sign is offered when a
/// bound is negative or no lower bound is given.
pub open spec fn start_tokens(schema: JsonSchema) -> Seq<TokenV> {
    match schema {
        JsonSchema::Boolean => seq![TokenV::True, TokenV::False],
        JsonSchema::Null => seq![TokenV::Null],
        JsonSchema::Object { .. } => seq![TokenV::CurlyOpen],
        JsonSchema::String { .. } => seq![TokenV::DoubleQuote],
        JsonSchema::Array { .. } => seq![TokenV::BracketOpen],
        JsonSchema::Number { min, max, .. } => digits_where(
            |d: int| pos_digit_in_bounds(min, max, d),
            1,
            10,
        ) + (if minus_offered(min, max) {
            seq![TokenV::Minus]
        } else {
            Seq::<TokenV>::empty()
        }),
    }
}

/// Proposals inside a string. At the length cap only the closing quote; with
/// an enum, the remaining suffixes and, when the text equals a value, the
/// quote; otherwise the quote or any fragment that still fits.
pub open spec fn string_tokens(
    max_length: Option<usize>,
    enum_values: Option<Vec<String>>,
    s: Seq<char>,
) -> Seq<TokenV> {
    if max_length is Some && s.len() >= max_length->0 {
        seq![TokenV::DoubleQuote]
    } else if enum_values is Some {
        let vs = enum_values->0@.map_values(|v: String| v@);
        let rems = enum_remainders(vs, s, max_length);
        (if rems.len() > 0 {
            seq![TokenV::AnyOf(rems)]
        } else {
            Seq::<TokenV>::empty()
        }) + (if enum_can_close(vs, s, max_length) {
            seq![TokenV::DoubleQuote]
        } else {
            Seq::<TokenV>::empty()
        })
    } else {
        seq![
            TokenV::DoubleQuote,
            TokenV::AnyString {
                max_length: if max_length is Some {
                    Some((max_length->0 - s.len()) as usize)
                } else {
                    None
                },
            },
        ]
    }
}

/// Proposals inside a number literal: nothing once the fractional digits are
/// spent or the magnitude has reached the continuation cap; otherwise every
/// digit that keeps the value in bounds, and a decimal point after at least
/// one digit while fractional digits are allowed.
pub open spec fn num_tokens(
    min: Option<Decimal>,
    max: Option<Decimal>,
    max_decimals: Option<usize>,
    a: NumAcc,
) -> Seq<TokenV> {
    let md: int = if max_decimals is Some {
        max_decimals->0 as int
    } else {
        0
    };
    if a.has_decimal && (a.frac_digits >= md || a.frac_digits >= 12) {
        Seq::empty()
    } else if a.magnitude >= mag_limit() {
        Seq::empty()
    } else {
        digits_where(
            |d: int| digit_ok(min, max, a, d),
            if a.has_digit {
                0
            } else {
                1
            },
            10,
        ) + (if !a.has_decimal && md > 0 && a.has_digit {
            seq![TokenV::Decimal]
        } else {
            Seq::<TokenV>::empty()
        })
    }
}

/// What an array adds after its element machine: a comma while strictly
/// below the item cap, and the closing bracket once the minimum is reached.
pub open spec fn array_tail_tokens(
    inner_can_end: bool,
    n: int,
    min_items: Option<usize>,
    max_items: Option<usize>,
) -> Seq<TokenV> {
    if inner_can_end {
        (if max_items is None || n + 1 < max_items->0 {
            seq![TokenV::Comma]
        } else {
            Seq::<TokenV>::empty()
        }) + (if min_items is None || n + 1 >= min_items->0 {
            seq![TokenV::BracketClose]
        } else {
            Seq::<TokenV>::empty()
        })
    } else {
        Seq::empty()
    }
}

/// The set of abstract tokens valid next, by state; empty for a state that
/// does not belong to the schema.
pub open spec fn spec_next(schema: JsonSchema, state: ParserState) -> Seq<TokenV>
    decreases state,
{
    match state {
        ParserState::End(_) => Seq::empty(),
        ParserState::Start => start_tokens(schema),
        ParserState::InString(s) => match schema {
            JsonSchema::String { max_length, enum_values } => string_tokens(
                max_length,
                enum_values,
                s@,
            ),
            _ => Seq::empty(),
        },
        ParserState::InInteger(a) => match schema {
            JsonSchema::Number { min, max, max_decimals } => num_tokens(min, max, max_decimals, a),
            _ => Seq::empty(),
        },
        ParserState::InArray { items, inner } => match schema {
            JsonSchema::Array { items: ischema, min_items, max_items } => spec_next(
                *ischema,
                *inner,
            ) + array_tail_tokens(
                spec_can_end(*inner),
                items@.len() as int,
                min_items,
                max_items,
            ),
            _ => Seq::empty(),
        },
        ParserState::InObject { so_far, part } => match schema {
            JsonSchema::Object { required, properties } => match part {
                ObjectPart::Finished => Seq::empty(),
                ObjectPart::BeforeKey => {
                    if remaining_required(required@, so_far@).len() == 0 {
                        seq![TokenV::CurlyClose]
                    } else {
                        seq![TokenV::DoubleQuote]
                    }
                },
                ObjectPart::AfterKey(_) => seq![TokenV::Colon],
                ObjectPart::InKey(k) => {
                    let rr = remaining_required(required@, so_far@);
                    if rr.len() == 0 {
                        Seq::empty()
                    } else {
                        if starts_with(rr[0], k@) && rr[0] != k@ {
                            seq![TokenV::AnyOf(seq![rr[0].skip(k@.len() as int)])]
                        } else {
                            seq![TokenV::DoubleQuote]
                        }
                    }
                },
                ObjectPart::InValue { key, inner } => match prop_of(properties@, key@) {
                    Some(ps) => spec_next(ps, *inner) + (if spec_can_end(*inner) {
                        if remaining_required(required@, so_far@).len() == 1 {
                            seq![TokenV::CurlyClose]
                        } else {
                            seq![TokenV::Comma]
                        }
                    } else {
                        Seq::<TokenV>::empty()
                    }),
                    None => Seq::empty(),
                },
            },
            _ => Seq::empty(),
        },
    }
}

} // verus!

// ------------------------------------------------------------------
// Executable proposal computation
// ------------------------------------------------------------------

verus! {

/// Executable magnitude cap (`u32::MAX` in fixed-point form).
pub const MAG_LIMIT_FIXED: u128 = 0xffff_ffff * 1_000_000_000_000;

/// Whether `so_far` already holds key `k`.
fn committed_key_exec(so_far: &Vec<(String, JsonValue)>, k: &str) -> (r: bool)
    ensures
        r == committed_key(so_far@, k@),
{
    let n = so_far.len();
    let mut i: usize = 0;
    while i < n
        invariant
            i <= n,
            n == so_far@.len(),
            forall|j: int| 0 <= j < i ==> (#[trigger] so_far@[j]).0@ != k@,
        decreases n - i,
    {
        if str_eq(so_far[i].0.as_str(), k) {
            return true;
        }
        i = i + 1;
    }
    false
}

/// The required keys not yet committed, in order.
fn remaining_required_exec(required: &Vec<String>, so_far: &Vec<(String, JsonValue)>) -> (r: Vec<
    String,
>)
    ensures
        r@.map_values(|k: String| k@) == remaining_required(required@, so_far@),
{
    let n = required.len();
    let mut out: Vec<String> = Vec::new();
    proof {
        assert(required@.take(0int) =~= Seq::<String>::empty());
        assert(out@.map_values(|k: String| k@) =~= remaining_required(
            required@.take(0int),
            so_far@,
        ));
    }
    let mut i: usize = 0;
    while i < n
        invariant
            i <= n,
            n == required@.len(),
            out@.map_values(|k: String| k@) == remaining_required(required@.take(i as int), so_far@),
        decreases n - i,
    {
        proof {
            lemma_remaining_required_snoc(required@, i as int, so_far@);
        }
        if !committed_key_exec(so_far, required[i].as_str()) {
            out.push(required[i].clone());
        }
        proof {
            assert(out@.map_values(|k: String| k@) =~= remaining_required(
                required@.take(i + 1),
                so_far@,
            ));
        }
        i = i + 1;
    }
    proof {
        assert(required@.take(n as int) =~= required@);
    }
    out
}

/// Digit proposals for the start of a number literal, plus the minus sign.
fn start_number_tokens(min: &Option<Decimal>, max: &Option<Decimal>) -> (r: Vec<JsonToken>)
    ensures
        tokens_viewed(r@) == start_tokens(
            JsonSchema::Number { min: *min, max: *max, max_decimals: None },
        ),
{
    let ghost ok = |d: int| pos_digit_in_bounds(*min, *max, d);
    let mut out: Vec<JsonToken> = Vec::new();
    proof {
        assert(tokens_viewed(out@) =~= digits_where(ok, 1, 1));
    }
    let mut d: usize = 1;
    while d < 10
        invariant
            1 <= d <= 10,
            tokens_viewed(out@) == digits_where(ok, 1, d as int),
        decreases 10 - d,
    {
        proof {
            lemma_digits_where_snoc(ok, 1, d as int);
        }
        let fixed: i128 = (d as i128) * DECIMAL_ONE;
        let mut within: bool = true;
        if let Some(mn) = min {
            if fixed < mn.to_fixed() {
                within = false;
            }
        }
        if let Some(mx) = max {
            if fixed > mx.to_fixed() {
                within = false;
            }
        }
        proof {
            assert(within == ok(d as int));
        }
        if within {
            out.push(JsonToken::Digit(d));
        }
        proof {
            assert(tokens_viewed(out@) =~= digits_where(ok, 1, d + 1));
        }
        d = d + 1;
    }
    let minus: bool = match (min, max) {
        (Option::None, _) => true,
        (Option::Some(mn), Option::None) => mn.to_fixed() < 0,
        (Option::Some(mn), Option::Some(mx)) => mn.to_fixed() < 0 || mx.to_fixed() < 0,
    };
    proof {
        assert(minus == minus_offered(*min, *max));
    }
    if minus {
        out.push(JsonToken::Minus);
    }
    proof {
        assert(tokens_viewed(out@) =~= start_tokens(
            JsonSchema::Number { min: *min, max: *max, max_decimals: None },
        ));
    }
    out
}

/// Digit and decimal-point proposals inside a number literal.
fn number_tokens_exec(
    min: &Option<Decimal>,
    max: &Option<Decimal>,
    max_decimals: &Option<usize>,
    a: &NumAcc,
) -> (r: Vec<JsonToken>)
    requires
        acc_bounded(*a),
    ensures
        tokens_viewed(r@) == num_tokens(*min, *max, *max_decimals, *a),
{
    let md: usize = match max_decimals {
        Option::Some(m) => *m,
        Option::None => 0,
    };
    if a.has_decimal && (a.frac_digits as usize >= md || a.frac_digits >= 12) {
        return Vec::new();
    }
    if a.magnitude >= MAG_LIMIT_FIXED {
        return Vec::new();
    }
    // One more digit is allowed; compute each candidate's value exactly.
    let ghost ok = |d: int| digit_ok(*min, *max, *a, d);
    let lo: usize = if a.has_digit {
        0
    } else {
        1
    };
    let mut out: Vec<JsonToken> = Vec::new();
    proof {
        assert(tokens_viewed(out@) =~= digits_where(ok, lo as int, lo as int));
    }
    let mut d: usize = lo;
    while d < 10
        invariant
            lo <= d <= 10,
            tokens_viewed(out@) == digits_where(ok, lo as int, d as int),
            a.magnitude < MAG_LIMIT_FIXED,
            acc_bounded(*a),
        decreases 10 - d,
    {
        proof {
            lemma_digits_where_snoc(ok, lo as int, d as int);
            reveal_with_fuel(pow10, 13);
        }
        let new_mag: u128 = if a.has_decimal {
            let shift = crate::decimal::pow10_u128(11 - a.frac_digits);
            proof {
                crate::decimal::lemma_pow10_pos((11 - a.frac_digits) as nat);
                crate::decimal::lemma_pow10_mono((11 - a.frac_digits) as nat, 12nat);
                assert((d as int) * pow10((11 - a.frac_digits) as nat) <= 9 * pow10(12nat))
                    by (nonlinear_arith)
                    requires
                        0 <= d <= 9,
                        1 <= pow10((11 - a.frac_digits) as nat) <= pow10(12nat),
                ;
            }
            a.magnitude + (d as u128) * shift
        } else {
            a.magnitude * 10 + (d as u128) * 1_000_000_000_000
        };
        proof {
            assert(new_mag < 100_000_000_000_000_000_000_000u128);
        }
        let fixed: i128 = if a.neg {
            -(new_mag as i128)
        } else {
            new_mag as i128
        };
        proof {
            assert(fixed == fixed_after_digit(*a, d as int));
        }
        let mut within: bool = true;
        if let Some(mn) = min {
            if fixed < mn.to_fixed() {
                within = false;
            }
        }
        if let Some(mx) = max {
            if fixed > mx.to_fixed() {
                within = false;
            }
        }
        proof {
            assert(within == ok(d as int));
        }
        if within {
            out.push(JsonToken::Digit(d));
        }
        proof {
            assert(tokens_viewed(out@) =~= digits_where(ok, lo as int, d + 1));
        }
        d = d + 1;
    }
    if !a.has_decimal && md > 0 && a.has_digit {
        out.push(JsonToken::Decimal);
    }
    proof {
        assert(tokens_viewed(out@) =~= num_tokens(*min, *max, *max_decimals, *a));
    }
    out
}

} // verus!

verus! {

/// Proposals inside a string under an enum: the remaining suffixes and,
/// when the text equals an enum value, the closing quote.
fn string_enum_tokens(max_length: &Option<usize>, vs: &Vec<String>, s: &str) -> (r: Vec<JsonToken>)
    ensures
        tokens_viewed(r@) == string_tokens(*max_length, Some(*vs), s@),
    decreases 0int,
{
    let slen = s.unicode_len();
    if let Some(ml) = max_length {
        if slen >= *ml {
            let mut out: Vec<JsonToken> = Vec::new();
            out.push(JsonToken::DoubleQuote);
            proof {
                assert(tokens_viewed(out@) =~= string_tokens(*max_length, Some(*vs), s@));
            }
            return out;
        }
    }
    let ghost vsv = vs@.map_values(|v: String| v@);
    let n = vs.len();
    let mut rems: Vec<String> = Vec::new();
    let mut can_close: bool = false;
    proof {
        assert(vsv.take(0int) =~= Seq::<Seq<char>>::empty());
        assert(rems@.map_values(|v: String| v@) =~= enum_remainders(vsv.take(0int), s@, *max_length));
    }
    let mut i: usize = 0;
    while i < n
        invariant
            i <= n,
            n == vs@.len(),
            vsv == vs@.map_values(|v: String| v@),
            rems@.map_values(|v: String| v@) == enum_remainders(vsv.take(i as int), s@, *max_length),
            can_close == exists|j: int|
                0 <= j < i && #[trigger] vsv[j] == s@ && (*max_length is Some ==> s@.len()
                    <= max_length->0),
        decreases n - i,
    {
        proof {
            lemma_enum_remainders_snoc(vsv, i as int, s@, *max_length);
            assert(vsv[i as int] == vs@[i as int]@);
        }
        let v = &vs[i];
        let vlen = v.as_str().unicode_len();
        let fits: bool = match max_length {
            Option::Some(ml) => vlen <= *ml,
            Option::None => true,
        };
        if fits {
            if str_eq(v.as_str(), s) {
                can_close = true;
            } else if str_starts_with(v.as_str(), s) {
                let rem = v.as_str().substring_char(slen, vlen);
                proof {
                    assert(rem@ =~= vsv[i as int].skip(s@.len() as int));
                }
                rems.push(rem.to_owned());
            }
        }
        proof {
            assert(rems@.map_values(|v: String| v@) =~= enum_remainders(
                vsv.take(i + 1),
                s@,
                *max_length,
            ));
        }
        i = i + 1;
    }
    proof {
        assert(vsv.take(n as int) =~= vsv);
    }
    let mut out: Vec<JsonToken> = Vec::new();
    if rems.len() > 0 {
        out.push(JsonToken::AnyOf(rems));
    }
    if can_close {
        out.push(JsonToken::DoubleQuote);
    }
    proof {
        assert(tokens_viewed(out@) =~~= string_tokens(*max_length, Some(*vs), s@));
    }
    out
}

/// The set of abstract tokens valid next.
pub(crate) fn next_tokens(schema: &JsonSchema, state: &ParserState) -> (r: Vec<JsonToken>)
    requires
        num_ranges_ok(*state),
    ensures
        tokens_viewed(r@) == spec_next(*schema, *state),
    decreases *state,
{
    match state {
        ParserState::End(_) => Vec::new(),
        ParserState::Start => match schema {
            JsonSchema::Boolean => {
                let mut out: Vec<JsonToken> = Vec::new();
                out.push(JsonToken::True);
                out.push(JsonToken::False);
                proof {
                    assert(tokens_viewed(out@) =~= start_tokens(*schema));
                }
                out
            },
            JsonSchema::Null => {
                let mut out: Vec<JsonToken> = Vec::new();
                out.push(JsonToken::Null);
                proof {
                    assert(tokens_viewed(out@) =~= start_tokens(*schema));
                }
                out
            },
            JsonSchema::Object { .. } => {
                let mut out: Vec<JsonToken> = Vec::new();
                out.push(JsonToken::CurlyOpen);
                proof {
                    assert(tokens_viewed(out@) =~= start_tokens(*schema));
                }
                out
            },
            JsonSchema::String { .. } => {
                let mut out: Vec<JsonToken> = Vec::new();
                out.push(JsonToken::DoubleQuote);
                proof {
                    assert(tokens_viewed(out@) =~= start_tokens(*schema));
                }
                out
            },
            JsonSchema::Array { .. } => {
                let mut out: Vec<JsonToken> = Vec::new();
                out.push(JsonToken::BracketOpen);
                proof {
                    assert(tokens_viewed(out@) =~= start_tokens(*schema));
                }
                out
            },
            JsonSchema::Number { min, max, max_decimals } => {
                let out = start_number_tokens(min, max);
                proof {
                    assert(start_tokens(*schema) =~= start_tokens(
                        JsonSchema::Number { min: *min, max: *max, max_decimals: None },
                    ));
                }
                out
            },
        },
        ParserState::InString(s) => match schema {
            JsonSchema::String { max_length, enum_values } => {
                match enum_values {
                    Option::Some(vs) => string_enum_tokens(max_length, vs, s.as_str()),
                    Option::None => {
                        let slen = s.as_str().unicode_len();
                        let mut out: Vec<JsonToken> = Vec::new();
                        match max_length {
                            Option::Some(ml) => {
                                if slen >= *ml {
                                    out.push(JsonToken::DoubleQuote);
                                } else {
                                    out.push(JsonToken::DoubleQuote);
                                    out.push(
                                        JsonToken::AnyString { max_length: Some(*ml - slen) },
                                    );
                                }
                            },
                            Option::None => {
                                out.push(JsonToken::DoubleQuote);
                                out.push(JsonToken::AnyString { max_length: None });
                            },
                        }
                        proof {
                            assert(tokens_viewed(out@) =~= string_tokens(
                                *max_length,
                                Option::<Vec<String>>::None,
                                s@,
                            ));
                        }
                        out
                    },
                }
            },
            _ => Vec::new(),
        },
        ParserState::InInteger(a) => match schema {
            JsonSchema::Number { min, max, max_decimals } => number_tokens_exec(
                min,
                max,
                max_decimals,
                a,
            ),
            _ => Vec::new(),
        },
        ParserState::InArray { items, inner } => match schema {
            JsonSchema::Array { items: ischema, min_items, max_items } => {
                let mut out = next_tokens(&**ischema, &**inner);
                let n = items.len();
                if state_can_end(&**inner) {
                    let comma_ok: bool = match max_items {
                        Option::None => true,
                        Option::Some(mx) => n < usize::MAX && n + 1 < *mx,
                    };
                    if comma_ok {
                        out.push(JsonToken::Comma);
                    }
                    let close_ok: bool = match min_items {
                        Option::None => true,
                        Option::Some(mn) => *mn == 0 || n >= *mn - 1,
                    };
                    if close_ok {
                        out.push(JsonToken::BracketClose);
                    }
                }
                proof {
                    assert(tokens_viewed(out@) =~~= spec_next(*schema, *state));
                }
                out
            },
            _ => Vec::new(),
        },
        ParserState::InObject { so_far, part } => match schema {
            JsonSchema::Object { required, properties } => match part {
                ObjectPart::Finished => Vec::new(),
                ObjectPart::BeforeKey => {
                    let rr = remaining_required_exec(required, so_far);
                    let mut out: Vec<JsonToken> = Vec::new();
                    if rr.len() == 0 {
                        proof {
                            assert(remaining_required(required@, so_far@).len() == 0);
                        }
                        out.push(JsonToken::CurlyClose);
                    } else {
                        out.push(JsonToken::DoubleQuote);
                    }
                    proof {
                        assert(tokens_viewed(out@) =~= spec_next(*schema, *state));
                    }
                    out
                },
                ObjectPart::AfterKey(_) => {
                    let mut out: Vec<JsonToken> = Vec::new();
                    out.push(JsonToken::Colon);
                    proof {
                        assert(tokens_viewed(out@) =~= spec_next(*schema, *state));
                    }
                    out
                },
                ObjectPart::InKey(k) => {
                    let rr = remaining_required_exec(required, so_far);
                    let mut out: Vec<JsonToken> = Vec::new();
                    if rr.len() == 0 {
                        proof {
                            assert(remaining_required(required@, so_far@).len() == 0);
                        }
                    } else {
                        let rk = rr[0].as_str();
                        proof {
                            assert(rk@ == remaining_required(required@, so_far@)[0]);
                        }
                        if str_starts_with(rk, k.as_str()) && !str_eq(rk, k.as_str()) {
                            let klen = k.as_str().unicode_len();
                            let rklen = rk.unicode_len();
                            let rem = rk.substring_char(klen, rklen);
                            proof {
                                assert(rem@ =~= remaining_required(required@, so_far@)[0].skip(
                                    k@.len() as int,
                                ));
                            }
                            let mut one: Vec<String> = Vec::new();
                            one.push(rem.to_owned());
                            out.push(JsonToken::AnyOf(one));
                        } else {
                            out.push(JsonToken::DoubleQuote);
                        }
                    }
                    proof {
                        assert(tokens_viewed(out@) =~~= spec_next(*schema, *state));
                    }
                    out
                },
                ObjectPart::InValue { key, inner } => {
                    match find_prop_local(properties, key.as_str()) {
                        Option::Some(ps) => {
                            let mut out = next_tokens(ps, &**inner);
                            if state_can_end(&**inner) {
                                let rr = remaining_required_exec(required, so_far);
                                if rr.len() == 1 {
                                    out.push(JsonToken::CurlyClose);
                                } else {
                                    out.push(JsonToken::Comma);
                                }
                            }
                            proof {
                                assert(tokens_viewed(out@) =~~= spec_next(*schema, *state));
                            }
                            out
                        },
                        Option::None => Vec::new(),
                    }
                },
            },
            _ => Vec::new(),
        },
    }
}

/// Look a key up in a property list (local copy with the same contract as
/// the schema module's lookup).
fn find_prop_local<'a>(props: &'a Vec<(String, JsonSchema)>, k: &str) -> (r: Option<
    &'a JsonSchema,
>)
    ensures
        match r {
            Some(p) => prop_of(props@, k@) == Some(*p),
            None => prop_of(props@, k@) is None,
        },
{
    crate::schema::find_prop(props, k)
}

} // verus!

// ------------------------------------------------------------------
// Transitions
// ------------------------------------------------------------------

verus! {

/// The tokens `advance` absorbs in each state: the exact domain on which it
/// returns `Ok`. Broader than the proposals of `spec_next` (a string state
/// takes any fragment), but never beyond what keeps the machine coherent:
/// no token fits a finished value, a key must name a property before its
/// colon, and a number refuses digits past the machine's numeric range.
pub open spec fn spec_accepts(schema: JsonSchema, state: ParserState, t: TokenV) -> bool
    decreases state,
{
    match state {
        ParserState::End(_) => false,
        ParserState::Start => match t {
            TokenV::True => true,
            TokenV::False => true,
            TokenV::Null => true,
            TokenV::CurlyOpen => schema is Object,
            TokenV::BracketOpen => schema is Array,
            TokenV::Minus => true,
            TokenV::Digit(n) => n <= 9,
            TokenV::DoubleQuote => true,
            _ => false,
        },
        ParserState::InString(_) => match t {
            TokenV::DoubleQuote => true,
            _ => match token_text(t) {
                Some(txt) => !txt.contains('"'),
                None => false,
            },
        },
        ParserState::InInteger(a) => match t {
            TokenV::Digit(n) => n <= 9 && (a.has_decimal ==> a.frac_digits < 12) && a.magnitude
                < mag_limit(),
            TokenV::Decimal => !a.has_decimal && a.has_digit,
            _ => false,
        },
        ParserState::InArray { items, inner } => match schema {
            JsonSchema::Array { items: ischema, .. } => {
                if t is Comma && spec_can_end(*inner) {
                    true
                } else if t is BracketClose && spec_can_end(*inner) {
                    true
                } else {
                    spec_accepts(*ischema, *inner, t)
                }
            },
            _ => false,
        },
        ParserState::InObject { so_far, part } => match schema {
            JsonSchema::Object { required, properties } => match part {
                ObjectPart::BeforeKey => t is CurlyClose || t is DoubleQuote,
                ObjectPart::InKey(_) => match t {
                    TokenV::DoubleQuote => true,
                    _ => match token_text(t) {
                        Some(txt) => !txt.contains('"'),
                        None => false,
                    },
                },
                ObjectPart::AfterKey(k) => t is Colon && crate::schema::has_prop(properties@, k@),
                ObjectPart::InValue { key, inner } => match prop_of(properties@, key@) {
                    Some(ps) => {
                        if t is Comma && spec_can_end(*inner) {
                            true
                        } else if t is CurlyClose && spec_can_end(*inner) && remaining_required(
                            required@,
                            so_far@,
                        ).len() == 1 {
                            true
                        } else {
                            spec_accepts(ps, *inner, t)
                        }
                    },
                    None => false,
                },
                ObjectPart::Finished => false,
            },
            _ => false,
        },
    }
}

/// The transition relation: state `s2` is what consuming `t` in `state`
/// produces. Committed values carry over unchanged; a committed child value
/// is pinned by `value_rel`.
pub open spec fn trans(schema: JsonSchema, state: ParserState, t: TokenV, s2: ParserState) -> bool
    decreases state,
{
    match state {
        ParserState::End(_) => false,
        ParserState::Start => match t {
            TokenV::True => s2 == ParserState::End(JsonValue::Bool(true)),
            TokenV::False => s2 == ParserState::End(JsonValue::Bool(false)),
            TokenV::Null => s2 == ParserState::End(JsonValue::Null),
            TokenV::CurlyOpen => {
                &&& schema is Object
                &&& s2 matches ParserState::InObject { so_far, part }
                &&& so_far@ == Seq::<(String, JsonValue)>::empty()
                &&& part is BeforeKey
            },
            TokenV::BracketOpen => {
                &&& schema is Array
                &&& s2 matches ParserState::InArray { items, inner }
                &&& items@ == Seq::<JsonValue>::empty()
                &&& *inner is Start
            },
            TokenV::Minus => s2 == ParserState::InInteger(
                NumAcc {
                    neg: true,
                    has_digit: false,
                    has_decimal: false,
                    frac_digits: 0,
                    magnitude: 0,
                },
            ),
            TokenV::Digit(n) => n <= 9 && s2 == ParserState::InInteger(
                NumAcc {
                    neg: false,
                    has_digit: true,
                    has_decimal: false,
                    frac_digits: 0,
                    magnitude: (n * pow10(12)) as u128,
                },
            ),
            TokenV::DoubleQuote => s2 matches ParserState::InString(x) && x@ == Seq::<
                char,
            >::empty(),
            _ => false,
        },
        ParserState::InString(s) => match t {
            TokenV::DoubleQuote => {
                &&& s2 matches ParserState::End(v)
                &&& v matches JsonValue::String(x)
                &&& x@ == s@
            },
            _ => match token_text(t) {
                Some(txt) => {
                    &&& !txt.contains('"')
                    &&& s2 matches ParserState::InString(x)
                    &&& x@ == s@ + txt
                },
                None => false,
            },
        },
        ParserState::InInteger(a) => match t {
            TokenV::Digit(n) => n <= 9 && (a.has_decimal ==> a.frac_digits < 12) && a.magnitude
                < mag_limit() && s2 == ParserState::InInteger(
                NumAcc {
                    neg: a.neg,
                    has_digit: true,
                    has_decimal: a.has_decimal,
                    frac_digits: if a.has_decimal {
                        (a.frac_digits + 1) as u32
                    } else {
                        0
                    },
                    magnitude: mag_after_digit(a, n as int) as u128,
                },
            ),
            TokenV::Decimal => !a.has_decimal && a.has_digit && s2 == ParserState::InInteger(
                NumAcc {
                    neg: a.neg,
                    has_digit: a.has_digit,
                    has_decimal: true,
                    frac_digits: 0,
                    magnitude: a.magnitude,
                },
            ),
            _ => false,
        },
        ParserState::InArray { items, inner } => match schema {
            JsonSchema::Array { items: ischema, .. } => {
                if t is Comma && spec_can_end(*inner) {
                    &&& s2 matches ParserState::InArray { items: items2, inner: inner2 }
                    &&& *inner2 is Start
                    &&& committed_items(items@, *inner, items2@)
                } else if t is BracketClose && spec_can_end(*inner) {
                    &&& s2 matches ParserState::End(v)
                    &&& v matches JsonValue::Array(vs)
                    &&& committed_items(items@, *inner, vs@)
                } else {
                    &&& s2 matches ParserState::InArray { items: items2, inner: inner2 }
                    &&& items2@ == items@
                    &&& trans(*ischema, *inner, t, *inner2)
                }
            },
            _ => false,
        },
        ParserState::InObject { so_far, part } => match schema {
            JsonSchema::Object { required, properties } => match part {
                ObjectPart::BeforeKey => {
                    if t is CurlyClose {
                        &&& s2 matches ParserState::InObject { so_far: sf2, part: p2 }
                        &&& sf2@ == so_far@
                        &&& p2 is Finished
                    } else if t is DoubleQuote {
                        &&& s2 matches ParserState::InObject { so_far: sf2, part: p2 }
                        &&& sf2@ == so_far@
                        &&& p2 matches ObjectPart::InKey(k)
                        &&& k@ == Seq::<char>::empty()
                    } else {
                        false
                    }
                },
                ObjectPart::InKey(k) => {
                    if t is DoubleQuote {
                        &&& s2 matches ParserState::InObject { so_far: sf2, part: p2 }
                        &&& sf2@ == so_far@
                        &&& p2 matches ObjectPart::AfterKey(k2)
                        &&& k2@ == k@
                    } else {
                        match token_text(t) {
                            Some(txt) => {
                                &&& !txt.contains('"')
                                &&& s2 matches ParserState::InObject { so_far: sf2, part: p2 }
                                &&& sf2@ == so_far@
                                &&& p2 matches ObjectPart::InKey(k2)
                                &&& k2@ == k@ + txt
                            },
                            None => false,
                        }
                    }
                },
                ObjectPart::AfterKey(k) => {
                    &&& t is Colon
                    &&& crate::schema::has_prop(properties@, k@)
                    &&& s2 matches ParserState::InObject { so_far: sf2, part: p2 }
                    &&& sf2@ == so_far@
                    &&& p2 matches ObjectPart::InValue { key, inner }
                    &&& key@ == k@
                    &&& *inner is Start
                },
                ObjectPart::InValue { key, inner } => match prop_of(properties@, key@) {
                    Some(ps) => {
                        if t is Comma && spec_can_end(*inner) {
                            &&& s2 matches ParserState::InObject { so_far: sf2, part: p2 }
                            &&& p2 is BeforeKey
                            &&& committed_entry(so_far@, key@, *inner, sf2@)
                        } else if t is CurlyClose && spec_can_end(*inner) && remaining_required(
                            required@,
                            so_far@,
                        ).len() == 1 {
                            &&& s2 matches ParserState::InObject { so_far: sf2, part: p2 }
                            &&& p2 is Finished
                            &&& committed_entry(so_far@, key@, *inner, sf2@)
                        } else {
                            &&& s2 matches ParserState::InObject { so_far: sf2, part: p2 }
                            &&& sf2@ == so_far@
                            &&& p2 matches ObjectPart::InValue { key: key2, inner: inner2 }
                            &&& key2@ == key@
                            &&& trans(ps, *inner, t, *inner2)
                        }
                    },
                    None => false,
                },
                ObjectPart::Finished => false,
            },
            _ => false,
        },
    }
}

/// After a comma or closing bracket, the committed items are the old ones
/// followed by the finished element's value.
pub open spec fn committed_items(
    items: Seq<JsonValue>,
    inner: ParserState,
    items2: Seq<JsonValue>,
) -> bool {
    if spec_has_value(inner) {
        &&& items2.len() == items.len() + 1
        &&& forall|i: int| 0 <= i < items.len() ==> items2[i] == #[trigger] items[i]
        &&& value_rel(inner, items2.last())
    } else {
        items2 == items
    }
}

/// After a comma or closing brace, the committed entries are the old ones
/// followed by the finished entry.
pub open spec fn committed_entry(
    so_far: Seq<(String, JsonValue)>,
    key: Seq<char>,
    inner: ParserState,
    sf2: Seq<(String, JsonValue)>,
) -> bool {
    &&& sf2.len() == so_far.len() + 1
    &&& forall|i: int| 0 <= i < so_far.len() ==> sf2[i] == #[trigger] so_far[i]
    &&& sf2.last().0@ == key
    &&& value_rel(inner, sf2.last().1)
}

} // verus!

verus! {

/// A state that can end always denotes a value.
pub proof fn lemma_can_end_has_value(state: ParserState)
    requires
        spec_can_end(state),
    ensures
        spec_has_value(state),
{
}

/// Consume one token, by value: the new state on success, or the state
/// given back unchanged when the token cannot continue it.
fn advance_state(schema: &JsonSchema, state: ParserState, input: &JsonToken) -> (r: Result<
    ParserState,
    ParserState,
>)
    requires
        num_ranges_ok(state),
    ensures
        match r {
            Ok(s2) => {
                &&& spec_accepts(*schema, state, tv(*input))
                &&& trans(*schema, state, tv(*input), s2)
                &&& num_ranges_ok(s2)
            },
            Err(s0) => {
                &&& !spec_accepts(*schema, state, tv(*input))
                &&& s0 == state
            },
        },
    decreases state,
{
    proof {
        reveal_with_fuel(num_ranges_ok, 4);
    }
    match state {
        ParserState::End(v) => Err(ParserState::End(v)),
        ParserState::Start => match input {
            JsonToken::True => Ok(ParserState::End(JsonValue::Bool(true))),
            JsonToken::False => Ok(ParserState::End(JsonValue::Bool(false))),
            JsonToken::Null => Ok(ParserState::End(JsonValue::Null)),
            JsonToken::CurlyOpen => {
                if matches!(schema, JsonSchema::Object { .. }) {
                    Ok(
                        ParserState::InObject {
                            so_far: Vec::new(),
                            part: ObjectPart::BeforeKey,
                        },
                    )
                } else {
                    Err(ParserState::Start)
                }
            },
            JsonToken::BracketOpen => {
                if matches!(schema, JsonSchema::Array { .. }) {
                    Ok(
                        ParserState::InArray {
                            items: Vec::new(),
                            inner: Box::new(ParserState::Start),
                        },
                    )
                } else {
                    Err(ParserState::Start)
                }
            },
            JsonToken::Minus => Ok(
                ParserState::InInteger(
                    NumAcc {
                        neg: true,
                        has_digit: false,
                        has_decimal: false,
                        frac_digits: 0,
                        magnitude: 0,
                    },
                ),
            ),
            JsonToken::Digit(n) => {
                if *n <= 9 {
                    proof {
                        reveal_with_fuel(pow10, 13);
                    }
                    Ok(
                        ParserState::InInteger(
                            NumAcc {
                                neg: false,
                                has_digit: true,
                                has_decimal: false,
                                frac_digits: 0,
                                magnitude: (*n as u128) * 1_000_000_000_000,
                            },
                        ),
                    )
                } else {
                    Err(ParserState::Start)
                }
            },
            JsonToken::DoubleQuote => Ok(ParserState::InString(String::new())),
            _ => Err(ParserState::Start),
        },
        ParserState::InString(s) => match input {
            JsonToken::DoubleQuote => Ok(ParserState::End(JsonValue::String(s))),
            _ => match input.to_string() {
                Option::Some(txt) => {
                    if crate::text::str_contains_char(txt.as_str(), '"') {
                        Err(ParserState::InString(s))
                    } else {
                        let mut s = s;
                        s.append(txt.as_str());
                        Ok(ParserState::InString(s))
                    }
                },
                Option::None => Err(ParserState::InString(s)),
            },
        },
        ParserState::InInteger(a) => match input {
            JsonToken::Digit(n) => {
                if *n <= 9 && !(a.has_decimal && a.frac_digits >= 12) && a.magnitude
                    < MAG_LIMIT_FIXED {
                    proof {
                        reveal_with_fuel(pow10, 13);
                    }
                    let new_mag: u128 = if a.has_decimal {
                        let shift = crate::decimal::pow10_u128(11 - a.frac_digits);
                        proof {
                            crate::decimal::lemma_pow10_pos((11 - a.frac_digits) as nat);
                            crate::decimal::lemma_pow10_mono((11 - a.frac_digits) as nat, 12nat);
                            assert((*n as int) * pow10((11 - a.frac_digits) as nat) <= 9 * pow10(
                                12nat,
                            )) by (nonlinear_arith)
                                requires
                                    0 <= *n <= 9,
                                    1 <= pow10((11 - a.frac_digits) as nat) <= pow10(12nat),
                            ;
                        }
                        a.magnitude + (*n as u128) * shift
                    } else {
                        a.magnitude * 10 + (*n as u128) * 1_000_000_000_000
                    };
                    Ok(
                        ParserState::InInteger(
                            NumAcc {
                                neg: a.neg,
                                has_digit: true,
                                has_decimal: a.has_decimal,
                                frac_digits: if a.has_decimal {
                                    a.frac_digits + 1
                                } else {
                                    0
                                },
                                magnitude: new_mag,
                            },
                        ),
                    )
                } else {
                    Err(ParserState::InInteger(a))
                }
            },
            JsonToken::Decimal => {
                if !a.has_decimal && a.has_digit {
                    Ok(
                        ParserState::InInteger(
                            NumAcc {
                                neg: a.neg,
                                has_digit: a.has_digit,
                                has_decimal: true,
                                frac_digits: 0,
                                magnitude: a.magnitude,
                            },
                        ),
                    )
                } else {
                    Err(ParserState::InInteger(a))
                }
            },
            _ => Err(ParserState::InInteger(a)),
        },
        ParserState::InArray { items, inner } => {
            match schema {
                JsonSchema::Array { items: ischema, .. } => {
                    let inner_end = state_can_end(&*inner);
                    match input {
                        JsonToken::Comma if inner_end => {
                            proof {
                                lemma_can_end_has_value(*inner);
                            }
                            let mut items = items;
                            let v = take_value(*inner);
                            items.push(v);
                            let s2 = ParserState::InArray {
                                items,
                                inner: Box::new(ParserState::Start),
                            };
                            proof {
                                assert(num_ranges_ok(s2));
                            }
                            Ok(s2)
                        },
                        JsonToken::BracketClose if inner_end => {
                            proof {
                                lemma_can_end_has_value(*inner);
                            }
                            let mut items = items;
                            let v = take_value(*inner);
                            items.push(v);
                            Ok(ParserState::End(JsonValue::Array(items)))
                        },
                        _ => match advance_state(&**ischema, *inner, input) {
                            Ok(inner2) => {
                                let s2 = ParserState::InArray { items, inner: Box::new(inner2) };
                                proof {
                                    assert(num_ranges_ok(s2));
                                }
                                Ok(s2)
                            },
                            Err(inner0) => {
                                let s0 = ParserState::InArray { items, inner: Box::new(inner0) };
                                proof {
                                    assert(s0 == state);
                                }
                                Err(s0)
                            },
                        },
                    }
                },
                _ => Err(ParserState::InArray { items, inner }),
            }
        },
        ParserState::InObject { so_far, part } => {
            match schema {
                JsonSchema::Object { required, properties } => match part {
                    ObjectPart::BeforeKey => match input {
                        JsonToken::CurlyClose => Ok(
                            ParserState::InObject { so_far, part: ObjectPart::Finished },
                        ),
                        JsonToken::DoubleQuote => Ok(
                            ParserState::InObject {
                                so_far,
                                part: ObjectPart::InKey(String::new()),
                            },
                        ),
                        _ => Err(ParserState::InObject { so_far, part: ObjectPart::BeforeKey }),
                    },
                    ObjectPart::InKey(k) => match input {
                        JsonToken::DoubleQuote => Ok(
                            ParserState::InObject { so_far, part: ObjectPart::AfterKey(k) },
                        ),
                        _ => match input.to_string() {
                            Option::Some(txt) => {
                                if crate::text::str_contains_char(txt.as_str(), '"') {
                                    Err(
                                        ParserState::InObject {
                                            so_far,
                                            part: ObjectPart::InKey(k),
                                        },
                                    )
                                } else {
                                    let mut k = k;
                                    k.append(txt.as_str());
                                    Ok(
                                        ParserState::InObject {
                                            so_far,
                                            part: ObjectPart::InKey(k),
                                        },
                                    )
                                }
                            },
                            Option::None => Err(
                                ParserState::InObject { so_far, part: ObjectPart::InKey(k) },
                            ),
                        },
                    },
                    ObjectPart::AfterKey(k) => match input {
                        JsonToken::Colon => {
                            if find_prop_local(properties, k.as_str()).is_some() {
                                let s2 = ParserState::InObject {
                                    so_far,
                                    part: ObjectPart::InValue {
                                        key: k,
                                        inner: Box::new(ParserState::Start),
                                    },
                                };
                                proof {
                                    assert(num_ranges_ok(s2));
                                }
                                Ok(s2)
                            } else {
                                Err(
                                    ParserState::InObject {
                                        so_far,
                                        part: ObjectPart::AfterKey(k),
                                    },
                                )
                            }
                        },
                        _ => Err(ParserState::InObject { so_far, part: ObjectPart::AfterKey(k) }),
                    },
                    ObjectPart::InValue { key, inner } => {
                        match find_prop_local(properties, key.as_str()) {
                            Option::Some(ps) => {
                                let inner_end = state_can_end(&*inner);
                                match input {
                                    JsonToken::Comma if inner_end => {
                                        proof {
                                            lemma_can_end_has_value(*inner);
                                        }
                                        let mut so_far = so_far;
                                        let v = take_value(*inner);
                                        so_far.push((key, v));
                                        Ok(
                                            ParserState::InObject {
                                                so_far,
                                                part: ObjectPart::BeforeKey,
                                            },
                                        )
                                    },
                                    JsonToken::CurlyClose if inner_end => {
                                        let rr = remaining_required_exec(required, &so_far);
                                        if rr.len() == 1 {
                                            proof {
                                                lemma_can_end_has_value(*inner);
                                            }
                                            let mut so_far = so_far;
                                            let v = take_value(*inner);
                                            so_far.push((key, v));
                                            Ok(
                                                ParserState::InObject {
                                                    so_far,
                                                    part: ObjectPart::Finished,
                                                },
                                            )
                                        } else {
                                            match advance_state(ps, *inner, input) {
                                                Ok(inner2) => {
                                                    let s2 = ParserState::InObject {
                                                        so_far,
                                                        part: ObjectPart::InValue {
                                                            key,
                                                            inner: Box::new(inner2),
                                                        },
                                                    };
                                                    proof {
                                                        assert(num_ranges_ok(s2));
                                                    }
                                                    Ok(s2)
                                                },
                                                Err(inner0) => {
                                                    let s0 = ParserState::InObject {
                                                        so_far,
                                                        part: ObjectPart::InValue {
                                                            key,
                                                            inner: Box::new(inner0),
                                                        },
                                                    };
                                                    proof {
                                                        assert(s0 == state);
                                                    }
                                                    Err(s0)
                                                },
                                            }
                                        }
                                    },
                                    _ => match advance_state(ps, *inner, input) {
                                        Ok(inner2) => {
                                            let s2 = ParserState::InObject {
                                                so_far,
                                                part: ObjectPart::InValue {
                                                    key,
                                                    inner: Box::new(inner2),
                                                },
                                            };
                                            proof {
                                                assert(num_ranges_ok(s2));
                                            }
                                            Ok(s2)
                                        },
                                        Err(inner0) => {
                                            let s0 = ParserState::InObject {
                                                so_far,
                                                part: ObjectPart::InValue {
                                                    key,
                                                    inner: Box::new(inner0),
                                                },
                                            };
                                            proof {
                                                assert(s0 == state);
                                            }
                                            Err(s0)
                                        },
                                    },
                                }
                            },
                            Option::None => Err(
                                ParserState::InObject {
                                    so_far,
                                    part: ObjectPart::InValue { key, inner },
                                },
                            ),
                        }
                    },
                    ObjectPart::Finished => Err(
                        ParserState::InObject { so_far, part: ObjectPart::Finished },
                    ),
                },
                _ => Err(ParserState::InObject { so_far, part }),
            }
        },
    }
}

} // verus!

verus! {

/// Reconstruct the value parsed so far without disturbing the state.
pub(crate) fn peek_value(state: &ParserState) -> (r: Option<JsonValue>)
    requires
        num_ranges_ok(*state),
    ensures
        match r {
            Some(v) => spec_has_value(*state) && value_rel(*state, v),
            None => !spec_has_value(*state),
        },
    decreases *state,
{
    match state {
        ParserState::Start => None,
        ParserState::InString(s) => Some(JsonValue::String(s.clone())),
        ParserState::InInteger(a) => {
            if a.has_digit {
                let mag = a.magnitude as i128;
                let fixed: i128 = if a.neg {
                    -mag
                } else {
                    mag
                };
                Some(JsonValue::Number(Decimal::from_fixed(fixed)))
            } else {
                None
            }
        },
        ParserState::End(x) => Some(clone_value(x)),
        ParserState::InArray { items, inner } => {
            let mut out: Vec<JsonValue> = Vec::new();
            let n = items.len();
            let mut i: usize = 0;
            while i < n
                invariant
                    i <= n,
                    n == items@.len(),
                    out@.len() == i,
                    forall|j: int| 0 <= j < i ==> veq(#[trigger] items@[j], out@[j]),
                decreases n - i,
            {
                let c = clone_value(&items[i]);
                out.push(c);
                i = i + 1;
            }
            match peek_value(&**inner) {
                Some(v) => {
                    out.push(v);
                    Some(JsonValue::Array(out))
                },
                None => Some(JsonValue::Array(out)),
            }
        },
        ParserState::InObject { so_far, part } => {
            match part {
                ObjectPart::InKey(_) => None,
                ObjectPart::AfterKey(_) => None,
                ObjectPart::BeforeKey | ObjectPart::Finished => Some(
                    JsonValue::Object(clone_pairs(so_far)),
                ),
                ObjectPart::InValue { key, inner } => {
                    if state_can_end(&**inner) {
                        match peek_value(&**inner) {
                            Some(v) => {
                                let mut pairs = clone_pairs(so_far);
                                pairs.push((key.clone(), v));
                                Some(JsonValue::Object(pairs))
                            },
                            None => None,
                        }
                    } else {
                        None
                    }
                },
            }
        },
    }
}

/// Deep copy of committed object entries.
fn clone_pairs(pairs: &Vec<(String, JsonValue)>) -> (r: Vec<(String, JsonValue)>)
    ensures
        r@.len() == pairs@.len(),
        forall|i: int|
            0 <= i < pairs@.len() ==> (#[trigger] pairs@[i]).0@ == r@[i].0@ && veq(
                pairs@[i].1,
                r@[i].1,
            ),
{
    let n = pairs.len();
    let mut out: Vec<(String, JsonValue)> = Vec::new();
    let mut i: usize = 0;
    while i < n
        invariant
            i <= n,
            n == pairs@.len(),
            out@.len() == i,
            forall|j: int|
                0 <= j < i ==> (#[trigger] pairs@[j]).0@ == out@[j].0@ && veq(
                    pairs@[j].1,
                    out@[j].1,
                ),
        decreases n - i,
    {
        let k = pairs[i].0.clone();
        let v = clone_value(&pairs[i].1);
        out.push((k, v));
        i = i + 1;
    }
    out
}

/// The schema-guided state machine for one JSON value: the schema it
/// enforces and the parse state so far.
#[derive(Debug)]
pub struct JsonBiaser<'schema> {
    pub schema: &'schema JsonSchema,
    pub state: ParserState,
}

impl<'schema> JsonBiaser<'schema> {
    /// A fresh machine for `schema`, before any input.
    pub fn new(schema: &'schema JsonSchema) -> (r: JsonBiaser<'schema>)
        ensures
            r.schema == schema,
            r.state == ParserState::Start,
    {
        JsonBiaser { schema, state: ParserState::Start }
    }

    /// The abstract tokens that may validly come next. The numeric-range
    /// premise holds of every state reached through proposed tokens (see
    /// the laws module).
    pub fn next_valid_tokens(&self) -> (r: Vec<JsonToken>)
        requires
            num_ranges_ok(self.state),
        ensures
            tokens_viewed(r@) == spec_next(*self.schema, self.state),
    {
        next_tokens(self.schema, &self.state)
    }

    /// Whether the value parsed so far is a valid terminal.
    pub fn can_end(&self) -> (r: bool)
        ensures
            r == spec_can_end(self.state),
    {
        state_can_end(&self.state)
    }

    /// The value parsed so far, when the state denotes one.
    pub fn value(&self) -> (r: Option<JsonValue>)
        requires
            num_ranges_ok(self.state),
        ensures
            match r {
                Some(v) => spec_has_value(self.state) && value_rel(self.state, v),
                None => !spec_has_value(self.state),
            },
    {
        peek_value(&self.state)
    }

    /// Consume one token. On success the state steps by the transition
    /// relation; a token the state cannot absorb leaves it unchanged.
    pub fn advance(&mut self, input: &JsonToken) -> (r: Result<(), BiaserError>)
        requires
            num_ranges_ok(old(self).state),
        ensures
            final(self).schema == old(self).schema,
            r is Ok <==> spec_accepts(*old(self).schema, old(self).state, tv(*input)),
            r is Ok ==> trans(*old(self).schema, old(self).state, tv(*input), final(self).state)
                && num_ranges_ok(final(self).state),
            r is Err ==> final(self).state == old(self).state,
    {
        let mut taken = ParserState::Start;
        core::mem::swap(&mut taken, &mut self.state);
        match advance_state(self.schema, taken, input) {
            Ok(s2) => {
                self.state = s2;
                Ok(())
            },
            Err(s0) => {
                self.state = s0;
                Err(BiaserError::InvalidToken(input.clone()))
            },
        }
    }
}

} // verus!
