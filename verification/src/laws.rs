//! The guarantees of the state machine, stated and proved over its
//! transition system: progress, acceptance of every proposal, validity of
//! finished values, and the object, array, number and enum-string
//! obligations.

use vstd::prelude::*;
use crate::biaser::{
    acc_bounded, array_tail_tokens, committed_key, digit_ok, digits_where, enum_can_close,
    enum_remainders, enum_value_extends, fixed_after_digit, lemma_digits_where_members,
    mag_after_digit, mag_limit,
    num_fixed,
    num_ranges_ok, remaining_required, spec_accepts, spec_can_end, spec_has_value, spec_next,
    trans, value_rel, NumAcc,
    ObjectPart, ParserState,
};
use crate::decimal::{pow10, DECIMAL_ONE};
use crate::schema::{
    has_prop, in_bounds, minus_offered, neg_digit_in_bounds, pairs_have_key, pos_digit_in_bounds,
    prop_of, schema_live, schema_wf, spec_is_valid, JsonSchema,
};
use crate::text::{has_forbidden, starts_with};
use crate::token::{token_text, TokenV};
use crate::value::{veq, JsonValue};

verus! {

/// How a proposal admits a concrete token: the placeholders admit classes of
/// textual tokens, every other proposal only itself. Mirrors the vocabulary
/// bridge's filters: fragments carry no quote and no whitespace controls,
/// and an `AnyOf` fragment must be a nonempty prefix of one of its strings.
pub open spec fn covers(a: TokenV, t: TokenV) -> bool {
    match a {
        TokenV::AnyOf(vs) => match token_text(t) {
            Some(txt) => txt.len() > 0 && !has_forbidden(txt) && exists|i: int|
                0 <= i < vs.len() && starts_with(#[trigger] vs[i], txt),
            None => false,
        },
        TokenV::AnyString { max_length } => match token_text(t) {
            Some(txt) => !has_forbidden(txt) && (max_length is Some ==> txt.len()
                <= max_length->0),
            None => false,
        },
        _ => a == t,
    }
}

/// The loop only feeds the machine tokens it proposed: `t` is admitted by
/// some current proposal.
pub open spec fn token_allowed(schema: JsonSchema, state: ParserState, t: TokenV) -> bool {
    exists|k: int|
        0 <= k < spec_next(schema, state).len() && covers(#[trigger] spec_next(schema, state)[k], t)
}

/// The number of fractional digits a number schema grants.
pub open spec fn md_of(max_decimals: Option<usize>) -> int {
    if max_decimals is Some {
        max_decimals->0 as int
    } else {
        0
    }
}

/// What a finished value remembers of its history, beyond validity: a
/// string closed under an enum is one of the enum's values.
pub open spec fn end_extra(schema: JsonSchema, v: JsonValue) -> bool {
    match schema {
        JsonSchema::String { max_length, enum_values } => enum_values is Some ==> match v {
            JsonValue::String(x) => exists|i: int|
                0 <= i < enum_values->0@.len() && (#[trigger] enum_values->0@[i])@ == x@,
            _ => true,
        },
        _ => true,
    }
}

/// The reachability invariant: everything that holds of a state reached
/// from `Start` by tokens the machine proposed.
pub open spec fn wf_state(schema: JsonSchema, state: ParserState) -> bool
    decreases state,
{
    match state {
        ParserState::Start => true,
        ParserState::End(v) => spec_is_valid(schema, v) && end_extra(schema, v),
        ParserState::InString(s) => match schema {
            JsonSchema::String { max_length, enum_values } => {
                &&& (max_length is Some ==> s@.len() <= max_length->0)
                &&& (enum_values is Some ==> exists|i: int|
                    0 <= i < enum_values->0@.len() && (max_length is Some ==> (
                    #[trigger] enum_values->0@[i])@.len() <= max_length->0) && starts_with(
                        enum_values->0@[i]@,
                        s@,
                    ))
            },
            _ => false,
        },
        ParserState::InInteger(a) => match schema {
            JsonSchema::Number { min, max, max_decimals } => {
                &&& acc_bounded(a)
                &&& (!a.has_decimal ==> a.frac_digits == 0)
                &&& (a.has_decimal ==> md_of(max_decimals) >= 1 && a.frac_digits <= md_of(
                    max_decimals,
                ))
                &&& (a.has_decimal && a.frac_digits == 0 ==> a.magnitude < mag_limit())
                &&& (a.has_digit ==> in_bounds(min, max, num_fixed(a)))
                &&& (!a.has_digit ==> a.neg && a.magnitude == 0 && !a.has_decimal && minus_offered(
                    min,
                    max,
                ))
            },
            _ => false,
        },
        ParserState::InArray { items, inner } => match schema {
            JsonSchema::Array { items: ischema, min_items, max_items } => {
                &&& wf_state(*ischema, *inner)
                &&& forall|i: int|
                    0 <= i < items@.len() ==> spec_is_valid(*ischema, #[trigger] items@[i])
                &&& (max_items is Some ==> max_items->0 >= 1 && items@.len() + 1 <= max_items->0)
            },
            _ => false,
        },
        ParserState::InObject { so_far, part } => match schema {
            JsonSchema::Object { required, properties } => {
                &&& forall|i: int|
                    0 <= i < so_far@.len() ==> {
                        let ps = prop_of(properties@, (#[trigger] so_far@[i]).0@);
                        ps is Some && spec_is_valid(ps->0, so_far@[i].1)
                    }
                &&& match part {
                    ObjectPart::BeforeKey => true,
                    ObjectPart::Finished => remaining_required(required@, so_far@).len() == 0,
                    ObjectPart::InKey(k) => {
                        let rr = remaining_required(required@, so_far@);
                        rr.len() > 0 && starts_with(rr[0], k@)
                    },
                    ObjectPart::AfterKey(k) => {
                        let rr = remaining_required(required@, so_far@);
                        rr.len() > 0 && rr[0] == k@
                    },
                    ObjectPart::InValue { key, inner } => {
                        let rr = remaining_required(required@, so_far@);
                        &&& rr.len() > 0
                        &&& rr[0] == key@
                        &&& prop_of(properties@, key@) is Some
                        &&& wf_state(prop_of(properties@, key@)->0, *inner)
                    },
                }
            },
            _ => false,
        },
    }
}

/// The fresh machine is well-formed.
pub proof fn lemma_wf_initial(schema: JsonSchema)
    ensures
        wf_state(schema, ParserState::Start),
{
}

/// The invariant keeps every number accumulator in the numeric range.
pub proof fn lemma_wf_num_ranges(schema: JsonSchema, state: ParserState)
    requires
        wf_state(schema, state),
    ensures
        num_ranges_ok(state),
    decreases state,
{
    match state {
        ParserState::InArray { items, inner } => match schema {
            JsonSchema::Array { items: ischema, .. } => {
                lemma_wf_num_ranges(*ischema, *inner);
            },
            _ => {},
        },
        ParserState::InObject { so_far, part } => match part {
            ObjectPart::InValue { key, inner } => match schema {
                JsonSchema::Object { required, properties } => {
                    lemma_wf_num_ranges(prop_of(properties@, key@)->0, *inner);
                },
                _ => {},
            },
            _ => {},
        },
        _ => {},
    }
}

// ------------------------------------------------------------------
// Facts about the remaining-required list
// ------------------------------------------------------------------

/// Every remaining key is a required key that is not committed yet.
proof fn lemma_remaining_members(required: Seq<String>, so_far: Seq<(String, JsonValue)>)
    ensures
        forall|e: int|
            0 <= e < remaining_required(required, so_far).len() ==> exists|i: int|
                0 <= i < required.len() && (#[trigger] required[i])@ == #[trigger] remaining_required(
                    required,
                    so_far,
                )[e] && !committed_key(so_far, required[i]@),
    decreases required.len(),
{
    if required.len() > 0 {
        lemma_remaining_members(required.drop_first(), so_far);
        let rr = remaining_required(required, so_far);
        let head = if committed_key(so_far, required[0]@) {
            Seq::<Seq<char>>::empty()
        } else {
            seq![required[0]@]
        };
        let rest = remaining_required(required.drop_first(), so_far);
        assert(rr == head + rest);
        assert forall|e: int| 0 <= e < rr.len() implies exists|i: int|
            0 <= i < required.len() && (#[trigger] required[i])@ == #[trigger] rr[e]
                && !committed_key(so_far, required[i]@) by {
            if e < head.len() {
                assert(required[0]@ == rr[e] && !committed_key(so_far, required[0]@));
            } else {
                assert(rr[e] == rest[e - head.len()]);
                let i = choose|i: int|
                    0 <= i < required.drop_first().len() && (#[trigger] required.drop_first()[i])@
                        == rest[e - head.len()] && !committed_key(
                        so_far,
                        required.drop_first()[i]@,
                    );
                assert(required.drop_first()[i] == required[i + 1]);
                assert(required[i + 1]@ == rr[e] && !committed_key(so_far, required[i + 1]@));
            }
        }
    }
}

/// A required key that is not committed appears among the remaining keys.
proof fn lemma_remaining_contains(required: Seq<String>, so_far: Seq<(String, JsonValue)>, i: int)
    requires
        0 <= i < required.len(),
        !committed_key(so_far, required[i]@),
    ensures
        remaining_required(required, so_far).contains(required[i]@),
    decreases required.len(),
{
    let rr = remaining_required(required, so_far);
    let head = if committed_key(so_far, required[0]@) {
        Seq::<Seq<char>>::empty()
    } else {
        seq![required[0]@]
    };
    let rest = remaining_required(required.drop_first(), so_far);
    assert(rr == head + rest);
    if i == 0 {
        assert(rr[0] == required[0]@);
    } else {
        assert(required.drop_first()[i - 1] == required[i]);
        lemma_remaining_contains(required.drop_first(), so_far, i - 1);
        let e = choose|e: int| 0 <= e < rest.len() && rest[e] == required.drop_first()[i - 1]@;
        assert(rr[head.len() + e] == required[i]@);
    }
}

/// With no remaining keys, every required key is committed.
proof fn lemma_remaining_empty_committed(required: Seq<String>, so_far: Seq<(String, JsonValue)>)
    requires
        remaining_required(required, so_far).len() == 0,
    ensures
        forall|i: int|
            0 <= i < required.len() ==> committed_key(so_far, (#[trigger] required[i])@),
{
    assert forall|i: int| 0 <= i < required.len() implies committed_key(
        so_far,
        (#[trigger] required[i])@,
    ) by {
        if !committed_key(so_far, required[i]@) {
            lemma_remaining_contains(required, so_far, i);
        }
    }
}

/// With every required key committed, nothing remains.
proof fn lemma_all_committed_remaining_empty(
    required: Seq<String>,
    so_far: Seq<(String, JsonValue)>,
)
    requires
        forall|i: int|
            0 <= i < required.len() ==> committed_key(so_far, (#[trigger] required[i])@),
    ensures
        remaining_required(required, so_far).len() == 0,
    decreases required.len(),
{
    if required.len() > 0 {
        assert(committed_key(so_far, required[0]@));
        assert forall|i: int|
            0 <= i < required.drop_first().len() implies committed_key(
            so_far,
            (#[trigger] required.drop_first()[i])@,
        ) by {
            assert(required.drop_first()[i] == required[i + 1]);
        }
        lemma_all_committed_remaining_empty(required.drop_first(), so_far);
    }
}

/// Committing the single remaining key leaves nothing remaining.
proof fn lemma_remaining_after_last(
    required: Seq<String>,
    so_far: Seq<(String, JsonValue)>,
    sf2: Seq<(String, JsonValue)>,
)
    requires
        remaining_required(required, so_far).len() == 1,
        sf2.len() == so_far.len() + 1,
        forall|i: int| 0 <= i < so_far.len() ==> sf2[i] == #[trigger] so_far[i],
        sf2.last().0@ == remaining_required(required, so_far)[0],
    ensures
        remaining_required(required, sf2).len() == 0,
{
    let rr = remaining_required(required, so_far);
    assert forall|i: int| 0 <= i < required.len() implies committed_key(
        sf2,
        (#[trigger] required[i])@,
    ) by {
        if committed_key(so_far, required[i]@) {
            let j = choose|j: int|
                0 <= j < so_far.len() && (#[trigger] so_far[j]).0@ == required[i]@;
            assert((sf2[j]).0@ == required[i]@);
        } else {
            lemma_remaining_contains(required, so_far, i);
            let e = choose|e: int| 0 <= e < rr.len() && rr[e] == required[i]@;
            assert(e == 0);
            assert(sf2[sf2.len() - 1].0@ == required[i]@);
        }
    }
    lemma_all_committed_remaining_empty(required, sf2);
}

// ------------------------------------------------------------------
// A value that can end is valid
// ------------------------------------------------------------------

/// When the machine can end, it denotes a value, and every value it denotes
/// is a valid instance of the schema.
pub proof fn lemma_end_value_valid(schema: JsonSchema, state: ParserState, v: JsonValue)
    requires
        schema_wf(schema),
        wf_state(schema, state),
        spec_can_end(state),
        value_rel(state, v),
    ensures
        spec_has_value(state),
        spec_is_valid(schema, v),
    decreases state,
{
    match state {
        ParserState::End(x) => {
            crate::schema::lemma_is_valid_veq(schema, x, v);
        },
        ParserState::InObject { so_far, part } => match schema {
            JsonSchema::Object { required, properties } => {
                let pairs = v->Object_0;
                assert(pairs@.len() == so_far@.len());
                lemma_remaining_empty_committed(required@, so_far@);
                assert forall|i: int| 0 <= i < required@.len() implies pairs_have_key(
                    pairs@,
                    (#[trigger] required@[i])@,
                ) by {
                    assert(committed_key(so_far@, required@[i]@));
                    let j = choose|j: int|
                        0 <= j < so_far@.len() && (#[trigger] so_far@[j]).0@ == required@[i]@;
                    assert(pairs@[j].0@ == required@[i]@);
                }
                assert forall|i: int| 0 <= i < pairs@.len() implies match prop_of(
                    properties@,
                    (#[trigger] pairs@[i]).0@,
                ) {
                    Some(ps) => spec_is_valid(ps, pairs@[i].1),
                    None => false,
                } by {
                    assert(so_far@[i].0@ == pairs@[i].0@ && veq(so_far@[i].1, pairs@[i].1));
                    let ps = prop_of(properties@, so_far@[i].0@);
                    assert(ps is Some && spec_is_valid(ps->0, so_far@[i].1));
                    crate::schema::lemma_is_valid_veq(ps->0, so_far@[i].1, pairs@[i].1);
                }
            },
            _ => {},
        },
        _ => {},
    }
}

// ------------------------------------------------------------------
// Corollaries for each schema kind
// ------------------------------------------------------------------

/// An object can end only after every required key has been committed.
pub proof fn lemma_object_end_requires_committed(schema: JsonSchema, state: ParserState)
    requires
        schema is Object,
        schema_wf(schema),
        wf_state(schema, state),
        state is InObject,
        spec_can_end(state),
    ensures
        forall|i: int|
            0 <= i < schema->Object_required@.len() ==> committed_key(
                state->InObject_so_far@,
                (#[trigger] schema->Object_required@[i])@,
            ),
{
    lemma_remaining_empty_committed(schema->Object_required@, state->InObject_so_far@);
}

/// A finished array holds at least `min_items` and at most `max_items`
/// elements. (With a `max_items` of zero no literal this machine emits
/// satisfies the cap, since an array always commits at least one element;
/// a zero cap never reaches a valid end.)
pub proof fn lemma_array_end_within_caps(schema: JsonSchema, state: ParserState, v: JsonValue)
    requires
        schema is Array,
        schema_wf(schema),
        wf_state(schema, state),
        spec_can_end(state),
        value_rel(state, v),
    ensures
        v is Array,
        schema->Array_min_items is Some ==> schema->Array_min_items->0 <= v->Array_0@.len(),
        schema->Array_max_items is Some ==> v->Array_0@.len() <= schema->Array_max_items->0,
{
    lemma_end_value_valid(schema, state, v);
}

/// A number literal that can end lies within its bounds, with no more
/// fractional digits than the schema grants.
pub proof fn lemma_number_within_bounds(schema: JsonSchema, state: ParserState, v: JsonValue)
    requires
        schema is Number,
        schema_wf(schema),
        wf_state(schema, state),
        state is InInteger,
        spec_can_end(state),
        value_rel(state, v),
    ensures
        v is Number,
        in_bounds(schema->Number_min, schema->Number_max, v->Number_0.scaled()),
        state->InInteger_0.frac_digits <= md_of(schema->Number_max_decimals),
{
}

/// A string closed under an enum is one of the enum values.
pub proof fn lemma_enum_string_member(schema: JsonSchema, state: ParserState, v: JsonValue)
    requires
        schema is String,
        schema->String_enum_values is Some,
        schema_wf(schema),
        wf_state(schema, state),
        state is End,
        state->End_0 is String,
        value_rel(state, v),
    ensures
        v is String,
        exists|i: int|
            0 <= i < schema->String_enum_values->0@.len() && (
            #[trigger] schema->String_enum_values->0@[i])@ == v->String_0@,
{
    let x = state->End_0;
    let i = choose|i: int|
        0 <= i < schema->String_enum_values->0@.len() && (
        #[trigger] schema->String_enum_values->0@[i])@ == x->String_0@;
    assert(schema->String_enum_values->0@[i]@ == v->String_0@);
}

} // verus!

verus! {

/// A successful property lookup yields one of the property schemas.
proof fn lemma_prop_of_member(props: Seq<(String, JsonSchema)>, k: Seq<char>)
    requires
        prop_of(props, k) is Some,
    ensures
        exists|i: int|
            0 <= i < props.len() && (#[trigger] props[i]).0@ == k && props[i].1 == prop_of(
                props,
                k,
            )->0,
    decreases props.len(),
{
    if props.len() > 0 {
        if props[0].0@ == k {
            assert(props[0].0@ == k && props[0].1 == prop_of(props, k)->0);
        } else {
            lemma_prop_of_member(props.drop_first(), k);
            let i = choose|i: int|
                0 <= i < props.drop_first().len() && (#[trigger] props.drop_first()[i]).0@ == k
                    && props.drop_first()[i].1 == prop_of(props.drop_first(), k)->0;
            assert(props[i + 1] == props.drop_first()[i]);
            assert(props[i + 1].0@ == k && props[i + 1].1 == prop_of(props, k)->0);
        }
    }
}

/// Every remainder is the unread suffix of an enum value that extends the
/// text so far.
proof fn lemma_enum_remainders_member_at(vs: Seq<Seq<char>>, s: Seq<char>, ml: Option<usize>, e: int)
    requires
        0 <= e < enum_remainders(vs, s, ml).len(),
    ensures
        exists|i: int|
            0 <= i < vs.len() && enum_value_extends(#[trigger] vs[i], s, ml) && enum_remainders(
                vs,
                s,
                ml,
            )[e] == vs[i].skip(s.len() as int),
    decreases vs.len(),
{
    let rems = enum_remainders(vs, s, ml);
    let head = if enum_value_extends(vs[0], s, ml) {
        seq![vs[0].skip(s.len() as int)]
    } else {
        Seq::<Seq<char>>::empty()
    };
    let rest = enum_remainders(vs.drop_first(), s, ml);
    assert(rems == head + rest);
    if e < head.len() {
        assert(enum_value_extends(vs[0], s, ml) && rems[e] == vs[0].skip(s.len() as int));
    } else {
        assert(rems[e] == rest[e - head.len()]);
        lemma_enum_remainders_member_at(vs.drop_first(), s, ml, e - head.len());
        let i = choose|i: int|
            0 <= i < vs.drop_first().len() && enum_value_extends(#[trigger] vs.drop_first()[i], s, ml)
                && enum_remainders(vs.drop_first(), s, ml)[e - head.len()] == vs.drop_first()[i].skip(
                s.len() as int,
            );
        assert(vs.drop_first()[i] == vs[i + 1]);
        assert(enum_value_extends(vs[i + 1], s, ml) && rems[e] == vs[i + 1].skip(s.len() as int));
    }
}

/// If some enum value extends the text, there is a remainder.
proof fn lemma_enum_remainders_nonempty(vs: Seq<Seq<char>>, s: Seq<char>, ml: Option<usize>, i: int)
    requires
        0 <= i < vs.len(),
        enum_value_extends(vs[i], s, ml),
    ensures
        enum_remainders(vs, s, ml).len() > 0,
    decreases vs.len(),
{
    if i > 0 {
        assert(vs.drop_first()[i - 1] == vs[i]);
        lemma_enum_remainders_nonempty(vs.drop_first(), s, ml, i - 1);
    }
}

/// Every prefix of the empty kind: any string starts with the empty string.
proof fn lemma_starts_with_empty(v: Seq<char>)
    ensures
        starts_with(v, Seq::<char>::empty()),
{
    assert(v.subrange(0, 0) =~= Seq::<char>::empty());
}

/// A prefix of equal length is the whole string.
proof fn lemma_prefix_full(v: Seq<char>, s: Seq<char>)
    requires
        starts_with(v, s),
        v.len() == s.len(),
    ensures
        v == s,
{
    assert(v.subrange(0, s.len() as int) =~= v);
}

/// Extending a prefix by a prefix of the unread suffix stays a prefix.
proof fn lemma_prefix_extend(v: Seq<char>, s: Seq<char>, t: Seq<char>)
    requires
        starts_with(v, s),
        starts_with(v.skip(s.len() as int), t),
    ensures
        starts_with(v, s + t),
{
    assert(v.subrange(0, (s + t).len() as int) =~= s + t) by {
        assert forall|j: int| 0 <= j < s.len() + t.len() implies v[j] == (s + t)[j] by {
            if j < s.len() {
                assert(v.subrange(0, s.len() as int)[j] == v[j]);
            } else {
                assert(v.skip(s.len() as int).subrange(0, t.len() as int)[j - s.len()] == v[j]);
            }
        }
    }
}

/// In a state that can end, every proposal is a digit or the decimal point:
/// commas, brackets and braces are never also proposed by the child.
proof fn lemma_can_end_proposal_shapes(schema: JsonSchema, state: ParserState)
    requires
        wf_state(schema, state),
        spec_can_end(state),
    ensures
        forall|k: int|
            0 <= k < spec_next(schema, state).len() ==> (#[trigger] spec_next(schema, state)[k])
                is Digit || spec_next(schema, state)[k] is Decimal,
{
    match state {
        ParserState::InInteger(a) => match schema {
            JsonSchema::Number { min, max, max_decimals } => {
                let md: int = md_of(max_decimals);
                if !(a.has_decimal && (a.frac_digits >= md || a.frac_digits >= 12)) && a.magnitude
                    < mag_limit() {
                    let lo: int = if a.has_digit {
                        0
                    } else {
                        1
                    };
                    lemma_digits_where_members(|d: int| digit_ok(min, max, a, d), lo, 10);
                    let digs = digits_where(|d: int| digit_ok(min, max, a, d), lo, 10);
                    let tail = if !a.has_decimal && md > 0 && a.has_digit {
                        seq![TokenV::Decimal]
                    } else {
                        Seq::<TokenV>::empty()
                    };
                    assert(spec_next(schema, state) == digs + tail);
                    assert forall|k: int| 0 <= k < spec_next(schema, state).len() implies (
                    #[trigger] spec_next(schema, state)[k]) is Digit || spec_next(schema, state)[k]
                        is Decimal by {
                        if k < digs.len() {
                            assert(spec_next(schema, state)[k] == digs[k]);
                        } else {
                            assert(spec_next(schema, state)[k] == tail[k - digs.len()]);
                        }
                    }
                }
            },
            _ => {},
        },
        _ => {},
    }
}

// ------------------------------------------------------------------
// Every proposed token advances successfully
// ------------------------------------------------------------------

/// Any token admitted by a current proposal is accepted by `advance`.
pub proof fn lemma_proposals_accepted(schema: JsonSchema, state: ParserState, t: TokenV)
    requires
        schema_wf(schema),
        wf_state(schema, state),
        token_allowed(schema, state, t),
    ensures
        spec_accepts(schema, state, t),
    decreases state,
{
    let props = spec_next(schema, state);
    let k = choose|k: int| 0 <= k < props.len() && covers(#[trigger] props[k], t);
    match state {
        ParserState::Start => match schema {
            JsonSchema::Number { min, max, max_decimals } => {
                let digs = digits_where(|d: int| pos_digit_in_bounds(min, max, d), 1, 10);
                lemma_digits_where_members(|d: int| pos_digit_in_bounds(min, max, d), 1, 10);
                let tail = if minus_offered(min, max) {
                    seq![TokenV::Minus]
                } else {
                    Seq::<TokenV>::empty()
                };
                assert(props == digs + tail);
                if k < digs.len() {
                    assert(props[k] == digs[k]);
                } else {
                    assert(props[k] == tail[k - digs.len()]);
                }
            },
            _ => {},
        },
        ParserState::InString(s) => match schema {
            JsonSchema::String { max_length, enum_values } => {
                if max_length is Some && s@.len() >= max_length->0 {
                    assert(props[k] == TokenV::DoubleQuote);
                } else if enum_values is Some {
                    let vs = enum_values->0@.map_values(|v: String| v@);
                    let rems = enum_remainders(vs, s@, max_length);
                    let head = if rems.len() > 0 {
                        seq![TokenV::AnyOf(rems)]
                    } else {
                        Seq::<TokenV>::empty()
                    };
                    let tail = if enum_can_close(vs, s@, max_length) {
                        seq![TokenV::DoubleQuote]
                    } else {
                        Seq::<TokenV>::empty()
                    };
                    assert(props == head + tail);
                    if k < head.len() {
                        assert(props[k] == head[0]);
                        assert(token_text(t) is Some && !has_forbidden(token_text(t)->0));
                        assert(!token_text(t)->0.contains('"'));
                    } else {
                        assert(props[k] == tail[k - head.len()]);
                    }
                } else {
                    if props[k] is AnyString {
                        assert(!token_text(t)->0.contains('"'));
                    }
                }
            },
            _ => {},
        },
        ParserState::InInteger(a) => match schema {
            JsonSchema::Number { min, max, max_decimals } => {
                let md: int = md_of(max_decimals);
                if !(a.has_decimal && (a.frac_digits >= md || a.frac_digits >= 12)) && a.magnitude
                    < mag_limit() {
                    let lo: int = if a.has_digit {
                        0
                    } else {
                        1
                    };
                    let digs = digits_where(|d: int| digit_ok(min, max, a, d), lo, 10);
                    lemma_digits_where_members(|d: int| digit_ok(min, max, a, d), lo, 10);
                    let tail = if !a.has_decimal && md > 0 && a.has_digit {
                        seq![TokenV::Decimal]
                    } else {
                        Seq::<TokenV>::empty()
                    };
                    assert(props == digs + tail);
                    if k < digs.len() {
                        assert(props[k] == digs[k]);
                    } else {
                        assert(props[k] == tail[k - digs.len()]);
                    }
                }
            },
            _ => {},
        },
        ParserState::InArray { items, inner } => match schema {
            JsonSchema::Array { items: ischema, min_items, max_items } => {
                let sub = spec_next(*ischema, *inner);
                let tail = array_tail_tokens(
                    spec_can_end(*inner),
                    items@.len() as int,
                    min_items,
                    max_items,
                );
                assert(props == sub + tail);
                if k < sub.len() {
                    assert(covers(sub[k], t));
                    assert(token_allowed(*ischema, *inner, t));
                    lemma_proposals_accepted(*ischema, *inner, t);
                } else {
                    assert(props[k] == tail[k - sub.len()]);
                    assert(spec_can_end(*inner));
                    assert(t is Comma || t is BracketClose);
                }
            },
            _ => {},
        },
        ParserState::InObject { so_far, part } => match schema {
            JsonSchema::Object { required, properties } => match part {
                ObjectPart::BeforeKey => {},
                ObjectPart::Finished => {},
                ObjectPart::InKey(kk) => {
                    let rr = remaining_required(required@, so_far@);
                    if rr.len() > 0 && starts_with(rr[0], kk@) && rr[0] != kk@ {
                        assert(props[k] == TokenV::AnyOf(seq![rr[0].skip(kk@.len() as int)]));
                        assert(!token_text(t)->0.contains('"'));
                    }
                },
                ObjectPart::AfterKey(kk) => {
                    let rr = remaining_required(required@, so_far@);
                    assert(props[k] == TokenV::Colon);
                    lemma_remaining_members(required@, so_far@);
                    let i = choose|i: int|
                        0 <= i < required@.len() && (#[trigger] required@[i])@ == rr[0]
                            && !committed_key(so_far@, required@[i]@);
                    assert(has_prop(properties@, required@[i]@));
                },
                ObjectPart::InValue { key, inner } => {
                    let ps = prop_of(properties@, key@)->0;
                    let sub = spec_next(ps, *inner);
                    let tail = if spec_can_end(*inner) {
                        if remaining_required(required@, so_far@).len() == 1 {
                            seq![TokenV::CurlyClose]
                        } else {
                            seq![TokenV::Comma]
                        }
                    } else {
                        Seq::<TokenV>::empty()
                    };
                    assert(props == sub + tail);
                    if k < sub.len() {
                        assert(covers(sub[k], t));
                        assert(token_allowed(ps, *inner, t));
                        lemma_prop_of_member(properties@, key@);
                        lemma_proposals_accepted(ps, *inner, t);
                    } else {
                        assert(props[k] == tail[k - sub.len()]);
                    }
                },
            },
            _ => {},
        },
        ParserState::End(_) => {},
    }
}

} // verus!

verus! {

/// What being allowed at `Start` says about the schema: each opening token
/// is proposed by exactly one schema kind.
proof fn lemma_start_allowed_kind(schema: JsonSchema, t: TokenV)
    requires
        token_allowed(schema, ParserState::Start, t),
    ensures
        t is True || t is False ==> schema is Boolean,
        t is Null ==> schema is Null,
        t is CurlyOpen ==> schema is Object,
        t is BracketOpen ==> schema is Array,
        t is DoubleQuote ==> schema is String,
        t is Minus ==> schema is Number && minus_offered(schema->Number_min, schema->Number_max),
        t is Digit ==> schema is Number && 1 <= t->Digit_0 <= 9 && pos_digit_in_bounds(
            schema->Number_min,
            schema->Number_max,
            t->Digit_0 as int,
        ),
        !(t is True || t is False || t is Null || t is CurlyOpen || t is BracketOpen
            || t is DoubleQuote || t is Minus || t is Digit) ==> false,
{
    let props = spec_next(schema, ParserState::Start);
    let k = choose|k: int| 0 <= k < props.len() && covers(#[trigger] props[k], t);
    match schema {
        JsonSchema::Number { min, max, max_decimals } => {
            let digs = digits_where(|d: int| pos_digit_in_bounds(min, max, d), 1, 10);
            lemma_digits_where_members(|d: int| pos_digit_in_bounds(min, max, d), 1, 10);
            let tail = if minus_offered(min, max) {
                seq![TokenV::Minus]
            } else {
                Seq::<TokenV>::empty()
            };
            assert(props == digs + tail);
            if k < digs.len() {
                assert(props[k] == digs[k]);
                assert(t == digs[k]);
            } else {
                assert(props[k] == tail[k - digs.len()]);
            }
        },
        _ => {},
    }
}

/// The preservation law: a transition on an allowed token keeps the state
/// well-formed.
pub proof fn lemma_advance_preserves_wf(
    schema: JsonSchema,
    state: ParserState,
    t: TokenV,
    s2: ParserState,
)
    requires
        schema_wf(schema),
        schema_live(schema),
        wf_state(schema, state),
        token_allowed(schema, state, t),
        trans(schema, state, t, s2),
    ensures
        wf_state(schema, s2),
    decreases state,
{
    let props = spec_next(schema, state);
    let k = choose|k: int| 0 <= k < props.len() && covers(#[trigger] props[k], t);
    match state {
        ParserState::End(_) => {},
        ParserState::Start => {
            lemma_start_allowed_kind(schema, t);
            match t {
                TokenV::True => {
                    assert(wf_state(schema, s2));
                },
                TokenV::False => {
                    assert(wf_state(schema, s2));
                },
                TokenV::Null => {
                    assert(wf_state(schema, s2));
                },
                TokenV::CurlyOpen => {
                    assert(wf_state(schema, s2));
                },
                TokenV::BracketOpen => {
                    match schema {
                        JsonSchema::Array { items: ischema, min_items, max_items } => {
                            let items2 = s2->InArray_items;
                            let inner2 = s2->InArray_inner;
                            assert(items2@.len() == 0);
                            assert(*inner2 is Start);
                            assert(wf_state(*ischema, *inner2));
                            assert(max_items is Some ==> max_items->0 >= 1);
                        },
                        _ => {},
                    }
                },
                TokenV::Minus => {
                    assert(wf_state(schema, s2));
                },
                TokenV::Digit(n) => {
                    proof_start_digit(schema, n as int, s2);
                },
                TokenV::DoubleQuote => {
                    let s2s = s2->InString_0;
                    assert(s2s@.len() == 0);
                    match schema {
                        JsonSchema::String { max_length, enum_values } => {
                            if enum_values is Some {
                                let i = choose|i: int|
                                    0 <= i < enum_values->0@.len() && (max_length is Some ==> (
                                    #[trigger] enum_values->0@[i])@.len() <= max_length->0);
                                lemma_starts_with_empty(enum_values->0@[i]@);
                                assert(starts_with(enum_values->0@[i]@, s2s@));
                            }
                        },
                        _ => {},
                    }
                },
                _ => {},
            }
        },
        ParserState::InString(s) => match schema {
            JsonSchema::String { max_length, enum_values } => {
                let at_cap = max_length is Some && s@.len() >= max_length->0;
                match t {
                    TokenV::DoubleQuote => {
                        // Closing: the committed string is one of the enum
                        // values, whichever branch proposed the quote.
                        if enum_values is Some {
                            let vs = enum_values->0@.map_values(|v: String| v@);
                            if at_cap {
                                let i = choose|i: int|
                                    0 <= i < enum_values->0@.len() && (max_length is Some ==> (
                                    #[trigger] enum_values->0@[i])@.len() <= max_length->0)
                                        && starts_with(enum_values->0@[i]@, s@);
                                lemma_prefix_full(enum_values->0@[i]@, s@);
                                assert(enum_values->0@[i]@ == s2->End_0->String_0@);
                            } else {
                                let rems = enum_remainders(vs, s@, max_length);
                                let head = if rems.len() > 0 {
                                    seq![TokenV::AnyOf(rems)]
                                } else {
                                    Seq::<TokenV>::empty()
                                };
                                let tail = if enum_can_close(vs, s@, max_length) {
                                    seq![TokenV::DoubleQuote]
                                } else {
                                    Seq::<TokenV>::empty()
                                };
                                assert(props == head + tail);
                                if k < head.len() {
                                    assert(props[k] == head[0]);
                                    reveal_strlit("\"");
                                    assert(token_text(t)->0.len() == 1 && token_text(t)->0[0]
                                        == '"');
                                    assert(has_forbidden(token_text(t)->0));
                                    assert(false);
                                } else {
                                    assert(props[k] == tail[k - head.len()]);
                                    assert(enum_can_close(vs, s@, max_length));
                                    let i = choose|i: int|
                                        0 <= i < vs.len() && #[trigger] vs[i] == s@ && (
                                        max_length is Some ==> s@.len() <= max_length->0);
                                    assert(enum_values->0@[i]@ == s2->End_0->String_0@);
                                }
                            }
                        }
                        assert(wf_state(schema, s2));
                    },
                    _ => {
                        // A fragment: find the proposal that admitted it.
                        let txt = token_text(t)->0;
                        let s2s = s2->InString_0;
                        assert(s2s@ == s@ + txt);
                        assert(!at_cap) by {
                            if at_cap {
                                assert(props[k] == TokenV::DoubleQuote);
                            }
                        }
                        if enum_values is Some {
                            let vs = enum_values->0@.map_values(|v: String| v@);
                            let rems = enum_remainders(vs, s@, max_length);
                            let head = if rems.len() > 0 {
                                seq![TokenV::AnyOf(rems)]
                            } else {
                                Seq::<TokenV>::empty()
                            };
                            let tail = if enum_can_close(vs, s@, max_length) {
                                seq![TokenV::DoubleQuote]
                            } else {
                                Seq::<TokenV>::empty()
                            };
                            assert(props == head + tail);
                            assert(k < head.len()) by {
                                if k >= head.len() {
                                    assert(props[k] == tail[k - head.len()]);
                                }
                            }
                            assert(props[k] == TokenV::AnyOf(rems));
                            let j = choose|j: int|
                                0 <= j < rems.len() && starts_with(#[trigger] rems[j], txt);
                            lemma_enum_remainders_member_at(vs, s@, max_length, j);
                            let i = choose|i: int|
                                0 <= i < vs.len() && enum_value_extends(
                                    #[trigger] vs[i],
                                    s@,
                                    max_length,
                                ) && enum_remainders(vs, s@, max_length)[j] == vs[i].skip(
                                    s@.len() as int,
                                );
                            lemma_prefix_extend(vs[i], s@, txt);
                            assert(starts_with(enum_values->0@[i]@, s2s@));
                            assert((s@ + txt).len() <= vs[i].len());
                        } else {
                            if max_length is Some {
                                assert(props == seq![
                                    TokenV::DoubleQuote,
                                    TokenV::AnyString {
                                        max_length: Some(
                                            (max_length->0 - s@.len()) as usize,
                                        ),
                                    },
                                ]);
                                assert(k == 1) by {
                                    if k == 0 {
                                        assert(props[0] == TokenV::DoubleQuote);
                                    }
                                }
                                assert(txt.len() <= max_length->0 - s@.len());
                            }
                        }
                        assert(wf_state(schema, s2));
                    },
                }
            },
            _ => {},
        },
        ParserState::InInteger(a) => match schema {
            JsonSchema::Number { min, max, max_decimals } => {
                let md: int = md_of(max_decimals);
                assert(!(a.has_decimal && (a.frac_digits >= md || a.frac_digits >= 12))
                    && a.magnitude < mag_limit()) by {
                    if (a.has_decimal && (a.frac_digits >= md || a.frac_digits >= 12))
                        || a.magnitude >= mag_limit() {
                        assert(props.len() == 0);
                    }
                }
                let lo: int = if a.has_digit {
                    0
                } else {
                    1
                };
                let digs = digits_where(|d: int| digit_ok(min, max, a, d), lo, 10);
                lemma_digits_where_members(|d: int| digit_ok(min, max, a, d), lo, 10);
                let tail = if !a.has_decimal && md > 0 && a.has_digit {
                    seq![TokenV::Decimal]
                } else {
                    Seq::<TokenV>::empty()
                };
                assert(props == digs + tail);
                match t {
                    TokenV::Digit(n) => {
                        assert(k < digs.len() && props[k] == digs[k]) by {
                            if k >= digs.len() {
                                assert(props[k] == tail[k - digs.len()]);
                            }
                        }
                        assert(digit_ok(min, max, a, n as int));
                        let a2 = s2->InInteger_0;
                        reveal_with_fuel(pow10, 13);
                        if a.has_decimal {
                            crate::decimal::lemma_pow10_pos((11 - a.frac_digits) as nat);
                            crate::decimal::lemma_pow10_mono((11 - a.frac_digits) as nat, 12nat);
                            assert((n as int) * pow10((11 - a.frac_digits) as nat) <= 9 * pow10(
                                12nat,
                            ) && (n as int) * pow10((11 - a.frac_digits) as nat) >= 0)
                                by (nonlinear_arith)
                                requires
                                    0 <= n <= 9,
                                    1 <= pow10((11 - a.frac_digits) as nat) <= pow10(12nat),
                            ;
                            assert(mag_after_digit(a, n as int) == a.magnitude + (n as int)
                                * pow10((11 - a.frac_digits) as nat));
                        } else {
                            assert(mag_after_digit(a, n as int) == a.magnitude * 10 + (n as int)
                                * pow10(12nat));
                            assert((n as int) * pow10(12nat) <= 9_000_000_000_000int)
                                by (nonlinear_arith)
                                requires
                                    0 <= n <= 9,
                                    pow10(12nat) == 1_000_000_000_000int,
                            ;
                            assert((n as int) * pow10(12nat) >= 0) by (nonlinear_arith)
                                requires
                                    0 <= n,
                                    pow10(12nat) >= 1,
                            ;
                        }
                        assert(0 <= mag_after_digit(a, n as int)
                            <= 100_000_000_000_000_000_000_000int);
                        assert(a2.magnitude == mag_after_digit(a, n as int));
                        assert(acc_bounded(a2));
                        assert(wf_state(schema, s2));
                    },
                    TokenV::Decimal => {
                        assert(k >= digs.len() && props[k] == tail[k - digs.len()]) by {
                            if k < digs.len() {
                                assert(props[k] == digs[k]);
                            }
                        }
                        assert(!a.has_decimal && md > 0 && a.has_digit);
                        assert(wf_state(schema, s2));
                    },
                    _ => {},
                }
            },
            _ => {},
        },
        ParserState::InArray { items, inner } => match schema {
            JsonSchema::Array { items: ischema, min_items, max_items } => {
                let sub = spec_next(*ischema, *inner);
                let tail = array_tail_tokens(
                    spec_can_end(*inner),
                    items@.len() as int,
                    min_items,
                    max_items,
                );
                assert(props == sub + tail);
                if t is Comma && spec_can_end(*inner) {
                    assert(k >= sub.len()) by {
                        if k < sub.len() {
                            lemma_can_end_proposal_shapes(*ischema, *inner);
                            assert(sub[k] is Digit || sub[k] is Decimal);
                        }
                    }
                    assert(props[k] == tail[k - sub.len()]);
                    let commas = if max_items is None || items@.len() + 1 < max_items->0 {
                        seq![TokenV::Comma]
                    } else {
                        Seq::<TokenV>::empty()
                    };
                    let brackets = if min_items is None || items@.len() + 1 >= min_items->0 {
                        seq![TokenV::BracketClose]
                    } else {
                        Seq::<TokenV>::empty()
                    };
                    assert(tail == commas + brackets);
                    assert(max_items is None || items@.len() + 1 < max_items->0) by {
                        if !(max_items is None || items@.len() + 1 < max_items->0) {
                            assert(tail[k - sub.len()] == brackets[k - sub.len()]);
                        }
                    }
                    let items2 = s2->InArray_items;
                    crate::biaser::lemma_can_end_has_value(*inner);
                    assert(spec_has_value(*inner));
                    assert(items2@.len() == items@.len() + 1);
                    assert forall|i: int| 0 <= i < items2@.len() implies spec_is_valid(
                        *ischema,
                        #[trigger] items2@[i],
                    ) by {
                        if i < items@.len() {
                            assert(items2@[i] == items@[i]);
                        } else {
                            lemma_end_value_valid(*ischema, *inner, items2@[i]);
                        }
                    }
                    let inner2 = s2->InArray_inner;
                    assert(*inner2 is Start);
                    assert(wf_state(*ischema, *inner2));
                    assert(wf_state(schema, s2));
                } else if t is BracketClose && spec_can_end(*inner) {
                    assert(k >= sub.len()) by {
                        if k < sub.len() {
                            lemma_can_end_proposal_shapes(*ischema, *inner);
                            assert(sub[k] is Digit || sub[k] is Decimal);
                        }
                    }
                    assert(props[k] == tail[k - sub.len()]);
                    let commas = if max_items is None || items@.len() + 1 < max_items->0 {
                        seq![TokenV::Comma]
                    } else {
                        Seq::<TokenV>::empty()
                    };
                    let brackets = if min_items is None || items@.len() + 1 >= min_items->0 {
                        seq![TokenV::BracketClose]
                    } else {
                        Seq::<TokenV>::empty()
                    };
                    assert(tail == commas + brackets);
                    assert(min_items is None || items@.len() + 1 >= min_items->0) by {
                        if !(min_items is None || items@.len() + 1 >= min_items->0) {
                            assert(tail[k - sub.len()] == commas[k - sub.len()]);
                        }
                    }
                    let vs = s2->End_0->Array_0;
                    crate::biaser::lemma_can_end_has_value(*inner);
                    assert(vs@.len() == items@.len() + 1);
                    assert forall|i: int| 0 <= i < vs@.len() implies spec_is_valid(
                        *ischema,
                        #[trigger] vs@[i],
                    ) by {
                        if i < items@.len() {
                            assert(vs@[i] == items@[i]);
                        } else {
                            lemma_end_value_valid(*ischema, *inner, vs@[i]);
                        }
                    }
                    assert(wf_state(schema, s2));
                } else {
                    assert(k < sub.len()) by {
                        if k >= sub.len() {
                            assert(props[k] == tail[k - sub.len()]);
                            assert(spec_can_end(*inner));
                            assert(t is Comma || t is BracketClose);
                        }
                    }
                    assert(covers(sub[k], t));
                    assert(token_allowed(*ischema, *inner, t));
                    let inner2 = s2->InArray_inner;
                    lemma_advance_preserves_wf(*ischema, *inner, t, *inner2);
                    assert(wf_state(schema, s2));
                }
            },
            _ => {},
        },
        ParserState::InObject { so_far, part } => match schema {
            JsonSchema::Object { required, properties } => {
                let rr = remaining_required(required@, so_far@);
                match part {
                    ObjectPart::BeforeKey => {
                        if t is CurlyClose {
                            assert(rr.len() == 0) by {
                                if rr.len() != 0 {
                                    assert(props[k] == TokenV::DoubleQuote);
                                }
                            }
                        } else {
                            assert(rr.len() > 0) by {
                                if rr.len() == 0 {
                                    assert(props[k] == TokenV::CurlyClose);
                                }
                            }
                            let k2 = s2->InObject_part->InKey_0;
                            lemma_starts_with_empty(rr[0]);
                            assert(starts_with(rr[0], k2@));
                        }
                        assert(wf_state(schema, s2));
                    },
                    ObjectPart::InKey(kk) => {
                        if t is DoubleQuote {
                            assert(rr[0] == kk@) by {
                                if rr[0] != kk@ {
                                    assert(starts_with(rr[0], kk@));
                                    assert(props[k] == TokenV::AnyOf(
                                        seq![rr[0].skip(kk@.len() as int)],
                                    ));
                                    reveal_strlit("\"");
                                    assert(token_text(t)->0.len() == 1 && token_text(t)->0[0]
                                        == '"');
                                    assert(has_forbidden(token_text(t)->0));
                                }
                            }
                        } else {
                            let txt = token_text(t)->0;
                            assert(starts_with(rr[0], kk@) && rr[0] != kk@) by {
                                if !(starts_with(rr[0], kk@) && rr[0] != kk@) {
                                    assert(props[k] == TokenV::DoubleQuote);
                                }
                            }
                            assert(props[k] == TokenV::AnyOf(seq![rr[0].skip(kk@.len() as int)]));
                            let j = choose|j: int|
                                0 <= j < seq![rr[0].skip(kk@.len() as int)].len() && starts_with(
                                    #[trigger] seq![rr[0].skip(kk@.len() as int)][j],
                                    txt,
                                );
                            assert(starts_with(rr[0].skip(kk@.len() as int), txt));
                            lemma_prefix_extend(rr[0], kk@, txt);
                            assert(starts_with(rr[0], s2->InObject_part->InKey_0@));
                        }
                        assert(wf_state(schema, s2));
                    },
                    ObjectPart::AfterKey(kk) => {
                        let sf2 = s2->InObject_so_far;
                        assert(sf2@ == so_far@);
                        assert forall|i: int| 0 <= i < sf2@.len() implies {
                            let p = prop_of(properties@, (#[trigger] sf2@[i]).0@);
                            p is Some && spec_is_valid(p->0, sf2@[i].1)
                        } by {
                            assert(sf2@[i] == so_far@[i]);
                        }
                        let p2 = s2->InObject_part;
                        let key2 = p2->InValue_key;
                        let inner2 = p2->InValue_inner;
                        assert(key2@ == kk@);
                        assert(remaining_required(required@, sf2@) == rr);
                        assert(rr[0] == key2@);
                        assert(prop_of(properties@, key2@) is Some);
                        assert(*inner2 is Start);
                        assert(wf_state(prop_of(properties@, key2@)->0, *inner2));
                    },
                    ObjectPart::InValue { key, inner } => {
                        let ps = prop_of(properties@, key@)->0;
                        lemma_prop_of_member(properties@, key@);
                        let sub = spec_next(ps, *inner);
                        let tail = if spec_can_end(*inner) {
                            if rr.len() == 1 {
                                seq![TokenV::CurlyClose]
                            } else {
                                seq![TokenV::Comma]
                            }
                        } else {
                            Seq::<TokenV>::empty()
                        };
                        assert(props == sub + tail);
                        if t is Comma && spec_can_end(*inner) {
                            crate::biaser::lemma_can_end_has_value(*inner);
                            let sf2 = s2->InObject_so_far;
                            assert(sf2@.last().0@ == key@);
                            lemma_end_value_valid(ps, *inner, sf2@.last().1);
                            assert forall|i: int| 0 <= i < sf2@.len() implies {
                                let p = prop_of(properties@, (#[trigger] sf2@[i]).0@);
                                p is Some && spec_is_valid(p->0, sf2@[i].1)
                            } by {
                                if i < so_far@.len() {
                                    assert(sf2@[i] == so_far@[i]);
                                }
                            }
                            assert(wf_state(schema, s2));
                        } else if t is CurlyClose && spec_can_end(*inner) && rr.len() == 1 {
                            crate::biaser::lemma_can_end_has_value(*inner);
                            let sf2 = s2->InObject_so_far;
                            assert(sf2@.last().0@ == key@);
                            lemma_end_value_valid(ps, *inner, sf2@.last().1);
                            assert forall|i: int| 0 <= i < sf2@.len() implies {
                                let p = prop_of(properties@, (#[trigger] sf2@[i]).0@);
                                p is Some && spec_is_valid(p->0, sf2@[i].1)
                            } by {
                                if i < so_far@.len() {
                                    assert(sf2@[i] == so_far@[i]);
                                }
                            }
                            lemma_remaining_after_last(required@, so_far@, sf2@);
                            assert(wf_state(schema, s2));
                        } else {
                            assert(k < sub.len()) by {
                                if k >= sub.len() {
                                    assert(props[k] == tail[k - sub.len()]);
                                    assert(spec_can_end(*inner));
                                    assert(t is Comma || t is CurlyClose);
                                    if t is CurlyClose {
                                        assert(rr.len() == 1);
                                        assert(props[k] == TokenV::CurlyClose);
                                    }
                                }
                            }
                            assert(covers(sub[k], t));
                            assert(token_allowed(ps, *inner, t));
                            let inner2 = s2->InObject_part->InValue_inner;
                            lemma_advance_preserves_wf(ps, *inner, t, *inner2);
                            assert(wf_state(schema, s2));
                        }
                    },
                    ObjectPart::Finished => {},
                }
            },
            _ => {},
        },
    }
}

/// Start-state digit: the new accumulator is well-formed.
proof fn proof_start_digit(schema: JsonSchema, n: int, s2: ParserState)
    requires
        schema is Number,
        schema_wf(schema),
        1 <= n <= 9,
        pos_digit_in_bounds(schema->Number_min, schema->Number_max, n),
        s2 == ParserState::InInteger(
            NumAcc {
                neg: false,
                has_digit: true,
                has_decimal: false,
                frac_digits: 0,
                magnitude: (n * pow10(12)) as u128,
            },
        ),
    ensures
        wf_state(schema, s2),
{
    reveal_with_fuel(pow10, 13);
    let a2 = s2->InInteger_0;
    assert(a2.magnitude == n * pow10(12));
    assert(num_fixed(a2) == n * DECIMAL_ONE);
}

} // verus!

verus! {

// ------------------------------------------------------------------
// Progress
// ------------------------------------------------------------------

/// In every reachable state, either the value can end or some token is
/// still proposed.
pub proof fn lemma_progress(schema: JsonSchema, state: ParserState)
    requires
        schema_wf(schema),
        schema_live(schema),
        wf_state(schema, state),
    ensures
        spec_can_end(state) || spec_next(schema, state).len() > 0,
    decreases state,
{
    match state {
        ParserState::End(_) => {},
        ParserState::Start => match schema {
            JsonSchema::Number { min, max, max_decimals } => {
                let digs = digits_where(|d: int| pos_digit_in_bounds(min, max, d), 1, 10);
                if minus_offered(min, max) {
                    let tail = seq![TokenV::Minus];
                    assert(spec_next(schema, state) == digs + tail);
                } else {
                    let d = choose|d: int| 1 <= d <= 9 && #[trigger] pos_digit_in_bounds(min, max, d);
                    lemma_digits_where_members(|d: int| pos_digit_in_bounds(min, max, d), 1, 10);
                    assert((|d: int| pos_digit_in_bounds(min, max, d))(d));
                    assert(digs.len() > 0);
                }
            },
            _ => {},
        },
        ParserState::InString(s) => match schema {
            JsonSchema::String { max_length, enum_values } => {
                if !(max_length is Some && s@.len() >= max_length->0) && enum_values is Some {
                    let vs = enum_values->0@.map_values(|v: String| v@);
                    let i = choose|i: int|
                        0 <= i < enum_values->0@.len() && (max_length is Some ==> (
                        #[trigger] enum_values->0@[i])@.len() <= max_length->0) && starts_with(
                            enum_values->0@[i]@,
                            s@,
                        );
                    assert(vs[i] == enum_values->0@[i]@);
                    let rems = enum_remainders(vs, s@, max_length);
                    if vs[i] == s@ {
                        assert(enum_can_close(vs, s@, max_length));
                        let head = if rems.len() > 0 {
                            seq![TokenV::AnyOf(rems)]
                        } else {
                            Seq::<TokenV>::empty()
                        };
                        assert(spec_next(schema, state) == head + seq![TokenV::DoubleQuote]);
                    } else {
                        assert(enum_value_extends(vs[i], s@, max_length));
                        lemma_enum_remainders_nonempty(vs, s@, max_length, i);
                        let tail = if enum_can_close(vs, s@, max_length) {
                            seq![TokenV::DoubleQuote]
                        } else {
                            Seq::<TokenV>::empty()
                        };
                        assert(spec_next(schema, state) == seq![TokenV::AnyOf(rems)] + tail);
                    }
                }
            },
            _ => {},
        },
        ParserState::InInteger(a) => match schema {
            JsonSchema::Number { min, max, max_decimals } => {
                let md: int = md_of(max_decimals);
                reveal_with_fuel(pow10, 13);
                if !a.has_digit {
                    // A lone minus sign: liveness grants a one-digit literal.
                    let d = choose|d: int| 1 <= d <= 9 && #[trigger] neg_digit_in_bounds(min, max, d);
                    assert(mag_after_digit(a, d) == d * pow10(12nat));
                    assert(fixed_after_digit(a, d) == -d * DECIMAL_ONE) by (nonlinear_arith)
                        requires
                            mag_after_digit(a, d) == d * pow10(12nat),
                            fixed_after_digit(a, d) == -mag_after_digit(a, d),
                            pow10(12nat) == DECIMAL_ONE,
                    ;
                    assert(digit_ok(min, max, a, d));
                    lemma_digits_where_members(|d: int| digit_ok(min, max, a, d), 1, 10);
                    assert((|d: int| digit_ok(min, max, a, d))(d));
                    assert(digits_where(|d: int| digit_ok(min, max, a, d), 1, 10).len() > 0);
                } else if a.has_decimal && a.frac_digits == 0 {
                    // A dangling decimal point: appending zero keeps the value.
                    crate::decimal::lemma_pow10_pos(11nat);
                    assert(mag_after_digit(a, 0) == a.magnitude + 0 * pow10(11nat));
                    assert(0 * pow10(11nat) == 0) by (nonlinear_arith);
                    assert(fixed_after_digit(a, 0) == num_fixed(a));
                    assert(digit_ok(min, max, a, 0));
                    lemma_digits_where_members(|d: int| digit_ok(min, max, a, d), 0, 10);
                    assert((|d: int| digit_ok(min, max, a, d))(0));
                    assert(digits_where(|d: int| digit_ok(min, max, a, d), 0, 10).len() > 0);
                }
            },
            _ => {},
        },
        ParserState::InArray { items, inner } => match schema {
            JsonSchema::Array { items: ischema, min_items, max_items } => {
                let sub = spec_next(*ischema, *inner);
                let tail = array_tail_tokens(
                    spec_can_end(*inner),
                    items@.len() as int,
                    min_items,
                    max_items,
                );
                assert(spec_next(schema, state) == sub + tail);
                if spec_can_end(*inner) {
                    if !(max_items is None || items@.len() + 1 < max_items->0) && !(
                    min_items is None || items@.len() + 1 >= min_items->0) {
                        assert(min_items->0 <= max_items->0);
                        assert(false);
                    }
                } else {
                    lemma_progress(*ischema, *inner);
                }
            },
            _ => {},
        },
        ParserState::InObject { so_far, part } => match schema {
            JsonSchema::Object { required, properties } => match part {
                ObjectPart::BeforeKey => {},
                ObjectPart::Finished => {},
                ObjectPart::InKey(_) => {},
                ObjectPart::AfterKey(_) => {},
                ObjectPart::InValue { key, inner } => {
                    let ps = prop_of(properties@, key@)->0;
                    lemma_prop_of_member(properties@, key@);
                    let sub = spec_next(ps, *inner);
                    let rr = remaining_required(required@, so_far@);
                    let tail = if spec_can_end(*inner) {
                        if rr.len() == 1 {
                            seq![TokenV::CurlyClose]
                        } else {
                            seq![TokenV::Comma]
                        }
                    } else {
                        Seq::<TokenV>::empty()
                    };
                    assert(spec_next(schema, state) == sub + tail);
                    if !spec_can_end(*inner) {
                        lemma_progress(ps, *inner);
                    }
                },
            },
            _ => {},
        },
    }
}

} // verus!
