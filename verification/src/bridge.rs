//! The vocabulary bridge: mapping abstract JSON tokens onto concrete model
//! token ids.
//!
//! Structural tokens, keywords and digits have one textual form each
//! ([`crate::token::JsonToken::to_string`]) and resolve through the model's
//! tokenizer to a single id. The `AnyOf` and `AnyString` proposals instead
//! admit classes of tokens; [`fragment_token_ids`] sweeps a decoded
//! vocabulary and returns exactly the admitted ids, mirroring the `covers`
//! relation the laws are stated over.

use vstd::prelude::*;
use vstd::string::*;
use crate::text::{has_forbidden, starts_with, str_has_forbidden, str_starts_with};
use crate::token::JsonToken;

verus! {

/// A decoded vocabulary entry admitted by `AnyOf(values)`: nonempty, free
/// of quotes and whitespace controls, and a prefix of one of the values.
pub open spec fn any_of_admits(values: Seq<Seq<char>>, text: Seq<char>) -> bool {
    &&& text.len() > 0
    &&& !has_forbidden(text)
    &&& exists|i: int| 0 <= i < values.len() && starts_with(#[trigger] values[i], text)
}

/// A decoded vocabulary entry admitted by `AnyString { max_length }`.
pub open spec fn any_string_admits(max_length: Option<usize>, text: Seq<char>) -> bool {
    &&& !has_forbidden(text)
    &&& (max_length is Some ==> text.len() <= max_length->0)
}

/// Whether vocabulary id `id` is admitted by the proposal.
pub open spec fn fragment_admits(
    proposal: JsonToken,
    vocab: Seq<Option<String>>,
    eot: usize,
    id: int,
) -> bool {
    &&& 0 <= id < vocab.len()
    &&& id != eot
    &&& vocab[id] is Some
    &&& match proposal {
        JsonToken::AnyOf(vs) => any_of_admits(
            vs@.map_values(|v: String| v@),
            vocab[id]->0@,
        ),
        JsonToken::AnyString { max_length } => any_string_admits(max_length, vocab[id]->0@),
        _ => false,
    }
}

/// The admitted ids below `hi`, ascending.
pub open spec fn admitted_ids(
    proposal: JsonToken,
    vocab: Seq<Option<String>>,
    eot: usize,
    lo: int,
    hi: int,
) -> Seq<usize>
    decreases hi - lo,
{
    if lo >= hi {
        Seq::empty()
    } else {
        (if fragment_admits(proposal, vocab, eot, lo) {
            seq![lo as usize]
        } else {
            Seq::empty()
        }) + admitted_ids(proposal, vocab, eot, lo + 1, hi)
    }
}

proof fn lemma_admitted_ids_snoc(
    proposal: JsonToken,
    vocab: Seq<Option<String>>,
    eot: usize,
    lo: int,
    hi: int,
)
    requires
        lo <= hi,
    ensures
        admitted_ids(proposal, vocab, eot, lo, hi + 1) == admitted_ids(proposal, vocab, eot, lo, hi)
            + (if fragment_admits(proposal, vocab, eot, hi) {
            seq![hi as usize]
        } else {
            Seq::<usize>::empty()
        }),
    decreases hi - lo,
{
    if lo == hi {
        assert(admitted_ids(proposal, vocab, eot, hi, hi) == Seq::<usize>::empty());
        assert(admitted_ids(proposal, vocab, eot, hi + 1, hi + 1) == Seq::<usize>::empty());
        assert(admitted_ids(proposal, vocab, eot, lo, hi + 1) =~= admitted_ids(
            proposal,
            vocab,
            eot,
            lo,
            hi,
        ) + (if fragment_admits(proposal, vocab, eot, hi) {
            seq![hi as usize]
        } else {
            Seq::<usize>::empty()
        }));
    } else {
        lemma_admitted_ids_snoc(proposal, vocab, eot, lo + 1, hi);
        assert(admitted_ids(proposal, vocab, eot, lo, hi + 1) =~= admitted_ids(
            proposal,
            vocab,
            eot,
            lo,
            hi,
        ) + (if fragment_admits(proposal, vocab, eot, hi) {
            seq![hi as usize]
        } else {
            Seq::<usize>::empty()
        }));
    }
}

/// Sweep the decoded vocabulary for the ids a fragment proposal admits.
/// `vocab[id]` is the decoded text of token `id`, or nothing when the token
/// is not valid text. The end-of-text id is never admitted.
pub fn fragment_token_ids(proposal: &JsonToken, vocab: &Vec<Option<String>>, eot: usize) -> (r: Vec<
    usize,
>)
    ensures
        r@ == admitted_ids(*proposal, vocab@, eot, 0, vocab@.len() as int),
{
    let n = vocab.len();
    let mut out: Vec<usize> = Vec::new();
    proof {
        assert(out@ =~= admitted_ids(*proposal, vocab@, eot, 0, 0));
    }
    let mut id: usize = 0;
    while id < n
        invariant
            id <= n,
            n == vocab@.len(),
            out@ == admitted_ids(*proposal, vocab@, eot, 0, id as int),
        decreases n - id,
    {
        proof {
            lemma_admitted_ids_snoc(*proposal, vocab@, eot, 0, id as int);
        }
        let included: bool = if id == eot {
            false
        } else {
            match &vocab[id] {
                Option::Some(text) => match proposal {
                    JsonToken::AnyOf(vs) => {
                        if text.as_str().unicode_len() == 0 || str_has_forbidden(text.as_str()) {
                            false
                        } else {
                            let mut any: bool = false;
                            let m = vs.len();
                            let mut j: usize = 0;
                            while j < m
                                invariant
                                    j <= m,
                                    m == vs@.len(),
                                    any == exists|i: int|
                                        0 <= i < j && starts_with(
                                            (#[trigger] vs@[i])@,
                                            text@,
                                        ),
                                decreases m - j,
                            {
                                if str_starts_with(vs[j].as_str(), text.as_str()) {
                                    any = true;
                                }
                                j = j + 1;
                            }
                            proof {
                                let m = vs@.map_values(|v: String| v@);
                                if any {
                                    let i = choose|i: int|
                                        0 <= i < vs@.len() && starts_with(
                                            (#[trigger] vs@[i])@,
                                            text@,
                                        );
                                    assert(m[i] == vs@[i]@);
                                    assert(starts_with(m[i], text@));
                                } else {
                                    assert forall|i: int| 0 <= i < m.len() implies !starts_with(
                                        #[trigger] m[i],
                                        text@,
                                    ) by {
                                        assert(m[i] == vs@[i]@);
                                    }
                                }
                            }
                            any
                        }
                    },
                    JsonToken::AnyString { max_length } => {
                        if str_has_forbidden(text.as_str()) {
                            false
                        } else {
                            match max_length {
                                Option::Some(ml) => text.as_str().unicode_len() <= *ml,
                                Option::None => true,
                            }
                        }
                    },
                    _ => false,
                },
                Option::None => false,
            }
        };
        proof {
            assert(included == fragment_admits(*proposal, vocab@, eot, id as int));
        }
        if included {
            out.push(id);
        }
        proof {
            assert(out@ =~= admitted_ids(*proposal, vocab@, eot, 0, id + 1));
        }
        id = id + 1;
    }
    out
}

/// A biaser that admits everything: it emits no bias and consumes nothing.
pub struct NullBiaser {}

impl NullBiaser {
    /// No ids are singled out: the empty bias.
    pub fn bias_token_ids(&self) -> (r: Vec<usize>)
        ensures
            r@ == Seq::<usize>::empty(),
    {
        Vec::new()
    }

    /// Consuming a token changes nothing.
    pub fn advance(&self) {
    }
}

} // verus!
