//! The decisions of the per-request inference loop: prompt assembly with the
//! private-token check, the forced-candidate rule, private-id filtering, the
//! rolling UTF-8 buffer, the per-piece outcome, and the token-count stop.
//!
//! The loop itself performs model calls and channel I/O and lives outside
//! the library; it feeds these functions plain values and acts on their
//! results.

use vstd::prelude::*;
use vstd::string::*;
use vstd::utf8::{encode_utf8, valid_utf8};
use crate::api::BackendError;
use crate::sequence::{seq_step, SequenceSet};
use crate::text::str_eq;

verus! {

/// Counters for one completion: prompt and prediction token counts and
/// durations (microseconds).
#[derive(Debug, Clone, Copy, PartialEq, Eq, Structural)]
pub struct InferenceStats {
    pub prompt_tokens: usize,
    pub predict_tokens: usize,
    pub feed_prompt_duration_us: u64,
    pub predict_duration_us: u64,
}

/// `a + b` capped at the type's maximum.
pub open spec fn sat_add(a: int, b: int, cap: int) -> int {
    if a + b <= cap {
        a + b
    } else {
        cap
    }
}

pub(crate) fn sat_add_u64(a: u64, b: u64) -> (r: u64)
    ensures
        r == sat_add(a as int, b as int, u64::MAX as int),
{
    if a > u64::MAX - b {
        u64::MAX
    } else {
        a + b
    }
}

pub(crate) fn sat_add_usize(a: usize, b: usize) -> (r: usize)
    ensures
        r == sat_add(a as int, b as int, usize::MAX as int),
{
    if a > usize::MAX - b {
        usize::MAX
    } else {
        a + b
    }
}

impl InferenceStats {
    /// Accumulate another stats record, saturating at the counter caps.
    pub fn add(&mut self, other: &InferenceStats)
        ensures
            final(self).prompt_tokens == sat_add(
                old(self).prompt_tokens as int,
                other.prompt_tokens as int,
                usize::MAX as int,
            ),
            final(self).predict_tokens == sat_add(
                old(self).predict_tokens as int,
                other.predict_tokens as int,
                usize::MAX as int,
            ),
            final(self).feed_prompt_duration_us == sat_add(
                old(self).feed_prompt_duration_us as int,
                other.feed_prompt_duration_us as int,
                u64::MAX as int,
            ),
            final(self).predict_duration_us == sat_add(
                old(self).predict_duration_us as int,
                other.predict_duration_us as int,
                u64::MAX as int,
            ),
    {
        self.prompt_tokens = sat_add_usize(self.prompt_tokens, other.prompt_tokens);
        self.predict_tokens = sat_add_usize(self.predict_tokens, other.predict_tokens);
        self.feed_prompt_duration_us = sat_add_u64(
            self.feed_prompt_duration_us,
            other.feed_prompt_duration_us,
        );
        self.predict_duration_us = sat_add_u64(self.predict_duration_us, other.predict_duration_us);
    }
}

impl Default for InferenceStats {
    /// All counters at zero.
    fn default() -> (r: InferenceStats)
        ensures
            r.prompt_tokens == 0,
            r.predict_tokens == 0,
            r.feed_prompt_duration_us == 0,
            r.predict_duration_us == 0,
    {
        InferenceStats {
            prompt_tokens: 0,
            predict_tokens: 0,
            feed_prompt_duration_us: 0,
            predict_duration_us: 0,
        }
    }
}

/// Whether some id of `v` occurs among `ids`.
pub open spec fn contains_id(ids: Seq<u32>, x: u32) -> bool {
    exists|i: int| 0 <= i < ids.len() && ids[i] == x
}

fn vec_contains_id(ids: &Vec<u32>, x: u32) -> (r: bool)
    ensures
        r == contains_id(ids@, x),
{
    let n = ids.len();
    let mut i: usize = 0;
    while i < n
        invariant
            i <= n,
            n == ids@.len(),
            forall|j: int| 0 <= j < i ==> ids@[j] != x,
        decreases n - i,
    {
        if ids[i] == x {
            return true;
        }
        i = i + 1;
    }
    false
}

/// Assemble the prompt token stream: recalled memories, prefix, user
/// prompt and postfix, in that order. The request is rejected when the user
/// prompt holds any private token id.
pub fn assemble_prompt(
    remember_tokens: &Vec<u32>,
    prefix_tokens: &Vec<u32>,
    user_tokens: &Vec<u32>,
    postfix_tokens: &Vec<u32>,
    private_token_ids: &Vec<u32>,
) -> (r: Result<Vec<u32>, BackendError>)
    ensures
        match r {
            Ok(v) => (forall|i: int|
                0 <= i < user_tokens@.len() ==> !contains_id(
                    private_token_ids@,
                    #[trigger] user_tokens@[i],
                )) && v@ == remember_tokens@ + prefix_tokens@ + user_tokens@ + postfix_tokens@,
            Err(e) => e is IllegalToken && exists|i: int|
                0 <= i < user_tokens@.len() && contains_id(
                    private_token_ids@,
                    #[trigger] user_tokens@[i],
                ),
        },
{
    let n = user_tokens.len();
    let mut i: usize = 0;
    while i < n
        invariant
            i <= n,
            n == user_tokens@.len(),
            forall|j: int|
                0 <= j < i ==> !contains_id(private_token_ids@, #[trigger] user_tokens@[j]),
        decreases n - i,
    {
        if vec_contains_id(private_token_ids, user_tokens[i]) {
            return Err(BackendError::IllegalToken);
        }
        i = i + 1;
    }
    let mut out: Vec<u32> = Vec::new();
    append_ids(&mut out, remember_tokens);
    append_ids(&mut out, prefix_tokens);
    append_ids(&mut out, user_tokens);
    append_ids(&mut out, postfix_tokens);
    proof {
        assert(out@ =~= remember_tokens@ + prefix_tokens@ + user_tokens@ + postfix_tokens@);
    }
    Ok(out)
}

/// Copy all of `src` onto the end of `dst`.
fn append_ids(dst: &mut Vec<u32>, src: &Vec<u32>)
    ensures
        final(dst)@ == old(dst)@ + src@,
{
    let n = src.len();
    let mut i: usize = 0;
    while i < n
        invariant
            i <= n,
            n == src@.len(),
            dst@ == old(dst)@ + src@.take(i as int),
        decreases n - i,
    {
        dst.push(src[i]);
        proof {
            assert(old(dst)@ + src@.take(i + 1) =~= dst@);
        }
        i = i + 1;
    }
    proof {
        assert(old(dst)@ + src@.take(n as int) =~= old(dst)@ + src@);
    }
}

/// The candidate ids that survive the private-token filter, in order.
pub open spec fn without_private(candidates: Seq<u32>, private: Seq<u32>) -> Seq<u32>
    decreases candidates.len(),
{
    if candidates.len() == 0 {
        Seq::empty()
    } else {
        (if contains_id(private, candidates[0]) {
            Seq::empty()
        } else {
            seq![candidates[0]]
        }) + without_private(candidates.drop_first(), private)
    }
}

proof fn lemma_without_private_snoc(candidates: Seq<u32>, i: int, private: Seq<u32>)
    requires
        0 <= i < candidates.len(),
    ensures
        without_private(candidates.take(i + 1), private) == without_private(
            candidates.take(i),
            private,
        ) + (if contains_id(private, candidates[i]) {
            Seq::<u32>::empty()
        } else {
            seq![candidates[i]]
        }),
    decreases i,
{
    if i == 0 {
        assert(candidates.take(0) =~= Seq::<u32>::empty());
        assert(candidates.take(1)[0] == candidates[0]);
        assert(candidates.take(1).drop_first() =~= Seq::<u32>::empty());
    } else {
        lemma_without_private_snoc(candidates.drop_first(), i - 1, private);
        assert(candidates.take(i + 1)[0] == candidates[0]);
        assert(candidates.take(i + 1).drop_first() =~= candidates.drop_first().take(i));
        assert(candidates.take(i)[0] == candidates[0]);
        assert(candidates.take(i).drop_first() =~= candidates.drop_first().take(i - 1));
        assert(candidates.drop_first()[i - 1] == candidates[i]);
    }
}

/// Remove the private ids from a candidate set, keeping the order.
pub fn remove_private(candidates: Vec<u32>, private: &Vec<u32>) -> (r: Vec<u32>)
    ensures
        r@ == without_private(candidates@, private@),
{
    let n = candidates.len();
    let mut out: Vec<u32> = Vec::new();
    proof {
        assert(candidates@.take(0int) =~= Seq::<u32>::empty());
        assert(out@ =~= without_private(candidates@.take(0int), private@));
    }
    let mut i: usize = 0;
    while i < n
        invariant
            i <= n,
            n == candidates@.len(),
            out@ == without_private(candidates@.take(i as int), private@),
        decreases n - i,
    {
        proof {
            lemma_without_private_snoc(candidates@, i as int, private@);
        }
        if !vec_contains_id(private, candidates[i]) {
            out.push(candidates[i]);
        }
        proof {
            assert(out@ =~= without_private(candidates@.take(i + 1), private@));
        }
        i = i + 1;
    }
    proof {
        assert(candidates@.take(n as int) =~= candidates@);
    }
    out
}

/// The forced-candidate rule: when exactly one candidate remains, it is the
/// next token and no sampling entropy need be spent.
pub fn forced_candidate(candidates: &Vec<u32>) -> (r: Option<u32>)
    ensures
        r is Some <==> candidates@.len() == 1,
        r is Some ==> r->0 == candidates@[0],
{
    if candidates.len() == 1 {
        Some(candidates[0])
    } else {
        None
    }
}

/// Relies on `core::str::from_utf8`: it succeeds exactly on valid UTF-8,
/// and the characters it returns encode back to the given bytes.
#[verifier::external_body]
fn try_utf8(bytes: &Vec<u8>) -> (r: Option<String>)
    ensures
        match r {
            Some(s) => valid_utf8(bytes@) && encode_utf8(s@) == bytes@,
            None => !valid_utf8(bytes@),
        },
{
    match core::str::from_utf8(bytes.as_slice()) {
        Ok(s) => Some(s.to_owned()),
        Err(_) => None,
    }
}

/// Rolling UTF-8 buffer: byte-pair tokens can split codepoints, so decoded
/// bytes accumulate until they form valid UTF-8, and only then emerge as
/// text.
#[derive(Debug)]
pub struct TokenUtf8Buffer {
    buf: Vec<u8>,
}

impl TokenUtf8Buffer {
    /// The bytes waiting for their completing continuation.
    pub closed spec fn pending(self) -> Seq<u8> {
        self.buf@
    }

    pub fn new() -> (r: TokenUtf8Buffer)
        ensures
            r.pending() == Seq::<u8>::empty(),
    {
        TokenUtf8Buffer { buf: Vec::new() }
    }

    /// Feed the bytes of one token. When everything gathered so far is
    /// valid UTF-8, it comes out as text and the buffer empties; otherwise
    /// the bytes keep waiting.
    pub fn push(&mut self, bytes: &Vec<u8>) -> (r: Option<String>)
        ensures
            match r {
                Some(s) => encode_utf8(s@) == old(self).pending() + bytes@ && final(self).pending()
                    == Seq::<u8>::empty(),
                None => !valid_utf8(old(self).pending() + bytes@) && final(self).pending() == old(
                    self,
                ).pending() + bytes@,
            },
    {
        let n = bytes.len();
        let mut i: usize = 0;
        while i < n
            invariant
                i <= n,
                n == bytes@.len(),
                self.buf@ == old(self).pending() + bytes@.take(i as int),
            decreases n - i,
        {
            self.buf.push(bytes[i]);
            proof {
                assert(old(self).pending() + bytes@.take(i + 1) =~= self.buf@);
            }
            i = i + 1;
        }
        proof {
            assert(old(self).pending() + bytes@.take(n as int) =~= old(self).pending() + bytes@);
        }
        match try_utf8(&self.buf) {
            Option::Some(s) => {
                self.buf = Vec::new();
                Some(s)
            },
            Option::None => None,
        }
    }
}

/// What happens to one decoded text piece.
#[derive(Debug, PartialEq, Eq, Structural)]
pub enum PieceOutcome {
    /// A stop sequence completed: generation ends, the piece is not emitted.
    StopGeneration,
    /// The piece is a private token literal: swallowed, generation goes on.
    SwallowPiece,
    /// The piece goes to the caller.
    EmitPiece,
}

/// Whether the piece equals one of the private token literals.
pub open spec fn is_private_piece(private: Seq<String>, piece: Seq<char>) -> bool {
    exists|i: int| 0 <= i < private.len() && (#[trigger] private[i])@ == piece
}

fn piece_is_private(private: &Vec<String>, piece: &str) -> (r: bool)
    ensures
        r == is_private_piece(private@, piece@),
{
    let n = private.len();
    let mut i: usize = 0;
    while i < n
        invariant
            i <= n,
            n == private@.len(),
            forall|j: int| 0 <= j < i ==> (#[trigger] private@[j])@ != piece@,
        decreases n - i,
    {
        if str_eq(private[i].as_str(), piece) {
            return true;
        }
        i = i + 1;
    }
    false
}

/// Decide what to do with one decoded piece: stop when a configured stop
/// sequence completes on it, swallow private token literals, emit the rest.
/// An empty matcher set means no stop sequences are configured.
pub fn handle_piece(
    stop_sequences: &mut SequenceSet,
    private_tokens: &Vec<String>,
    piece: &str,
) -> (r: PieceOutcome)
    ensures
        final(stop_sequences).members().len() == old(stop_sequences).members().len(),
        old(stop_sequences).members().len() == 0 ==> *final(stop_sequences) == *old(
            stop_sequences,
        ),
        old(stop_sequences).members().len() > 0 ==> forall|i: int|
            0 <= i < old(stop_sequences).members().len() ==> {
                &&& (#[trigger] final(stop_sequences).members()[i]).target() == old(
                    stop_sequences,
                ).members()[i].target()
                &&& final(stop_sequences).members()[i].cursor() == seq_step(
                    old(stop_sequences).members()[i].target(),
                    old(stop_sequences).members()[i].cursor(),
                    piece@,
                ).0
            },
        r == PieceOutcome::StopGeneration <==> old(stop_sequences).members().len() > 0 && exists|
            i: int,
        |
            0 <= i < old(stop_sequences).members().len() && seq_step(
                (#[trigger] old(stop_sequences).members()[i]).target(),
                old(stop_sequences).members()[i].cursor(),
                piece@,
            ).1,
        r != PieceOutcome::StopGeneration ==> (r == PieceOutcome::SwallowPiece <==> is_private_piece(
            private_tokens@,
            piece@,
        )),
{
    let stopped: bool = if stop_sequences.member_count() > 0 {
        stop_sequences.advance(piece)
    } else {
        false
    };
    if stopped {
        PieceOutcome::StopGeneration
    } else if piece_is_private(private_tokens, piece) {
        PieceOutcome::SwallowPiece
    } else {
        PieceOutcome::EmitPiece
    }
}

/// Without a biaser, generation stops once `max_tokens` is reached; with a
/// biaser, the biaser's terminal state decides instead.
pub fn should_stop_for_limit(
    has_biaser: bool,
    max_tokens: &Option<usize>,
    tokens_generated: usize,
) -> (r: bool)
    ensures
        r == (!has_biaser && max_tokens is Some && tokens_generated >= max_tokens->0),
{
    if has_biaser {
        false
    } else {
        match max_tokens {
            Option::Some(m) => tokens_generated >= *m,
            Option::None => false,
        }
    }
}

} // verus!
