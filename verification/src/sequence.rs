//! Stop-sequence matching.
//!
//! A [`Sequence`] holds one literal stop string and a cursor into it. Text
//! arrives in chunks of arbitrary size; a sequence consumes the longest
//! prefix of a chunk that continues the remaining suffix of its target. On a
//! mismatch with a nonzero cursor it retries the same chunk once from the
//! start. A [`SequenceSet`] advances several sequences at once; generation
//! stops as soon as any member completes.

use vstd::prelude::*;
use vstd::string::*;

verus! {

/// One step of the matcher on one chunk: from `(target, cursor)` and the
/// chunk, the new cursor and whether the target completed during the chunk.
pub open spec fn seq_step(target: Seq<char>, state: int, chunk: Seq<char>) -> (int, bool)
    decreases (if state == 0 { 0int } else { 1int }), chunk.len(),
{
    if state < 0 || state >= target.len() {
        (state, true)
    } else {
        let rem = target.len() - state;
        let overlap = if rem <= chunk.len() { rem } else { chunk.len() as int };
        if target.subrange(state, state + overlap) == chunk.subrange(0, overlap) {
            if chunk.len() > rem {
                // The chunk completed the target and has text left over; the
                // leftover is matched again from the start of the target.
                (seq_step(target, 0, chunk.skip(rem)).0, true)
            } else {
                (state + overlap, state + overlap == target.len())
            }
        } else {
            if state != 0 {
                seq_step(target, 0, chunk)
            } else {
                (0, false)
            }
        }
    }
}

/// Matcher state for a single stop sequence.
#[derive(Debug)]
pub struct Sequence {
    tokens: String,
    state: usize,
}

/// `chunk[i .. i + len)` equals `target[tfrom .. tfrom + len)`.
fn ranges_eq(target: &str, tfrom: usize, chunk: &str, cfrom: usize, len: usize) -> (r: bool)
    requires
        tfrom + len <= target@.len() <= usize::MAX,
        cfrom + len <= chunk@.len() <= usize::MAX,
    ensures
        r == (target@.subrange(tfrom as int, tfrom + len) == chunk@.subrange(
            cfrom as int,
            cfrom + len,
        )),
{
    let mut i: usize = 0;
    while i < len
        invariant
            i <= len,
            tfrom + len <= target@.len() <= usize::MAX,
            cfrom + len <= chunk@.len() <= usize::MAX,
            forall|j: int|
                0 <= j < i ==> target@[tfrom + j] == #[trigger] chunk@[cfrom + j],
        decreases len - i,
    {
        if target.get_char(tfrom + i) != chunk.get_char(cfrom + i) {
            assert(target@.subrange(tfrom as int, tfrom + len)[i as int] != chunk@.subrange(
                cfrom as int,
                cfrom + len,
            )[i as int]);
            return false;
        }
        i = i + 1;
    }
    assert forall|k: int| 0 <= k < len implies #[trigger] target@.subrange(
        tfrom as int,
        tfrom + len,
    )[k] == chunk@.subrange(cfrom as int, cfrom + len)[k] by {
        assert(target@[tfrom + k] == chunk@[cfrom + k]);
    }
    assert(target@.subrange(tfrom as int, tfrom + len) =~= chunk@.subrange(
        cfrom as int,
        cfrom + len,
    ));
    true
}

/// One matcher step on an explicit cursor, so that the recursion has a
/// measure over plain arguments.
fn step(target: &str, state: usize, token: &str) -> (r: (usize, bool))
    ensures
        (r.0 as int, r.1) == seq_step(target@, state as int, token@),
    decreases (if state == 0 { 0int } else { 1int }), token@.len(),
{
    let tlen = target.unicode_len();
    if state >= tlen {
        return (state, true);
    }
    let token_len = token.unicode_len();
    let rem = tlen - state;
    let overlap = if rem <= token_len { rem } else { token_len };
    if ranges_eq(target, state, token, 0, overlap) {
        if token_len > rem {
            let tail = token.substring_char(rem, token_len);
            assert(tail@ =~= token@.skip(rem as int));
            let rec = step(target, 0, tail);
            (rec.0, true)
        } else {
            (state + overlap, state + overlap == tlen)
        }
    } else {
        if state != 0 {
            step(target, 0, token)
        } else {
            (0, false)
        }
    }
}

impl Sequence {
    /// The literal stop string this sequence looks for.
    pub closed spec fn target(self) -> Seq<char> {
        self.tokens@
    }

    /// How many characters of the target have been matched so far.
    pub closed spec fn cursor(self) -> int {
        self.state as int
    }

    pub fn new(tokens: String) -> (r: Sequence)
        ensures
            r.target() == tokens@,
            r.cursor() == 0,
    {
        Sequence { tokens, state: 0 }
    }

    /// Feed one chunk of emitted text; true when the target has completed,
    /// either during this chunk or earlier.
    pub fn advance(&mut self, token: &str) -> (r: bool)
        ensures
            final(self).target() == old(self).target(),
            (final(self).cursor(), r) == seq_step(
                old(self).target(),
                old(self).cursor(),
                token@,
            ),
    {
        let res = step(self.tokens.as_str(), self.state, token);
        self.state = res.0;
        res.1
    }

    pub fn reset(&mut self)
        ensures
            final(self).target() == old(self).target(),
            final(self).cursor() == 0,
    {
        self.state = 0;
    }
}

/// A set of stop sequences advanced together.
#[derive(Debug)]
pub struct SequenceSet {
    sequences: Vec<Sequence>,
}

impl SequenceSet {
    pub closed spec fn members(self) -> Seq<Sequence> {
        self.sequences@
    }

    pub fn new(sequences: Vec<Sequence>) -> (r: SequenceSet)
        ensures
            r.members() == sequences@,
    {
        SequenceSet { sequences }
    }

    /// How many stop sequences the set holds.
    pub fn member_count(&self) -> (r: usize)
        ensures
            r == self.members().len(),
    {
        self.sequences.len()
    }

    pub fn reset(&mut self)
        ensures
            final(self).members().len() == old(self).members().len(),
            forall|i: int|
                0 <= i < old(self).members().len() ==> {
                    &&& (#[trigger] final(self).members()[i]).target() == old(
                        self,
                    ).members()[i].target()
                    &&& final(self).members()[i].cursor() == 0
                },
    {
        let n = self.sequences.len();
        let mut i: usize = 0;
        while i < n
            invariant
                i <= n,
                n == self.sequences.len(),
                forall|j: int|
                    0 <= j < self.sequences@.len() ==> (#[trigger] self.sequences@[j]).target()
                        == old(self).members()[j].target(),
                forall|j: int| 0 <= j < i ==> (#[trigger] self.sequences@[j]).cursor() == 0,
            decreases n - i,
        {
            let s = &mut self.sequences[i];
            s.reset();
            i = i + 1;
        }
    }

    /// Advance every sequence on the chunk. Returns true when any member
    /// completed, or when the set is empty.
    pub fn advance(&mut self, token: &str) -> (r: bool)
        ensures
            final(self).members().len() == old(self).members().len(),
            forall|i: int|
                0 <= i < old(self).members().len() ==> {
                    &&& (#[trigger] final(self).members()[i]).target() == old(
                        self,
                    ).members()[i].target()
                    &&& final(self).members()[i].cursor() == seq_step(
                        old(self).members()[i].target(),
                        old(self).members()[i].cursor(),
                        token@,
                    ).0
                },
            r == (old(self).members().len() == 0 || exists|i: int|
                0 <= i < old(self).members().len() && seq_step(
                    (#[trigger] old(self).members()[i]).target(),
                    old(self).members()[i].cursor(),
                    token@,
                ).1),
    {
        let n = self.sequences.len();
        if n == 0 {
            return true;
        }
        let mut any_complete: bool = false;
        let mut i: usize = 0;
        while i < n
            invariant
                i <= n,
                n == self.sequences.len(),
                n == old(self).members().len(),
                forall|j: int|
                    i <= j < n ==> #[trigger] self.sequences@[j] == old(self).members()[j],
                forall|j: int|
                    0 <= j < i ==> {
                        &&& (#[trigger] self.sequences@[j]).target() == old(
                            self,
                        ).members()[j].target()
                        &&& self.sequences@[j].cursor() == seq_step(
                            old(self).members()[j].target(),
                            old(self).members()[j].cursor(),
                            token@,
                        ).0
                    },
                any_complete == exists|j: int|
                    0 <= j < i && seq_step(
                        (#[trigger] old(self).members()[j]).target(),
                        old(self).members()[j].cursor(),
                        token@,
                    ).1,
            decreases n - i,
        {
            let s = &mut self.sequences[i];
            let completed = s.advance(token);
            any_complete = completed || any_complete;
            i = i + 1;
        }
        any_complete
    }
}

} // verus!

verus! {

/// `t` occurs as a contiguous run somewhere in `h`.
pub open spec fn contains_sub(h: Seq<char>, t: Seq<char>) -> bool {
    exists|i: int| 0 <= i <= h.len() - t.len() && #[trigger] h.subrange(i, i + t.len()) == t
}

/// The matcher cursor agrees with the text consumed so far: while matching,
/// the first `state` characters of the target are the last `state`
/// characters of the text; once complete, the target has occurred in the
/// text.
pub open spec fn cursor_ok(target: Seq<char>, state: int, history: Seq<char>) -> bool {
    &&& 0 <= state <= target.len()
    &&& (state == target.len() ==> contains_sub(history, target))
    &&& (state < target.len() ==> state <= history.len() && target.take(state) == history.skip(
        history.len() - state,
    ))
}

proof fn lemma_contains_extend(h: Seq<char>, c: Seq<char>, t: Seq<char>)
    requires
        contains_sub(h, t),
    ensures
        contains_sub(h + c, t),
{
    let i = choose|i: int| 0 <= i <= h.len() - t.len() && #[trigger] h.subrange(i, i + t.len()) == t;
    assert((h + c).subrange(i, i + t.len()) =~= h.subrange(i, i + t.len()));
}

/// Soundness of the stop-sequence matcher: the cursor keeps tracking the
/// text, and whenever a step reports completion, the target literal occurs
/// as a contiguous run of the emitted text.
pub proof fn lemma_step_sound(target: Seq<char>, state: int, chunk: Seq<char>, history: Seq<char>)
    requires
        cursor_ok(target, state, history),
    ensures
        cursor_ok(target, seq_step(target, state, chunk).0, history + chunk),
        seq_step(target, state, chunk).1 ==> contains_sub(history + chunk, target),
    decreases (if state == 0 { 0int } else { 1int }), chunk.len(),
{
    if state >= target.len() {
        assert(state == target.len());
        lemma_contains_extend(history, chunk, target);
    } else {
        let rem = target.len() - state;
        let overlap = if rem <= chunk.len() { rem } else { chunk.len() as int };
        if target.subrange(state, state + overlap) == chunk.subrange(0, overlap) {
            if chunk.len() > rem {
                // The chunk completes the target; the leftover re-enters.
                let consumed = history + chunk.take(rem);
                assert(consumed.subrange(consumed.len() - target.len(), consumed.len() as int)
                    =~= target) by {
                    assert forall|j: int| 0 <= j < target.len() implies consumed.subrange(
                        consumed.len() - target.len(),
                        consumed.len() as int,
                    )[j] == target[j] by {
                        if j < state {
                            assert(history.skip(history.len() - state)[j] == target.take(state)[j]);
                        } else {
                            assert(chunk.subrange(0, overlap)[j - state] == target.subrange(
                                state,
                                state + overlap,
                            )[j - state]);
                        }
                    }
                }
                assert(contains_sub(consumed, target)) by {
                    let i = consumed.len() - target.len();
                    assert(consumed.subrange(i, i + target.len()) == target) by {
                        assert(consumed.subrange(i, i + target.len()) =~= consumed.subrange(
                            consumed.len() - target.len(),
                            consumed.len() as int,
                        ));
                    }
                }
                lemma_contains_extend(consumed, chunk.skip(rem), target);
                assert(consumed + chunk.skip(rem) =~= history + chunk);
                assert(cursor_ok(target, 0, consumed)) by {
                    assert(target.take(0) =~= consumed.skip(consumed.len() - 0));
                }
                lemma_step_sound(target, 0, chunk.skip(rem), consumed);
            } else {
                let s2 = state + overlap;
                let h2 = history + chunk;
                assert(target.take(s2) =~= h2.skip(h2.len() - s2)) by {
                    assert forall|j: int| 0 <= j < s2 implies target.take(s2)[j] == h2.skip(
                        h2.len() - s2,
                    )[j] by {
                        if j < state {
                            assert(history.skip(history.len() - state)[j] == target.take(state)[j]);
                        } else {
                            assert(chunk.subrange(0, overlap)[j - state] == target.subrange(
                                state,
                                state + overlap,
                            )[j - state]);
                        }
                    }
                }
                if s2 == target.len() {
                    assert(target.take(s2) =~= target);
                    assert(h2.subrange(h2.len() - target.len(), h2.len() as int) =~= h2.skip(
                        h2.len() - s2,
                    ));
                    assert(contains_sub(h2, target)) by {
                        let i = h2.len() - target.len();
                        assert(h2.subrange(i, i + target.len()) == target) by {
                            assert(h2.subrange(i, i + target.len()) =~= h2.subrange(
                                h2.len() - target.len(),
                                h2.len() as int,
                            ));
                        }
                    }
                }
            }
        } else {
            if state != 0 {
                assert(cursor_ok(target, 0, history)) by {
                    assert(target.take(0) =~= history.skip(history.len() - 0));
                }
                lemma_step_sound(target, 0, chunk, history);
            } else {
                let h2 = history + chunk;
                assert(target.take(0) =~= h2.skip(h2.len() - 0));
            }
        }
    }
}

} // verus!
