//! Stop-sequence matcher behavior, including the retry-from-scratch rule.

use llmd::sequence::{Sequence, SequenceSet};

#[test]
fn test_sequences() {
    let mut s = SequenceSet::new(vec![Sequence::new("def".to_string()), Sequence::new("a".to_string())]);

    assert!(s.advance("a"));
    s.reset();
    assert!(!s.advance("d"));
    assert!(!s.advance("e"));

    assert!(s.advance("f"));

    s.reset();
    assert!(s.advance("defq"));

    s.reset();
    assert!(s.advance("defde"));
    assert!(s.advance("f"));

    s.reset();
    assert!(s.advance("defde"));
    assert!(s.advance("def"));

    s.reset();
    assert!(s.advance("defde"));
    assert!(!s.advance("ef"));
}

#[test]
fn test_sequence_single() {
    let mut s = Sequence::new("abc".to_string());
    assert!(!s.advance("ab"));
    assert!(s.advance("c"));
    // A completed sequence stays completed.
    assert!(s.advance("x"));
    s.reset();
    assert!(!s.advance("x"));
    assert!(!s.advance("ab"));
    // Mismatch mid-way retries the same chunk from the start.
    assert!(!s.advance("ab"));
    assert!(s.advance("abc"));
}

#[test]
fn test_empty_sequence_set() {
    // An empty set reports completion immediately: no stop sequences are
    // configured at this level.
    let mut s = SequenceSet::new(vec![]);
    assert!(s.advance("anything"));
}
