//! The supporting logic: chunking, ingest filtering, the vocabulary bridge,
//! session-loop decisions, statistics and the HTTP-surface data.

use llmd::api::{AuthDecision, BackendError, JwtClaims, Status};
use llmd::bridge::{fragment_token_ids, NullBiaser};
use llmd::config::AdvancedSamplerConfig;
use llmd::memory::{apply_pre_filter, hierarchically_chunk, MemoryError};
use llmd::sequence::{Sequence, SequenceSet};
use llmd::session::{
    assemble_prompt, forced_candidate, handle_piece, remove_private, should_stop_for_limit,
    InferenceStats, PieceOutcome, TokenUtf8Buffer,
};
use llmd::stats::BackendStats;
use llmd::token::JsonToken;

fn tok(id: u32) -> (Vec<u8>, u32) {
    (vec![b'x'], id)
}

#[test]
fn test_hierarchical_chunking() {
    // Ten tokens, separator id 0 after every third token, window of four.
    let tokens: Vec<(Vec<u8>, u32)> =
        vec![tok(1), tok(2), tok(0), tok(3), tok(4), tok(0), tok(5), tok(6), tok(0), tok(7)];
    let seps: Vec<u32> = vec![0];
    let chunks = hierarchically_chunk(tokens.clone(), &seps, 4);
    // Every chunk fits, and together they are exactly the input.
    let mut flat: Vec<(Vec<u8>, u32)> = Vec::new();
    for c in &chunks {
        assert!(c.len() <= 4);
        flat.extend_from_slice(c);
    }
    assert_eq!(flat, tokens);
}

#[test]
fn test_chunking_no_separator() {
    let tokens: Vec<(Vec<u8>, u32)> = (0..7u32).map(tok).collect();
    let seps: Vec<u32> = vec![];
    let chunks = hierarchically_chunk(tokens.clone(), &seps, 3);
    assert_eq!(chunks.len(), 3);
    assert_eq!(chunks[0].len(), 3);
    assert_eq!(chunks[1].len(), 3);
    assert_eq!(chunks[2].len(), 1);
    let mut flat: Vec<(Vec<u8>, u32)> = Vec::new();
    for c in &chunks {
        flat.extend_from_slice(c);
    }
    assert_eq!(flat, tokens);
}

#[test]
fn test_pre_filter() {
    let patterns = vec!["[\\r\\t]".to_string(), "[\\ \\n._|-]{2,}".to_string()];
    let out = apply_pre_filter(&patterns, "a\tb  ..  c".to_string()).unwrap();
    // The tab and the runs collapse to single spaces.
    assert_eq!(out, "a b c");
    // An invalid pattern is reported, not applied.
    let bad = vec!["[".to_string()];
    assert!(matches!(
        apply_pre_filter(&bad, "x".to_string()),
        Err(MemoryError::Storage(_))
    ));
    // No patterns: the text is untouched, double spaces included.
    assert_eq!(apply_pre_filter(&vec![], "a  b".to_string()).unwrap(), "a  b");
}

#[test]
fn test_fragment_token_ids() {
    let vocab: Vec<Option<String>> = vec![
        Some("fo".to_string()),   // 0: prefix of "foo"
        Some("foo".to_string()),  // 1: the whole word
        Some("fox".to_string()),  // 2: not a prefix
        Some("\"".to_string()),   // 3: forbidden character
        None,                     // 4: not text
        Some("f".to_string()),    // 5: prefix, but this is the end-of-text id
        Some("".to_string()),     // 6: empty
    ];
    let proposal = JsonToken::AnyOf(vec!["foo".to_string()]);
    assert_eq!(fragment_token_ids(&proposal, &vocab, 5), vec![0, 1]);

    let any = JsonToken::AnyString { max_length: Some(2) };
    // Entries of at most two characters without forbidden characters: the
    // empty entry qualifies too.
    assert_eq!(fragment_token_ids(&any, &vocab, 5), vec![0, 6]);

    let null_biaser = NullBiaser {};
    assert!(null_biaser.bias_token_ids().is_empty());
}

#[test]
fn test_assemble_prompt() {
    let remember: Vec<u32> = vec![1, 2];
    let prefix: Vec<u32> = vec![3];
    let user: Vec<u32> = vec![4, 5];
    let postfix: Vec<u32> = vec![6];
    let private: Vec<u32> = vec![9];
    let out = assemble_prompt(&remember, &prefix, &user, &postfix, &private).unwrap();
    assert_eq!(out, vec![1, 2, 3, 4, 5, 6]);

    // A private id in the user prompt rejects the request.
    let bad_user: Vec<u32> = vec![4, 9];
    assert!(matches!(
        assemble_prompt(&remember, &prefix, &bad_user, &postfix, &private),
        Err(BackendError::IllegalToken)
    ));
}

#[test]
fn test_candidate_filtering() {
    let filtered = remove_private(vec![1, 9, 2, 9, 3], &vec![9]);
    assert_eq!(filtered, vec![1, 2, 3]);
    assert_eq!(forced_candidate(&vec![7]), Some(7));
    assert_eq!(forced_candidate(&vec![7, 8]), None);
    assert_eq!(forced_candidate(&vec![]), None);
}

#[test]
fn test_utf8_buffer() {
    let mut buf = TokenUtf8Buffer::new();
    // A two-byte codepoint split over two tokens is held back, then emitted
    // whole.
    let e_acute = "é".as_bytes();
    assert_eq!(buf.push(&vec![e_acute[0]]), None);
    assert_eq!(buf.push(&vec![e_acute[1]]), Some("é".to_string()));
    assert_eq!(buf.push(&vec![b'a', b'b']), Some("ab".to_string()));
}

#[test]
fn test_handle_piece() {
    let mut stops = SequenceSet::new(vec![Sequence::new("def".to_string())]);
    let private = vec!["<sys>".to_string()];
    assert_eq!(handle_piece(&mut stops, &private, "ab"), PieceOutcome::EmitPiece);
    assert_eq!(handle_piece(&mut stops, &private, "<sys>"), PieceOutcome::SwallowPiece);
    assert_eq!(handle_piece(&mut stops, &private, "de"), PieceOutcome::EmitPiece);
    assert_eq!(handle_piece(&mut stops, &private, "f"), PieceOutcome::StopGeneration);

    // No stop sequences configured: pieces flow through.
    let mut none = SequenceSet::new(vec![]);
    assert_eq!(handle_piece(&mut none, &private, "anything"), PieceOutcome::EmitPiece);
}

#[test]
fn test_stop_for_limit() {
    assert!(should_stop_for_limit(false, &Some(4), 4));
    assert!(!should_stop_for_limit(false, &Some(4), 3));
    assert!(!should_stop_for_limit(false, &None, 100));
    // With a biaser, the limit does not cap the loop.
    assert!(!should_stop_for_limit(true, &Some(4), 100));
}

#[test]
fn test_stats_accumulation() {
    let mut total = InferenceStats::default();
    let step = InferenceStats {
        prompt_tokens: 3,
        predict_tokens: 5,
        feed_prompt_duration_us: 100,
        predict_duration_us: 200,
    };
    total.add(&step);
    total.add(&step);
    assert_eq!(total.prompt_tokens, 6);
    assert_eq!(total.predict_tokens, 10);
    assert_eq!(total.feed_prompt_duration_us, 200);
    assert_eq!(total.predict_duration_us, 400);

    let mut backend = BackendStats::new();
    backend.add("chat", &step, 8);
    backend.add("chat", &step, 8);
    backend.add("embed", &step, 2);
    assert_eq!(backend.task_stats.len(), 2);
    assert_eq!(backend.task_stats[0].0, "chat");
    assert_eq!(backend.task_stats[0].1.cycles, 2);
    assert_eq!(backend.task_stats[0].1.predict_tokens, 10);
    // Thread-time accounting multiplies by the thread count.
    assert_eq!(backend.task_stats[0].1.predict_duration_threads_us, 3200);
    assert_eq!(backend.task_stats[1].0, "embed");
    assert_eq!(backend.task_stats[1].1.cycles, 1);
    assert_eq!(backend.task_stats[1].1.predict_duration_threads_us, 400);
}

#[test]
fn test_auth_decisions() {
    let keys = vec!["k1".to_string(), "k2".to_string()];
    assert_eq!(
        llmd::api::resolve_auth(&Some("k2".to_string()), &keys, true, false),
        AuthDecision::AcceptStatic
    );
    assert_eq!(
        llmd::api::resolve_auth(&Some("other".to_string()), &keys, true, false),
        AuthDecision::ValidateJwt
    );
    assert_eq!(
        llmd::api::resolve_auth(&Some("other".to_string()), &keys, false, false),
        AuthDecision::Reject
    );
    assert_eq!(llmd::api::resolve_auth(&None, &keys, true, true), AuthDecision::AcceptAnonymous);
    assert_eq!(llmd::api::resolve_auth(&None, &keys, true, false), AuthDecision::RejectNoToken);
}

#[test]
fn test_claims_restrictions() {
    let mut claims = JwtClaims::unrestricted();
    assert!(claims.allows_task("anything"));
    claims.tasks = Some(vec!["chat".to_string()]);
    assert!(claims.allows_task("chat"));
    assert!(!claims.allows_task("other"));
    claims.memories = Some(vec![]);
    assert!(!claims.allows_memory("m"));
    assert!(claims.allows_model("any model"));
}

#[test]
fn test_error_status_codes() {
    assert_eq!(BackendError::TaskNotFound("t".to_string()).status_code(), 404);
    assert_eq!(BackendError::ModelNotFound("m".to_string()).status_code(), 404);
    assert_eq!(BackendError::MemoryNotFound("m".to_string()).status_code(), 404);
    assert_eq!(BackendError::IllegalToken.status_code(), 400);
    assert_eq!(BackendError::InvalidDocument.status_code(), 400);
    assert_eq!(BackendError::InferenceError("x".to_string()).status_code(), 500);
    assert_eq!(BackendError::InvalidChunkSeparator(" ".to_string()).status_code(), 500);
    assert_eq!(Status::Okay, Status::Okay);
}

#[test]
fn test_sampler_options() {
    let cfg = AdvancedSamplerConfig {
        samplers: vec![
            " topk:40 ".to_string(),
            "".to_string(),
            "  ".to_string(),
            "temperature:0.8".to_string(),
        ],
    };
    assert_eq!(cfg.sampler_options(), "/topk:40/temperature:0.8");
}
