#![verifier::loop_isolation(false)]
//! Core logic of a schema-guided constrained decoder for language-model
//! serving: a JSON-schema biaser state machine, the vocabulary bridge that
//! maps its abstract tokens onto model-vocabulary ids, stop-sequence
//! matching, prompt assembly and the per-step decisions of the inference
//! session loop, text chunking for the vector memory, and the plain data
//! types of the HTTP surface.

pub mod sequence;
pub mod text;
pub mod decimal;
pub mod value;
pub mod token;
pub mod schema;
pub mod biaser;
pub mod laws;
pub mod bridge;
pub mod memory;
pub mod session;
pub mod stats;
pub mod api;
pub mod config;
