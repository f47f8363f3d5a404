//! The plain data of the HTTP surface, the core error kinds with their
//! status mapping, and the authorization decisions on JWT claims.

use vstd::prelude::*;
use vstd::string::*;
use crate::memory::MemoryError;
use crate::stats::TaskStats;
use crate::text::str_eq;

verus! {

/// The errors the core surfaces.
#[derive(Debug)]
pub enum BackendError {
    TaskNotFound(String),
    ModelNotFound(String),
    /// An inference failure, carried as its message.
    InferenceError(String),
    /// A tokenization failure, carried as its message.
    TokenizationError(String),
    /// The user prompt held a private token.
    IllegalToken,
    Memory(MemoryError),
    MemoryNotFound(String),
    InvalidDocument,
    /// The named chunk separator does not tokenize to exactly one token.
    InvalidChunkSeparator(String),
}

impl BackendError {
    /// The HTTP status this error surfaces as: not-found lookups are 404,
    /// bad requests 400, everything else an internal error.
    pub fn status_code(&self) -> (r: u16)
        ensures
            r == match *self {
                BackendError::TaskNotFound(_) => 404int,
                BackendError::ModelNotFound(_) => 404int,
                BackendError::MemoryNotFound(_) => 404int,
                BackendError::InferenceError(_) => 500int,
                BackendError::TokenizationError(_) => 500int,
                BackendError::Memory(_) => 500int,
                BackendError::IllegalToken => 400int,
                BackendError::InvalidDocument => 400int,
                BackendError::InvalidChunkSeparator(_) => 500int,
            },
    {
        match self {
            BackendError::TaskNotFound(_) => 404,
            BackendError::ModelNotFound(_) => 404,
            BackendError::MemoryNotFound(_) => 404,
            BackendError::InferenceError(_) => 500,
            BackendError::TokenizationError(_) => 500,
            BackendError::Memory(_) => 500,
            BackendError::IllegalToken => 400,
            BackendError::InvalidDocument => 400,
            BackendError::InvalidChunkSeparator(_) => 500,
        }
    }
}

/// Claims carried by an access token. An absent list places no restriction;
/// a present list is an allow-list.
#[derive(Debug)]
pub struct JwtClaims {
    /// Expiry time.
    pub exp: Option<usize>,
    /// User identifier, for logging.
    pub sub: Option<String>,
    /// Tasks this token may use.
    pub tasks: Option<Vec<String>>,
    /// Models this token may use.
    pub models: Option<Vec<String>>,
    /// Memories this token may use.
    pub memories: Option<Vec<String>>,
}

/// An absent list allows everything; a present list allows its members.
pub open spec fn allow_list_permits(list: Option<Vec<String>>, name: Seq<char>) -> bool {
    match list {
        Option::None => true,
        Option::Some(l) => exists|i: int| 0 <= i < l@.len() && (#[trigger] l@[i])@ == name,
    }
}

fn list_permits(list: &Option<Vec<String>>, name: &str) -> (r: bool)
    ensures
        r == allow_list_permits(*list, name@),
{
    match list {
        Option::None => true,
        Option::Some(l) => {
            let n = l.len();
            let mut i: usize = 0;
            while i < n
                invariant
                    i <= n,
                    n == l@.len(),
                    forall|j: int| 0 <= j < i ==> (#[trigger] l@[j])@ != name@,
                decreases n - i,
            {
                if str_eq(l[i].as_str(), name) {
                    return true;
                }
                i = i + 1;
            }
            false
        },
    }
}

impl JwtClaims {
    /// Unrestricted claims: no expiry, no subject, every task, model and
    /// memory allowed.
    pub fn unrestricted() -> (r: JwtClaims)
        ensures
            r.exp is None,
            r.sub is None,
            r.tasks is None,
            r.models is None,
            r.memories is None,
    {
        JwtClaims { exp: None, sub: None, tasks: None, models: None, memories: None }
    }

    /// Whether this token may use the named task.
    pub fn allows_task(&self, name: &str) -> (r: bool)
        ensures
            r == allow_list_permits(self.tasks, name@),
    {
        list_permits(&self.tasks, name)
    }

    /// Whether this token may use the named model.
    pub fn allows_model(&self, name: &str) -> (r: bool)
        ensures
            r == allow_list_permits(self.models, name@),
    {
        list_permits(&self.models, name)
    }

    /// Whether this token may use the named memory.
    pub fn allows_memory(&self, name: &str) -> (r: bool)
        ensures
            r == allow_list_permits(self.memories, name@),
    {
        list_permits(&self.memories, name)
    }
}

/// The key a JWT is signed with; only symmetric keys are supported.
#[derive(Debug)]
pub enum JwtPrivateKey {
    Symmetric(String),
}

/// The `api_key` query parameter.
#[derive(Debug)]
pub struct KeyQuery {
    pub api_key: Option<String>,
}

/// How a bearer token resolves against the server's access settings, before
/// any JWT cryptography: a static key is accepted as-is; an unknown token is
/// checked as a JWT when a key is configured; without a token, access
/// depends on the server being public.
#[derive(Debug, PartialEq, Eq, Structural)]
pub enum AuthDecision {
    /// The token is on the static allow-list.
    AcceptStatic,
    /// The token must be validated as a JWT.
    ValidateJwt,
    /// No acceptable token was provided.
    Reject,
    /// No token, public server: anonymous access.
    AcceptAnonymous,
    /// No token, private server.
    RejectNoToken,
}

/// Whether `token` appears among the static allowed keys.
pub open spec fn key_allowed(allowed_keys: Seq<String>, token: Seq<char>) -> bool {
    exists|i: int| 0 <= i < allowed_keys.len() && (#[trigger] allowed_keys[i])@ == token
}

/// Resolve an optional bearer token against the access configuration,
/// exactly as the authentication middleware decides it.
pub fn resolve_auth(
    token: &Option<String>,
    allowed_keys: &Vec<String>,
    has_jwt_key: bool,
    public: bool,
) -> (r: AuthDecision)
    ensures
        match *token {
            Option::Some(t) => {
                if key_allowed(allowed_keys@, t@) {
                    r == AuthDecision::AcceptStatic
                } else if has_jwt_key {
                    r == AuthDecision::ValidateJwt
                } else {
                    r == AuthDecision::Reject
                }
            },
            Option::None => {
                if public {
                    r == AuthDecision::AcceptAnonymous
                } else {
                    r == AuthDecision::RejectNoToken
                }
            },
        },
{
    match token {
        Option::Some(t) => {
            let n = allowed_keys.len();
            let mut i: usize = 0;
            let mut found: bool = false;
            while i < n
                invariant
                    i <= n,
                    n == allowed_keys@.len(),
                    found == exists|j: int|
                        0 <= j < i && (#[trigger] allowed_keys@[j])@ == t@,
                decreases n - i,
            {
                if str_eq(allowed_keys[i].as_str(), t.as_str()) {
                    found = true;
                }
                i = i + 1;
            }
            if found {
                AuthDecision::AcceptStatic
            } else if has_jwt_key {
                AuthDecision::ValidateJwt
            } else {
                AuthDecision::Reject
            }
        },
        Option::None => {
            if public {
                AuthDecision::AcceptAnonymous
            } else {
                AuthDecision::RejectNoToken
            }
        },
    }
}

/// A prompt for a completion.
#[derive(Debug)]
pub struct PromptRequest {
    pub prompt: String,
}

/// The per-task statistics report.
#[derive(Debug)]
pub struct StatsResponse {
    pub tasks: Vec<(String, TaskStats)>,
}

#[derive(Debug)]
pub struct ModelsResponse {
    pub models: Vec<String>,
}

#[derive(Debug)]
pub struct TasksResponse {
    pub tasks: Vec<String>,
}

#[derive(Debug)]
pub struct MemoriesResponse {
    pub memories: Vec<String>,
}

/// The one-shot completion response.
#[derive(Debug)]
pub struct GenerateResponse {
    pub text: String,
}

/// Service health. (Serialized by the server as lowercase "ok".)
#[derive(Debug, PartialEq, Eq, Structural)]
pub enum Status {
    Okay,
}

#[derive(Debug)]
pub struct StatusResponse {
    pub status: Status,
}

/// A memory recall query.
#[derive(Debug)]
pub struct RecallRequest {
    pub prompt: String,
    pub n: Option<usize>,
}

#[derive(Debug)]
pub struct RecallResponse {
    pub chunks: Vec<String>,
}

#[derive(Debug)]
pub struct ForgetResponse {}

#[derive(Debug)]
pub struct RememberResponse {}

/// Whether an ingest request waits for the text to be memorized.
#[derive(Debug)]
pub struct IngestRequest {
    pub wait: bool,
}

impl Default for IngestRequest {
    /// Ingest waits by default.
    fn default() -> (r: IngestRequest)
        ensures
            r.wait == true,
    {
        IngestRequest { wait: true }
    }
}

/// A queued ingest job.
#[derive(Debug)]
pub struct IngestItem {
    pub memory_name: String,
    pub plaintext: String,
}

/// A request body already converted to plain text.
#[derive(Debug)]
pub struct Plaintext(pub String);

/// Command-line arguments: where to load the configuration from.
#[derive(Debug)]
pub struct Args {
    pub config_path: String,
}

} // verus!
