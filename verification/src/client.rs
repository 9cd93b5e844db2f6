//! Client construction and the pure decisions made at the transport
//! boundary: input validation, configuration defaults, mapping of
//! response statuses to errors, and the offline-mode fixtures.

use vstd::prelude::*;

use crate::error::TaskForceAIError;
use crate::types::{TaskForceAIOptions, TaskStatus, TaskStatusValue, SubmitTaskResponse};

verus! {

/// Request timeout used when the options give none, in seconds.
pub const DEFAULT_TIMEOUT_SECS: u64 = 30;

/// The service endpoint used when the options give none.
pub open spec fn spec_default_base_url() -> Seq<char> {
    "https://taskforceai.chat/api/developer"@
}

/// The service endpoint used when the options give none.
pub fn default_base_url() -> (s: &'static str)
    ensures
        s@ == spec_default_base_url(),
{
    "https://taskforceai.chat/api/developer"
}

/// The Unicode white-space characters, as blank-input validation
/// sees them.
pub open spec fn is_space_char(c: char) -> bool {
    ('\u{9}' <= c <= '\u{d}') || c == ' ' || c == '\u{85}' || c == '\u{a0}' || c == '\u{1680}'
        || ('\u{2000}' <= c <= '\u{200a}') || c == '\u{2028}' || c == '\u{2029}'
        || c == '\u{202f}' || c == '\u{205f}' || c == '\u{3000}'
}

/// A blank input: empty, or made of whitespace only.
pub open spec fn is_blank(s: Seq<char>) -> bool {
    forall|i: int| 0 <= i < s.len() ==> is_space_char(#[trigger] s[i])
}

/// Reports whether `s` is empty or whitespace-only.
pub fn is_blank_str(s: &str) -> (b: bool)
    ensures
        b == is_blank(s@),
{
    let n = s.unicode_len();
    let mut i: usize = 0;
    while i < n
        invariant
            i <= n,
            n == s@.len(),
            forall|j: int| 0 <= j < i ==> is_space_char(#[trigger] s@[j]),
        decreases n - i,
    {
        let c = s.get_char(i);
        let space = ('\u{9}' <= c && c <= '\u{d}') || c == ' ' || c == '\u{85}' || c == '\u{a0}'
            || c == '\u{1680}' || ('\u{2000}' <= c && c <= '\u{200a}') || c == '\u{2028}'
            || c == '\u{2029}' || c == '\u{202f}' || c == '\u{205f}' || c == '\u{3000}';
        if !space {
            return false;
        }
        i = i + 1;
    }
    true
}

/// Rejects an empty or whitespace-only prompt before any request is
/// issued; accepts every other prompt.
pub fn validate_prompt(prompt: &str) -> (r: Result<(), TaskForceAIError>)
    ensures
        r == if is_blank(prompt@) {
            Result::<(), TaskForceAIError>::Err(TaskForceAIError::EmptyPrompt)
        } else {
            Result::<(), TaskForceAIError>::Ok(())
        },
{
    if is_blank_str(prompt) {
        Err(TaskForceAIError::EmptyPrompt)
    } else {
        Ok(())
    }
}

/// Rejects an empty or whitespace-only task identifier before any
/// request is issued; accepts every other identifier.
pub fn validate_task_id(task_id: &str) -> (r: Result<(), TaskForceAIError>)
    ensures
        r == if is_blank(task_id@) {
            Result::<(), TaskForceAIError>::Err(TaskForceAIError::EmptyTaskId)
        } else {
            Result::<(), TaskForceAIError>::Ok(())
        },
{
    if is_blank_str(task_id) {
        Err(TaskForceAIError::EmptyTaskId)
    } else {
        Ok(())
    }
}

/// `s` with every trailing `/` removed.
pub open spec fn strip_trailing_slashes(s: Seq<char>) -> Seq<char>
    decreases s.len(),
{
    if s.len() > 0 && s[s.len() - 1] == '/' {
        strip_trailing_slashes(s.drop_last())
    } else {
        s
    }
}

/// Removes every trailing `/` from `s`.
fn strip_slashes(s: &str) -> (r: String)
    ensures
        r@ == strip_trailing_slashes(s@),
{
    let n = s.unicode_len();
    let mut end: usize = n;
    proof {
        assert(s@.subrange(0, n as int) =~= s@);
    }
    while end > 0 && s.get_char(end - 1) == '/'
        invariant
            end <= n,
            n == s@.len(),
            strip_trailing_slashes(s@) == strip_trailing_slashes(s@.subrange(0, end as int)),
        decreases end,
    {
        proof {
            let part = s@.subrange(0, end as int);
            assert(part[part.len() - 1] == s@[end - 1]);
            assert(part.drop_last() =~= s@.subrange(0, end - 1));
        }
        end = end - 1;
    }
    proof {
        let part = s@.subrange(0, end as int);
        if end > 0 {
            assert(part[part.len() - 1] == s@[end - 1]);
        }
        assert(strip_trailing_slashes(part) == part);
    }
    String::from_str(s.substring_char(0, end))
}

/// The configuration a client runs with, resolved once at construction
/// and threaded through every operation.
#[derive(Debug, Clone)]
pub struct ClientConfig {
    /// Credential attached to each request; may be empty in mock mode.
    pub api_key: String,
    /// Endpoint prefix, with no trailing `/`.
    pub base_url: String,
    /// Request timeout in seconds.
    pub timeout_secs: u64,
    /// When set, no network is contacted and fixtures answer instead.
    pub mock_mode: bool,
}

/// The key the options carry, or empty when they carry none.
pub open spec fn spec_given_key(o: TaskForceAIOptions) -> Seq<char> {
    match o.api_key {
        Some(k) => k@,
        None => Seq::<char>::empty(),
    }
}

/// The base URL the options carry, or the default when they carry none.
pub open spec fn spec_given_base_url(o: TaskForceAIOptions) -> Seq<char> {
    match o.base_url {
        Some(u) => u@,
        None => spec_default_base_url(),
    }
}

/// Resolves construction options into a configuration: defaults are
/// filled in, trailing slashes leave the base URL, and a live client
/// without an API key is refused.
pub fn resolve_options(options: TaskForceAIOptions) -> (r: Result<ClientConfig, TaskForceAIError>)
    ensures
        r matches Err(e) <==> (options.mock_mode != Some(true) && spec_given_key(options).len()
            == 0),
        r matches Err(e) ==> e == TaskForceAIError::MissingApiKey,
        r matches Ok(c) ==> {
            &&& c.api_key@ == spec_given_key(options)
            &&& c.base_url@ == strip_trailing_slashes(spec_given_base_url(options))
            &&& c.timeout_secs == match options.timeout {
                Some(t) => t,
                None => DEFAULT_TIMEOUT_SECS,
            }
            &&& c.mock_mode == (options.mock_mode == Some(true))
        },
{
    let mock_mode = match options.mock_mode {
        Some(m) => m,
        None => false,
    };
    let api_key = match options.api_key {
        Some(k) => k,
        None => String::new(),
    };
    if !mock_mode && api_key.as_str().is_empty() {
        return Err(TaskForceAIError::MissingApiKey);
    }
    let base_url = match options.base_url {
        Some(u) => strip_slashes(u.as_str()),
        None => strip_slashes(default_base_url()),
    };
    let timeout_secs = match options.timeout {
        Some(t) => t,
        None => DEFAULT_TIMEOUT_SECS,
    };
    Ok(ClientConfig { api_key, base_url, timeout_secs, mock_mode })
}

/// A response status counts as success exactly when it lies in the
/// 2xx range.
pub open spec fn spec_is_success_status(status: u16) -> bool {
    200 <= status < 300
}

/// Fallback text used when an error response's body cannot be read.
pub open spec fn spec_unreadable_body_text() -> Seq<char> {
    "Failed to read error message from response body"@
}

/// Maps a response status and its best-effort body text (`None` when
/// the body could not be read) to the outcome of the exchange: the
/// body on success, an API error carrying status and text otherwise.
pub fn check_response(status: u16, body: Option<String>) -> (r: Result<String, TaskForceAIError>)
    ensures
        spec_is_success_status(status) ==> (r matches Ok(b) && b@ == match body {
            Some(t) => t@,
            None => Seq::<char>::empty(),
        }),
        !spec_is_success_status(status) ==> (r matches Err(e) && e matches TaskForceAIError::Api {
            status: st,
            message,
        } && st == status && message@ == match body {
            Some(t) => t@,
            None => spec_unreadable_body_text(),
        }),
{
    if 200 <= status && status < 300 {
        match body {
            Some(t) => Ok(t),
            None => Ok(String::new()),
        }
    } else {
        let message = match body {
            Some(t) => t,
            None => String::from_str("Failed to read error message from response body"),
        };
        Err(TaskForceAIError::Api { status, message })
    }
}

/// The identifier every mock-mode submission answers with.
pub open spec fn spec_mock_task_id() -> Seq<char> {
    "mock-task-123"@
}

/// The fixture answering a submission in mock mode.
pub fn mock_submit_response() -> (r: SubmitTaskResponse)
    ensures
        r.task_id@ == spec_mock_task_id(),
{
    SubmitTaskResponse { task_id: String::from_str("mock-task-123") }
}

/// The result text of the mock-mode status fixture.
pub open spec fn spec_mock_result_text() -> Seq<char> {
    "This is a mock response. Configure your API key to get real results."@
}

/// The fixture answering a status query in mock mode: a completed
/// snapshot of the mock task.
pub fn mock_task_status() -> (r: TaskStatus)
    ensures
        r.task_id@ == spec_mock_task_id(),
        r.status == TaskStatusValue::Completed,
        r.result matches Some(t) && t@ == spec_mock_result_text(),
        r.error is None,
        r.warnings is None,
        r.metadata is None,
{
    TaskStatus {
        task_id: String::from_str("mock-task-123"),
        status: TaskStatusValue::Completed,
        result: Some(
            String::from_str(
                "This is a mock response. Configure your API key to get real results.",
            ),
        ),
        error: None,
        warnings: None,
        metadata: None,
    }
}

} // verus!
