//! The error taxonomy: every failure path of the client carries a
//! distinguishable kind, so a caller can branch on it.

use vstd::prelude::*;

verus! {

/// Why a wire payload failed to decode into a task status.
#[derive(Debug, Clone, Copy, PartialEq, Eq, Structural)]
pub enum JsonError {
    /// The payload is not well-formed JSON of the expected shape.
    Syntax,
    /// A decoded string is not valid UTF-8.
    InvalidUtf8,
    /// The `status` field holds none of the three known tags.
    UnknownStatusTag,
    /// A required field (`taskId` or `status`) is absent.
    MissingField,
    /// A known field appears twice.
    DuplicateField,
}

/// Every failure the client can report.
#[derive(Debug, Clone)]
pub enum TaskForceAIError {
    /// A live (non-mock) client was constructed without an API key.
    MissingApiKey,
    /// The submitted prompt is empty or whitespace-only.
    EmptyPrompt,
    /// The task identifier is empty or whitespace-only.
    EmptyTaskId,
    /// A network-level failure, with the transport's own message.
    Network(String),
    /// A wire payload failed to decode.
    Serialization(JsonError),
    /// The remote task itself reported failure, with its error text.
    TaskFailed(String),
    /// The polling attempt budget ran out while the task was processing.
    Timeout,
    /// A non-success response status, with best-effort body text.
    Api { status: u16, message: String },
    /// A failure of the long-lived event stream.
    Stream(String),
    /// Any other failure.
    Other(String),
}

/// The character for one decimal digit.
pub open spec fn digit_char(d: nat) -> char {
    if d == 0 { '0' }
    else if d == 1 { '1' }
    else if d == 2 { '2' }
    else if d == 3 { '3' }
    else if d == 4 { '4' }
    else if d == 5 { '5' }
    else if d == 6 { '6' }
    else if d == 7 { '7' }
    else if d == 8 { '8' }
    else { '9' }
}

/// The decimal digits of `n`, most significant first.
pub open spec fn dec_digits(n: nat) -> Seq<char>
    decreases n,
{
    if n < 10 {
        seq![digit_char(n)]
    } else {
        dec_digits(n / 10) + seq![digit_char(n % 10)]
    }
}

/// The digit characters of `s` read back to front.
spec fn rev_digit_chars(s: Seq<u64>) -> Seq<char> {
    Seq::new(s.len(), |i: int| digit_char(s[s.len() - 1 - i] as nat))
}

fn digit_str(d: u64) -> (s: &'static str)
    requires
        d < 10,
    ensures
        s@ == seq![digit_char(d as nat)],
{
    proof {
        reveal_strlit("0");
        reveal_strlit("1");
        reveal_strlit("2");
        reveal_strlit("3");
        reveal_strlit("4");
        reveal_strlit("5");
        reveal_strlit("6");
        reveal_strlit("7");
        reveal_strlit("8");
        reveal_strlit("9");
    }
    let s = if d == 0 { "0" }
    else if d == 1 { "1" }
    else if d == 2 { "2" }
    else if d == 3 { "3" }
    else if d == 4 { "4" }
    else if d == 5 { "5" }
    else if d == 6 { "6" }
    else if d == 7 { "7" }
    else if d == 8 { "8" }
    else { "9" };
    proof {
        assert(s@ =~= seq![digit_char(d as nat)]);
    }
    s
}

/// Renders `n` in decimal, without sign or padding.
pub fn u64_to_string(n: u64) -> (s: String)
    ensures
        s@ == dec_digits(n as nat),
{
    let mut rev: Vec<u64> = Vec::new();
    let mut rest: u64 = n;
    loop
        invariant_except_break
            dec_digits(n as nat) == dec_digits(rest as nat) + rev_digit_chars(rev@),
            forall|k: int| 0 <= k < rev@.len() ==> rev@[k] < 10,
        ensures
            dec_digits(n as nat) == rev_digit_chars(rev@),
            forall|k: int| 0 <= k < rev@.len() ==> rev@[k] < 10,
        decreases rest,
    {
        let d = rest % 10;
        proof {
            assert(rev_digit_chars(rev@.push(d)) =~= seq![digit_char(d as nat)]
                + rev_digit_chars(rev@));
        }
        rev.push(d);
        if rest < 10 {
            break;
        }
        rest = rest / 10;
    }
    let mut s = String::new();
    let mut i: usize = rev.len();
    while i > 0
        invariant
            i <= rev@.len(),
            forall|k: int| 0 <= k < rev@.len() ==> rev@[k] < 10,
            dec_digits(n as nat) == rev_digit_chars(rev@),
            s@ == rev_digit_chars(rev@).subrange(0, (rev@.len() - i) as int),
        decreases i,
    {
        i = i - 1;
        let part = digit_str(rev[i]);
        s.append(part);
        proof {
            assert(s@ =~= rev_digit_chars(rev@).subrange(0, (rev@.len() - i) as int));
        }
    }
    proof {
        assert(rev_digit_chars(rev@).subrange(0, rev@.len() as int) =~= rev_digit_chars(rev@));
    }
    s
}

/// The descriptive text of one decode-failure kind.
pub open spec fn spec_json_error_text(e: JsonError) -> Seq<char> {
    match e {
        JsonError::Syntax => "payload is not well-formed JSON"@,
        JsonError::InvalidUtf8 => "string content is not valid UTF-8"@,
        JsonError::UnknownStatusTag => "unrecognized status tag"@,
        JsonError::MissingField => "missing required field"@,
        JsonError::DuplicateField => "duplicate field"@,
    }
}

/// The message text of an error, as shown to a caller.
pub open spec fn spec_message(e: TaskForceAIError) -> Seq<char> {
    match e {
        TaskForceAIError::MissingApiKey => "API key is required when not in mock mode"@,
        TaskForceAIError::EmptyPrompt => "Prompt must be a non-empty string"@,
        TaskForceAIError::EmptyTaskId => "Task ID must be a non-empty string"@,
        TaskForceAIError::Network(s) => "Network error: "@ + s@,
        TaskForceAIError::Serialization(j) => "Serialization error: "@ + spec_json_error_text(j),
        TaskForceAIError::TaskFailed(s) => "Task failed: "@ + s@,
        TaskForceAIError::Timeout => "Task did not complete within the expected time"@,
        TaskForceAIError::Api { status, message } => "API error (status "@ + dec_digits(
            status as nat,
        ) + "): "@ + message@,
        TaskForceAIError::Stream(s) => "Stream error: "@ + s@,
        TaskForceAIError::Other(s) => "Other error: "@ + s@,
    }
}

impl JsonError {
    /// The descriptive text of this decode-failure kind.
    pub fn text(&self) -> (s: &'static str)
        ensures
            s@ == spec_json_error_text(*self),
    {
        match self {
            JsonError::Syntax => "payload is not well-formed JSON",
            JsonError::InvalidUtf8 => "string content is not valid UTF-8",
            JsonError::UnknownStatusTag => "unrecognized status tag",
            JsonError::MissingField => "missing required field",
            JsonError::DuplicateField => "duplicate field",
        }
    }
}

impl TaskForceAIError {
    /// Renders this error as its message text.
    pub fn message(&self) -> (s: String)
        ensures
            s@ == spec_message(*self),
    {
        match self {
            TaskForceAIError::MissingApiKey => String::from_str(
                "API key is required when not in mock mode",
            ),
            TaskForceAIError::EmptyPrompt => String::from_str("Prompt must be a non-empty string"),
            TaskForceAIError::EmptyTaskId => String::from_str("Task ID must be a non-empty string"),
            TaskForceAIError::Network(s) => {
                let mut m = String::from_str("Network error: ");
                m.append(s.as_str());
                m
            },
            TaskForceAIError::Serialization(j) => {
                let mut m = String::from_str("Serialization error: ");
                m.append(j.text());
                m
            },
            TaskForceAIError::TaskFailed(s) => {
                let mut m = String::from_str("Task failed: ");
                m.append(s.as_str());
                m
            },
            TaskForceAIError::Timeout => String::from_str(
                "Task did not complete within the expected time",
            ),
            TaskForceAIError::Api { status, message } => {
                let mut m = String::from_str("API error (status ");
                let digits = u64_to_string(*status as u64);
                m.append(digits.as_str());
                m.append("): ");
                m.append(message.as_str());
                m
            },
            TaskForceAIError::Stream(s) => {
                let mut m = String::from_str("Stream error: ");
                m.append(s.as_str());
                m
            },
            TaskForceAIError::Other(s) => {
                let mut m = String::from_str("Other error: ");
                m.append(s.as_str());
                m
            },
        }
    }
}

} // verus!
