//! The polling controller: resolves a task to its terminal outcome by
//! repeated point-in-time queries, bounded in attempts and spaced by an
//! interval. The controller only decides; whoever drives it issues the
//! queries and performs the waits.

use vstd::prelude::*;

use crate::error::TaskForceAIError;
use crate::types::{TaskStatus, TaskStatusValue};

verus! {

/// Poll interval used when the caller gives none, in milliseconds.
pub const DEFAULT_POLL_INTERVAL_MS: u64 = 1000;

/// Attempt budget used when the caller gives none.
pub const DEFAULT_MAX_POLL_ATTEMPTS: u32 = 60;

/// What to do after one status query.
#[derive(Debug, Clone)]
pub enum PollStep {
    /// The task completed: polling is over, this is its final snapshot.
    Done(TaskStatus),
    /// Polling is over with a failure.
    Fail(TaskForceAIError),
    /// The task is still processing: wait this many milliseconds, then
    /// query again.
    Wait(u64),
}

/// The state of one polling run: the attempts still allowed and the
/// spacing between them.
#[derive(Debug, Clone)]
pub struct Poller {
    /// Queries that may still be issued.
    pub remaining: u32,
    /// Milliseconds between consecutive queries.
    pub interval_ms: u64,
}

/// The failure text a failed snapshot carries: the task's own error
/// text, or the fallback when it reported none.
pub open spec fn spec_failure_text(status: TaskStatus) -> Seq<char> {
    match status.error {
        Some(e) => e@,
        None => "Unknown error"@,
    }
}

impl Poller {
    /// A fresh polling run; defaults fill in where the caller gave
    /// nothing.
    pub fn new(poll_interval_ms: Option<u64>, max_attempts: Option<u32>) -> (p: Poller)
        ensures
            p.interval_ms == match poll_interval_ms {
                Some(i) => i,
                None => DEFAULT_POLL_INTERVAL_MS,
            },
            p.remaining == match max_attempts {
                Some(m) => m,
                None => DEFAULT_MAX_POLL_ATTEMPTS,
            },
    {
        Poller {
            interval_ms: match poll_interval_ms {
                Some(i) => i,
                None => DEFAULT_POLL_INTERVAL_MS,
            },
            remaining: match max_attempts {
                Some(m) => m,
                None => DEFAULT_MAX_POLL_ATTEMPTS,
            },
        }
    }

    /// Decides, before a query is issued, whether the budget allows it:
    /// `None` consumes one attempt and lets the query proceed; the
    /// timeout error says the budget is exhausted and polling is over.
    pub fn pre_query(&mut self) -> (r: Option<TaskForceAIError>)
        ensures
            old(self).remaining == 0 ==> r == Some(TaskForceAIError::Timeout) && *final(self)
                == *old(self),
            old(self).remaining > 0 ==> r is None && final(self).remaining == old(self).remaining
                - 1 && final(self).interval_ms == old(self).interval_ms,
    {
        if self.remaining == 0 {
            Some(TaskForceAIError::Timeout)
        } else {
            self.remaining = self.remaining - 1;
            None
        }
    }

    /// Decides on a received snapshot: a completed task ends polling
    /// with that snapshot; a failed task ends it with a task-failure
    /// error carrying the snapshot's error text or its fallback; a
    /// processing task means waiting one interval and querying again.
    pub fn on_status(&self, status: TaskStatus) -> (r: PollStep)
        ensures
            status.status == TaskStatusValue::Completed ==> r == PollStep::Done(status),
            status.status == TaskStatusValue::Failed ==> (r matches PollStep::Fail(e)
                && e matches TaskForceAIError::TaskFailed(m) && m@ == spec_failure_text(status)),
            status.status == TaskStatusValue::Processing ==> r == PollStep::Wait(self.interval_ms),
    {
        match status.status {
            TaskStatusValue::Completed => PollStep::Done(status),
            TaskStatusValue::Failed => {
                let text = match status.error {
                    Some(e) => e,
                    None => String::from_str("Unknown error"),
                };
                PollStep::Fail(TaskForceAIError::TaskFailed(text))
            },
            TaskStatusValue::Processing => PollStep::Wait(self.interval_ms),
        }
    }
}

} // verus!
