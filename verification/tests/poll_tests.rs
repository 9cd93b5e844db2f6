use taskforceai::error::TaskForceAIError;
use taskforceai::poll::{PollStep, Poller, DEFAULT_MAX_POLL_ATTEMPTS, DEFAULT_POLL_INTERVAL_MS};
use taskforceai::types::{TaskStatus, TaskStatusValue};

fn status(tag: TaskStatusValue, error: Option<&str>) -> TaskStatus {
    TaskStatus {
        task_id: String::from("task-1"),
        status: tag,
        result: None,
        error: error.map(String::from),
        warnings: None,
        metadata: None,
    }
}

#[test]
fn poller_defaults() {
    let p = Poller::new(None, None);
    assert_eq!(p.interval_ms, DEFAULT_POLL_INTERVAL_MS);
    assert_eq!(p.remaining, DEFAULT_MAX_POLL_ATTEMPTS);
}

#[test]
fn timeout_after_exactly_two_queries() {
    let mut p = Poller::new(Some(1), Some(2));
    let mut queries: u32 = 0;
    loop {
        match p.pre_query() {
            Some(e) => {
                assert!(matches!(e, TaskForceAIError::Timeout));
                break;
            }
            None => {
                queries += 1;
                match p.on_status(status(TaskStatusValue::Processing, None)) {
                    PollStep::Wait(ms) => assert_eq!(ms, 1),
                    _ => panic!("a processing task keeps polling"),
                }
            }
        }
    }
    assert_eq!(queries, 2);
}

#[test]
fn failure_without_error_text_uses_fallback() {
    let mut p = Poller::new(Some(1), Some(5));
    assert!(p.pre_query().is_none());
    match p.on_status(status(TaskStatusValue::Failed, None)) {
        PollStep::Fail(TaskForceAIError::TaskFailed(msg)) => {
            assert_eq!(msg, "Unknown error");
        }
        _ => panic!("Expected TaskFailed error"),
    }
}

#[test]
fn failure_carries_task_error_text() {
    let p = Poller::new(None, None);
    match p.on_status(status(TaskStatusValue::Failed, Some("oops"))) {
        PollStep::Fail(TaskForceAIError::TaskFailed(msg)) => {
            assert_eq!(msg, "oops");
        }
        _ => panic!("Expected TaskFailed error"),
    }
}

#[test]
fn completion_returns_the_snapshot() {
    let mut p = Poller::new(Some(1), Some(3));
    assert!(p.pre_query().is_none());
    match p.on_status(status(TaskStatusValue::Completed, None)) {
        PollStep::Done(st) => {
            assert_eq!(st.task_id, "task-1");
            assert!(matches!(st.status, TaskStatusValue::Completed));
        }
        _ => panic!("a completed task ends polling"),
    }
}

#[test]
fn zero_attempt_budget_times_out_before_any_query() {
    let mut p = Poller::new(Some(1), Some(0));
    assert!(matches!(p.pre_query(), Some(TaskForceAIError::Timeout)));
}
