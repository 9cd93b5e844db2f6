use taskforceai::client::{
    check_response, default_base_url, mock_submit_response, mock_task_status, resolve_options,
    validate_prompt, validate_task_id, DEFAULT_TIMEOUT_SECS,
};
use taskforceai::error::{u64_to_string, JsonError, TaskForceAIError};
use taskforceai::types::{TaskForceAIOptions, TaskStatusValue};

#[test]
fn prompt_validation() {
    assert!(validate_prompt("hello").is_ok());
    assert!(validate_prompt(" x ").is_ok());
    assert!(matches!(
        validate_prompt(""),
        Err(TaskForceAIError::EmptyPrompt)
    ));
    assert!(matches!(
        validate_prompt("  "),
        Err(TaskForceAIError::EmptyPrompt)
    ));
    assert!(matches!(
        validate_prompt(" \t\r\n"),
        Err(TaskForceAIError::EmptyPrompt)
    ));
    assert!(matches!(
        validate_prompt("\u{a0}\u{2003}"),
        Err(TaskForceAIError::EmptyPrompt)
    ));
}

#[test]
fn task_id_validation() {
    assert!(validate_task_id("task-1").is_ok());
    assert!(matches!(
        validate_task_id(""),
        Err(TaskForceAIError::EmptyTaskId)
    ));
    assert!(matches!(
        validate_task_id(" \t "),
        Err(TaskForceAIError::EmptyTaskId)
    ));
}

#[test]
fn client_defaults() {
    let cfg = resolve_options(TaskForceAIOptions {
        api_key: Some(String::from("test-key")),
        base_url: None,
        timeout: None,
        mock_mode: None,
    })
    .unwrap();
    assert_eq!(cfg.base_url, default_base_url());
    assert_eq!(cfg.timeout_secs, DEFAULT_TIMEOUT_SECS);
    assert!(!cfg.mock_mode);
    assert_eq!(cfg.api_key, "test-key");
}

#[test]
fn client_requires_key_when_live() {
    let res = resolve_options(TaskForceAIOptions {
        api_key: None,
        base_url: None,
        timeout: None,
        mock_mode: Some(false),
    });
    assert!(matches!(res, Err(TaskForceAIError::MissingApiKey)));
}

#[test]
fn mock_mode_needs_no_key() {
    let cfg = resolve_options(TaskForceAIOptions {
        api_key: None,
        base_url: None,
        timeout: None,
        mock_mode: Some(true),
    })
    .unwrap();
    assert!(cfg.mock_mode);
    assert_eq!(cfg.api_key, "");
}

#[test]
fn base_url_loses_trailing_slashes() {
    let cfg = resolve_options(TaskForceAIOptions {
        api_key: Some(String::from("k")),
        base_url: Some(String::from("https://example.test/api///")),
        timeout: Some(5),
        mock_mode: None,
    })
    .unwrap();
    assert_eq!(cfg.base_url, "https://example.test/api");
    assert_eq!(cfg.timeout_secs, 5);
}

#[test]
fn api_error_carries_status_and_body() {
    let res = check_response(401, Some(String::from("Unauthorized")));
    match res {
        Err(TaskForceAIError::Api { status, message }) => {
            assert_eq!(status, 401);
            assert_eq!(message, "Unauthorized");
        }
        _ => panic!("Expected API error"),
    }
}

#[test]
fn api_error_without_readable_body() {
    let res = check_response(500, None);
    match res {
        Err(TaskForceAIError::Api { status, message }) => {
            assert_eq!(status, 500);
            assert_eq!(message, "Failed to read error message from response body");
        }
        _ => panic!("Expected API error"),
    }
}

#[test]
fn success_response_passes_body_through() {
    let res = check_response(200, Some(String::from("{\"taskId\": \"t\"}")));
    assert_eq!(res.unwrap(), "{\"taskId\": \"t\"}");
    assert_eq!(check_response(204, None).unwrap(), "");
}

#[test]
fn mock_fixtures() {
    assert_eq!(mock_submit_response().task_id, "mock-task-123");
    let st = mock_task_status();
    assert_eq!(st.task_id, "mock-task-123");
    assert!(matches!(st.status, TaskStatusValue::Completed));
    assert!(st.result.is_some());
    assert!(st.error.is_none());
}

#[test]
fn error_messages() {
    assert_eq!(
        TaskForceAIError::EmptyTaskId.message(),
        "Task ID must be a non-empty string"
    );
    assert_eq!(
        TaskForceAIError::TaskFailed(String::from("oops")).message(),
        "Task failed: oops"
    );
    assert_eq!(
        TaskForceAIError::Stream(String::from("oops")).message(),
        "Stream error: oops"
    );
    assert_eq!(
        TaskForceAIError::Other(String::from("oops")).message(),
        "Other error: oops"
    );
    assert_eq!(
        TaskForceAIError::Timeout.message(),
        "Task did not complete within the expected time"
    );
    assert!(TaskForceAIError::Serialization(JsonError::Syntax)
        .message()
        .starts_with("Serialization error"));
    assert_eq!(
        TaskForceAIError::Api {
            status: 401,
            message: String::from("Unauthorized")
        }
        .message(),
        "API error (status 401): Unauthorized"
    );
}

#[test]
fn decimal_rendering() {
    assert_eq!(u64_to_string(0), "0");
    assert_eq!(u64_to_string(7), "7");
    assert_eq!(u64_to_string(401), "401");
    assert_eq!(u64_to_string(18446744073709551615), "18446744073709551615");
}
