use taskforceai::encode::encode_status_bytes;
use taskforceai::error::JsonError;
use taskforceai::json::{decode_status, decode_submit_response};
use taskforceai::types::{MetadataEntry, TaskStatus, TaskStatusValue};

fn entry(key: &str, value: &str) -> MetadataEntry {
    MetadataEntry {
        key: String::from(key),
        value: String::from(value),
    }
}

#[test]
fn decode_minimal_status() {
    let body = b"{\"taskId\": \"task-1\", \"status\": \"processing\"}".to_vec();
    let st = decode_status(&body).unwrap();
    assert_eq!(st.task_id, "task-1");
    assert!(matches!(st.status, TaskStatusValue::Processing));
    assert!(st.result.is_none());
    assert!(st.error.is_none());
    assert!(st.warnings.is_none());
    assert!(st.metadata.is_none());
}

#[test]
fn decode_full_status() {
    let body = b"{\"taskId\":\"t\",\"status\":\"completed\",\"result\":\"r\",\"error\":\"e\",\"warnings\":[\"w1\",\"w2\"],\"metadata\":{\"k\":1,\"nested\":{\"a\":[true,null]}}}".to_vec();
    let st = decode_status(&body).unwrap();
    assert_eq!(st.task_id, "t");
    assert!(matches!(st.status, TaskStatusValue::Completed));
    assert_eq!(st.result.as_deref(), Some("r"));
    assert_eq!(st.error.as_deref(), Some("e"));
    let w = st.warnings.unwrap();
    assert_eq!(w, vec!["w1".to_string(), "w2".to_string()]);
    let m = st.metadata.unwrap();
    assert_eq!(m.len(), 2);
    assert_eq!(m[0].key, "k");
    assert_eq!(m[0].value, "1");
    assert_eq!(m[1].key, "nested");
    assert_eq!(m[1].value, "{\"a\":[true,null]}");
}

#[test]
fn decode_handles_escapes() {
    let body = b"{\"taskId\":\"a\\\"b\\\\c\\n\",\"status\":\"failed\"}".to_vec();
    let st = decode_status(&body).unwrap();
    assert_eq!(st.task_id, "a\"b\\c\n");
}

#[test]
fn decode_handles_unicode_escapes() {
    let body = b"{\"taskId\":\"\\u0041\\u00e9\\u2713\",\"status\":\"completed\"}".to_vec();
    let st = decode_status(&body).unwrap();
    assert_eq!(st.task_id, "A\u{e9}\u{2713}");
    let pair = b"{\"taskId\":\"\\ud83d\\ude00\",\"status\":\"completed\"}".to_vec();
    assert_eq!(decode_status(&pair).unwrap().task_id, "\u{1f600}");
    let lone_surrogate = b"{\"taskId\":\"\\ud800\",\"status\":\"completed\"}".to_vec();
    assert!(matches!(
        decode_status(&lone_surrogate),
        Err(JsonError::Syntax)
    ));
}

#[test]
fn decode_unknown_tag() {
    let body = b"{\"taskId\":\"t\",\"status\":\"paused\"}".to_vec();
    assert!(matches!(
        decode_status(&body),
        Err(JsonError::UnknownStatusTag)
    ));
}

#[test]
fn decode_missing_required_field() {
    let body = b"{\"status\":\"completed\"}".to_vec();
    assert!(matches!(decode_status(&body), Err(JsonError::MissingField)));
    let body = b"{}".to_vec();
    assert!(matches!(decode_status(&body), Err(JsonError::MissingField)));
}

#[test]
fn decode_duplicate_field() {
    let body = b"{\"taskId\":\"a\",\"taskId\":\"b\",\"status\":\"completed\"}".to_vec();
    assert!(matches!(
        decode_status(&body),
        Err(JsonError::DuplicateField)
    ));
}

#[test]
fn decode_malformed_payload() {
    assert!(matches!(
        decode_status(&b"{malformed}".to_vec()),
        Err(JsonError::Syntax)
    ));
    assert!(matches!(
        decode_status(&b"".to_vec()),
        Err(JsonError::Syntax)
    ));
    assert!(matches!(
        decode_status(&b"[1,2]".to_vec()),
        Err(JsonError::Syntax)
    ));
    assert!(matches!(
        decode_status(&b"{\"taskId\":\"t\",\"status\":\"completed\"} junk".to_vec()),
        Err(JsonError::Syntax)
    ));
}

#[test]
fn decode_invalid_utf8_in_string() {
    let mut body = b"{\"taskId\":\"".to_vec();
    body.push(0xff);
    body.extend_from_slice(b"\",\"status\":\"completed\"}");
    assert!(matches!(decode_status(&body), Err(JsonError::InvalidUtf8)));
}

#[test]
fn decode_ignores_unknown_members_and_null_options() {
    let body =
        b"{\"extra\": [1, {\"x\": \"y\"}], \"taskId\": \"t\", \"result\": null, \"status\": \"processing\"}"
            .to_vec();
    let st = decode_status(&body).unwrap();
    assert_eq!(st.task_id, "t");
    assert!(st.result.is_none());
}

#[test]
fn encode_exact_wire_text() {
    let st = TaskStatus {
        task_id: String::from("t1"),
        status: TaskStatusValue::Completed,
        result: Some(String::from("done")),
        error: None,
        warnings: Some(vec![String::from("w")]),
        metadata: Some(vec![entry("k", "42")]),
    };
    let bytes = encode_status_bytes(&st);
    let text = String::from_utf8(bytes).unwrap();
    assert_eq!(
        text,
        "{\"taskId\":\"t1\",\"status\":\"completed\",\"result\":\"done\",\"warnings\":[\"w\"],\"metadata\":{\"k\":42}}"
    );
}

#[test]
fn round_trip_minimal() {
    let st = TaskStatus {
        task_id: String::from("task-1"),
        status: TaskStatusValue::Processing,
        result: None,
        error: None,
        warnings: None,
        metadata: None,
    };
    let back = decode_status(&encode_status_bytes(&st)).unwrap();
    assert_eq!(back.task_id, st.task_id);
    assert!(matches!(back.status, TaskStatusValue::Processing));
    assert!(back.result.is_none());
    assert!(back.error.is_none());
    assert!(back.warnings.is_none());
    assert!(back.metadata.is_none());
}

#[test]
fn round_trip_every_field() {
    let st = TaskStatus {
        task_id: String::from("id \"quoted\" \\ and\ncontrol"),
        status: TaskStatusValue::Failed,
        result: Some(String::from("café ✓")),
        error: Some(String::from("line1\nline2\ttabbed")),
        warnings: Some(vec![
            String::from(""),
            String::from("plain"),
            String::from("wei\u{00df}"),
        ]),
        metadata: Some(vec![
            entry("num", "123.5"),
            entry("text", "\"a string\""),
            entry("flag", "true"),
            entry("nothing", "null"),
            entry("deep", "{\"a\":[1,\"two\",{\"b\":null}]}"),
        ]),
    };
    let back = decode_status(&encode_status_bytes(&st)).unwrap();
    assert_eq!(back.task_id, st.task_id);
    assert!(matches!(back.status, TaskStatusValue::Failed));
    assert_eq!(back.result, st.result);
    assert_eq!(back.error, st.error);
    assert_eq!(back.warnings, st.warnings);
    let (a, b) = (back.metadata.unwrap(), st.metadata.unwrap());
    assert_eq!(a.len(), b.len());
    for (x, y) in a.iter().zip(b.iter()) {
        assert_eq!(x.key, y.key);
        assert_eq!(x.value, y.value);
    }
}

#[test]
fn round_trip_empty_collections() {
    let st = TaskStatus {
        task_id: String::from("t"),
        status: TaskStatusValue::Completed,
        result: Some(String::from("")),
        error: None,
        warnings: Some(Vec::new()),
        metadata: Some(Vec::new()),
    };
    let back = decode_status(&encode_status_bytes(&st)).unwrap();
    assert_eq!(back.result.as_deref(), Some(""));
    assert_eq!(back.warnings.unwrap().len(), 0);
    assert_eq!(back.metadata.unwrap().len(), 0);
}

#[test]
fn submit_response_decodes_task_id() {
    let body = b"{\"taskId\": \"task-2\"}".to_vec();
    let resp = decode_submit_response(&body).unwrap();
    assert_eq!(resp.task_id, "task-2");
}

#[test]
fn submit_response_requires_task_id() {
    assert!(matches!(
        decode_submit_response(&b"{}".to_vec()),
        Err(JsonError::MissingField)
    ));
    assert!(matches!(
        decode_submit_response(&b"{\"other\": 1}".to_vec()),
        Err(JsonError::MissingField)
    ));
    assert!(matches!(
        decode_submit_response(&b"not json".to_vec()),
        Err(JsonError::Syntax)
    ));
}
