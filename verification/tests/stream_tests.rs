use taskforceai::error::JsonError;
use taskforceai::stream::{parse_all, EventParser, ParserStep};
use taskforceai::types::{TaskStatus, TaskStatusValue};

fn collect(chunks: Vec<Vec<u8>>) -> Vec<Result<TaskStatus, JsonError>> {
    parse_all(&chunks)
}

#[test]
fn scenario_processing_then_completed() {
    let body = b"data: {\"taskId\":\"t1\",\"status\":\"processing\"}\ndata: {\"taskId\":\"t1\",\"status\":\"completed\",\"result\":\"done\"}\n".to_vec();
    let items = collect(vec![body]);
    assert_eq!(items.len(), 2);
    let first = items[0].as_ref().unwrap();
    assert_eq!(first.task_id, "t1");
    assert!(matches!(first.status, TaskStatusValue::Processing));
    let second = items[1].as_ref().unwrap();
    assert_eq!(second.task_id, "t1");
    assert!(matches!(second.status, TaskStatusValue::Completed));
    assert_eq!(second.result.as_deref(), Some("done"));
}

#[test]
fn scenario_unterminated_final_line() {
    let body = b"data: {\"taskId\":\"t1\",\"status\":\"completed\"}".to_vec();
    let items = collect(vec![body]);
    assert_eq!(items.len(), 1);
    let only = items[0].as_ref().unwrap();
    assert!(matches!(only.status, TaskStatusValue::Completed));
    assert_eq!(only.task_id, "t1");
}

#[test]
fn scenario_malformed_line() {
    let body = b"data: {malformed}\n".to_vec();
    let items = collect(vec![body]);
    assert_eq!(items.len(), 1);
    assert!(items[0].is_err());
}

#[test]
fn malformed_final_line_without_newline() {
    let body = b"data: {malformed}".to_vec();
    let items = collect(vec![body]);
    assert_eq!(items.len(), 1);
    assert!(items[0].is_err());
}

#[test]
fn malformed_line_does_not_stop_later_events() {
    let body =
        b"data: {malformed}\ndata: {\"taskId\":\"t1\",\"status\":\"completed\"}\n".to_vec();
    let items = collect(vec![body]);
    assert_eq!(items.len(), 2);
    assert!(items[0].is_err());
    assert!(matches!(
        items[1].as_ref().unwrap().status,
        TaskStatusValue::Completed
    ));
}

#[test]
fn empty_body_yields_nothing() {
    let items = collect(vec![Vec::new()]);
    assert_eq!(items.len(), 0);
}

#[test]
fn garbage_without_newline_yields_nothing() {
    let items = collect(vec![b"garbage-no-newline".to_vec()]);
    assert_eq!(items.len(), 0);
}

#[test]
fn non_data_lines_are_discarded() {
    let with_noise = b": comment\n\ndata: {\"taskId\":\"t1\",\"status\":\"processing\"}\nretry: 100\n\ndata: {\"taskId\":\"t1\",\"status\":\"completed\"}\nnoise\n".to_vec();
    let without = b"data: {\"taskId\":\"t1\",\"status\":\"processing\"}\ndata: {\"taskId\":\"t1\",\"status\":\"completed\"}\n".to_vec();
    let a = collect(vec![with_noise]);
    let b = collect(vec![without]);
    assert_eq!(a.len(), 2);
    assert_eq!(b.len(), 2);
    for (x, y) in a.iter().zip(b.iter()) {
        let (x, y) = (x.as_ref().unwrap(), y.as_ref().unwrap());
        assert_eq!(x.task_id, y.task_id);
        assert_eq!(
            std::mem::discriminant(&x.status),
            std::mem::discriminant(&y.status)
        );
    }
}

#[test]
fn trailing_blank_line_adds_no_event() {
    let body = b"data: {\"taskId\":\"t1\",\"status\":\"processing\"}\n\n".to_vec();
    let items = collect(vec![body]);
    assert_eq!(items.len(), 1);
    assert!(matches!(
        items[0].as_ref().unwrap().status,
        TaskStatusValue::Processing
    ));
}

#[test]
fn chunk_boundaries_do_not_matter() {
    let body = b"data: {\"taskId\":\"t1\",\"status\":\"processing\"}\n: keep-alive\ndata: {\"taskId\":\"t1\",\"status\":\"completed\",\"result\":\"ok\"}\n".to_vec();
    let whole = collect(vec![body.clone()]);
    let byte_at_a_time: Vec<Vec<u8>> = body.iter().map(|b| vec![*b]).collect();
    let tiny = collect(byte_at_a_time);
    let split_mid = collect(vec![body[..17].to_vec(), body[17..].to_vec()]);
    assert_eq!(whole.len(), 2);
    assert_eq!(tiny.len(), 2);
    assert_eq!(split_mid.len(), 2);
    for items in [&tiny, &split_mid] {
        for (x, y) in whole.iter().zip(items.iter()) {
            let (x, y) = (x.as_ref().unwrap(), y.as_ref().unwrap());
            assert_eq!(x.task_id, y.task_id);
            assert_eq!(x.result, y.result);
            assert_eq!(
                std::mem::discriminant(&x.status),
                std::mem::discriminant(&y.status)
            );
        }
    }
}

#[test]
fn incremental_parser_protocol() {
    let mut parser = EventParser::new();
    assert!(matches!(parser.next_event(), ParserStep::NeedInput));
    parser.feed(&b"data: {\"taskId\":\"t1\",\"st".to_vec());
    assert!(matches!(parser.next_event(), ParserStep::NeedInput));
    parser.feed(&b"atus\":\"processing\"}\n".to_vec());
    match parser.next_event() {
        ParserStep::Item(Ok(st)) => {
            assert_eq!(st.task_id, "t1");
            assert!(matches!(st.status, TaskStatusValue::Processing));
        }
        _ => panic!("expected a decoded event"),
    }
    assert!(matches!(parser.next_event(), ParserStep::NeedInput));
    parser.end_input();
    assert!(matches!(parser.next_event(), ParserStep::End));
    assert!(matches!(parser.next_event(), ParserStep::End));
}

#[test]
fn incremental_parser_final_fragment() {
    let mut parser = EventParser::new();
    parser.feed(&b"data: {\"taskId\":\"t9\",\"status\":\"failed\",\"error\":\"boom\"}".to_vec());
    assert!(matches!(parser.next_event(), ParserStep::NeedInput));
    parser.end_input();
    match parser.next_event() {
        ParserStep::Item(Ok(st)) => {
            assert!(matches!(st.status, TaskStatusValue::Failed));
            assert_eq!(st.error.as_deref(), Some("boom"));
        }
        _ => panic!("expected the final unterminated event"),
    }
    assert!(matches!(parser.next_event(), ParserStep::End));
}
