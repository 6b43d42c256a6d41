use llm_udf::batch::{
    after_create, after_download, after_status, after_upload, build_batch_input,
    build_content_prompt, check_status, collect_results, request_id_string, request_index,
    same_text, start_batch, BatchStep, LlmError, ResultRecord, POLL_INTERVAL_MS,
};

fn strings(v: &[&str]) -> Vec<String> {
    v.iter().map(|s| s.to_string()).collect()
}

fn answer(id: &str, text: &str) -> ResultRecord {
    ResultRecord { custom_id: id.to_string(), response: Some(vec![text.to_string()]), error: None }
}

#[test]
fn empty_submission_makes_no_call() {
    match start_batch("m", &Vec::new()) {
        BatchStep::Done(v) => assert!(v.is_empty()),
        other => panic!("unexpected step {:?}", other),
    }
}

#[test]
fn request_file_has_one_line_per_prompt() {
    let prompts = strings(&["Hi", "say \"yes\"\n"]);
    let body = build_batch_input("gpt", &prompts);
    let expected = [
        "{\"custom_id\":\"req-0\",\"method\":\"POST\",\"url\":\"/v1/chat/completions\",",
        "\"body\":{\"model\":\"gpt\",\"messages\":[{\"role\":\"user\",\"content\":\"Hi\"}]}}\n",
        "{\"custom_id\":\"req-1\",\"method\":\"POST\",\"url\":\"/v1/chat/completions\",",
        "\"body\":{\"model\":\"gpt\",\"messages\":[{\"role\":\"user\",\"content\":\"say \\\"yes\\\"\\n\"}]}}",
    ]
    .join("");
    assert_eq!(body, expected);
}

#[test]
fn first_step_uploads_the_request_file() {
    let prompts = strings(&["a"]);
    match start_batch("m", &prompts) {
        BatchStep::Upload { path, file_name, content } => {
            assert_eq!(path, "/files");
            assert_eq!(file_name, "batch_input.jsonl");
            assert_eq!(content, build_batch_input("m", &prompts));
        }
        other => panic!("unexpected step {:?}", other),
    }
}

#[test]
fn control_characters_are_escaped() {
    assert_eq!(llm_udf::batch::quoted("a\u{1}b\\c\t\u{7f}"), "\"a\\u0001b\\\\c\\t\u{7f}\"");
    assert_eq!(llm_udf::batch::quoted("\u{8}\u{c}\r\u{1f}"), "\"\\b\\f\\r\\u001f\"");
}

#[test]
fn protocol_steps() {
    match after_upload("file-1") {
        BatchStep::Create { path, body } => {
            assert_eq!(path, "/batches");
            assert_eq!(
                body,
                "{\"input_file_id\":\"file-1\",\"endpoint\":\"/v1/chat/completions\",\"completion_window\":\"24h\"}"
            );
        }
        other => panic!("unexpected step {:?}", other),
    }
    match after_create("b-7") {
        BatchStep::Poll { path, batch_id, delay_ms } => {
            assert_eq!(path, "/batches/b-7");
            assert_eq!(batch_id, "b-7");
            assert_eq!(delay_ms, 0);
        }
        other => panic!("unexpected step {:?}", other),
    }
    match after_status("b-7", "in_progress", None) {
        BatchStep::Poll { delay_ms, .. } => assert_eq!(delay_ms, POLL_INTERVAL_MS),
        other => panic!("unexpected step {:?}", other),
    }
    match after_status("b-7", "completed", Some("out-3".to_string())) {
        BatchStep::Download { path } => assert_eq!(path, "/files/out-3/content"),
        other => panic!("unexpected step {:?}", other),
    }
    assert!(matches!(
        after_status("b-7", "completed", None),
        BatchStep::Failed(LlmError::MissingOutputFile)
    ));
    match after_status("b", "failed", None) {
        BatchStep::Failed(LlmError::BatchFailed(m)) => assert_eq!(m, "Batch processing failed"),
        other => panic!("unexpected step {:?}", other),
    }
    assert!(matches!(after_status("b", "expired", None), BatchStep::Failed(LlmError::BatchExpired)));
    assert!(matches!(
        after_status("b", "cancelled", None),
        BatchStep::Failed(LlmError::BatchCancelled)
    ));
}

#[test]
fn results_follow_prompt_order_not_file_order() {
    let records = vec![answer("req-2", "two"), answer("req-0", "zero"), answer("req-1", "one")];
    assert_eq!(collect_results(&records, 3).unwrap(), strings(&["zero", "one", "two"]));
    let mut shuffled = records.clone();
    shuffled.reverse();
    assert_eq!(collect_results(&shuffled, 3).unwrap(), strings(&["zero", "one", "two"]));
    match after_download(&records, 3) {
        BatchStep::Done(v) => assert_eq!(v, strings(&["zero", "one", "two"])),
        other => panic!("unexpected step {:?}", other),
    }
}

#[test]
fn item_errors_become_text() {
    let records = vec![
        ResultRecord { custom_id: "req-0".to_string(), response: None, error: Some("boom".to_string()) },
        ResultRecord { custom_id: "req-1".to_string(), response: Some(vec![]), error: None },
        ResultRecord { custom_id: "req-2".to_string(), response: None, error: None },
        ResultRecord {
            custom_id: "req-3".to_string(),
            response: Some(vec!["first".to_string(), "second".to_string()]),
            error: Some("ignored".to_string()),
        },
    ];
    assert_eq!(collect_results(&records, 4).unwrap(), strings(&["Error: boom", "", "", "first"]));
}

#[test]
fn missing_result_is_an_error() {
    let records = vec![answer("req-0", "zero"), answer("req-2", "two"), answer("req-01", "x")];
    match collect_results(&records, 3) {
        Err(LlmError::ResultNotFound(id)) => assert_eq!(id, "req-1"),
        other => panic!("unexpected outcome {:?}", other),
    }
    assert!(matches!(
        after_download(&records, 3),
        BatchStep::Failed(LlmError::ResultNotFound(_))
    ));
}

#[test]
fn request_ids() {
    assert_eq!(request_id_string(0), "req-0");
    assert_eq!(request_id_string(1234), "req-1234");
    assert_eq!(request_index("req-12", 13), Some(12));
    assert_eq!(request_index("req-12", 12), None);
    assert_eq!(request_index("req-012", 20), None);
    assert_eq!(request_index("req-", 20), None);
    assert_eq!(request_index("rex-1", 20), None);
    assert_eq!(request_index("req-0", 1), Some(0));
}

#[test]
fn status_codes() {
    assert!(check_status(200, String::new()).is_ok());
    assert!(check_status(299, String::new()).is_ok());
    match check_status(404, "nope".to_string()) {
        Err(LlmError::Api { status, message }) => {
            assert_eq!(status, 404);
            assert_eq!(message, "nope");
        }
        other => panic!("unexpected outcome {:?}", other),
    }
    assert!(check_status(199, String::new()).is_err());
}

#[test]
fn content_prompt_and_text_equality() {
    assert_eq!(build_content_prompt("body", "Summarize"), "Summarize\n\nContent:\nbody");
    assert!(same_text("abc", "abc"));
    assert!(!same_text("abc", "abd"));
    assert!(!same_text("abc", "ab"));
}
