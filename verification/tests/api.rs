use jev::api::{
    backoff_ms, base_or_default, body_retry_ms, endpoint_url, is_success, name_status, parse_evaluation,
    parse_retry_after_seconds, payload, pin_model, react, retryable_status, server_wait,
    trim_error_body, verify_request, wait_until, ApiError, Reply, Step, DEFAULT_MODEL,
    MAX_ATTEMPTS,
};
use jev::document::{read_json, write_json};
use jev::json::Json;
use jev::request::validate_ready;

fn json(text: &str) -> Json {
    read_json(text).unwrap()
}

fn answered(text: &str) -> Reply {
    Reply::Answered(text.as_bytes().to_vec())
}

fn refused(status: u16, text: &str, wait_ms: Option<u64>) -> Reply {
    Reply::Refused {
        status,
        text: text.to_string(),
        wait_ms,
    }
}

#[test]
fn backoff_schedule_and_server_override() {
    assert_eq!(backoff_ms(0, None), 500);
    assert_eq!(backoff_ms(1, None), 1000);
    assert_eq!(backoff_ms(2, None), 2000);
    assert_eq!(backoff_ms(10, None), 8000);
    assert_eq!(backoff_ms(1, Some(50)), 50);
    assert!(retryable_status(reqwest::StatusCode::TOO_MANY_REQUESTS.as_u16()));
    assert!(retryable_status(
        reqwest::StatusCode::from_u16(529)
            .expect("529 is a valid status code")
            .as_u16()
    ));
    assert!(!retryable_status(
        reqwest::StatusCode::UNPROCESSABLE_ENTITY.as_u16()
    ));
}

#[test]
fn the_backoff_never_exceeds_eight_seconds() {
    assert_eq!(backoff_ms(3, None), 4000);
    assert_eq!(backoff_ms(4, None), 8000);
    assert_eq!(backoff_ms(64, None), 8000);
    assert_eq!(backoff_ms(usize::MAX, None), 8000);
    assert_eq!(backoff_ms(0, Some(u64::MAX)), u64::MAX);
    for status in [429, 500, 502, 503, 504, 529] {
        assert!(retryable_status(status));
    }
    for status in [200, 400, 401, 403, 404, 422, 501, 528] {
        assert!(!retryable_status(status));
    }
}

#[test]
fn success_parses_model_answers_and_usage() {
    let reply = answered(
        r#"{"model": "jev-latest", "answers": {"urgent": {"type": "noul", "noul": 0.92}}, "usage": {"input_tokens": 312, "output_tokens": 48}}"#,
    );
    let Step::Done(evaluation) = react(0, reply) else {
        panic!("expected an evaluation");
    };
    assert_eq!(evaluation.model, "jev-latest");
    assert_eq!(
        write_json(evaluation.answers.get("urgent").unwrap().get("noul").unwrap()),
        "0.92"
    );
    assert_eq!(evaluation.usage.input_tokens, 312);
    assert_eq!(evaluation.usage.output_tokens, 48);
}

#[test]
fn retries_on_429_and_succeeds() {
    let text = r#"{"retry_after_ms": 0}"#;
    let step = react(0, refused(429, text, server_wait(body_retry_ms(text), None)));
    let Step::Retry { delay_ms, notice } = step else {
        panic!("expected a retry");
    };
    assert_eq!(delay_ms, 0);
    assert_eq!(notice, "API retry 1/5 after 0ms");
    let reply = answered(
        r#"{"model": "jev-latest", "answers": {"urgent": {"type": "noul", "noul": 0.5}}, "usage": {"input_tokens": 10, "output_tokens": 1}}"#,
    );
    let Step::Done(evaluation) = react(1, reply) else {
        panic!("expected an evaluation");
    };
    assert_eq!(evaluation.usage.input_tokens, 10);
}

#[test]
fn auth_failure_is_immediate_and_actionable() {
    let Step::Failed(error) = react(0, refused(401, "invalid api key", Some(1))) else {
        panic!("expected an error");
    };
    let text = error.message();
    assert!(text.contains("jev login"), "{text}");
    assert_eq!(
        text,
        "API rejected the credentials: invalid api key; run jev login or set JEV_API_KEY"
    );
    assert!(matches!(
        react(0, refused(403, "", None)),
        Step::Failed(ApiError::Auth(told)) if told == "empty body (HTTP 403 Forbidden)"
    ));
}

#[test]
fn only_transient_failures_are_tried_again() {
    for status in [429, 500, 502, 503, 504, 529] {
        assert!(matches!(react(4, refused(status, "", None)), Step::Retry { .. }));
        assert!(matches!(
            react(5, refused(status, "", None)),
            Step::Failed(ApiError::Http(told, _)) if told == status
        ));
    }
    for status in [400, 401, 403, 404, 422, 501] {
        assert!(matches!(react(0, refused(status, "", None)), Step::Failed(_)));
    }
    assert!(matches!(react(4, Reply::Lost("down".to_string())), Step::Retry { .. }));
    assert!(matches!(
        react(5, Reply::Lost("down".to_string())),
        Step::Failed(ApiError::Transport(_))
    ));
    assert!(matches!(
        react(0, Reply::Unreadable("cut off".to_string())),
        Step::Failed(ApiError::Transport(_))
    ));
}

#[test]
fn validation_error_is_not_retried() {
    let reply = refused(422, "{\"error\":\"questions.urgent: missing type\"}", None);
    let Step::Failed(error) = react(0, reply) else {
        panic!("expected an error");
    };
    assert!(error.message().contains("422"));
    assert_eq!(
        error.message(),
        "API 422 Unprocessable Entity: {\"error\":\"questions.urgent: missing type\"}"
    );
}

#[test]
fn invalid_success_payload_is_typed() {
    let Step::Failed(error) = react(0, answered("not json")) else {
        panic!("expected an error");
    };
    assert!(matches!(error, ApiError::InvalidResponse(_)));
    assert_eq!(
        error.message(),
        "Invalid API response: expected ident at line 1 column 2"
    );
}

#[test]
fn the_last_attempt_is_final() {
    for attempt in 0..MAX_ATTEMPTS {
        let last = attempt + 1 == MAX_ATTEMPTS;
        match react(attempt, refused(503, "busy", None)) {
            Step::Retry { notice, .. } => {
                assert!(!last);
                assert!(notice.starts_with(&format!("API retry {}/5 after ", attempt + 1)));
            }
            Step::Failed(ApiError::Http(503, told)) => {
                assert!(last);
                assert_eq!(told, "busy");
            }
            _ => panic!("unexpected step"),
        }
        match react(attempt, Reply::Lost("refused".to_string())) {
            Step::Retry { delay_ms, notice } => {
                assert!(!last);
                assert_eq!(
                    notice,
                    format!("Network retry {}/5 after {delay_ms}ms", attempt + 1)
                );
            }
            Step::Failed(ApiError::Transport(told)) => {
                assert!(last);
                assert_eq!(told, "refused");
            }
            _ => panic!("unexpected step"),
        }
    }
}

#[test]
fn an_answer_that_cannot_be_read_is_final() {
    let Step::Failed(error) = react(0, Reply::Unreadable("cut off".to_string())) else {
        panic!("expected an error");
    };
    assert!(matches!(error, ApiError::Transport(_)));
    assert_eq!(error.message(), "API transport error: cut off");
}

#[test]
fn replies_that_are_no_evaluations_say_what_is_missing() {
    let error = |text: &str| match parse_evaluation(&json(text)) {
        Err(ApiError::InvalidResponse(e)) => e,
        _ => panic!("expected an error"),
    };
    assert_eq!(error("{}"), "missing model");
    assert_eq!(error(r#"{"model": 1}"#), "missing model");
    assert_eq!(error(r#"{"model": "m"}"#), "missing answers");
    assert_eq!(
        error(r#"{"model": "m", "answers": []}"#),
        "answers is not an object"
    );
    let evaluation = parse_evaluation(&json(
        r#"{"model": "m", "answers": {}, "usage": {"input_tokens": -1, "output_tokens": 2.0}}"#,
    ))
    .unwrap();
    assert_eq!(evaluation.usage.input_tokens, 0);
    assert_eq!(evaluation.usage.output_tokens, 0);
}

#[test]
fn refusals_are_told_in_short() {
    assert_eq!(trim_error_body("  busy \n", 500), "busy");
    assert_eq!(
        trim_error_body(" \n", 529),
        "empty body (HTTP 529 <unknown status code>)"
    );
    let long = "é".repeat(500);
    assert_eq!(trim_error_body(&long, 500), "é".repeat(400));
    assert_eq!(trim_error_body(&"x".repeat(400), 500), "x".repeat(400));
}

#[test]
fn statuses_are_named() {
    for code in 100..1000 {
        let status = reqwest::StatusCode::from_u16(code).unwrap();
        assert_eq!(name_status(code), format!("{status}"));
    }
    assert_eq!(name_status(429), "429 Too Many Requests");
    assert_eq!(name_status(7), "7 <unknown status code>");
}

#[test]
fn waits_come_from_the_body_before_the_header() {
    assert_eq!(body_retry_ms(r#"{"retry_after_ms": 7}"#), Some(7));
    assert_eq!(body_retry_ms(r#"{"error": {"retry_after_ms": 8}}"#), Some(8));
    assert_eq!(
        body_retry_ms(r#"{"retry_after_ms": "x", "error": {"retry_after_ms": 9}}"#),
        Some(9)
    );
    assert_eq!(body_retry_ms(r#"{"retry_after_ms": -1}"#), None);
    assert_eq!(body_retry_ms("busy"), None);
    assert_eq!(server_wait(Some(5), Some(2)), Some(5));
    assert_eq!(server_wait(Some(5), Some(u64::MAX)), Some(5));
    assert_eq!(server_wait(None, Some(2)), Some(2000));
    assert_eq!(server_wait(None, None), None);
}

#[test]
fn retry_after_is_a_number_or_a_date() {
    assert_eq!(parse_retry_after_seconds("120", 0, 0), Some(120));
    assert_eq!(parse_retry_after_seconds("+5", 0, 0), Some(5));
    assert_eq!(parse_retry_after_seconds("", 0, 0), None);
    assert_eq!(parse_retry_after_seconds("-5", 0, 0), None);
    assert_eq!(parse_retry_after_seconds("soon", 0, 0), None);
    assert_eq!(
        parse_retry_after_seconds("18446744073709551616", 0, 0),
        None
    );
    let date = "Sun, 06 Nov 1994 08:49:37 GMT";
    assert_eq!(parse_retry_after_seconds(date, 784111777, 0), Some(0));
    assert_eq!(parse_retry_after_seconds(date, 784111767, 0), Some(10));
    assert_eq!(parse_retry_after_seconds(date, 784111767, 1), Some(9));
    assert_eq!(parse_retry_after_seconds(date, 784111777, 1), Some(0));
    assert_eq!(parse_retry_after_seconds(date, 884111777, 0), Some(0));
    assert_eq!(parse_retry_after_seconds(date, -1, 0), Some(784111778));
    assert_eq!(wait_until(10, 4, 0), 6);
    assert_eq!(wait_until(10, 4, 999_999_999), 5);
    assert_eq!(wait_until(4, 10, 0), 0);
}

#[test]
fn requests_are_sent_to_the_endpoint_with_a_model() {
    assert_eq!(
        endpoint_url("https://api.typesafe.ai"),
        "https://api.typesafe.ai/v1/systemone"
    );
    assert_eq!(endpoint_url("http://x//"), "http://x/v1/systemone");
    assert_eq!(base_or_default(None), "https://api.typesafe.ai");
    assert_eq!(base_or_default(Some("http://x".to_string())), "http://x");
    let bare = json(r#"{"state": "é"}"#);
    assert_eq!(
        String::from_utf8(payload(&bare)).unwrap(),
        r#"{"model":"jev-latest","state":"é"}"#
    );
    let named = json(r#"{"model": "other", "state": 1}"#);
    assert_eq!(pin_model(&named), named);
    assert_eq!(pin_model(&json("[1]")), json("[1]"));
    assert_eq!(DEFAULT_MODEL, "jev-latest");
}

#[test]
fn a_login_tries_its_key_with_one_question() {
    let body = verify_request();
    assert!(validate_ready(&body).is_ok());
    assert_eq!(
        write_json(&body),
        r#"{"model":"jev-latest","questions":{"ok":{"instructions":"Is this sentence in English?","type":"noul"}},"state":"login verification"}"#
    );
}

#[test]
fn answers_come_with_a_success_status() {
    assert!(is_success(200) && is_success(204) && is_success(299));
    assert!(!is_success(199) && !is_success(300) && !is_success(404));
}
