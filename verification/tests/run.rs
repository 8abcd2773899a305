use jev::api::{parse_evaluation, react, ApiError, Evaluation, Reply, Step};
use jev::assertion::parse;
use jev::document::{read_json, write_json};
use jev::json::Json;
use jev::run::{check_resume, classify, pending, read_ok_indices, single, BatchOutcome, Row};

fn json(text: &str) -> Json {
    read_json(text).unwrap()
}

fn noul(value: &str) -> Evaluation {
    parse_evaluation(&json(&format!(
        r#"{{"model": "jev-latest", "answers": {{"q": {{"type": "noul", "noul": {value}}}}}, "usage": {{"input_tokens": 10, "output_tokens": 2}}}}"#
    )))
    .unwrap()
}

fn at(json: &Json, path: &[&str]) -> String {
    let mut here = json;
    for key in path {
        here = match here {
            Json::Array(items) => &items[key.parse::<usize>().unwrap()],
            other => other.get(key).unwrap(),
        };
    }
    write_json(here)
}

#[test]
fn single_envelope_includes_assert_details() {
    let expr = parse("answers.q.noul <= 0.5").unwrap();
    let outcome = single(noul("0.93"), 5, Some(&expr)).unwrap();
    assert_eq!(outcome.exit_code, 3);
    let line = json(&outcome.line);
    assert_eq!(at(&line, &["ok"]), "true");
    assert_eq!(at(&line, &["assert", "passed"]), "false");
    assert_eq!(at(&line, &["assert", "failed", "0", "expected"]), "0.5");
    assert_eq!(at(&line, &["assert", "failed", "0", "actual"]), "0.93");
    assert_eq!(at(&line, &["answers", "q", "noul"]), "0.93");
    assert_eq!(at(&line, &["usage", "input_tokens"]), "10");
}

#[test]
fn an_envelope_is_one_line_of_json() {
    let outcome = single(noul("0.5"), 7, None).unwrap();
    assert_eq!(outcome.exit_code, 0);
    assert_eq!(
        outcome.line,
        r#"{"answers":{"q":{"noul":0.5,"type":"noul"}},"latency_ms":7,"model":"jev-latest","ok":true,"usage":{"input_tokens":10,"output_tokens":2}}"#
    );
    let mut odd = noul("0.5");
    odd.model = "a\nb\r\"\u{1}".to_string();
    let line = single(odd, 7, None).unwrap().line;
    assert!(!line.contains('\n') && !line.contains('\r'));
    assert_eq!(at(&json(&line), &["model"]), "\"a\\nb\\r\\\"\\u0001\"");
}

#[test]
fn false_assertion_exits_three_with_failed_clause() {
    let mut evaluation = noul("0.93");
    evaluation.usage.input_tokens = 42;
    let expr = parse("answers.q.noul <= 0.5 and usage.input_tokens <= 10").unwrap();
    let outcome = single(evaluation, 1, Some(&expr)).unwrap();
    assert_eq!(outcome.exit_code, 3);
    let line = json(&outcome.line);
    assert_eq!(at(&line, &["assert", "passed"]), "false");
    assert_eq!(
        at(&line, &["assert", "failed", "0", "clause"]),
        "\"answers.q.noul <= 0.5\""
    );
    assert_eq!(at(&line, &["assert", "failed", "0", "expected"]), "0.5");
    assert_eq!(at(&line, &["assert", "failed", "0", "actual"]), "0.93");
    assert_eq!(at(&line, &["assert", "failed", "1", "actual"]), "42");
    let Some(Json::Array(failed)) = line.get("assert").and_then(|a| a.get("failed")) else {
        panic!("expected the clauses that failed");
    };
    assert_eq!(failed.len(), 2);
}

#[test]
fn reports_keep_lists_as_text() {
    let evaluation = parse_evaluation(&json(
        r#"{"model": "m", "answers": {"area": {"choice": "technical"}}}"#,
    ))
    .unwrap();
    let expr = parse("answers.area.choice in [\"billing\", \"sales\"]").unwrap();
    let line = json(&single(evaluation, 1, Some(&expr)).unwrap().line);
    assert_eq!(
        at(&line, &["assert", "failed", "0", "expected"]),
        "\"\\\"billing\\\", \\\"sales\\\"\""
    );
    assert_eq!(
        at(&line, &["assert", "failed", "0", "actual"]),
        "\"technical\""
    );
}

#[test]
fn assert_path_typo_is_an_error_not_silent_false() {
    let expr = parse("answers.typo.noul >= 0.5").unwrap();
    let err = single(noul("0.5"), 1, Some(&expr)).unwrap_err();
    assert!(err.message.contains("answers.typo.noul"), "{}", err.message);
}

#[test]
fn batch_counts_mixed_rows_and_writes_output() {
    let expr = parse("answers.q.noul >= 0.5").unwrap();
    let mut outcome = BatchOutcome::start();
    let reply = Reply::Refused {
        status: 422,
        text: "state invalid".to_string(),
        wait_ms: None,
    };
    let Step::Failed(error) = react(0, reply) else {
        panic!("expected an error");
    };
    let lines = [
        outcome.add_row(0, Row::Done(noul("0.9"), 1), Some(&expr)),
        outcome.add_row(1, Row::Failed(error), Some(&expr)),
        outcome.add_row(2, Row::Done(noul("0.9"), 1), Some(&expr)),
    ];
    assert_eq!(outcome.exit_code, 2);
    assert_eq!(outcome.done, 3);
    assert_eq!(outcome.ok, 2);
    assert_eq!(outcome.failed, 1);
    assert_eq!(outcome.input_tokens, 20);
    assert_eq!(outcome.output_tokens, 4);
    let failed_row = lines.iter().find(|l| at(l, &["ok"]) == "false").unwrap();
    assert_eq!(at(failed_row, &["index"]), "1");
    assert_eq!(at(failed_row, &["error", "kind"]), "\"api\"");
    assert_eq!(
        write_json(failed_row),
        r#"{"error":{"kind":"api","message":"API 422 Unprocessable Entity: state invalid"},"index":1,"ok":false}"#
    );
}

#[test]
fn batch_assert_blocked_yields_exit_three() {
    let expr = parse("answers.q.noul >= 0.5").unwrap();
    let mut outcome = BatchOutcome::start();
    outcome.add_row(0, Row::Done(noul("0.1"), 1), Some(&expr));
    assert_eq!(outcome.exit_code, 3);
    assert_eq!(outcome.assert_blocked, 1);
    assert_eq!(outcome.failed, 0);
}

#[test]
fn batch_pre_errors_are_rows_without_requests() {
    let mut outcome = BatchOutcome::start();
    let line = outcome.add_row(0, Row::Unsent("line is not a JSON object".to_string()), None);
    assert_eq!(
        write_json(&line),
        r#"{"error":{"kind":"usage","message":"line is not a JSON object"},"index":0,"ok":false}"#
    );
    outcome.add_row(1, Row::Done(noul("0.5"), 1), None);
    assert_eq!(outcome.exit_code, 2);
    assert_eq!(outcome.done, 2);
    assert_eq!(outcome.failed, 1);
}

#[test]
fn batch_resume_skips_completed_ok_rows() {
    let skip = read_ok_indices("{\"index\":0,\"ok\":true,\"answers\":{}}\n", "out.jsonl").unwrap();
    let items = vec![(0, json("\"a\"")), (1, json("\"b\"")), (2, json("\"c\""))];
    let left = pending(items, &skip);
    assert_eq!(left.len(), 2);
    assert_eq!(left[0], (1, json("\"b\"")));
    assert_eq!(left[1], (2, json("\"c\"")));
}

#[test]
fn an_unevaluable_row_fails_and_keeps_its_answers() {
    let expr = parse("answers.typo.noul >= 0.5").unwrap();
    let mut outcome = BatchOutcome::start();
    let line = outcome.add_row(4, Row::Done(noul("0.5"), 3), Some(&expr));
    assert_eq!(outcome.exit_code, 2);
    assert_eq!(outcome.failed, 1);
    assert_eq!(outcome.ok, 0);
    assert_eq!(outcome.input_tokens, 10);
    assert_eq!(at(&line, &["ok"]), "false");
    assert_eq!(at(&line, &["index"]), "4");
    assert_eq!(at(&line, &["answers", "q", "noul"]), "0.5");
    assert_eq!(at(&line, &["error", "kind"]), "\"usage\"");
    assert_eq!(
        at(&line, &["error", "message"]),
        "\"assertion cannot be evaluated: while resolving path 'answers.typo.noul': path 'answers.typo.noul' cannot be resolved: no key 'typo' at segment 1\""
    );
}

#[test]
fn completion_order_does_not_matter() {
    let expr = parse("answers.q.noul >= 0.5").unwrap();
    let rows = |order: &[usize]| {
        let mut outcome = BatchOutcome::start();
        for i in order {
            let row = match i {
                0 => Row::Done(noul("0.1"), 1),
                1 => Row::Failed(ApiError::Transport("gone".to_string())),
                _ => {
                    let mut evaluation = noul("0.9");
                    evaluation.usage.input_tokens = u64::MAX;
                    Row::Done(evaluation, 1)
                }
            };
            outcome.add_row(*i, row, Some(&expr));
        }
        format!("{outcome:?}")
    };
    let told = rows(&[0, 1, 2]);
    assert_eq!(told, rows(&[2, 1, 0]));
    assert_eq!(told, rows(&[1, 0, 2]));
    assert!(told.contains(&format!("input_tokens: {}", u64::MAX)));
}

#[test]
fn errors_are_classified() {
    assert_eq!(
        classify(&ApiError::Transport("x".to_string())),
        ("network", "API transport error: x".to_string())
    );
    assert_eq!(
        classify(&ApiError::InvalidResponse("x".to_string())),
        ("api", "Invalid API response: x".to_string())
    );
    assert_eq!(classify(&ApiError::Auth("x".to_string())).0, "api");
    assert_eq!(classify(&ApiError::Http(500, "x".to_string())).0, "api");
}

#[test]
fn written_results_tell_which_rows_are_done() {
    let expr = parse("answers.q.noul >= 0.5").unwrap();
    let mut outcome = BatchOutcome::start();
    let mut file = String::new();
    let rows = vec![
        (5, Row::Done(noul("0.9"), 1)),
        (2, Row::Failed(ApiError::Transport("x\ny".to_string()))),
        (0, Row::Done(noul("0.1"), 1)),
        (7, Row::Unsent("bad".to_string())),
    ];
    for (index, row) in rows {
        file.push_str(&write_json(&outcome.add_row(index, row, Some(&expr))));
        file.push('\n');
    }
    let done = read_ok_indices(&file, "out.jsonl").unwrap();
    assert_eq!(done.len(), 2);
    assert!(done.contains(&5) && done.contains(&0));
}

#[test]
fn results_that_are_no_results_are_refused() {
    assert!(read_ok_indices("", "o").unwrap().is_empty());
    assert!(read_ok_indices("\n \n{\"ok\":true}\n{\"ok\":1,\"index\":2}\n", "o")
        .unwrap()
        .is_empty());
    assert_eq!(
        read_ok_indices("{\"ok\":true,\"index\":1}\n\nnope\n", "o.jsonl")
            .unwrap_err()
            .message,
        "o.jsonl line 3 is not JSON: expected ident at line 1 column 2"
    );
    assert!(check_resume(true, true).is_ok());
    assert!(check_resume(false, false).is_ok());
    assert_eq!(
        check_resume(true, false).unwrap_err().message,
        "--resume requires --out"
    );
}

#[test]
fn rows_with_large_doubles_are_skipped_when_resuming() {
    let mut outcome = BatchOutcome::start();
    let mut results = String::new();
    for (index, value) in ["1.7976931348623157e308", "-1.7976931348623157e308", "5e-324", "123456789012345680000.0"]
        .iter()
        .enumerate()
    {
        let line = outcome.add_row(index, Row::Done(noul(value), 1), None);
        results.push_str(&write_json(&line));
        results.push('\n');
    }
    let skip = read_ok_indices(&results, "out.jsonl").unwrap();
    assert_eq!(skip.len(), 4);
    let items = (0..5).map(|i| (i, json("{}"))).collect();
    let left = pending(items, &skip);
    assert_eq!(left.len(), 1);
    assert_eq!(left[0].0, 4);
    let again = (0..4).map(|i| (i, json("{}"))).collect();
    assert!(pending(again, &skip).is_empty());
}

#[test]
fn answers_of_any_depth_that_reads_are_read_again() {
    let deep = |n: usize| format!("{}1{}", "[".repeat(n), "]".repeat(n));
    let reply = |n: usize| {
        let text = format!(
            r#"{{"model": "m", "answers": {{"q": {}}}, "usage": {{}}}}"#,
            deep(n)
        );
        react(0, Reply::Answered(text.into_bytes()))
    };
    let expr = parse("model == \"x\" or model in [\"y\"]").unwrap();
    for expr in [None, Some(&expr)] {
        let Step::Done(evaluation) = reply(125) else {
            panic!("expected an evaluation");
        };
        let mut outcome = BatchOutcome::start();
        let line = write_json(&outcome.add_row(3, Row::Done(evaluation, 1), expr));
        let skip = read_ok_indices(&line, "out.jsonl").unwrap();
        assert!(skip.contains(&3) && skip.len() == 1);
    }
    assert!(matches!(
        reply(126),
        Step::Failed(ApiError::InvalidResponse(_))
    ));
}

#[test]
fn failed_clauses_are_told_as_scalars() {
    let expr = parse(
        "model in [\"[1]\", \"{\"] or answers.q.noul in [0.5, 0.25] or model == \"[[\"",
    )
    .unwrap();
    let outcome = single(noul("0.93"), 1, Some(&expr)).unwrap();
    let line = json(&outcome.line);
    assert_eq!(
        at(&line, &["assert", "failed", "0", "expected"]),
        r#""\"[1]\", \"{\"""#
    );
    assert_eq!(at(&line, &["assert", "failed", "1", "expected"]), "\"0.5, 0.25\"");
    assert_eq!(at(&line, &["assert", "failed", "2", "expected"]), "\"[[\"");
}
