use jev::cli::{parse_opt, Each};
use jev::command::{
    build_row, capture_diagnostics_requested_from, check_input, check_levels, check_params,
    choose_assert, has_template, input_lines, no_presets, parse_assert, plan_rows, prepare_ask,
    prepare_base, prepare_single, set_state, summary, template_source, TemplateSource,
};
use jev::config::{check_key, check_login, load_key_at, needs_stored, Stored};
use jev::diagnostics::retain;
use jev::document::{read_json, write_json};
use jev::json::Json;
use jev::run::BatchOutcome;

#[test]
fn opt_parser_rejects_missing_pieces() {
    assert!(parse_opt("billing=Money").is_ok());
    assert!(parse_opt("billing").is_err());
    assert!(parse_opt("=x").is_err());
    assert!(parse_opt("x=").is_err());
}

#[test]
fn options_split_at_the_first_equals_sign() {
    assert_eq!(
        parse_opt("a=b=c"),
        Ok(("a".to_string(), "b=c".to_string()))
    );
    assert_eq!(
        parse_opt("billing"),
        Err("expected KEY=DESCRIPTION, got 'billing'".to_string())
    );
}

#[test]
fn retains_only_error_and_interruption_diagnostics() {
    assert!(!retain(0));
    assert!(!retain(2));
    assert!(!retain(3));
    assert!(retain(1));
    assert!(retain(130));
}

#[test]
fn capture_flag_scan_stops_at_argument_delimiter() {
    assert!(capture_diagnostics_requested_from(&vec![
        "jev".to_string(),
        "ask".to_string(),
        "--capture-diagnostics".to_string(),
    ]));
    assert!(!capture_diagnostics_requested_from(&vec![
        "jev".to_string(),
        "--".to_string(),
        "--capture-diagnostics".to_string(),
    ]));
    assert!(!capture_diagnostics_requested_from(&vec![
        "--capture-diagnostics".to_string()
    ]));
    assert!(!capture_diagnostics_requested_from(&vec![]));
}

fn file_key() -> Stored {
    Stored::Credentials {
        version: 1,
        key: "file-key".into(),
    }
}

#[test]
fn env_key_wins_and_blank_env_falls_back_to_file() {
    assert_eq!(
        load_key_at(Some("env-key".into()), file_key()).unwrap(),
        "env-key"
    );
    assert_eq!(
        load_key_at(Some("  ".into()), file_key()).unwrap(),
        "file-key"
    );
    assert_eq!(load_key_at(None, file_key()).unwrap(), "file-key");
}

#[test]
fn missing_file_is_a_login_hint() {
    let err = load_key_at(None, Stored::Missing("none.json".into())).unwrap_err();
    assert!(err.message.contains("run jev login"));
    assert_eq!(err.message, "Not logged in; run jev login: none.json");
}

#[test]
fn broken_credentials_are_refused() {
    let err = load_key_at(None, Stored::Unreadable("eof".into())).unwrap_err();
    assert_eq!(err.message, "Invalid credentials file: eof");
    for (version, key) in [(2, "k"), (1, " \n")] {
        let stored = Stored::Credentials {
            version,
            key: key.into(),
        };
        assert_eq!(
            load_key_at(None, stored).unwrap_err().message,
            "Invalid credentials file"
        );
    }
}

#[test]
fn login_asks_for_a_terminal_and_a_key() {
    assert!(check_login(true).is_ok());
    assert_eq!(
        check_login(false).unwrap_err().message,
        "login requires an interactive terminal"
    );
    assert!(check_key("k").is_ok());
    assert_eq!(
        check_key(" \t").unwrap_err().message,
        "API key must not be empty"
    );
}

#[test]
fn assertions_are_read_where_there_are_some() {
    assert!(parse_assert(None).unwrap().is_none());
    assert!(parse_assert(Some("a == 1")).unwrap().is_some());
    assert!(parse_assert(Some("a")).is_err());
    assert_eq!(choose_assert(Some("x"), Some("y")), Some("x"));
    assert_eq!(choose_assert(None, Some("y")), Some("y"));
    assert_eq!(choose_assert(None, None), None);
}

#[test]
fn templates_come_from_presets_files_and_stdin() {
    assert!(matches!(
        template_source(Some("f.json"), Some("triage")),
        TemplateSource::Preset(name) if name == "triage"
    ));
    assert!(matches!(template_source(Some("-"), None), TemplateSource::Stdin));
    assert!(matches!(template_source(None, None), TemplateSource::Stdin));
    assert!(matches!(
        template_source(Some("f.json"), None),
        TemplateSource::File(path) if path == "f.json"
    ));
}

#[test]
fn commands_check_their_arguments() {
    assert_eq!(
        check_levels(1).unwrap_err().message,
        "score needs at least two --level descriptions, lowest first"
    );
    assert!(check_levels(2).is_ok());
    assert_eq!(
        check_input(true, "-").unwrap_err().message,
        "--resume needs a real --in file, not stdin (the input is re-read)"
    );
    assert!(check_input(true, "x").is_ok());
    assert!(check_input(false, "-").is_ok());
    assert_eq!(
        check_params(false, 1).unwrap_err().message,
        "--param needs a template; with --each request each line is a full body"
    );
    assert!(check_params(true, 1).is_ok());
    assert!(check_params(false, 0).is_ok());
    assert!(!has_template(Each::Request, false, false));
    assert!(has_template(Each::Request, false, true));
    assert!(has_template(Each::Request, true, false));
    assert!(has_template(Each::State, false, false));
    assert!(has_template(Each::Text, false, false));
}

fn base() -> Json {
    read_json(r#"{"questions":{"q":{"type":"noul","instructions":"x"}}}"#).unwrap()
}

#[test]
fn rows_take_their_state_from_lines() {
    let body = base();
    let row = build_row(Some(&body), Each::State, r#"{"line": 1}"#).unwrap();
    assert_eq!(
        write_json(&row),
        r#"{"questions":{"q":{"instructions":"x","type":"noul"}},"state":{"line":1}}"#
    );
    let row = build_row(Some(&body), Each::Text, "plain log line").unwrap();
    assert_eq!(
        write_json(&row),
        r#"{"questions":{"q":{"instructions":"x","type":"noul"}},"state":"plain log line"}"#
    );
    let line = r#"{"state":"a","questions":{"q":{"type":"noul","instructions":"x"}}}"#;
    let row = build_row(None, Each::Request, line).unwrap();
    assert_eq!(
        write_json(&row),
        r#"{"questions":{"q":{"instructions":"x","type":"noul"}},"state":"a"}"#
    );
}

#[test]
fn rows_that_cannot_be_built_say_why() {
    let body = base();
    let message = |r: Result<Json, jev::error::UsageError>| match r {
        Ok(_) => panic!("a row was built"),
        Err(e) => e.message,
    };
    assert_eq!(
        message(build_row(None, Each::State, "1")),
        "--each state needs a template (PATH, -, or --preset)"
    );
    assert_eq!(
        message(build_row(None, Each::Text, "1")),
        "--each text needs a template (PATH, -, or --preset)"
    );
    assert_eq!(
        message(build_row(Some(&body), Each::State, "plain")),
        "not valid JSON (use --each text for plain lines): expected value at line 1 column 1"
    );
    assert_eq!(
        message(build_row(None, Each::Request, "plain")),
        "not valid JSON: expected value at line 1 column 1"
    );
    assert_eq!(
        message(build_row(None, Each::Request, "\"not an object\"")),
        "expected a JSON object request body"
    );
    assert_eq!(
        message(build_row(
            None,
            Each::Request,
            r#"{"questions":{"q":{"type":"noul","instructions":"x"}}}"#
        )),
        "request has no 'state'; add it to the request or pass --state"
    );
}

#[test]
fn bad_lines_fail_alone() {
    let lines = input_lines(concat_lines());
    assert_eq!(lines.len(), 3);
    let (items, errors) = plan_rows(None, Each::Request, &lines);
    assert_eq!(items.len(), 2);
    assert_eq!(items[0].0, 0);
    assert_eq!(items[1].0, 2);
    assert_eq!(errors.len(), 1);
    assert_eq!(errors[0].0, 1);
    assert_eq!(
        errors[0].1,
        "input line 2: expected a JSON object request body"
    );
}

fn concat_lines() -> &'static str {
    "{\"state\":\"a\",\"questions\":{\"q\":{\"type\":\"noul\",\"instructions\":\"x\"}}}\n\n\"not an object\"\n{\"state\":\"c\",\"questions\":{\"q\":{\"type\":\"noul\",\"instructions\":\"x\"}}}\n"
}

#[test]
fn input_lines_drop_blank_lines_and_outer_space() {
    let lines = input_lines("  a b \r\n\n \t\nc\n");
    assert_eq!(lines, vec!["a b".to_string(), "c".to_string()]);
    assert!(input_lines("").is_empty());
}

#[test]
fn one_request_is_checked_before_it_is_sent() {
    let body = base();
    let err = prepare_single(&body, Some("answers.q.noul =")).unwrap_err();
    assert!(err.message.contains("invalid assertion expression"));
    let err = prepare_single(&body, None).unwrap_err();
    assert!(err.message.contains("no 'state'"));
    let ready = build_row(Some(&body), Each::Text, "x").unwrap();
    assert!(prepare_single(&ready, None).unwrap().is_none());
    assert!(prepare_single(&ready, Some("answers.q.noul >= 0.5"))
        .unwrap()
        .is_some());
}

#[test]
fn a_batch_is_summed_up_on_one_line() {
    let outcome = BatchOutcome {
        exit_code: 2,
        done: 3,
        ok: 2,
        failed: 1,
        assert_blocked: 1,
        input_tokens: 84,
        output_tokens: 14,
    };
    assert_eq!(
        summary(&outcome, 12),
        "3: 2 ok, 1 failed, 1 blocked by assert | Tokens: in 84, out 14 | Elapsed: 12s"
    );
}

#[test]
fn a_missing_preset_directory_is_named() {
    assert_eq!(
        no_presets(Some("/home/u/.config/jev/presets/NAME.json")).message,
        "no presets found; create .jev/presets/NAME.json or /home/u/.config/jev/presets/NAME.json"
    );
    assert_eq!(
        no_presets(None).message,
        "no presets found; create .jev/presets/NAME.json or the user presets directory"
    );
}

#[test]
fn a_null_takes_a_state() {
    let state = read_json("1").unwrap();
    assert_eq!(write_json(&set_state(Json::Null, state)), r#"{"state":1}"#);
    assert_eq!(
        build_row(Some(&Json::Null), Each::Text, "line").unwrap_err().message,
        "request: 'questions' must be a non-empty JSON object of question id to question"
    );
}

fn greeting() -> Json {
    read_json(
        r#"{"state": "{{who}}", "questions": {"q": {"type": "noul", "instructions": "{{what}}"}}}"#,
    )
    .unwrap()
}

fn values(pairs: &[(&str, &str)]) -> Vec<(String, Json)> {
    pairs
        .iter()
        .map(|(name, text)| (name.to_string(), Json::Str(text.to_string())))
        .collect()
}

#[test]
fn one_request_has_its_parameters_and_its_state() {
    let given = values(&[("who", "me"), ("what", "polite?"), ("extra", "x")]);
    let (body, unused) = prepare_ask(greeting(), &given, None).unwrap();
    assert_eq!(unused, vec!["extra".to_string()]);
    assert_eq!(
        write_json(&body),
        r#"{"questions":{"q":{"instructions":"polite?","type":"noul"}},"state":"me"}"#
    );
    let state = read_json("{\"n\": 1}").unwrap();
    let (body, _) = prepare_ask(greeting(), &given, Some(state)).unwrap();
    assert_eq!(
        write_json(&body),
        r#"{"questions":{"q":{"instructions":"polite?","type":"noul"}},"state":{"n":1}}"#
    );
    assert_eq!(
        prepare_ask(greeting(), &values(&[("who", "me")]), None)
            .unwrap_err()
            .message,
        "missing --param value(s): what (needed at questions.q.instructions); pass them as --param NAME=VALUE or --param NAME=@PATH"
    );
}

#[test]
fn a_batch_has_its_parameters_and_its_questions() {
    let given = values(&[("who", "me"), ("what", "polite?"), ("extra", "x")]);
    let (base, unused) = prepare_base(&greeting(), &given).unwrap();
    assert_eq!(unused, vec!["extra".to_string()]);
    assert_eq!(
        write_json(&base.unwrap()),
        r#"{"questions":{"q":{"instructions":"polite?","type":"noul"}},"state":"me"}"#
    );
    assert!(prepare_base(&greeting(), &values(&[])).is_err());
    let empty = read_json(r#"{"state": "{{who}}", "questions": {}}"#).unwrap();
    let (base, unused) = prepare_base(&empty, &given).unwrap();
    assert_eq!(unused, vec!["what".to_string(), "extra".to_string()]);
    assert_eq!(
        base.unwrap_err().message,
        "template: 'questions' must contain at least one question"
    );
}

#[test]
fn a_key_of_the_environment_needs_no_stored_one() {
    assert!(!needs_stored(Some("k")));
    assert!(needs_stored(Some(" \t")));
    assert!(needs_stored(None));
}
