use jev::document::{read_json, write_json};
use jev::input::{
    check_stdin, interpret_bytes, interpret_file, load_state_value, parse_param, Given, StateInput,
};
use jev::json::Json;
use jev::params::{apply_params, find_placeholders, join_path, placeholder_name};
use jev::request::{parse_template, validate_questions, validate_ready};
use jev::shortcut::{shortcut_choice, shortcut_noul, shortcut_score};

fn json(text: &str) -> Json {
    read_json(text).unwrap()
}

fn at<'a>(json: &'a Json, path: &[&str]) -> &'a Json {
    let mut here = json;
    for key in path {
        here = here.get(key).unwrap();
    }
    here
}

fn item(json: &Json, i: usize) -> &Json {
    match json {
        Json::Array(items) => &items[i],
        _ => panic!("not an array"),
    }
}

fn string(text: &str) -> Json {
    Json::Str(text.to_string())
}

fn template() -> &'static str {
    r#"{
        "state": {"issue": "{{issue}}", "repo": "{{repo}}"},
        "questions": {
            "invalid": {"type": "noul", "instructions": "Is this report invalid?", "criteria": {"true": "spam or duplicate", "false": "a real report"}}
        },
        "assert": "answers.invalid.noul <= 0.5"
    }"#
}

#[test]
fn parse_template_strips_reserved_and_validates() {
    let t = parse_template(template(), "t.json").unwrap();
    assert_eq!(
        t.default_assert.as_deref(),
        Some("answers.invalid.noul <= 0.5")
    );
    assert!(t.body.get("assert").is_none());
    assert!(t.body.get("questions").is_some());
}

#[test]
fn rejects_unknown_request_keys() {
    let text = template().replacen('{', "{\"templatename\": \"x\",", 1);
    let err = parse_template(&text, "t.json").unwrap_err();
    assert!(err.message.contains("unknown request key"), "{}", err.message);
    assert_eq!(
        err.message,
        "t.json: unknown request key(s) templatename; allowed: state, model, questions, plus reserved description/params/assert"
    );
}

#[test]
fn rejects_bad_question_shapes() {
    for broken in [
        r#"{"questions": {}}"#,
        r#"{"questions": {"a": {"instructions": "x"}}}"#,
        r#"{"questions": {"a": {"type": "vector", "instructions": "x"}}}"#,
        r#"{"questions": {"a": {"type": "score", "instructions": "x", "criteria": ["only"]}}}"#,
        r#"{"questions": {"a": {"type": "choice", "instructions": "x"}}}"#,
    ] {
        assert!(validate_questions(&json(broken), "req").is_err(), "{broken}");
    }
}

#[test]
fn params_inject_subtrees_and_report_missing() {
    let t = parse_template(template(), "t.json").unwrap();
    let mut body = t.body;
    apply_params(
        &mut body,
        &vec![
            (
                "issue".into(),
                json(r#"{"title": "crash", "body": "it crashes"}"#),
            ),
            ("repo".into(), string("acme/api")),
        ],
    )
    .unwrap();
    assert_eq!(at(&body, &["state", "issue", "title"]), &string("crash"));
    assert_eq!(at(&body, &["state", "repo"]), &string("acme/api"));

    let t = parse_template(template(), "t.json").unwrap();
    let mut body = t.body;
    let err = apply_params(&mut body, &vec![]).unwrap_err();
    assert!(err.message.contains("missing --param"), "{}", err.message);
    assert!(err.message.contains("needed at state.issue"));
    assert_eq!(
        err.message,
        "missing --param value(s): issue (needed at state.issue), repo (needed at state.repo); pass them as --param NAME=VALUE or --param NAME=@PATH"
    );
}

#[test]
fn placeholder_inside_array_is_replaced() {
    let mut body = json(r#"{"state": {"tags": ["{{a}}", "fixed"]}, "questions": {}}"#);
    validate_questions(&body.clone(), "req").ok();
    apply_params(&mut body, &vec![("a".into(), string("x"))]).unwrap();
    assert_eq!(item(at(&body, &["state", "tags"]), 0), &string("x"));
    assert_eq!(item(at(&body, &["state", "tags"]), 1), &string("fixed"));
}

#[test]
fn interpret_bytes_keeps_objects_and_wraps_text() {
    assert_eq!(
        interpret_bytes(b"  {\"a\": 1}", "x").unwrap(),
        json(r#"{"a": 1}"#)
    );
    assert_eq!(
        interpret_bytes(b"plain text\n", "x").unwrap(),
        string("plain text")
    );
    assert!(interpret_bytes(b"{bad", "x").is_err());
}

#[test]
fn shortcuts_build_valid_requests() {
    let body = shortcut_noul("urgent?", Some("yes means now"), None, string("help"));
    assert_eq!(
        at(&body, &["questions", "q", "criteria", "true"]),
        &string("yes means now")
    );
    assert_eq!(at(&body, &["state"]), &string("help"));
    assert_eq!(at(&body, &["model"]), &string("jev-latest"));
    validate_ready(&body).unwrap();
    let body = shortcut_choice(
        "route?",
        &vec![("billing".into(), "money".into())],
        string("x"),
    );
    validate_ready(&body).unwrap();
    let body = shortcut_score(
        "how bad?",
        &vec!["fine".into(), "bad".into()],
        string("x"),
    );
    validate_ready(&body).unwrap();
}

#[test]
fn parse_param_forms() {
    let (name, value) = parse_param("k=v").unwrap();
    assert_eq!(name, "k");
    assert!(matches!(value, Given::Value(v) if v == string("v")));
    assert!(parse_param("novalue").is_err());
    assert!(parse_param("=v").is_err());
}

#[test]
fn params_say_where_their_values_are() {
    let (name, value) = parse_param("k=@a/b.json").unwrap();
    assert_eq!(name, "k");
    assert!(matches!(value, Given::File(path) if path == "a/b.json"));
    assert!(matches!(parse_param("k=@-").unwrap().1, Given::Stdin));
    let (name, value) = parse_param("k=a=b").unwrap();
    assert_eq!(name, "k");
    assert!(matches!(value, Given::Value(v) if v == string("a=b")));
    assert_eq!(
        parse_param("novalue").unwrap_err().message,
        "invalid --param 'novalue'; expected NAME=VALUE or NAME=@PATH"
    );
    assert_eq!(
        parse_param("=v").unwrap_err().message,
        "invalid --param '=v'; the name before '=' must not be empty"
    );
}

#[test]
fn state_comes_from_the_argument_or_a_pipe() {
    assert!(matches!(
        load_state_value(Some("text"), true),
        Ok(StateInput::Given(Given::Value(v))) if v == string("text")
    ));
    assert!(matches!(
        load_state_value(Some("@f"), false),
        Ok(StateInput::Given(Given::File(path))) if path == "f"
    ));
    assert!(matches!(
        load_state_value(Some("@-"), false),
        Ok(StateInput::Given(Given::Stdin))
    ));
    assert!(matches!(load_state_value(None, false), Ok(StateInput::Piped)));
    assert_eq!(
        load_state_value(None, true).unwrap_err().message,
        "state is required: pass --state TEXT, --state @PATH, or pipe it on stdin"
    );
    assert!(check_stdin("request", false).is_ok());
    assert_eq!(
        check_stdin("request", true).unwrap_err().message,
        "expected input on stdin for request; pipe a file or pass a PATH instead"
    );
}

#[test]
fn files_stay_structured_or_become_text() {
    assert_eq!(
        interpret_bytes(b"\n\t[1, 2]", "x").unwrap(),
        json("[1, 2]")
    );
    assert_eq!(interpret_bytes(b"3", "x").unwrap(), string("3"));
    assert_eq!(interpret_bytes(b"", "x").unwrap(), string(""));
    assert_eq!(
        interpret_bytes(b" a\r\n\r\n", "x").unwrap(),
        string(" a")
    );
    assert_eq!(
        interpret_bytes(b"caf\xc3\xa9 \xff", "x").unwrap(),
        string("caf\u{e9} \u{fffd}")
    );
    let err = interpret_bytes(b"{bad", "stdin").unwrap_err();
    assert_eq!(
        err.message,
        "invalid JSON in stdin: key must be a string at line 1 column 2"
    );
    let err = interpret_file(b"[", "a.json").unwrap_err();
    assert_eq!(
        err.message,
        "invalid JSON in @a.json: EOF while parsing a list at line 1 column 1"
    );
}

#[test]
fn templates_that_are_no_templates_say_why() {
    let error = |text: &str| parse_template(text, "t").unwrap_err().message;
    assert_eq!(
        error("{"),
        "invalid JSON in t: EOF while parsing an object at line 1 column 1"
    );
    assert_eq!(
        error("[]"),
        "t must be a JSON object describing a request (state, model, questions)"
    );
    assert_eq!(
        error(r#"{"description": 3}"#),
        "t: reserved key 'description' must be a string, got 3"
    );
    assert_eq!(
        error(r#"{"params": ["a"]}"#),
        "t: 'params' must be an object of name to description, got [\"a\"]"
    );
    assert_eq!(
        error(r#"{"assert": null}"#),
        "t: reserved key 'assert' must be a string, got null"
    );
    assert_eq!(
        error(r#"{"params": {"a": "x", "b": 1}}"#),
        "t: params.b must be a description string"
    );
    assert_eq!(
        error(r#"{"zeta": 1, "alpha": 2, "state": 3}"#),
        "t: unknown request key(s) alpha, zeta; allowed: state, model, questions, plus reserved description/params/assert"
    );
    assert_eq!(
        error(r#"{"questions": {"q": {"type": "noul", "instructions": "x"}}, "assert": "a ="}"#),
        "t: invalid 'assert': invalid assertion expression: a =: single '=' is not an operator; use ==, !=, <=, >=, <, >"
    );
}

#[test]
fn a_template_keeps_what_it_documents() {
    let t = parse_template(
        r#"{"description": "d", "params": {"issue": "the issue"}, "model": "m", "state": 1, "questions": {"q": {"type": "noul", "instructions": ["x"]}}}"#,
        "t",
    )
    .unwrap();
    assert_eq!(t.description.as_deref(), Some("d"));
    assert_eq!(t.params.len(), 1);
    assert_eq!(t.params.get("issue"), Some(&string("the issue")));
    assert!(t.default_assert.is_none());
    assert_eq!(
        write_json(&t.body),
        r#"{"model":"m","questions":{"q":{"instructions":["x"],"type":"noul"}},"state":1}"#
    );
}

#[test]
fn every_fault_of_a_question_is_named() {
    let cases = [
        ("{}", "r: 'questions' must be a non-empty JSON object of question id to question"),
        (r#"{"questions": []}"#, "r: 'questions' must be a non-empty JSON object of question id to question"),
        (r#"{"questions": {}}"#, "r: 'questions' must contain at least one question"),
        (r#"{"questions": {"a": 1}}"#, "r: questions.a must be an object"),
        (
            r#"{"questions": {"a": {"type": 1}}}"#,
            "r: questions.a.type must be \"noul\", \"choice\", or \"score\"",
        ),
        (
            r#"{"questions": {"a": {"type": "noul"}}}"#,
            "r: questions.a is missing 'instructions'",
        ),
        (
            r#"{"questions": {"a": {"type": "noul", "instructions": 1}}}"#,
            "r: questions.a.instructions must be a string, object, or array",
        ),
        (
            r#"{"questions": {"a": {"type": "noul", "instructions": "x", "criteria": "y"}}}"#,
            "r: questions.a.criteria for a noul must be an object with optional \"true\"/\"false\" strings",
        ),
        (
            r#"{"questions": {"a": {"type": "noul", "instructions": "x", "criteria": {"yes": "y"}}}}"#,
            "r: questions.a.criteria keys must be \"true\" or \"false\" mapped to strings",
        ),
        (
            r#"{"questions": {"a": {"type": "noul", "instructions": "x", "criteria": {"true": 1}}}}"#,
            "r: questions.a.criteria keys must be \"true\" or \"false\" mapped to strings",
        ),
        (
            r#"{"questions": {"a": {"type": "choice", "instructions": "x", "criteria": []}}}"#,
            "r: questions.a is a choice and requires criteria as an object of option to description (or null)",
        ),
        (
            r#"{"questions": {"a": {"type": "choice", "instructions": "x", "criteria": {}}}}"#,
            "r: questions.a.criteria needs at least one option",
        ),
        (
            r#"{"questions": {"a": {"type": "choice", "instructions": "x", "criteria": {"k": null, "l": 1}}}}"#,
            "r: questions.a.criteria.l must be a description string or null",
        ),
        (
            r#"{"questions": {"a": {"type": "score", "instructions": "x"}}}"#,
            "r: questions.a is a score and requires criteria as an ordered array of level descriptions",
        ),
        (
            r#"{"questions": {"a": {"type": "score", "instructions": "x", "criteria": ["only"]}}}"#,
            "r: questions.a.criteria needs at least two ordered levels",
        ),
        (
            r#"{"questions": {"a": {"type": "score", "instructions": "x", "criteria": ["low", 2]}}}"#,
            "r: questions.a.criteria[1] must be a level description string",
        ),
        (
            r#"{"questions": {"a": {"type": "vector", "instructions": "x"}}}"#,
            "r: questions.a.type is \"vector\"; it must be \"noul\", \"choice\", or \"score\"",
        ),
        (
            r#"{"questions": {"a": {"type": "noul", "instructions": {}}}, "model": 1}"#,
            "r: 'model' must be a string",
        ),
        (
            r#"{"questions": {"a": {"type": "noul", "instructions": "x"}, "b": {"type": "noul"}, "c": 1}}"#,
            "r: questions.b is missing 'instructions'",
        ),
    ];
    for (body, why) in cases {
        assert_eq!(
            validate_questions(&json(body), "r").unwrap_err().message,
            why,
            "{body}"
        );
    }
    assert_eq!(
        validate_ready(&json(r#"{"questions": {"a": {"type": "noul", "instructions": "x"}}}"#))
            .unwrap_err()
            .message,
        "request has no 'state'; add it to the request or pass --state"
    );
    assert_eq!(
        validate_ready(&json("{}")).unwrap_err().message,
        "request: 'questions' must be a non-empty JSON object of question id to question"
    );
    for body in [
        r#"{"questions": {"a": {"type": "noul", "instructions": "x", "criteria": {"true": "t"}}}, "state": null}"#,
        r#"{"questions": {"a": {"type": "choice", "instructions": [], "criteria": {"k": null}}}, "state": 1, "model": "m"}"#,
        r#"{"questions": {"a": {"type": "score", "instructions": {}, "criteria": ["l", "h"]}}, "state": ""}"#,
    ] {
        assert!(validate_ready(&json(body)).is_ok(), "{body}");
    }
}

#[test]
fn placeholders_fill_whole_values_only() {
    assert_eq!(placeholder_name("{{a}}").as_deref(), Some("a"));
    assert_eq!(placeholder_name("{{}}").as_deref(), Some(""));
    assert_eq!(placeholder_name("{{a}} "), None);
    assert_eq!(placeholder_name("{{}"), None);
    assert_eq!(placeholder_name("x"), None);
    assert_eq!(join_path("", "a"), "a");
    assert_eq!(join_path("a", "b"), "a.b");
    let found = find_placeholders(&json(r#"{"a": [["{{x}}"], {"b": "{{y}}"}], "c": "{{x}}"}"#));
    assert_eq!(
        found,
        vec![
            ("x".to_string(), "a[0][0]".to_string()),
            ("y".to_string(), "a[1].b".to_string()),
            ("x".to_string(), "c".to_string()),
        ]
    );
}

#[test]
fn parameters_go_wherever_their_placeholders_are() {
    let mut body = json(r#"{"a.b": "{{x}}", "c[0]": "{{x}}", "d": [["{{y}}"]], "e": "{{x}} no"}"#);
    let unused = apply_params(
        &mut body,
        &vec![
            ("x".to_string(), string("{{y}}")),
            ("y".to_string(), json("[1]")),
            ("x".to_string(), string("second")),
            ("z".to_string(), Json::Null),
        ],
    )
    .unwrap();
    assert_eq!(
        write_json(&body),
        r#"{"a.b":"{{y}}","c[0]":"{{y}}","d":[[[1]]],"e":"{{x}} no"}"#
    );
    assert_eq!(unused, vec!["x".to_string(), "z".to_string()]);
    let plain = json(r#"{"a": [1, "x", null, true], "b": {"c": "{{"}}"#);
    let mut same = plain.clone();
    assert!(apply_params(&mut same, &vec![]).unwrap().is_empty());
    assert_eq!(same, plain);
}

#[test]
fn given_parameters_are_applied_though_others_are_missing() {
    let mut body = json(r#"{"a": "{{x}}", "b": ["{{y}}", "{{z}}"]}"#);
    let err = apply_params(&mut body, &vec![("x".to_string(), json("1"))]).unwrap_err();
    assert_eq!(
        err.message,
        "missing --param value(s): y (needed at b[0]), z (needed at b[1]); pass them as --param NAME=VALUE or --param NAME=@PATH"
    );
    assert_eq!(write_json(&body), r#"{"a":1,"b":["{{y}}","{{z}}"]}"#);
}

#[test]
fn shortcuts_have_the_documented_shape() {
    assert_eq!(
        write_json(&shortcut_noul("Q?", None, None, json("[1]"))),
        r#"{"model":"jev-latest","questions":{"q":{"instructions":"Q?","type":"noul"}},"state":[1]}"#
    );
    assert_eq!(
        write_json(&shortcut_noul("Q?", None, Some("never"), string("s"))),
        r#"{"model":"jev-latest","questions":{"q":{"criteria":{"false":"never","true":"A yes (value near 1)"},"instructions":"Q?","type":"noul"}},"state":"s"}"#
    );
    assert_eq!(
        write_json(&shortcut_noul("Q?", Some("always"), None, string("s"))),
        r#"{"model":"jev-latest","questions":{"q":{"criteria":{"false":"A no (value near 0)","true":"always"},"instructions":"Q?","type":"noul"}},"state":"s"}"#
    );
    let opts = vec![
        ("b".to_string(), "1".to_string()),
        ("a".to_string(), "2".to_string()),
        ("b".to_string(), "3".to_string()),
    ];
    assert_eq!(
        write_json(&shortcut_choice("Q?", &opts, string("s"))),
        r#"{"model":"jev-latest","questions":{"q":{"criteria":{"a":"2","b":"3"},"instructions":"Q?","type":"choice"}},"state":"s"}"#
    );
    let levels = vec!["current".to_string(), "outdated".to_string()];
    assert_eq!(
        write_json(&shortcut_score("Q?", &levels, string("docs"))),
        r#"{"model":"jev-latest","questions":{"q":{"criteria":["current","outdated"],"instructions":"Q?","type":"score"}},"state":"docs"}"#
    );
    assert!(validate_ready(&shortcut_choice("Q?", &vec![], string("s"))).is_err());
}
