use jev::document::read_json;
use jev::presets::{
    candidates, count_placeholders, describe, file_name, list, load, read_description, resolve,
    show, validate, validation_code, Found, Place, Target,
};

fn target(name: &str, text: &str) -> Target {
    Target {
        name: name.to_string(),
        path: format!("/p/{name}.json"),
        read: Ok(text.to_string()),
    }
}

#[test]
fn validate_reports_invalid_json() {
    let (lines, invalid) = validate(vec![target("broken", "{not json")]).unwrap();
    assert_eq!(invalid, 1);
    assert_eq!(lines.len(), 1);
    assert_eq!(
        lines[0],
        "error broken (/p/broken.json): invalid JSON in preset /p/broken.json: key must be a string at line 1 column 2"
    );
    assert_eq!(validation_code(invalid), 1);
}

#[test]
fn validate_accepts_a_good_template() {
    let (lines, invalid) = validate(vec![target(
        "good",
        r#"{"description":"d","questions":{"q":{"type":"noul","instructions":"x"}}}"#,
    )])
    .unwrap();
    assert_eq!(invalid, 0);
    assert_eq!(lines, vec!["ok good (/p/good.json)".to_string()]);
    assert_eq!(validation_code(invalid), 0);
}

#[test]
fn validate_names_files_that_do_not_read() {
    let gone = Target {
        name: "gone".to_string(),
        path: "/p/gone.json".to_string(),
        read: Err("no such file".to_string()),
    };
    let (lines, invalid) = validate(vec![gone]).unwrap();
    assert_eq!(invalid, 1);
    assert_eq!(
        lines[0],
        "error gone (/p/gone.json): failed to read preset /p/gone.json: no such file"
    );
}

#[test]
fn validate_notes_undocumented_placeholders() {
    let (lines, invalid) = validate(vec![
        target(
            "noted",
            r#"{"state":{"a":"{{x}}","b":["{{y}}","{{}}","{{"]},"questions":{"q":{"type":"noul","instructions":"x"}}}"#,
        ),
        target(
            "documented",
            r#"{"params":{"x":"the x"},"state":"{{x}}","questions":{"q":{"type":"noul","instructions":"x"}}}"#,
        ),
    ])
    .unwrap();
    assert_eq!(invalid, 0);
    assert_eq!(
        lines,
        vec![
            "ok noted (/p/noted.json)".to_string(),
            "  note: 2 placeholder(s) but no 'params' documentation".to_string(),
            "ok documented (/p/documented.json)".to_string(),
        ]
    );
}

#[test]
fn validate_needs_something_to_validate() {
    assert_eq!(
        validate(vec![]).unwrap_err().message,
        "no presets found; create .jev/presets/NAME.json or ~/.config/jev/presets/NAME.json"
    );
}

#[test]
fn resolve_names_the_searched_dirs() {
    let places = vec![
        Place {
            dir: "/work/.jev/presets".to_string(),
            has_file: false,
        },
        Place {
            dir: "/home/u/.config/jev/presets".to_string(),
            has_file: false,
        },
    ];
    let err = resolve("definitely-not-there-xyz", &places).unwrap_err();
    assert!(err.message.contains("not found"));
    assert!(err.message.contains(".jev/presets"));
    assert_eq!(
        err.message,
        "preset 'definitely-not-there-xyz' not found; searched: /work/.jev/presets, /home/u/.config/jev/presets (list with jev presets list)"
    );
}

#[test]
fn the_first_directory_wins() {
    let place = |dir: &str, has_file: bool| Place {
        dir: dir.to_string(),
        has_file,
    };
    assert_eq!(
        resolve("t", &vec![place("repo", true), place("user", true)]),
        Ok(0)
    );
    assert_eq!(
        resolve("t", &vec![place("repo", false), place("user", true)]),
        Ok(1)
    );
    assert_eq!(file_name("triage"), "triage.json");
}

fn files(names: &[&str]) -> Vec<String> {
    names.iter().map(|s| s.to_string()).collect()
}

#[test]
fn presets_are_json_files_in_ascending_order() {
    let names = files(&[
        "b.json", "a.json", "a-b.json", "notes.txt", ".json", "json", "c.JSON", "x.json.bak",
        "..json", "d.e.json",
    ]);
    assert_eq!(
        candidates(&names),
        files(&[".", "a-b", "a", "b", "d.e"])
    );
    assert_eq!(candidates(&files(&[])), files(&[]));
}

#[test]
fn the_repository_hides_presets_of_the_user() {
    let repo = files(&["b.json", "a.json", "readme.md"]);
    let user = files(&["c.json", "a.json", "0.json"]);
    let listed = list(&vec![repo, user]);
    let told: Vec<(usize, &str)> = listed.iter().map(|(d, n)| (*d, n.as_str())).collect();
    assert_eq!(told, vec![(0, "a"), (0, "b"), (1, "0"), (1, "c")]);
    assert!(list(&vec![]).is_empty());
}

#[test]
fn presets_that_are_no_templates_are_listed_without_description() {
    let found = |text: Option<&str>| {
        describe("t".to_string(), "/p/t.json".to_string(), text)
            .description
    };
    let good = r#"{"description": "d", "questions": {"q": {"type": "noul", "instructions": "x"}}}"#;
    assert_eq!(found(Some(good)).as_deref(), Some("d"));
    assert_eq!(found(Some("{not json")), None);
    assert_eq!(found(None), None);
}

#[test]
fn listing_and_showing_presets() {
    let text = r#"{"description": "Issue triage", "questions": {"invalid": {"type": "noul", "instructions": "Invalid?"}}}"#;
    let description = read_description(text, "p");
    assert_eq!(description.as_deref(), Some("Issue triage"));
    let found = Found {
        name: "triage".to_string(),
        path: "/p/triage.json".to_string(),
        description,
    };
    assert_eq!(found.line(), "triage  Issue triage  [/p/triage.json]");
    let bare = Found {
        name: "broken".to_string(),
        path: "/p/broken.json".to_string(),
        description: read_description("{}", "p"),
    };
    assert_eq!(bare.line(), "broken  [/p/broken.json]");
    assert_eq!(
        show(r#"{"b":1,"a":"Issue triage"}"#, "p").unwrap(),
        "{\n  \"a\": \"Issue triage\",\n  \"b\": 1\n}"
    );
    assert!(show("{", "/p/x.json")
        .unwrap_err()
        .message
        .starts_with("preset /p/x.json is not valid JSON: EOF"));
    assert!(load(Ok(text.to_string()), "p").is_ok());
}

#[test]
fn placeholders_with_names_are_counted() {
    let json = read_json(r#"{"a":["{{x}}",{"b":"{{y}}"}],"c":"{{}}","d":"x{{y}}","e":3}"#).unwrap();
    assert_eq!(count_placeholders(&json), 2);
}
