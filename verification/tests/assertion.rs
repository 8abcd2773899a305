use jev::assertion::{compare, escape, parse};
use jev::document::read_json;
use jev::json::Json;
use jev::lexer::{lex, lex_string};
use jev::syntax::{CmpOp, Operand, Parser};
use jev::text::chars_of;

fn env() -> Json {
    read_json(
        r#"{
            "model": "jev-latest",
            "answers": {
                "q": {"type": "noul", "noul": 0.93},
                "area": {"type": "choice", "choice": "technical", "probabilities": {"billing": 0.08, "technical": 0.85, "sales": 0.07}, "confidence": 0.82},
                "risk": {"type": "score", "score": 1.6, "probabilities": {"0": 0.05, "1": 0.3, "2": 0.65}, "confidence": 0.78},
                "label": {"type": "choice", "choice": "needs human review"}
            },
            "usage": {"input_tokens": 312, "output_tokens": 48}
        }"#,
    )
    .unwrap()
}

fn passes(expr: &str, envelope: &Json) -> bool {
    parse(expr).unwrap().evaluate(envelope).unwrap().passed
}

fn parse_error(expr: &str) -> String {
    match parse(expr) {
        Ok(_) => panic!("{expr} parses"),
        Err(e) => e.message,
    }
}

fn evaluate_error(expr: &str, envelope: &Json) -> String {
    parse(expr).unwrap().evaluate(envelope).unwrap_err().message
}

#[test]
fn parses_and_evaluates_boolean_combinations() {
    let e = parse("answers.q.noul >= 0.8 and answers.area.confidence >= 0.6").unwrap();
    let out = e.evaluate(&env()).unwrap();
    assert!(out.passed);
    assert!(out.failed.is_empty());
}

#[test]
fn precedence_not_over_and_over_or() {
    // A = q.noul >= 0.8 is true, C = confidence >= 0.9 is true here, so
    // "A or B and not C" (A wins) and "(A or B) and not C" (not C wins) differ.
    let envelope = read_json(
        r#"{
            "model": "jev-latest",
            "answers": {
                "q": {"type": "noul", "noul": 0.93},
                "area": {"type": "choice", "choice": "technical", "confidence": 0.95}
            }
        }"#,
    )
    .unwrap();
    assert!(passes(
        "answers.q.noul >= 0.8 or answers.q.noul <= 0.1 and not answers.area.confidence >= 0.9",
        &envelope
    ));
    assert!(!passes(
        "(answers.q.noul >= 0.8 or answers.q.noul <= 0.1) and not answers.area.confidence >= 0.9",
        &envelope
    ));
}

#[test]
fn choice_equality_and_in_list() {
    let envelope = env();
    assert!(passes("answers.area.choice == \"technical\"", &envelope));
    assert!(passes(
        "answers.area.choice in [\"billing\", \"sales\", \"technical\"]",
        &envelope
    ));
    assert!(!passes(
        "answers.area.choice in [\"billing\", \"sales\"]",
        &envelope
    ));
}

#[test]
fn bracketed_keys_reach_spaces_and_hyphens() {
    let envelope = env();
    assert!(passes(
        "answers.label.choice == \"needs human review\"",
        &envelope
    ));
    let v = read_json(r#"{"answers": {"is-spam": {"noul": 0.7}}}"#).unwrap();
    assert!(passes("answers[\"is-spam\"].noul >= 0.5", &v));
}

#[test]
fn both_sides_may_be_paths() {
    let e = parse("answers.risk.score >= answers.q.noul").unwrap();
    assert!(e.evaluate(&env()).unwrap().passed);
}

#[test]
fn failed_clauses_report_expected_and_actual() {
    let e = parse("answers.q.noul <= 0.5 and answers.risk.score < 1.0").unwrap();
    let out = e.evaluate(&env()).unwrap();
    assert!(!out.passed);
    assert_eq!(out.failed.len(), 2);
    assert_eq!(out.failed[0].clause, "answers.q.noul <= 0.5");
    assert_eq!(out.failed[0].expected, "0.5");
    assert_eq!(out.failed[0].actual, "0.93");
    assert_eq!(out.failed[1].actual, "1.6");
}

#[test]
fn failed_in_clause_reports_list() {
    let e = parse("answers.area.choice in [\"billing\", \"sales\"]").unwrap();
    let out = e.evaluate(&env()).unwrap();
    assert!(!out.passed);
    assert_eq!(out.failed.len(), 1);
    assert_eq!(out.failed[0].actual, "\"technical\"");
    assert_eq!(out.failed[0].expected, "\"billing\", \"sales\"");
    assert_eq!(
        out.failed[0].clause,
        "answers.area.choice in [\"billing\", \"sales\"]"
    );
}

#[test]
fn unresolvable_path_is_an_error_not_false() {
    let e = parse("answers.missing.noul >= 0.5").unwrap();
    let text = e.evaluate(&env()).unwrap_err().message;
    assert!(text.contains("answers.missing.noul"));
    assert!(text.contains("no key 'missing'"));
    assert_eq!(
        text,
        "while resolving path 'answers.missing.noul': path 'answers.missing.noul' cannot be resolved: no key 'missing' at segment 1"
    );
}

#[test]
fn path_through_scalar_is_an_error() {
    let e = parse("answers.q.noul.x >= 0.5").unwrap();
    assert!(e.evaluate(&env()).is_err());
    assert_eq!(
        evaluate_error("answers.q.noul.x >= 0.5", &env()),
        "while resolving path 'answers.q.noul.x': path 'answers.q.noul.x' cannot be resolved: the value before segment 3 is a number, not an object"
    );
}

#[test]
fn mixed_type_comparison_is_an_error() {
    let e = parse("answers.q.noul == \"technical\"").unwrap();
    let err = e.evaluate(&env()).unwrap_err();
    assert!(err.message.contains("cannot compare number with string"));
    assert_eq!(
        err.message,
        "cannot compare number with string in 'answers.q.noul == \"technical\"'"
    );
}

#[test]
fn ordering_requires_numbers() {
    let e = parse("answers.area.choice >= \"a\"").unwrap();
    assert!(e.evaluate(&env()).is_err());
    assert_eq!(
        evaluate_error("answers.area.choice >= \"a\"", &env()),
        "ordering comparison needs numbers in 'answers.area.choice >= \"a\"'"
    );
}

#[test]
fn in_list_mixed_types_are_an_error() {
    let e = parse("answers.area.choice in [\"a\", 3]").unwrap();
    assert!(e.evaluate(&env()).is_err());
    assert_eq!(
        evaluate_error("answers.area.choice in [\"a\", 3]", &env()),
        "in clause 'answers.area.choice in [\"a\", 3.0]': cannot compare string with number"
    );
}

#[test]
fn rejects_bare_operands_and_bad_operators() {
    assert!(parse("answers.q.noul").is_err());
    assert!(parse("answers.q.noul = 0.5").is_err());
    assert!(parse("").is_err());
    assert!(parse("answers.q.noul >= 0.5 trailing").is_err());
    assert!(parse("answers.q.noul >= 0.5 and").is_err());
    assert!(parse("answers..q").is_err());
}

#[test]
fn usage_fields_are_addressable() {
    let e = parse("usage.input_tokens <= 400").unwrap();
    assert!(e.evaluate(&env()).unwrap().passed);
}

#[test]
fn every_parse_error_says_what_is_wrong() {
    let cases = [
        ("", "empty expression"),
        ("a = 1", "single '=' is not an operator; use ==, !=, <=, >=, <, >"),
        ("!a", "single '!' is not an operator; use != for inequality"),
        ("a == #", "unexpected character '#' at column 6"),
        ("a == \"x", "at column 6: bad string literal: unterminated string"),
        ("a == \"x\\", "at column 6: bad string literal: unterminated string"),
        (
            "a == \"\\n\"",
            "at column 6: bad string literal: unsupported escape '\\n' (only \\\" and \\\\ are allowed)",
        ),
        ("a == 1 b", "unexpected trailing tokens after the expression"),
        ("(a == 1", "expected ')' to close '('"),
        (
            "a",
            "expected a comparison operator (==, !=, <=, >=, <, >) or 'in' after the operand; only comparisons produce booleans",
        ),
        ("a in 1", "expected '[' to open an 'in' list"),
        ("a in [1", "expected ']' to close the 'in' list"),
        ("a. == 1", "expected a path segment name after '.'"),
        (
            "a[1] == 1",
            "expected a quoted string inside [ ] to name a key with spaces or punctuation",
        ),
        ("a[\"k\" == 1", "expected ']' after the bracketed key"),
        ("a == <", "expected a path or literal, found Lt"),
        ("and", "expected a path or literal, found And"),
        ("a ==", "expression ended where an operand was expected"),
    ];
    for (src, why) in cases {
        assert_eq!(
            parse_error(src),
            format!("invalid assertion expression: {src}: {why}")
        );
    }
}

#[test]
fn scalars_of_every_kind_compare() {
    let v = read_json(r#"{"t": true, "f": false, "n": 3, "m": -2, "s": "x", "z": null, "o": {}, "a": []}"#)
        .unwrap();
    assert!(passes("t == true", &v));
    assert!(passes("t != f", &v));
    assert!(passes("n == 3 and n != 4 and n < 4 and n > 2 and n <= 3 and n >= 3", &v));
    assert!(passes("m < 0 and m < n", &v));
    assert!(passes("s == \"x\" and s != \"y\"", &v));
    assert!(passes("n in [1, 2, 3]", &v));
    assert!(passes("t in [false, true]", &v));
    assert_eq!(evaluate_error("z == 1", &v), "z is null; nulls cannot be compared");
    assert_eq!(
        evaluate_error("o == 1", &v),
        "o is an object or array; assertions compare scalars"
    );
    assert_eq!(
        evaluate_error("a in [1]", &v),
        "in clause 'a in [1.0]': a is an object or array; assertions compare scalars"
    );
}

#[test]
fn an_unevaluable_comparison_is_never_hidden() {
    let v = env();
    assert!(parse("answers.q.noul >= 0.1 or nowhere == 1").unwrap().evaluate(&v).is_err());
    assert!(parse("answers.q.noul >= 2 and nowhere == 1").unwrap().evaluate(&v).is_err());
    assert!(parse("not (nowhere == 1)").unwrap().evaluate(&v).is_err());
}

#[test]
fn failed_clauses_are_listed_whatever_the_outcome() {
    let out = parse("not answers.q.noul <= 0.5").unwrap().evaluate(&env()).unwrap();
    assert!(out.passed);
    assert_eq!(out.failed.len(), 1);
}

#[test]
fn numbers_compare_as_doubles() {
    let v = read_json(
        r#"{"big": 9007199254740993, "bigger": 18446744073709551615, "neg": -9007199254740993, "tiny": 5e-324, "nzero": -0.0}"#,
    )
    .unwrap();
    assert!(passes("big == 9007199254740992", &v));
    assert!(passes("bigger == 18446744073709551616", &v));
    assert!(passes("neg < 0", &v));
    assert!(passes("tiny > 0 and tiny < 1", &v));
    assert!(passes("nzero == 0 and not nzero < 0", &v));
}

#[test]
fn a_literal_beyond_all_doubles_has_no_value() {
    let mut huge = String::from("a <= 1");
    for _ in 0..400 {
        huge.push('0');
    }
    let v = read_json(r#"{"a": 1}"#).unwrap();
    assert_eq!(
        parse(&huge).unwrap().evaluate(&v).unwrap_err().message,
        "null is null; nulls cannot be compared"
    );
}

#[test]
fn escaped_text_reads_back() {
    assert_eq!(escape("a\"b\\c"), "a\\\"b\\\\c");
    for s in ["", "plain", "\"", "\\", "\\\"", "a\\\\\"b", "häß"] {
        let mut written = escape(s);
        let end = chars_of(&written).len() + 1;
        written.push('"');
        written.push_str(" == 1");
        let (back, next) = lex_string(&chars_of(&written), 0).unwrap();
        assert_eq!(back, s);
        assert_eq!(next, end);
    }
}

#[test]
fn clauses_are_rendered_as_they_are_written() {
    let v = read_json(r#"{"a": {"b c": 1, "d\"e": "x"}}"#).unwrap();
    let out = parse("a[\"b c\"] > 2").unwrap().evaluate(&v).unwrap();
    assert_eq!(out.failed[0].clause, "a[\"b c\"] > 2.0");
    let out = parse("a[\"d\\\"e\"] == \"y\"").unwrap().evaluate(&v).unwrap();
    assert_eq!(out.failed[0].clause, "a[\"d\\\"e\"] == \"y\"");
    assert_eq!(out.failed[0].expected, "\"y\"");
    assert_eq!(out.failed[0].actual, "\"x\"");
}

#[test]
fn rendered_clauses_read_back() {
    let v = read_json(r#"{"a": {"b-c": "x", "d e": {"f": true}}}"#).unwrap();
    for clause in [
        "a.b-c == \"y\"",
        "a[\"d e\"].f != true",
        "a[\"d e\"].f == false",
        "a[\"b-c\"] == \"say \\\"hi\\\" \\\\ bye\"",
        "a.b-c in [\"y\", \"z\", a.b-c]",
        "a[\"d e\"].f in [false]",
    ] {
        let out = parse(clause).unwrap().evaluate(&v).unwrap();
        for failed in &out.failed {
            assert_eq!(failed.clause, clause);
            assert!(!parse(&failed.clause).unwrap().evaluate(&v).unwrap().passed);
        }
    }
}

#[test]
fn parentheses_group() {
    let v = read_json(r#"{"t": true, "f": false}"#).unwrap();
    assert!(passes("t == true or f == true and f == true", &v));
    assert!(!passes("(t == true or f == true) and f == true", &v));
    assert!(passes("not f == true and not (t == false or f == true)", &v));
    assert!(passes("not not t == true", &v));
    assert!(!passes("not (t == true and (f == true or t == true))", &v));
}

#[test]
fn literals_round_to_the_nearest_double() {
    let v = read_json(
        r#"{"tenth": 0.1, "third": 0.3333333333333333, "half": 0.5, "odd": 9007199254740994, "max": 1.7976931348623157e308}"#,
    )
    .unwrap();
    assert!(passes("tenth == 0.1 and tenth == 0.1000000000000000055511151231257827", &v));
    assert!(passes("third == 0.33333333333333333 and third != 0.333333333333333", &v));
    assert!(passes("half == 0.5 and half == 0.50000000000000000000000001", &v));
    assert!(passes("odd == 9007199254740994 and odd > 9007199254740993", &v));
    assert!(passes("max > 1 and max < max or max == max", &v));
}

#[test]
fn a_string_behind_the_end_is_unterminated() {
    for start in [0, 1, 7] {
        assert_eq!(
            lex_string(&chars_of(""), start).unwrap_err().message,
            "unterminated string"
        );
    }
}

#[test]
fn blanks_around_an_expression_change_nothing() {
    for src in [
        "answers.q.noul >= 0.8",
        "answers.label.choice == \"a  b\"",
        "1. == 1",
        "1",
        "",
    ] {
        let plain = format!("{:?}", lex(src).unwrap());
        let blank = format!("{:?}", lex(&format!(" \t{src}\r\n")).unwrap());
        assert_eq!(plain, blank);
    }
    for src in ["\"open", "\"open\\", "a = 1", "a !", "$"] {
        assert!(lex(src).is_err());
        assert!(lex(&format!(" \t{src}\r\n")).is_err());
    }
    assert!(lex("").unwrap().is_empty());
}

#[test]
fn not_around_an_expression_negates_it() {
    let env = env();
    for src in [
        "answers.q.noul >= 0.8 or answers.risk.score < 1",
        "answers.q.noul < 0.8 or answers.risk.score < 1",
        "not answers.q.noul < 0.8 and answers.area.choice in [\"sales\"]",
    ] {
        let told = parse(src).unwrap().evaluate(&env).unwrap();
        let negated = parse(&format!("not ({src})")).unwrap().evaluate(&env).unwrap();
        assert_eq!(negated.passed, !told.passed);
        assert_eq!(format!("{:?}", negated.failed), format!("{:?}", told.failed));
    }
    let src = "answers.nobody.noul < 0.8";
    assert_eq!(
        evaluate_error(&format!("not ({src})"), &env),
        evaluate_error(src, &env)
    );
}

#[test]
fn operators_oppose_and_mirror_each_other() {
    let env = env();
    let sides = ["answers.q.noul", "0.93", "1", "\"a\"", "answers.area.choice", "true", "model"];
    for l in sides {
        for r in sides {
            let tell = |l: &str, op: &str, r: &str| {
                parse(&format!("{l} {op} {r}")).unwrap().evaluate(&env).ok().map(|o| o.passed)
            };
            let not = |told: Option<bool>| told.map(|b| !b);
            assert_eq!(tell(l, "!=", r), not(tell(l, "==", r)));
            assert_eq!(tell(l, "<", r), not(tell(l, ">=", r)));
            assert_eq!(tell(l, ">", r), not(tell(l, "<=", r)));
            assert_eq!(tell(l, "==", r), tell(r, "==", l));
            assert_eq!(tell(l, "<=", r), tell(r, ">=", l));
            assert_eq!(tell(l, "<", r), tell(r, ">", l));
        }
    }
}

#[test]
fn rendered_paths_read_back() {
    let env = env();
    for path in ["answers.q.noul", "answers[\"q\"].noul", "answers[\"q\"][\"noul\"]"] {
        let told = parse(&format!("{path} == true or {path} <= 0.5"));
        assert!(told.unwrap().evaluate(&env).is_err());
        let told = parse(&format!("{path}<=0.5")).unwrap().evaluate(&env).unwrap();
        let clause = told.failed[0].clause.clone();
        assert_eq!(clause, format!("{path} <= 0.5"));
        let again = parse(&clause).unwrap().evaluate(&env).unwrap();
        assert_eq!(again.failed[0].clause, clause);
    }
}

#[test]
fn decimals_keep_their_order() {
    let env = env();
    let ascending = ["0", "0.07999999999999999", "0.08", "0.0800000000000000000001", "0.1", "0.8", "0.93", "1"];
    for (i, a) in ascending.iter().enumerate() {
        for b in &ascending[i..] {
            assert!(passes(&format!("{a} <= {b}"), &env));
            assert!(!passes(&format!("{b} < {a}"), &env));
        }
    }
    assert!(passes("answers.area.probabilities.billing >= 0.08", &env));
}

#[test]
fn values_compare_by_their_kinds() {
    let json = |text: &str| read_json(text).unwrap();
    let told = |l: &str, op: CmpOp, r: &str| compare(&json(l), &json(r), op, "l", "r");
    assert_eq!(told("1", CmpOp::Lt, "2.5"), Ok(true));
    assert_eq!(told("1", CmpOp::Ge, "2.5"), Ok(false));
    assert_eq!(told("\"a\"", CmpOp::Ne, "\"b\""), Ok(true));
    assert_eq!(
        told("true", CmpOp::Le, "false").unwrap_err().message,
        "ordering comparison needs numbers in 'l <= r'"
    );
    assert_eq!(
        told("true", CmpOp::Eq, "1").unwrap_err().message,
        "cannot compare boolean with number in 'l == r'"
    );
    assert!(told("null", CmpOp::Eq, "null").is_err());
}

#[test]
fn a_rendered_path_reads_back_alone() {
    for src in ["answers.q.noul", "a[\"b c\"].d", "x[\"\\\"\\\\\"][\"y\"]", "null"] {
        let mut parser = Parser {
            tokens: lex(src).unwrap(),
            pos: 0,
        };
        let Operand::Path(path) = parser.parse_operand().unwrap() else {
            panic!("expected a path");
        };
        assert_eq!(parser.pos, parser.tokens.len());
        let tokens = lex(&path.render()).unwrap();
        let count = tokens.len();
        let mut again = Parser { tokens, pos: 0 };
        let Operand::Path(same) = again.parse_operand().unwrap() else {
            panic!("expected a path");
        };
        assert_eq!(again.pos, count);
        assert_eq!(format!("{same:?}"), format!("{path:?}"));
    }
    let mut past = Parser {
        tokens: Vec::new(),
        pos: 9,
    };
    assert_eq!(
        past.parse_operand().unwrap_err().message,
        "expression ended where an operand was expected"
    );
}

#[test]
fn copies_of_expressions_evaluate_alike() {
    let env = env();
    let src = "not (answers.q.noul < 0.8 and answers[\"area\"].choice in [\"a\", \"b\"]) or true == false";
    let expr = parse(src).unwrap();
    let copy = expr.clone();
    assert_eq!(format!("{copy:?}"), format!("{expr:?}"));
    assert_eq!(
        format!("{:?}", copy.evaluate(&env).unwrap()),
        format!("{:?}", expr.evaluate(&env).unwrap())
    );
}
