use jev::document::{read_json, read_json_bytes, write_json, write_json_bytes, write_json_pretty};
use jev::json::{Json, Object};
use jev::lexer::lex;
use jev::number::{double_equal, double_less};
use jev::text::{
    chars_of, comes_before, decimal_text, is_whitespace, join, lines, parse_natural, same,
    split_once, strip_prefix, strip_trailing, text_of, trim,
};

#[test]
fn white_space_is_that_of_unicode() {
    for c in '\0'..=char::MAX {
        assert_eq!(is_whitespace(c), c.is_whitespace(), "{c:?}");
    }
}

#[test]
fn texts_are_trimmed_as_usual() {
    for s in ["", " ", "a", " a", "a\t", "\n a b \r\n", "\u{3000}x\u{2003}", "é "] {
        assert_eq!(trim(s), s.trim());
        let cut = vec!['\r', '\n'];
        assert_eq!(strip_trailing(s, &cut), s.trim_end_matches(['\r', '\n']));
    }
}

#[test]
fn lines_are_those_of_a_text() {
    for s in ["", "a", "a\n", "a\nb", "a\r\nb\r\n", "\n", "\r\n\r\n", "a\rb\n", "a\r", "é\n\n"] {
        let usual: Vec<String> = s.lines().map(str::to_string).collect();
        assert_eq!(lines(s), usual, "{s:?}");
    }
}

#[test]
fn texts_are_ordered_as_usual() {
    let all = ["", "a", "ab", "b", "é", "z", "\u{ffff}", "\u{10000}", "aé"];
    for a in all {
        for b in all {
            assert_eq!(comes_before(a, b), a < b, "{a:?} {b:?}");
            assert_eq!(same(a, b), a == b);
        }
    }
}

#[test]
fn texts_are_split_and_joined() {
    assert_eq!(
        split_once("a=b=c", '='),
        Some(("a".to_string(), "b=c".to_string()))
    );
    assert_eq!(split_once("abc", '='), None);
    assert_eq!(strip_prefix("@x", '@').as_deref(), Some("x"));
    assert_eq!(strip_prefix("x@", '@'), None);
    let parts: Vec<String> = ["a", "", "c"].iter().map(|s| s.to_string()).collect();
    assert_eq!(join(&parts, ", "), "a, , c");
    assert_eq!(join(&vec![], ", "), "");
    assert_eq!(text_of(&chars_of("häß"), 1, 3), "äß");
}

#[test]
fn whole_numbers_are_written_and_read() {
    for n in [0, 7, 10, 42, 999, 1000, u64::MAX - 1, u64::MAX] {
        assert_eq!(decimal_text(n), n.to_string());
        assert_eq!(parse_natural(&n.to_string()), Some(n));
    }
    for s in ["", "+", "-1", "1.0", " 1", "1 ", "18446744073709551616", "+5", "007", "٣"] {
        assert_eq!(parse_natural(s), s.parse().ok(), "{s:?}");
    }
}

#[test]
fn objects_keep_their_keys_in_order() {
    let mut object = Object::new();
    for key in ["b", "a", "é", "c", "a"] {
        object.insert(key.to_string(), Json::Str(key.to_string()));
    }
    assert_eq!(object.len(), 4);
    let keys: Vec<&str> = (0..4).map(|i| object.key_at(i)).collect();
    assert_eq!(keys, vec!["a", "b", "c", "é"]);
    assert_eq!(object.get("c"), Some(&Json::Str("c".to_string())));
    assert_eq!(object.get("d"), None);
    assert_eq!(object.remove("b"), Some(Json::Str("b".to_string())));
    assert_eq!(object.remove("b"), None);
    assert_eq!(object.len(), 3);
    assert_eq!(object.get("a"), Some(&Json::Str("a".to_string())));
}

#[test]
fn documents_read_and_print() {
    let text = r#"{"a":[1,-2,0.5,true,false,null,"x\"\\\n\u0001"],"b":{"c":{}},"é":18446744073709551615}"#;
    let json = read_json(text).unwrap();
    assert_eq!(write_json(&json), text);
    assert_eq!(write_json_bytes(&json), text.as_bytes().to_vec());
    assert_eq!(read_json_bytes(text.as_bytes()).unwrap(), json);
    assert_eq!(read_json(&write_json(&json)).unwrap(), json);
    assert_eq!(json.clone(), json);
    assert_eq!(
        write_json_pretty(&read_json("{\"a\":[1]}").unwrap()),
        "{\n  \"a\": [\n    1\n  ]\n}"
    );
    assert_eq!(
        read_json("{").unwrap_err(),
        "EOF while parsing an object at line 1 column 1"
    );
    assert!(read_json_bytes(b"\xff").is_err());
    assert_eq!(
        write_json(&read_json(r#"{"b":1,"a":2,"b":3}"#).unwrap()),
        r#"{"a":2,"b":3}"#
    );
}

#[test]
fn a_printed_document_reads_back() {
    for text in [
        "null",
        "[]",
        "{}",
        "[[[[]]]]",
        "\"\\u2028 \\\\ / \"",
        "[1e300,-1e-300,123456789.125,-0.0]",
        r#"{"index":3,"ok":true,"error":{"message":"a\nb\rc"}}"#,
    ] {
        let json = read_json(text).unwrap();
        let printed = write_json(&json);
        assert!(!printed.contains('\n') && !printed.contains('\r'));
        assert_eq!(write_json(&read_json(&printed).unwrap()), printed);
    }
    let deep = |n: usize| format!("{}{}", "[".repeat(n), "]".repeat(n));
    assert!(read_json(&deep(127)).is_ok());
    assert!(read_json(&deep(128)).is_err());
}

#[test]
fn doubles_are_ordered_by_value() {
    let all: [f64; 12] = [
        -f64::MAX,
        -1.5,
        -1.0,
        -f64::MIN_POSITIVE,
        -5e-324,
        -0.0,
        0.0,
        5e-324,
        f64::MIN_POSITIVE,
        0.1,
        1.0,
        f64::MAX,
    ];
    for a in all {
        for b in all {
            assert_eq!(double_less(a.to_bits(), b.to_bits()), a < b, "{a} {b}");
            assert_eq!(double_equal(a.to_bits(), b.to_bits()), a == b, "{a} {b}");
        }
    }
}

#[test]
fn words_and_signs_are_told_apart() {
    assert_eq!(lex("a-b_c.d<= >= < > == !=()[],").unwrap().len(), 14);
    assert_eq!(lex("and or not in true false andy").unwrap().len(), 7);
    assert_eq!(lex("1.2.3").unwrap().len(), 3);
    assert_eq!(lex("1.").unwrap().len(), 2);
    assert_eq!(lex(" \t\r\n").unwrap().len(), 0);
    assert_eq!(
        lex("a\u{a0}b").unwrap_err().message,
        "unexpected character '\u{a0}' at column 2"
    );
}

#[test]
fn the_largest_doubles_read_back() {
    let top = f64::MAX.to_bits();
    for k in 0..20000u64 {
        for bits in [top - k, (top - k) | 1 << 63] {
            let number = serde_json::Number::from_f64(f64::from_bits(bits)).unwrap();
            let text = write_json(&Json::Number(number));
            let Ok(Json::Number(back)) = read_json(&text) else {
                panic!("{text} does not read back");
            };
            let off = back.as_f64().unwrap().to_bits().abs_diff(bits);
            assert!(off <= 8, "{text} is off by {off}");
        }
    }
}
