use json_core::{parse_events, report_json, validate, Event, Mode, ParseOptions, ParseResult, TreeSink, Value};

/// Parses into a tree whose numbers are doubles, read from their numerals.
fn parse(src: &[u8], opts: &ParseOptions) -> (Option<Value<f64>>, ParseResult) {
    let (events, r) = parse_events(src, opts, true);
    let num = |s: &json_core::Span| -> f64 { std::str::from_utf8(&src[s.start..s.end]).unwrap().parse().unwrap() };
    let mut t: TreeSink<f64> = TreeSink::new();
    for e in &events {
        match e {
            Event::Null => t.null(),
            Event::Bool(b) => t.boolean(*b),
            Event::Number(s) => t.number(num(s)),
            Event::Str(s) => t.string(s),
            Event::BeginObject => t.begin_object(),
            Event::Key(k) => t.key(k),
            Event::KeyNumber(s) => t.key(&format!("{}", num(s))),
            Event::EndObject => t.end_object(),
            Event::BeginArray => t.begin_array(),
            Event::EndArray => t.end_array(),
        }
    }
    (t.into_root(), r)
}

fn p(s: &str) -> (Option<Value<f64>>, ParseResult) {
    parse(s.as_bytes(), &ParseOptions::default())
}

#[test]
fn happy_path() {
    let (v, r) = p(r#"{"a": [1, 2.5, -3e2], "b": {"c": null, "d": true}, "e": "x\ny"}"#);
    assert!(r.ok(), "{:?}", r.diagnostics);
    match v.unwrap() {
        Value::Object(pairs) => assert_eq!(pairs.len(), 3),
        _ => panic!("expected object"),
    }
}

#[test]
fn unicode_escapes() {
    let (v, r) = p(r#""caf\u00e9 \ud83d\ude00""#);
    assert!(r.ok());
    assert_eq!(v.unwrap(), Value::String("café 😀".into()));
}

#[test]
fn recovery_still_builds_tree() {
    let (v, r) = p(r#"{"a": 1 "b": 2}"#); // missing comma
    assert!(!r.ok());
    match v.unwrap() {
        Value::Object(pairs) => assert_eq!(pairs.len(), 2), // both members recovered
        _ => panic!(),
    }
}

#[test]
fn jsonc_mode_allows_comments_and_trailing_commas() {
    let opts = ParseOptions { mode: Mode::Jsonc, ..Default::default() };
    let (v, r) = parse(
        br#"{
            // config-style comment
            "a": 1, /* block */
            "b": [1, 2,],
        }"#,
        &opts,
    );
    assert!(r.ok(), "{:?}", r.diagnostics);
    assert!(matches!(v, Some(Value::Object(_))));
}

#[test]
fn validate_matches_parse_verdict() {
    for s in [r#"{"a":1}"#, r#"{"a":}"#, "[1,2,", "true", "nope"] {
        let full = p(s).1.ok();
        let fast = validate(s.as_bytes(), &ParseOptions::default()).ok();
        assert_eq!(full, fast, "mismatch on {}", s);
    }
}

#[test]
fn zaach_37_90_escape_decoding_correct() {
    // "\\n" is backslash + n (two chars), "\n" is a newline, "\/" is "/"
    let (v, r) = parse(br#"["\\n", "\n", "\/"]"#, &ParseOptions::default());
    assert!(r.ok());
    assert_eq!(
        v.unwrap(),
        Value::Array(vec![Value::String("\\n".into()), Value::String("\n".into()), Value::String("/".into()),])
    );
}

#[test]
fn seldaek_escaped_quote_apostrophe_decode() {
    let (v, r) = parse(br#""\u0022\u0027""#, &ParseOptions::default());
    assert!(r.ok());
    assert_eq!(v.unwrap(), Value::String("\"'".into()));
}

#[test]
fn report_is_valid_json_and_roundtrips() {
    let src = br#"{"a": 'bad', "b": True}"#;
    let r = validate(src, &ParseOptions::default());
    let report = report_json(src, &r.diagnostics, r.ok());
    // our own parser should accept our own report
    let (v, check) = parse(report.as_bytes(), &ParseOptions::default());
    assert!(check.ok(), "report not valid JSON: {}", report);
    match v.unwrap() {
        Value::Object(pairs) => {
            assert_eq!(pairs[0].0, "ok");
            assert_eq!(pairs[0].1, Value::Bool(false));
        }
        _ => panic!(),
    }
}

#[test]
fn tree_keeps_member_order_and_nesting() {
    let (v, r) = p(r#"{"b": [1, {"x": null}], "a": "s"}"#);
    assert!(r.ok());
    assert_eq!(
        v.unwrap(),
        Value::Object(vec![
            (
                "b".into(),
                Value::Array(vec![Value::Number(1.0), Value::Object(vec![("x".into(), Value::Null)])])
            ),
            ("a".into(), Value::String("s".into())),
        ])
    );
}

#[test]
fn broken_documents_still_yield_a_tree() {
    for s in ["", "]", "{", "[1,", "{\"a\"", "{1: 2}", "nope", "[[[", "}{"] {
        let (v, r) = p(s);
        assert!(v.is_some(), "no tree for {:?}", s);
        assert!(!r.ok(), "{:?}", s);
    }
}

#[test]
fn number_keys_take_the_number_as_text() {
    let (v, r) = p("{1.50: true}");
    assert!(!r.ok());
    assert_eq!(v.unwrap(), Value::Object(vec![("1.5".into(), Value::Bool(true))]));
}

#[test]
fn tree_sink_closes_into_the_root() {
    let mut t: TreeSink<u32> = TreeSink::new();
    t.begin_array();
    t.number(7);
    t.begin_object();
    t.key("k");
    t.string("v");
    t.end_object();
    t.end_array();
    assert_eq!(
        t.into_root(),
        Some(Value::Array(vec![Value::Number(7), Value::Object(vec![("k".into(), Value::String("v".into()))])]))
    );
    // a value with no waiting key is filed under the empty key; a close of
    // the wrong kind drops the open container
    let mut u: TreeSink<u32> = TreeSink::new();
    u.begin_object();
    u.null();
    u.begin_array();
    u.end_object();
    u.end_object();
    assert_eq!(u.into_root(), Some(Value::Object(vec![(String::new(), Value::Null)])));
    assert!(json_core::NullSink.wants_strings() == false);
    assert!(TreeSink::<u32>::new().wants_strings());
}

#[test]
fn strict_mode_rejects_comments_with_hint() {
    let (_, r) = p("// hello\n{}");
    assert_eq!(r.diagnostics[0].code, "E021");
    assert!(r.diagnostics[0].hint.as_ref().unwrap().contains("jsonc"));
}

#[test]
fn concatenated_docs_hint() {
    let (_, r) = p(r#"{"a":1}{"b":2}"#);
    let d = r.diagnostics.iter().find(|d| d.code == "E002").unwrap();
    assert!(d.hint.as_ref().unwrap().contains("NDJSON"));
}

#[test]
fn smart_quotes_recovered() {
    let (_, r) = p("{\u{201C}a\u{201D}: 1}");
    assert!(r.diagnostics.iter().any(|d| d.code == "E011"));
}

#[test]
fn depth_limit() {
    let deep = "[".repeat(1000) + &"]".repeat(1000);
    let opts = ParseOptions { max_depth: 64, ..Default::default() };
    let (_, r) = parse(deep.as_bytes(), &opts);
    assert!(r.diagnostics.iter().any(|d| d.code == "E040"));
}

#[test]
fn reports_all_errors_in_one_pass() {
    // three distinct problems: trailing comma, single quotes, Python literal
    let (_, r) = p(r#"{"a": 1, "b": 'x', "c": True,}"#);
    let codes: Vec<_> = r.diagnostics.iter().map(|d| d.code).collect();
    assert!(codes.contains(&"E010"), "{:?}", codes); // single quotes
    assert!(codes.contains(&"E030"), "{:?}", codes); // Python True
    assert!(codes.contains(&"E008"), "{:?}", codes); // trailing comma
}

#[test]
fn report_messages_read_back_exactly() {
    let tricky = "quote \" backslash \\ newline \n tab \t bell \u{7} café ✓ \u{1F600}".to_string();
    let d = json_core::Diagnostic {
        code: "E001",
        message: tricky.clone(),
        span: json_core::Span { start: 0, end: 1 },
        hint: Some("C:\\temp".to_string()),
        severity: json_core::Severity::Error,
        related: Some(json_core::Span { start: 0, end: 0 }),
    };
    let report = report_json(b"x", &[d], false);
    let (v, check) = parse(report.as_bytes(), &ParseOptions::default());
    assert!(check.ok(), "{}", report);
    match v.unwrap() {
        Value::Object(pairs) => {
            assert_eq!(pairs[0], ("ok".to_string(), Value::Bool(false)));
            match &pairs[1].1 {
                Value::Array(ds) => match &ds[0] {
                    Value::Object(members) => {
                        let msg = members.iter().find(|(k, _)| k == "message").unwrap();
                        assert_eq!(msg.1, Value::String(tricky.clone()));
                        let hint = members.iter().find(|(k, _)| k == "hint").unwrap();
                        assert_eq!(hint.1, Value::String("C:\\temp".to_string()));
                    },
                    _ => panic!(),
                },
                _ => panic!(),
            }
        },
        _ => panic!(),
    }
}

#[test]
fn esc_appends_a_literal_that_parses_back() {
    for s in ["", "plain", "q\"b\\n\nr\rt\t\u{1}\u{1f}\u{7f}é€😀", "C:\\temp"] {
        let mut out = String::from("prefix");
        json_core::esc(&mut out, s);
        let lit = &out["prefix".len()..];
        assert!(lit.bytes().all(|b| b >= 0x20), "{:?}", lit);
        let (v, r) = parse(lit.as_bytes(), &ParseOptions::default());
        assert!(r.ok(), "{:?}", r.diagnostics);
        assert_eq!(v, Some(Value::String(s.to_string())));
    }
}

#[test]
fn line_col_at_the_last_offset_after_a_break() {
    let idx = json_core::LineIndex::new(b"a\nb");
    assert_eq!(idx.line_col(usize::MAX), (2, usize::MAX - 1));
}
