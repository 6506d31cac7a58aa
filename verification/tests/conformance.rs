use json_core::{parse_events, validate, DupKeys, Event, Lexer, Mode, ParseOptions, Severity, Tok, MAX_DIAGNOSTICS};

fn strict_ok(s: &[u8]) -> bool {
    validate(s, &ParseOptions::default()).ok()
}

#[test]
fn strict_accepts_json_texts() {
    let docs: [&[u8]; 12] = [
        b"[]",
        b"{}",
        b" 0 ",
        b"-0.0e-0",
        b"\"\\u0000\"",
        br#"{"a":[1,2,{"b":null}],"c":"\ud83d\ude00"}"#,
        b"[true,false,null]",
        b"1E+2",
        br#""\/\\\"\b\f\n\r\t""#,
        "\"\u{e9}\u{1F600}\"".as_bytes(),
        b"\t\r\n[[[[[[]]]]]]\n",
        br#"{"x":{"a":1},"y":{"a":2}}"#,
    ];
    for d in docs {
        assert!(strict_ok(d), "{:?}", std::str::from_utf8(d));
    }
}

#[test]
fn strict_rejects_what_is_not_json() {
    let docs: [&[u8]; 20] = [
        b"[1,]",
        br#"{"a" 1}"#,
        b"01",
        b"1.",
        b".5",
        b"+1",
        b"[",
        br#""\x""#,
        b"'a'",
        b"NaN",
        b"tru",
        b"truex",
        b"1 2",
        b"{a:1}",
        b"\"a\tb\"",
        b"\xEF\xBB\xBF1",
        b"/*c*/1",
        b"[1]]",
        br#"{"a":1,}"#,
        b"",
    ];
    for d in docs {
        assert!(!strict_ok(d), "{:?}", d);
    }
}

#[test]
fn strict_rejects_apostrophe_and_signed_unicode_escapes() {
    let r = validate(br#""\'""#, &ParseOptions::default());
    assert!(!r.ok());
    assert_eq!(r.diagnostics.len(), 1);
    assert_eq!(r.diagnostics[0].code, "E015");
    assert_eq!((r.diagnostics[0].span.start, r.diagnostics[0].span.end), (1, 3));
    let r2 = validate(br#""\u+041""#, &ParseOptions::default());
    assert!(!r2.ok());
    assert!(r2.diagnostics.iter().any(|d| d.code == "E014"), "{:?}", r2.diagnostics);
    // inside a single-quoted string (already an error) the apostrophe escape is read
    let (ev, r3) = parse_events(br#"'it\'s'"#, &ParseOptions::default(), true);
    assert!(r3.diagnostics.iter().all(|d| d.code == "E010"), "{:?}", r3.diagnostics);
    assert_eq!(ev, vec![Event::Str("it's".to_string())]);
}

#[test]
fn nesting_limit_counts_every_value() {
    let three = ParseOptions { max_depth: 3, ..Default::default() };
    let two = ParseOptions { max_depth: 2, ..Default::default() };
    assert!(validate(b"[[1]]", &three).ok());
    assert!(!validate(b"[[1]]", &two).ok());
}

#[test]
fn distinct_keys_pass_the_error_policy() {
    let opts = ParseOptions { duplicate_keys: DupKeys::Error, ..Default::default() };
    assert!(validate(br#"{"a":1,"b":{"a":2}}"#, &opts).ok());
    assert!(!validate(br#"{"a":1,"b":2,"a":3}"#, &opts).ok());
}

#[test]
fn validate_and_parse_agree_on_invalid_utf8() {
    // decoding steps over the quote that ends the string; checking stops at it
    for src in [&b"[\"\xC3\"]"[..], &b"{\"k\":\"a\xFFb\"}"[..], &b"\"\xE2\x82\""[..]] {
        let fast = validate(src, &ParseOptions::default());
        let (_, full) = parse_events(src, &ParseOptions::default(), true);
        assert!(!fast.ok(), "{:?}", src);
        assert!(!full.ok(), "{:?}", src);
        assert!(fast.diagnostics.iter().any(|d| d.code == "E027"));
        assert!(full.diagnostics.iter().any(|d| d.code == "E027"));
    }
    let good = "{\"k\":\"caf\u{e9} \u{1F600}\"}".as_bytes();
    assert!(validate(good, &ParseOptions::default()).ok());
    assert!(parse_events(good, &ParseOptions::default(), true).1.ok());
}

#[test]
fn past_the_cap_both_runs_report_the_same_first_diagnostics() {
    // a hundred warnings fill the report; the invalid byte after them and
    // what each run makes of the rest fall beyond the cap in both runs
    let mut s = b"[".to_vec();
    for _ in 0..MAX_DIAGNOSTICS {
        s.extend_from_slice(b"\"\\uD800\",");
    }
    s.extend_from_slice(b"\"\xC3\"]");
    let fast = validate(&s, &ParseOptions::default());
    let (_, full) = parse_events(&s, &ParseOptions::default(), true);
    assert_eq!(fast.diagnostics.len(), MAX_DIAGNOSTICS);
    assert!(fast.diagnostics.iter().all(|d| d.code == "W017"));
    assert_eq!(fast.ok(), full.ok());
}

#[test]
fn events_never_nest_past_the_limit() {
    for (depth, limit) in [(600usize, 512usize), (3, 2), (2, 2)] {
        let src = format!("{}{}", "[".repeat(depth), "]".repeat(depth));
        let opts = ParseOptions { max_depth: limit, ..Default::default() };
        let (ev, r) = parse_events(src.as_bytes(), &opts, true);
        let (mut open, mut peak) = (0i64, 0i64);
        for e in &ev {
            match e {
                Event::BeginArray | Event::BeginObject => open += 1,
                Event::EndArray | Event::EndObject => open -= 1,
                _ => {}
            }
            peak = peak.max(open);
        }
        assert_eq!(open, 0);
        assert_eq!(peak, depth.min(limit) as i64);
        assert_eq!(r.diagnostics.iter().any(|d| d.code == "E040"), depth > limit);
    }
}

#[test]
fn duplicate_policy_changes_severity_only() {
    let src = br#"{"a":1,"a":[1,],"b":{"a":2,"b":3,"b":4}}"#;
    let warn = validate(src, &ParseOptions { duplicate_keys: DupKeys::Warn, ..Default::default() });
    let error = validate(src, &ParseOptions { duplicate_keys: DupKeys::Error, ..Default::default() });
    assert_eq!(warn.diagnostics.len(), error.diagnostics.len());
    assert_eq!(warn.diagnostics.iter().filter(|d| d.code == "W060").count(), 2);
    for (w, e) in warn.diagnostics.iter().zip(error.diagnostics.iter()) {
        assert_eq!((w.code, w.span, w.related, &w.message), (e.code, e.span, e.related, &e.message));
        if w.related.is_some() {
            assert_eq!((w.severity, e.severity), (Severity::Warning, Severity::Error));
        } else {
            assert_eq!(w.severity, e.severity);
        }
    }
}

#[test]
fn repeated_keys_of_json_texts_are_warned() {
    let repeats: [&[u8]; 3] = [br#"{"a":1,"a":2}"#, br#"[{"x":{"k":1,"k":1}}]"#, br#"{"a":{},"b":0,"a":null}"#];
    for src in repeats {
        let r = validate(src, &ParseOptions::default());
        assert!(r.ok());
        assert!(r.diagnostics.iter().any(|d| d.code == "W060" && d.severity == Severity::Warning && d.related.is_some()));
    }
    let distinct: [&[u8]; 3] = [br#"{"a":1,"b":2}"#, br#"[{"k":1},{"k":1}]"#, br#"{"a":{"a":{"a":0}}}"#];
    for src in distinct {
        let r = validate(src, &ParseOptions::default());
        assert!(r.ok());
        assert!(r.diagnostics.iter().all(|d| d.code != "W060"));
    }
}

#[test]
fn tokens_come_in_order_and_end_stays_put() {
    let srcs: [&[u8]; 3] = [b" {\"a\": [1, tru, 'x'], // c\n \"b\": \xE2\x80\x9Cq\xE2\x80\x9D} \x01 ", b"", b"\"open"];
    for src in srcs.iter() {
        let mut lx = Lexer::new(src, Mode::Jsonc);
        let mut prev_end = 0;
        let mut t = lx.next_token();
        loop {
            assert!(prev_end <= t.span.start && t.span.start <= t.span.end);
            if t.tok == Tok::Eof {
                assert_eq!(t.span.start, t.span.end);
                let again = lx.next_token();
                assert!(again.tok == Tok::Eof && again.span == t.span);
                break;
            }
            assert!(t.span.start < t.span.end);
            prev_end = t.span.end;
            t = lx.next_token();
        }
    }
}

fn same_diagnostics(a: &[json_core::Diagnostic], b: &[json_core::Diagnostic]) -> bool {
    a.len() == b.len()
        && a.iter().zip(b.iter()).all(|(x, y)| {
            x.code == y.code && x.message == y.message && x.span == y.span && x.severity == y.severity
                && x.related == y.related && x.hint == y.hint
        })
}

#[test]
fn parse_and_validate_report_the_same_on_utf8_past_the_cap() {
    // 150 large IDs (a warning each), then errors: well past the cap
    let mut doc = String::from("[");
    for i in 0..150 {
        doc.push_str(&format!("12345678901234567{:03}, ", i));
    }
    doc.push_str("\"é\\u00e9\", True, 'x', {\"k\": 1, \"k\": 2} ");
    for mode in [Mode::Strict, Mode::Jsonc] {
        let opts = ParseOptions { mode, ..Default::default() };
        let v = validate(doc.as_bytes(), &opts);
        let (_, p) = parse_events(doc.as_bytes(), &opts, true);
        assert!(same_diagnostics(&v.diagnostics, &p.diagnostics));
        assert_eq!(v.ok(), p.ok());
    }
}

#[test]
fn a_backslash_before_a_non_ascii_character_can_part_the_two_runs() {
    // valid UTF-8, but the decoding scan jumps from inside the character
    // past the closing quote, as the scan without decoding does not
    let src = "\"\\é\"".as_bytes();
    let v = validate(src, &ParseOptions::default());
    let (_, p) = parse_events(src, &ParseOptions::default(), true);
    assert!(!same_diagnostics(&v.diagnostics, &p.diagnostics));
    assert!(!v.ok() && !p.ok());
}
