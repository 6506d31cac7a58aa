use json_core::{
    frame_report, parse_events, report_json, validate, Diagnostic, DupKeys, Event, LineIndex, Mode, ParseOptions, Severity, Span,
    MAX_DIAGNOSTICS,
};

fn strict(s: &[u8]) -> Vec<Diagnostic> {
    validate(s, &ParseOptions::default()).diagnostics
}

fn jsonc(s: &[u8]) -> Vec<Diagnostic> {
    validate(s, &ParseOptions { mode: Mode::Jsonc, ..Default::default() }).diagnostics
}

fn only(ds: &[Diagnostic]) -> (&'static str, usize, usize, Severity) {
    assert_eq!(ds.len(), 1, "{:?}", ds);
    (ds[0].code, ds[0].span.start, ds[0].span.end, ds[0].severity)
}

/// The events form exactly one value (a small reader of the event grammar).
fn one_value(ev: &[Event]) -> bool {
    fn value(ev: &[Event], i: usize) -> Option<usize> {
        match ev.get(i)? {
            Event::Null | Event::Bool(_) | Event::Number(_) | Event::Str(_) => Some(i + 1),
            Event::BeginArray => {
                let mut j = i + 1;
                loop {
                    match ev.get(j)? {
                        Event::EndArray => return Some(j + 1),
                        _ => j = value(ev, j)?,
                    }
                }
            }
            Event::BeginObject => {
                let mut j = i + 1;
                loop {
                    match ev.get(j)? {
                        Event::EndObject => return Some(j + 1),
                        Event::Key(_) | Event::KeyNumber(_) => j = value(ev, j + 1)?,
                        _ => return None,
                    }
                }
            }
            _ => None,
        }
    }
    value(ev, 0) == Some(ev.len())
}

#[test]
fn unexpected_character_is_named_by_its_byte() {
    assert_eq!(only(&strict(b"\x01 1")), ("E001", 0, 1, Severity::Error));
    assert_eq!(strict(b"\x01 1")[0].message, "unexpected character (0x01)");
    assert_eq!(strict(b"@1")[0].message, "unexpected character (0x40)");
}

#[test]
fn content_after_value_without_hint() {
    let ds = strict(b"1 2");
    assert_eq!(only(&ds), ("E002", 2, 3, Severity::Error));
    assert!(ds[0].hint.is_none());
}

#[test]
fn bare_word_value() {
    let ds = strict(b"nope");
    assert_eq!(only(&ds), ("E003", 0, 4, Severity::Error));
    assert_eq!(ds[0].message, "unexpected identifier 'nope'");
}

#[test]
fn value_expected_but_punctuation_found() {
    let ds = strict(b":");
    assert_eq!(ds[0].code, "E005");
    assert_eq!(ds[0].message, "expected a value, found ':'");
}

#[test]
fn unclosed_containers() {
    let ds = strict(b"[1");
    assert_eq!(only(&ds), ("E006", 2, 2, Severity::Error));
    assert_eq!(ds[0].message, "unclosed array, expected ']'");
    let ds2 = strict(br#"{"a":1"#);
    assert_eq!(only(&ds2), ("E006", 6, 6, Severity::Error));
    assert_eq!(ds2[0].message, "unclosed object, expected '}'");
}

#[test]
fn leading_comma_in_object() {
    assert_eq!(only(&strict(br#"{,"a":1}"#)), ("E007", 1, 2, Severity::Error));
}

#[test]
fn trailing_commas_strict_only() {
    assert_eq!(only(&strict(b"[1,]")), ("E008", 3, 4, Severity::Error));
    assert_eq!(only(&strict(br#"{"a":1,}"#)), ("E008", 7, 8, Severity::Error));
    assert!(jsonc(b"[1,]").is_empty());
    assert!(jsonc(br#"{"a":1,}"#).is_empty());
}

#[test]
fn missing_separators() {
    let ds = strict(b"[1 2]");
    assert_eq!(only(&ds), ("E009", 3, 4, Severity::Error));
    assert_eq!(ds[0].message, "expected ',' or ']' between array elements, found a number");
    let ds2 = strict(br#"{"a":1 "b":2}"#);
    assert_eq!(only(&ds2), ("E009", 7, 10, Severity::Error));
    assert_eq!(ds2[0].message, "expected ',' or '}' between object members, found a string");
}

#[test]
fn single_quotes_and_number_signs() {
    assert_eq!(only(&strict(b"'x'")), ("E010", 0, 1, Severity::Error));
    let ds = strict(b"+1");
    assert_eq!(only(&ds), ("E012", 0, 1, Severity::Error));
    assert_eq!(ds[0].message, "numbers cannot start with '+'");
}

#[test]
fn unterminated_strings() {
    assert_eq!(only(&strict(b"\"ab")), ("E013", 0, 3, Severity::Error));
    let ds = strict(b"[\"ab\n]");
    assert_eq!(ds[0].code, "E013");
    assert_eq!(ds[0].message, "unterminated string (newline reached)");
}

#[test]
fn bad_unicode_escape() {
    let ds = strict(br#""\u12G4""#);
    assert_eq!(ds[0].code, "E014");
    assert_eq!(ds[0].message, "invalid \\u escape");
}

#[test]
fn control_characters_in_strings() {
    let ds = strict(b"\"a\x0Bb\"");
    assert_eq!(only(&ds), ("E016", 2, 3, Severity::Error));
    assert_eq!(ds[0].message, "unescaped vertical tab in string (0x0B)");
    assert_eq!(ds[0].hint.as_deref(), Some("replace it with \\u000b"));
}

#[test]
fn numbers_leading_zeros_and_missing_digits() {
    assert_eq!(only(&strict(b"012")), ("E018", 0, 3, Severity::Error));
    assert_eq!(only(&strict(b"1.")), ("E019", 0, 2, Severity::Error));
    assert_eq!(strict(b"1e")[0].message, "expected digit in exponent");
    assert_eq!(strict(b"-")[0].message, "expected digits in number");
}

#[test]
fn comments_strict_and_jsonc() {
    assert_eq!(only(&strict(b"/* c */ 1")), ("E021", 0, 7, Severity::Error));
    assert!(jsonc(b"/* c */ 1").is_empty());
    let ds = jsonc(b"1 /* open");
    assert_eq!(only(&ds), ("E020", 2, 9, Severity::Error));
}

#[test]
fn keys_must_be_quoted_strings() {
    let ds = strict(b"{a:1}");
    assert_eq!(only(&ds), ("E022", 1, 2, Severity::Error));
    assert_eq!(ds[0].message, "object keys must be quoted: 'a'");
    assert_eq!(ds[0].hint.as_deref(), Some("write \"a\" — unquoted keys are valid in JSON5 only"));
    let ds2 = strict(b"{1:1}");
    assert_eq!(ds2[0].code, "E022");
    assert_eq!(ds2[0].message, "object keys must be quoted strings");
    let ds3 = strict(b"{[:1}");
    assert_eq!(ds3[0].code, "E023");
    assert_eq!(ds3[0].message, "expected object key, found '['");
}

#[test]
fn colon_expected_after_key() {
    let ds = strict(br#"{"a" 1}"#);
    assert_eq!(only(&ds), ("E024", 5, 6, Severity::Error));
    assert_eq!(ds[0].message, "expected ':' after object key, found a number");
}

#[test]
fn python_and_javascript_literals() {
    let ds = strict(b"None");
    assert_eq!(only(&ds), ("E030", 0, 4, Severity::Error));
    assert_eq!(ds[0].hint.as_deref(), Some("this looks like a Python literal — use 'null'"));
    let ds2 = strict(b"False");
    assert_eq!(ds2[0].hint.as_deref(), Some("this looks like a Python literal — use 'false'"));
    assert_eq!(only(&strict(b"NaN")), ("E031", 0, 3, Severity::Error));
    assert_eq!(strict(b"undefined")[0].code, "E030");
}

#[test]
fn depth_limit_exact() {
    let opts = ParseOptions { max_depth: 1, ..Default::default() };
    let r = validate(b"[[1]]", &opts);
    assert_eq!(r.diagnostics.len(), 1);
    assert_eq!(r.diagnostics[0].code, "E040");
    assert_eq!((r.diagnostics[0].span.start, r.diagnostics[0].span.end), (1, 2));
    assert!(validate(b"1", &opts).ok());
    assert!(!validate(b"[1]", &opts).ok());
}

#[test]
fn closer_inside_array_at_depth_limit_ends() {
    let opts = ParseOptions { max_depth: 1, ..Default::default() };
    let r = validate(b"[1 }", &opts);
    assert!(!r.ok());
    assert!(r.diagnostics.len() <= MAX_DIAGNOSTICS);
}

#[test]
fn precision_warning_message_is_exact() {
    let ds = strict(b"1786623058123456789");
    assert_eq!(only(&ds), ("W050", 0, 19, Severity::Warning));
    assert_eq!(
        ds[0].message,
        "integer exceeds JavaScript's safe range and loses precision (1786623058123456789 becomes 1786623058123456768)"
    );
    assert!(strict(b"-9007199254740993").iter().any(|d| d.code == "W050"));
    assert!(strict(b"9007199254740992").is_empty());
}

#[test]
fn duplicate_key_message_and_allow_policy() {
    let ds = strict(br#"{"k":1,"k":2}"#);
    assert_eq!(ds[0].message, "duplicate object key \"k\"");
    assert_eq!(ds[0].related, Some(Span { start: 1, end: 4 }));
    let opts = ParseOptions { duplicate_keys: DupKeys::Allow, ..Default::default() };
    assert!(validate(br#"{"k":1,"k":2}"#, &opts).diagnostics.is_empty());
}

#[test]
fn invalid_utf8_outside_and_inside_strings() {
    let ds = strict(b"\"a\xFFb\"");
    assert_eq!(only(&ds), ("E027", 2, 3, Severity::Error));
    assert_eq!(ds[0].message, "invalid UTF-8 byte (0xFF) in string");
}

#[test]
fn utf16_big_endian_detected() {
    let ds = strict(&[0, b'1', 0, b' ']);
    assert_eq!(ds.len(), 2);
    assert_eq!((ds[0].code, ds[0].span.start, ds[0].span.end), ("E026", 0, 4));
    assert_eq!(ds[1].code, "E004");
}

#[test]
fn diagnostics_are_ordered_and_capped() {
    let ds = strict(br#"{'a': True, "b" 1,}"#);
    assert!(ds.len() >= 3);
    for w in ds.windows(2) {
        assert!(w[0].span.start <= w[1].span.start, "{:?}", ds);
    }
    let junk = vec![b'@'; 5000];
    assert_eq!(strict(&junk).len(), MAX_DIAGNOSTICS);
}

#[test]
fn every_run_yields_one_value() {
    for s in [&b"{\"a\": [1, }"[..], b"]]]", b"", b"{\"a\" \"b\" 3,,}", b"[1 2 {3", b"{1:2, a:b, :}"] {
        let (ev, _) = parse_events(s, &ParseOptions::default(), true);
        assert!(one_value(&ev), "{:?} on {:?}", ev, s);
    }
}

#[test]
fn ok_means_no_errors() {
    let r = validate(br#""\uDEAD""#, &ParseOptions::default());
    assert!(r.ok());
    assert!(r.diagnostics.iter().all(|d| d.severity == Severity::Warning));
    assert!(!validate(b"[", &ParseOptions::default()).ok());
}

#[test]
fn string_contents_decoded() {
    let (ev, r) = parse_events(br#"["\u00e9", "\ud83d\ude00", "a\u0000b"]"#, &ParseOptions::default(), true);
    assert!(r.ok());
    assert_eq!(ev[1], Event::Str("é".into()));
    assert_eq!(ev[2], Event::Str("😀".into()));
    assert_eq!(ev[3], Event::Str("a\u{0}b".into()));
    let (ev2, _) = parse_events(b"\"caf\xC3\xA9\"", &ParseOptions::default(), true);
    assert_eq!(ev2, vec![Event::Str("café".into())]);
}

#[test]
fn smart_quoted_text_recovered_as_string() {
    let (ev, _) = parse_events("[\u{201C}hi\u{201D}]".as_bytes(), &ParseOptions::default(), true);
    assert_eq!(ev[1], Event::Str("hi".into()));
}

#[test]
fn numbers_carry_their_numeral() {
    let src = b"[12.5e1, -3]";
    let (ev, _) = parse_events(src, &ParseOptions::default(), true);
    assert_eq!(ev[1], Event::Number(Span { start: 1, end: 7 }));
    assert_eq!(ev[2], Event::Number(Span { start: 9, end: 11 }));
}

#[test]
fn line_columns_after_line_breaks() {
    let idx = LineIndex::new(b"x\r\n\r\ny");
    assert_eq!(idx.line_col(5), (3, 1));
    assert_eq!(idx.line_col(1), (1, 2));
    assert_eq!(idx.line_col(100), (3, 96));
}

#[test]
fn report_text_is_exact() {
    let src = b"[1,]";
    let r = validate(src, &ParseOptions::default());
    assert_eq!(
        report_json(src, &r.diagnostics, r.ok()),
        "{\"ok\":false,\"diagnostics\":[{\"code\":\"E008\",\"message\":\"trailing comma in array\",\"severity\":\"error\",\"start\":3,\"end\":4,\"line\":1,\"column\":4,\"hint\":\"trailing commas are valid in JSONC\"}]}"
    );
    let empty = report_json(b"1", &[], true);
    assert_eq!(empty, "{\"ok\":true,\"diagnostics\":[]}");
}

#[test]
fn report_escapes_and_related() {
    let src = b"\"\\\x01\"";
    let r = validate(src, &ParseOptions::default());
    let rep = report_json(src, &r.diagnostics, r.ok());
    assert!(rep.contains("\"message\":\"invalid escape sequence '\\\\\\u0001'\""), "{}", rep);
    let src2 = b"{\"a\":1,\n\"a\":2}";
    let r2 = validate(src2, &ParseOptions::default());
    let rep2 = report_json(src2, &r2.diagnostics, r2.ok());
    assert!(rep2.contains("\"message\":\"duplicate object key \\\"a\\\"\""), "{}", rep2);
    assert!(rep2.contains("\"line\":2,\"column\":1"), "{}", rep2);
    assert!(rep2.contains("\"related\":{\"start\":1,\"end\":4,\"line\":1,\"column\":2}"), "{}", rep2);
}

#[test]
fn frame_prefixes_the_utf8_byte_length() {
    assert_eq!(frame_report(""), vec![0, 0, 0, 0]);
    assert_eq!(frame_report("{}"), vec![2, 0, 0, 0, b'{', b'}']);
    // "é" is two bytes: the prefix counts bytes, not characters.
    assert_eq!(frame_report("é"), vec![2, 0, 0, 0, 0xC3, 0xA9]);
    let long = "x".repeat(300);
    let f = frame_report(&long);
    assert_eq!(&f[..4], &[44, 1, 0, 0]);
    assert_eq!(f.len(), 304);
}

#[test]
fn lone_surrogate_reads_as_replacement_character() {
    let (ev, r) = parse_events(b"\"\\uDEAD\"", &ParseOptions::default(), true);
    assert!(r.ok());
    assert!(r.diagnostics.iter().any(|d| d.code == "W017"));
    assert_eq!(ev, vec![Event::Str("\u{FFFD}".to_string())]);
}

#[test]
fn escaped_equivalent_keys_are_not_duplicates() {
    let ds = strict(b"{\"a\":1,\"\\u0061\":2}");
    assert!(ds.iter().all(|d| d.code != "W060"), "{:?}", ds);
}

#[test]
fn report_reads_back_as_json() {
    let sources: [&[u8]; 5] = [
        b"[1,]",
        b"\"\\\x01\"",
        b"{\"a\":1,\n\"a\":2}",
        b"{'k': tru, \"\xff\": [1 2}",
        b"",
    ];
    for src in sources.iter() {
        let r = validate(src, &ParseOptions::default());
        let rep = report_json(src, &r.diagnostics, r.ok());
        let back = validate(rep.as_bytes(), &ParseOptions::default());
        assert!(back.ok(), "{} -> {:?}", rep, back.diagnostics);
    }
}

#[test]
fn every_code_is_a_stable_code() {
    let known = [
        "E001", "E002", "E003", "E004", "E005", "E006", "E007", "E008", "E009", "E010", "E011", "E012", "E013",
        "E014", "E015", "E016", "E018", "E019", "E020", "E021", "E022", "E023", "E024", "E025", "E026", "E027",
        "E030", "E031", "E040", "W001", "W017", "W050", "W051", "W060",
    ];
    let sources: [&[u8]; 6] = [
        b"\xEF\xBB\xBF{'a': +1, b: 01, \"c\": \"\\x\", d: [1 2,], // x\n /* y",
        b"\xFF\xFE{\x00",
        b"{\"k\": True, \"k\": None, \"n\": 12345678901234567890}",
        b"[\"\x01\", \"\\uD800\", .5, 1e, -, \xE2\x80\x9Cq\xE2\x80\x9D]",
        b"{1: 2, [",
        b"\"caf\xe9\"",
    ];
    for src in sources.iter() {
        for mode in [Mode::Strict, Mode::Jsonc] {
            let r = validate(src, &ParseOptions { mode, ..Default::default() });
            for d in &r.diagnostics {
                assert!(known.contains(&d.code), "{:?}", d);
            }
        }
    }
}
