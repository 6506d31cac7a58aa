use json_core::{validate, DupKeys, LineIndex, Mode, ParseOptions, ParseResult, Severity, MAX_DIAGNOSTICS};

fn p(s: &str) -> ParseResult {
    validate(s.as_bytes(), &ParseOptions::default())
}

#[test]
fn line_index() {
    let src = b"ab\ncd\nef";
    let idx = LineIndex::new(src);
    assert_eq!(idx.line_col(0), (1, 1));
    assert_eq!(idx.line_col(4), (2, 2));
    assert_eq!(idx.line_col(7), (3, 2));
}

#[test]
fn zaach_13_duplicate_keys_warned_with_first_location() {
    let r = p(r#"{"a":1,"a":2}"#);
    assert!(r.ok()); // warning by default, matches JSON.parse acceptance
    let d = r.diagnostics.iter().find(|d| d.code == "W060").expect("dup warning");
    assert_eq!(d.severity, Severity::Warning);
    let rel = d.related.expect("first-occurrence span");
    assert_eq!((rel.start, rel.end), (1, 4)); // first "a"
    assert_eq!((d.span.start, d.span.end), (7, 10)); // second "a"
}

#[test]
fn duplicate_keys_error_policy() {
    let opts = ParseOptions { duplicate_keys: DupKeys::Error, ..Default::default() };
    let r = validate(br#"{"a":1,"a":2}"#, &opts);
    assert!(!r.ok());
}

#[test]
fn duplicate_keys_scoped_per_object() {
    // same key in sibling objects is fine
    let r = p(r#"{"x":{"a":1},"y":{"a":2}}"#);
    assert!(r.diagnostics.iter().all(|d| d.code != "W060"));
}

#[test]
fn prantlf_bom_strict_error_jsonc_warning() {
    let mut doc = vec![0xEF, 0xBB, 0xBF];
    doc.extend_from_slice(br#"{"a":1}"#);
    // strict: matches JSON.parse (rejects), but still validates the rest
    let r = validate(&doc, &ParseOptions::default());
    assert!(!r.ok());
    assert!(r.diagnostics.iter().any(|d| d.code == "E025"));
    assert_eq!(r.diagnostics.len(), 1); // recovery: no cascade
    // jsonc: tolerated with warning
    let opts = ParseOptions { mode: Mode::Jsonc, ..Default::default() };
    let r2 = validate(&doc, &opts);
    assert!(r2.ok());
    assert!(r2.diagnostics.iter().any(|d| d.code == "W001"));
}

#[test]
fn json5_101_crlf_line_numbers() {
    let idx = LineIndex::new(b"a\r\nb\rc\nd");
    assert_eq!(idx.line_col(3), (2, 1)); // 'b'
    assert_eq!(idx.line_col(5), (3, 1)); // 'c'
    assert_eq!(idx.line_col(7), (4, 1)); // 'd'
}

#[test]
fn tweet_id_precision_warning() {
    let r = p(r#"{"id": 1786623058123456789}"#);
    let d = r.diagnostics.iter().find(|d| d.code == "W050").expect("precision warning");
    assert!(d.severity == Severity::Warning);
    assert!(r.ok());
    // safe integers stay silent
    let r2 = p(r#"{"id": 9007199254740991}"#);
    assert!(r2.diagnostics.iter().all(|d| d.code != "W050"));
}

#[test]
fn zaach_63_exact_reported_value_warns() {
    let r = p(r#"{"fooId":1111111111258928239}"#);
    let d = r.diagnostics.iter().find(|d| d.code == "W050").unwrap();
    assert!(d.message.contains("1111111111258928239"));
}

#[test]
fn zaach_65_bracket_chars_inside_string_are_fine() {
    assert!(p(r#"{"pos": "[106.675,525.792,47.7364]"}"#).ok());
}

#[test]
fn zaach_142_invalid_escape_points_at_escape() {
    let src = r#"{"": "foobar\?"}"#;
    let r = p(src);
    let d = r.diagnostics.iter().find(|d| d.code == "E015").unwrap();
    assert!(d.message.contains("\\?"));
    assert_eq!(&src.as_bytes()[d.span.start..d.span.end], b"\\?");
}

#[test]
fn zaach_24_tab_named_in_message() {
    let r = p("{\"action\": \"log\tin\"}");
    let d = r.diagnostics.iter().find(|d| d.code == "E016").unwrap();
    assert!(d.message.contains("tab"), "{}", d.message);
}

#[test]
fn zaach_47_113_raw_unicode_and_solidus_valid() {
    assert!(p("{\"q\": \"\u{201C}curly\u{201D} and a / slash\"}").ok());
}

#[test]
fn prantlf_15_utf16_detected_cleanly() {
    // UTF-16LE with BOM: FF FE then '{ ' as 16-bit units
    let doc: Vec<u8> = vec![0xFF, 0xFE, b'{', 0, b'}', 0];
    let r = validate(&doc, &ParseOptions::default());
    assert!(!r.ok());
    assert!(r.diagnostics.iter().any(|d| d.code == "E026"));
    // one clear error + EOF notice at most, not a garbage cascade
    assert!(r.diagnostics.len() <= 2, "{:?}", r.diagnostics);
    // UTF-16LE without BOM (null-interleaved ASCII)
    let doc2: Vec<u8> = vec![b'{', 0, b'}', 0];
    assert!(validate(&doc2, &ParseOptions::default()).diagnostics.iter().any(|d| d.code == "E026"));
}

#[test]
fn prantlf_23_zaach_80_prototype_keys_safe() {
    let r = p(r#"{"constructor": 1, "hasOwnProperty": 2, "__proto__": 3}"#);
    // no false duplicate positives, parses clean
    assert!(r.diagnostics.iter().all(|d| d.code != "W060"));
    assert!(r.ok());
    // but real duplicates of those names ARE caught
    let r2 = p(r#"{"constructor": 1, "constructor": 2}"#);
    assert!(r2.diagnostics.iter().any(|d| d.code == "W060"));
}

#[test]
fn seldaek_52_latin1_rejected_at_first_byte() {
    let doc = [0x7Bu8, 0x22, 0x61, 0x22, 0x3A, 0x22, 0x63, 0x61, 0x66, 0xE9, 0x22, 0x7D];
    let r = validate(&doc, &ParseOptions::default());
    assert!(!r.ok());
    let d = r.diagnostics.iter().find(|d| d.code == "E027").unwrap();
    assert_eq!(d.span.start, 9);
}

#[test]
fn junk_flood_no_stack_overflow() {
    let junk = vec![0x01u8; 1_000_000];
    let r = validate(&junk, &ParseOptions::default());
    assert!(r.diagnostics.len() <= MAX_DIAGNOSTICS);
}

#[test]
fn empty_and_whitespace_single_clean_error() {
    for s in ["", "   \n\t "] {
        let r = validate(s.as_bytes(), &ParseOptions::default());
        assert!(!r.ok());
        assert_eq!(r.diagnostics.len(), 1);
        assert_eq!(r.diagnostics[0].code, "E004");
    }
}

#[test]
fn json5_192_lone_surrogate_json_parse_parity() {
    // JSON.parse accepts "\uDEAD"; we accept with W017 warning
    let r = p(r#""\uDEAD""#);
    assert!(r.ok(), "{:?}", r.diagnostics);
    assert!(r.diagnostics.iter().any(|d| d.code == "W017"));
    // high surrogate alone, and hi+hi, also accepted with warning
    assert!(p(r#""\uD800""#).ok());
    assert!(p(r#""\uD800\uD800""#).ok());
    // malformed hex after \u stays a hard error
    assert!(!p(r#""\uD800\u""#).ok());
}

#[test]
fn circlecell_12_sibling_objects_no_false_duplicates() {
    let doc = r#"[
            {"name": "(HT)", "location_size": 6, "img": "a.png"},
            {"name": "(STT)", "location_size": 6, "img": "b.png"}
        ]"#;
    let r = p(doc);
    assert!(r.ok());
    assert!(r.diagnostics.iter().all(|d| d.code != "W060"));
}

#[test]
fn circlecell_11_tab_indentation_valid() {
    assert!(p("{\n\t\"a\": 1,\n\t\"b\": [\n\t\t2\n\t]\n}").ok());
}

#[test]
fn circlecell_7_windows_paths() {
    // properly doubled: valid, no warnings
    let r = p(r#"{"sourcePath": "C:\\temp\\"}"#);
    assert!(r.ok() && r.diagnostics.is_empty(), "{:?}", r.diagnostics);
    // single backslash before t: valid JSON, silent TAB corruption -> W051
    let r2 = p("{\"p\": \"C:\\temp\"}");
    assert!(r2.ok());
    assert!(r2.diagnostics.iter().any(|d| d.code == "W051"));
    // invalid escape in a path gets the targeted hint
    let r3 = p(r#"{"p": "C:\Users"}"#);
    let d = r3.diagnostics.iter().find(|d| d.code == "E015").unwrap();
    assert!(d.hint.as_ref().unwrap().contains("Windows path"));
    // tab escape in a non-path string stays silent
    assert!(p(r#"{"cell": "a\tb"}"#).diagnostics.is_empty());
}

#[test]
fn seldaek_54_bad_backslash_exact_location() {
    let doc = r#"{"k": "TYPO3\PharStreamWrapper\Exception"}"#;
    let r = p(doc);
    let d = r.diagnostics.iter().find(|d| d.code == "E015").unwrap();
    assert_eq!(&doc.as_bytes()[d.span.start..d.span.end], b"\\P");
}

#[test]
fn precision_warning_beyond_128_bits() {
    // 40 digits: the double is 1234567890123456789012345678901234567890
    // rounded to 53 significant bits
    let r = p("[1234567890123456789012345678901234567890]");
    let d = r.diagnostics.iter().find(|d| d.code == "W050").expect("precision warning");
    assert_eq!(
        d.message,
        "integer exceeds JavaScript's safe range and loses precision (1234567890123456789012345678901234567890 becomes 1234567890123456846996462118072609669120)"
    );
    assert!(r.ok());
    // 2^200 is a double exactly: nothing to warn about
    let r2 = p("1606938044258990275541962092341162602522202993782792835301376");
    assert!(r2.diagnostics.iter().all(|d| d.code != "W050"), "{:?}", r2.diagnostics);
    // past the largest double: it becomes infinite
    let big = "9".repeat(400);
    let r3 = p(&format!("-{}", big));
    let d3 = r3.diagnostics.iter().find(|d| d.code == "W050").expect("overflow warning");
    assert!(d3.message.ends_with(" becomes -inf)"), "{}", d3.message);
    // 2^1024 has 309 digits and is no finite double
    let r4 = p("179769313486231590772930519078902473361797697894230657273430081157732675805500963132708477322407536021120113879871393357658789768814416622492847430639474124377767893424865485276302219601246094119453082952085005768838150682342462881473913110540827237163350510684586298239947245938479716304835356329624224137216");
    let d4 = r4.diagnostics.iter().find(|d| d.code == "W050").expect("overflow warning");
    assert!(d4.message.ends_with(" becomes inf)"), "{}", d4.message);
    // the largest double itself is exact
    let r5 = p("179769313486231570814527423731704356798070567525844996598917476803157260780028538760589558632766878171540458953514382464234321326889464182768467546703537516986049910576551282076245490090389328944075868508455133942304583236903222948165808559332123348274797826204144723168738177180919299881250404026184124858368");
    assert!(r5.diagnostics.iter().all(|d| d.code != "W050"), "{:?}", r5.diagnostics);
}

#[test]
fn each_break_form_ends_one_line() {
    for src in [&b"ab\ncd"[..], &b"ab\r\ncd"[..], &b"ab\rcd"[..]] {
        let idx = LineIndex::new(src);
        let brk = src.len() - 2;
        for p in 0..brk {
            assert_eq!(idx.line_col(p).0, 1);
        }
        assert_eq!(idx.line_col(brk), (2, 1));
    }
    // columns grow with offsets on a line, and lines never go back
    let src = b"x\r\ny\rz\n\nw";
    let idx = LineIndex::new(src);
    let mut prev = (1, 0);
    for p in 0..src.len() + 2 {
        let lc = idx.line_col(p);
        assert!(lc > prev, "{:?} {:?}", lc, prev);
        prev = lc;
    }
}
