use oxihtml::html5lib::{parse_json, parse_tree_construction_text, Json, JsonMember, ScriptDirective};

fn get<'a>(obj: &'a [JsonMember], key: &str) -> &'a Json {
    obj.iter()
        .find_map(|m| (m.key == key).then_some(&m.value))
        .unwrap()
}

#[test]
fn json_parser_supports_core_types_and_escapes() {
    let input = br#"{
      "null": null,
      "bools": [true, false],
      "num": -12,
      "str": "a\nb\tc\\\"",
      "u": "\u0041\uD83D\uDE00"
    }"#;
    let json = parse_json(input).expect("parse_json ok");
    let obj = match json {
        Json::Object(obj) => obj,
        _ => panic!("expected object"),
    };
    assert_eq!(get(&obj, "null"), &Json::Null);
    assert_eq!(get(&obj, "num"), &Json::Number(-12));
    assert_eq!(
        get(&obj, "bools"),
        &Json::Array(vec![Json::Bool(true), Json::Bool(false)])
    );
    assert_eq!(get(&obj, "str"), &Json::String("a\nb\tc\\\"".to_string()));
    assert_eq!(get(&obj, "u"), &Json::String("A😀".to_string()));
}

#[test]
fn tree_construction_dat_parses_cases_and_directives() {
    let dat = r#"#data
<p>Hello
#errors
1:1: some-error
#document
| <html>
|   <head>
|   <body>
|     <p>
|       "Hello"

#data
<svg><title>X</title></svg>
#errors
#document-fragment
svg svg
#script-on
#document
| <svg svg>
|   <svg svg>
|     <svg title>
|       "X"
"#;

    let cases = parse_tree_construction_text(dat);

    assert_eq!(cases.len(), 2);
    assert_eq!(cases[0].data.trim(), "<p>Hello");
    assert_eq!(cases[0].error_count, 1);
    assert_eq!(cases[0].script_directive, ScriptDirective::Both);
    assert!(cases[0].fragment_context.is_none());
    assert!(cases[0].expected.contains("| <html>"));

    assert_eq!(cases[1].script_directive, ScriptDirective::On);
    let ctx = cases[1].fragment_context.clone().unwrap();
    assert_eq!(ctx.namespace.as_deref(), Some("svg"));
    assert_eq!(ctx.tag_name, "svg");
}

#[test]
fn json_parser_rejects_fractional_numbers() {
    assert!(parse_json(b"1.5").is_err());
    assert!(parse_json(b"1e5").is_err());
    assert!(parse_json(b"-2E3").is_err());
    assert!(parse_json(b"[1, 2.5]").is_err());
}

#[test]
fn json_parser_reports_error_offsets() {
    let err = parse_json(b"1.5").unwrap_err();
    assert_eq!(err.offset, 1);
    let err = parse_json(b"{\"a\": }").unwrap_err();
    assert_eq!(err.offset, 6);
    let err = parse_json(b"null junk").unwrap_err();
    assert_eq!(err.offset, 5);
}

#[test]
fn json_parser_handles_integer_limits() {
    assert_eq!(
        parse_json(b"9223372036854775807").unwrap(),
        Json::Number(i64::MAX)
    );
    assert_eq!(
        parse_json(b"-9223372036854775808").unwrap(),
        Json::Number(i64::MIN)
    );
    assert!(parse_json(b"9223372036854775808").is_err());
    assert!(parse_json(b"-9223372036854775809").is_err());
    assert!(parse_json(b"99999999999999999999999999").is_err());
}

#[test]
fn json_parser_rejects_bad_strings() {
    assert!(parse_json(b"\"\\q\"").is_err());
    assert!(parse_json(b"\"\\uD83D\"").is_err());
    assert!(parse_json(b"\"\\uD83D\\u0041\"").is_err());
    assert!(parse_json(b"\"\\uDE00\"").is_err());
    assert!(parse_json(b"\"unterminated").is_err());
    assert!(parse_json(&[34, 0x01, 34]).is_err());
    assert!(parse_json(&[34, 0xC2, 34]).is_err());
}

#[test]
fn json_parser_accepts_raw_utf8_strings() {
    let text = "caf\u{00E9} \u{1F600} \u{4E2D}";
    let mut bytes = vec![34u8];
    bytes.extend_from_slice(text.as_bytes());
    bytes.push(34);
    assert_eq!(parse_json(&bytes).unwrap(), Json::String(text.to_string()));
}

#[test]
fn json_object_keys_keep_order_and_may_repeat() {
    let json = parse_json(b"{\"k\": 1, \"k\": 2, \"a\": 3}").unwrap();
    let obj = match json {
        Json::Object(obj) => obj,
        _ => panic!("expected object"),
    };
    assert_eq!(obj.len(), 3);
    assert_eq!(obj[0].key, "k");
    assert_eq!(obj[0].value, Json::Number(1));
    assert_eq!(obj[1].key, "k");
    assert_eq!(obj[1].value, Json::Number(2));
    assert_eq!(obj[2].key, "a");
    // first match wins on lookup
    assert_eq!(get(&obj, "k"), &Json::Number(1));
}

#[test]
fn tree_construction_requires_errors_marker() {
    let dat = "#data\n<p>Hello\n#document\n| <html>\n";
    let cases = parse_tree_construction_text(dat);
    assert_eq!(cases.len(), 0);
}

#[test]
fn tree_construction_counts_new_errors_and_script_off() {
    let dat = "#data\n<x>\n#errors\none\n\ntwo\n#new-errors\nthree\n#script-off\n#document\n| <x>\n";
    let cases = parse_tree_construction_text(dat);
    assert_eq!(cases.len(), 1);
    assert_eq!(cases[0].error_count, 3);
    assert_eq!(cases[0].script_directive, ScriptDirective::Off);
    assert_eq!(cases[0].expected, "| <x>");
}

#[test]
fn tree_construction_skips_malformed_and_keeps_later_cases() {
    // the malformed case ends at the line that failed the #document
    // check; scanning resumes after it, so the later case survives
    let dat = "#data\n<a>\n#errors\n#script-on\n#errors\n#data\n<b>\n#errors\n#document\n| <b>\n";
    let cases = parse_tree_construction_text(dat);
    assert_eq!(cases.len(), 1);
    assert_eq!(cases[0].data, "<b>");
    assert_eq!(cases[0].expected, "| <b>");

    // a #data marker consumed by the failed #document check is lost
    let eaten = "#data\n<a>\n#errors\n#nonsense\n#data\n<b>\n#errors\n#document\n| <b>\n";
    assert_eq!(parse_tree_construction_text(eaten).len(), 0);
}

#[test]
fn tree_construction_math_fragment_context() {
    let dat = "#data\n<mi>\n#errors\n#document-fragment\nmath mi\n#document\n| <math mi>\n";
    let cases = parse_tree_construction_text(dat);
    assert_eq!(cases.len(), 1);
    let ctx = cases[0].fragment_context.clone().unwrap();
    assert_eq!(ctx.namespace.as_deref(), Some("math"));
    assert_eq!(ctx.tag_name, "mi");

    let dat2 = "#data\n<td>\n#errors\n#document-fragment\ntd\n#document\n| <td>\n";
    let cases2 = parse_tree_construction_text(dat2);
    let ctx2 = cases2[0].fragment_context.clone().unwrap();
    assert_eq!(ctx2.namespace, None);
    assert_eq!(ctx2.tag_name, "td");
}

#[test]
fn tree_construction_expected_strips_blank_edges_and_trailing_spaces() {
    // per-line trailing whitespace is stripped, and blank edge lines
    // (even whitespace-only ones) are dropped
    let dat = "#data\nx\n#errors\n#document\n| <x>  \n   \n";
    let cases = parse_tree_construction_text(dat);
    assert_eq!(cases.len(), 1);
    assert_eq!(cases[0].expected, "| <x>");

    let dat2 = "#data\nx\n#errors\n#document\n \t\n| <y> \n| <z>\t\n\n#data\nq\n#errors\n#document\n";
    let cases2 = parse_tree_construction_text(dat2);
    assert_eq!(cases2.len(), 2);
    assert_eq!(cases2[0].expected, "| <y>\n| <z>");
    assert_eq!(cases2[1].expected, "");
}

#[test]
fn tree_construction_blank_fragment_context_is_malformed() {
    // a #document-fragment section with a blank context line carries no
    // tag name: the case is skipped
    let dat = "#data\nx\n#errors\n#document-fragment\n\n#document\n| <x>\n";
    assert_eq!(parse_tree_construction_text(dat).len(), 0);

    // ... and scanning resumes after the blank line, so a later case
    // survives
    let dat2 = "#data\nx\n#errors\n#document-fragment\n   \n#data\ny\n#errors\n#document\n| <y>\n";
    let cases2 = parse_tree_construction_text(dat2);
    assert_eq!(cases2.len(), 1);
    assert_eq!(cases2[0].data, "y");

    // every emitted fragment context carries a non-empty tag name
    let dat3 = "#data\na\n#errors\n#document-fragment\ntd\n#document\n#data\nb\n#errors\n#document-fragment\nsvg svg\n#document\n";
    for case in parse_tree_construction_text(dat3) {
        if let Some(ctx) = case.fragment_context {
            assert!(!ctx.tag_name.is_empty());
        }
    }
}
