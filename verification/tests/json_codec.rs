use oxihtml::html5lib::{encode_json, parse_json, Json, JsonMember};

fn member(key: &str, value: Json) -> JsonMember {
    JsonMember {
        key: key.to_string(),
        value,
    }
}

#[test]
fn decode_then_reencode_is_lossless() {
    let inputs: Vec<&[u8]> = vec![
        b"null",
        b"true",
        b"false",
        b"0",
        b"-7",
        b"9223372036854775807",
        b"-9223372036854775808",
        b"\"plain\"",
        b"\"esc \\\" \\\\ \\n \\t \\u0001 caf\\u00e9 \\ud83d\\ude00\"",
        b"[]",
        b"[1, \"two\", [true, null]]",
        b"{}",
        b"{\"a\": 1, \"a\": 2, \"z\": {\"nested\": [false]}}",
        b"  {\"ws\" :\t[ 1 ,2 ]\r\n}  ",
    ];
    for input in inputs {
        let v = parse_json(input).expect("decodes");
        let encoded = encode_json(&v);
        let reparsed = parse_json(&encoded).expect("canonical form decodes");
        assert_eq!(reparsed, v);
        // and the canonical form is a fixed point
        assert_eq!(encode_json(&reparsed), encoded);
    }
}

#[test]
fn canonical_encoding_is_ascii_and_compact() {
    let v = Json::Object(vec![
        member("k", Json::String("caf\u{00E9} \u{1F600}".to_string())),
        member("n", Json::Number(-5)),
    ]);
    let encoded = encode_json(&v);
    assert!(encoded.iter().all(|b| *b < 0x80));
    let text = String::from_utf8(encoded).unwrap();
    assert_eq!(text, "{\"k\":\"caf\\u00e9 \\ud83d\\ude00\",\"n\":-5}");
}

#[test]
fn surrogate_pair_escapes_decode_to_code_points() {
    let v = parse_json(b"\"\\u0041\\uD83D\\uDE00\"").unwrap();
    assert_eq!(v, Json::String("A\u{1F600}".to_string()));
}
