use condor_credmon::codec::{
    parse_access_record, parse_refresh_record, render_access_record, render_refresh_record,
};
use condor_credmon::data::{AccessFile, RefreshFile};

fn refresh(rt: &str, sc: &str) -> RefreshFile {
    RefreshFile {
        refresh_token: String::from(rt),
        scopes: String::from(sc),
    }
}

#[test]
fn test_refresh_record_round_trip() {
    let r = refresh("opaque-token-123", "read write");
    let bytes = render_refresh_record(&r);
    let back = parse_refresh_record(&bytes).unwrap();
    assert_eq!(back.refresh_token, "opaque-token-123");
    assert_eq!(back.scopes, "read write");
}

#[test]
fn test_refresh_record_round_trip_with_escapes() {
    let r = refresh("quote \" backslash \\ newline \n tab \t", "a b");
    let bytes = render_refresh_record(&r);
    let back = parse_refresh_record(&bytes).unwrap();
    assert_eq!(back.refresh_token, "quote \" backslash \\ newline \n tab \t");
    assert_eq!(back.scopes, "a b");
}

#[test]
fn test_refresh_record_round_trip_non_ascii() {
    let r = refresh("token-\u{00e9}\u{4e16}\u{1f600}", "sc\u{00f6}pe");
    let bytes = render_refresh_record(&r);
    let back = parse_refresh_record(&bytes).unwrap();
    assert_eq!(back.refresh_token, "token-\u{00e9}\u{4e16}\u{1f600}");
    assert_eq!(back.scopes, "sc\u{00f6}pe");
}

#[test]
fn test_refresh_record_rendered_shape() {
    let r = refresh("rt", "a b");
    let bytes = render_refresh_record(&r);
    let text = String::from_utf8(bytes).unwrap();
    assert_eq!(text, "{\"refresh_token\":\"rt\",\"scopes\":\"a b\"}");
}

#[test]
fn test_refresh_record_parses_whitespace_and_any_order() {
    let text = " {\n  \"scopes\": \"a b\",\n  \"refresh_token\": \"rt\"\n}\n";
    let back = parse_refresh_record(&text.as_bytes().to_vec()).unwrap();
    assert_eq!(back.refresh_token, "rt");
    assert_eq!(back.scopes, "a b");
}

#[test]
fn test_refresh_record_parses_named_and_unicode_escapes() {
    let text = "{\"refresh_token\":\"a\\n\\t\\\"b\\u0041\\u00e9\",\"scopes\":\"\\u0020\"}";
    let back = parse_refresh_record(&text.as_bytes().to_vec()).unwrap();
    assert_eq!(back.refresh_token, "a\n\t\"bA\u{00e9}");
    assert_eq!(back.scopes, " ");
}

#[test]
fn test_refresh_record_rejects_malformed() {
    for bad in [
        "",
        "{}",
        "{\"refresh_token\":\"rt\"}",
        "{\"refresh_token\":\"rt\",\"scopes\":\"a\",\"scopes\":\"b\"}",
        "{\"refresh_token\":\"rt\",\"extra\":\"x\",\"scopes\":\"a\"}",
        "{\"refresh_token\":\"rt\",\"scopes\":\"a\"} trailing",
        "{\"refresh_token\": rt, \"scopes\":\"a\"}",
        "{\"refresh_token\":\"rt\",\"scopes\":\"unterminated}",
    ] {
        let e = parse_refresh_record(&bad.as_bytes().to_vec());
        assert!(e.is_err(), "should reject: {bad}");
    }
}

#[test]
fn test_access_record_round_trip() {
    let now: u64 = 1_700_000_000;
    let a = AccessFile {
        access_token: String::from("at-xyz"),
        token_type: String::from("Bearer"),
        expires_in: 3600,
        expires_at: now + 3600,
        scope: vec![String::from("read"), String::from("write")],
    };
    let bytes = render_access_record(&a);
    let back = parse_access_record(&bytes).unwrap();
    assert_eq!(back.access_token, "at-xyz");
    assert_eq!(back.token_type, "Bearer");
    assert_eq!(back.expires_in, 3600);
    assert_eq!(back.expires_at, now + 3600);
    assert_eq!(back.scope, vec![String::from("read"), String::from("write")]);
}

#[test]
fn test_access_record_round_trip_empty_scope() {
    let a = AccessFile {
        access_token: String::from("at"),
        token_type: String::from("bearer"),
        expires_in: 0,
        expires_at: 0,
        scope: vec![],
    };
    let bytes = render_access_record(&a);
    let back = parse_access_record(&bytes).unwrap();
    assert_eq!(back.expires_in, 0);
    assert_eq!(back.expires_at, 0);
    assert!(back.scope.is_empty());
}

#[test]
fn test_access_record_rendered_shape() {
    let a = AccessFile {
        access_token: String::from("at"),
        token_type: String::from("bearer"),
        expires_in: 10,
        expires_at: 20,
        scope: vec![String::from("a")],
    };
    let text = String::from_utf8(render_access_record(&a)).unwrap();
    assert_eq!(
        text,
        "{\"access_token\":\"at\",\"token_type\":\"bearer\",\"expires_in\":10,\"expires_at\":20,\"scope\":[\"a\"]}"
    );
}

#[test]
fn test_access_record_accepts_fractional_expiry() {
    // records written with a floating-point expiry keep their whole seconds
    let text = "{\"access_token\":\"at\",\"token_type\":\"bearer\",\"expires_in\":10,\"expires_at\":1700000000.52314,\"scope\":[]}";
    let back = parse_access_record(&text.as_bytes().to_vec()).unwrap();
    assert_eq!(back.expires_at, 1_700_000_000);
}

#[test]
fn test_access_record_parses_any_order() {
    let text = "{ \"scope\": [ \"a\" , \"b\" ], \"expires_at\": 20, \"expires_in\": 10, \"token_type\": \"bearer\", \"access_token\": \"at\" }";
    let back = parse_access_record(&text.as_bytes().to_vec()).unwrap();
    assert_eq!(back.access_token, "at");
    assert_eq!(back.scope, vec![String::from("a"), String::from("b")]);
}

#[test]
fn test_access_record_rejects_malformed() {
    for bad in [
        "{\"access_token\":\"at\",\"token_type\":\"bearer\",\"expires_in\":10,\"expires_at\":20}",
        "{\"access_token\":\"at\",\"token_type\":\"bearer\",\"expires_in\":-1,\"expires_at\":20,\"scope\":[]}",
        "{\"access_token\":\"at\",\"token_type\":\"bearer\",\"expires_in\":18446744073709551616,\"expires_at\":20,\"scope\":[]}",
        "{\"access_token\":\"at\",\"token_type\":\"bearer\",\"expires_in\":10,\"expires_at\":20,\"scope\":[1]}",
        "{\"access_token\":\"at\",\"token_type\":\"bearer\",\"expires_in\":10,\"expires_at\":20,\"scope\":[\"a\",]}",
    ] {
        assert!(
            parse_access_record(&bad.as_bytes().to_vec()).is_err(),
            "should reject: {bad}"
        );
    }
}

#[test]
fn test_parser_reads_serde_rendered_records() {
    // a record file written by a generic JSON serializer, pretty-printed
    let mut map = serde_json::Map::new();
    map.insert(
        String::from("refresh_token"),
        serde_json::Value::String(String::from("rt \u{1f600}")),
    );
    map.insert(
        String::from("scopes"),
        serde_json::Value::String(String::from("a b")),
    );
    let pretty = serde_json::to_string_pretty(&serde_json::Value::Object(map)).unwrap();
    let back = parse_refresh_record(&pretty.into_bytes()).unwrap();
    assert_eq!(back.refresh_token, "rt \u{1f600}");
    assert_eq!(back.scopes, "a b");
}

#[test]
fn test_serde_reads_rendered_records() {
    let r = refresh("rt\n\"x\"", "a b");
    let bytes = render_refresh_record(&r);
    let v: serde_json::Value = serde_json::from_slice(&bytes).unwrap();
    assert_eq!(v["refresh_token"], serde_json::Value::String(String::from("rt\n\"x\"")));
    assert_eq!(v["scopes"], serde_json::Value::String(String::from("a b")));
}

#[test]
fn test_parser_rejects_invalid_utf8_field() {
    // a lone continuation byte inside the token is not UTF-8 text
    let mut bytes = Vec::new();
    bytes.extend_from_slice(b"{\"refresh_token\":\"a");
    bytes.push(0x80);
    bytes.extend_from_slice(b"b\",\"scopes\":\"a\"}");
    assert!(parse_refresh_record(&bytes).is_err());
}
