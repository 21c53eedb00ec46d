//! End-to-end checks of the template engine: substitution, parsing,
//! header lookup and the formatter pipeline.

use fire::error::Error;
use fire::format::{apply, formatters, json_pretty};
use fire::headers::HeaderCollection;
use fire::http::{parse, ParseError};
use fire::props::Property;
use fire::template::{substitution, SubstitutionError};

fn prop(name: &str, value: &str) -> Property {
    Property { name: String::from(name), value: String::from(value) }
}

#[test]
fn no_placeholder_returns_input() {
    let cases = [
        "",
        "GET http://example.com\n\n",
        "plain text, no markers at all",
        "an unterminated {{HOST marker is literal",
        "empty {{}} names are literal",
        "single braces { } stay too",
        "{{not closed {{either",
    ];
    for case in cases {
        let out = substitution(String::from(case), Vec::new());
        match out {
            Ok(s) => assert_eq!(s, case),
            Err(_) => panic!("substitution failed on a template without placeholders"),
        }
    }
}

#[test]
fn resolved_placeholder_substituted() {
    let props = vec![prop("HOST", "example.com")];
    let out = substitution(String::from("GET http://{{HOST}}/api\n"), props).unwrap();
    assert_eq!(out, "GET http://example.com/api\n");
    assert!(!out.contains("{{"));
}

#[test]
fn several_placeholders_substituted() {
    let props = vec![prop("A", "1"), prop("B", "2")];
    let out = substitution(String::from("{{A}}+{{B}}={{A}}{{B}}"), props).unwrap();
    assert_eq!(out, "1+2=12");
}

#[test]
fn later_property_wins() {
    let props = vec![prop("A", "old"), prop("A", "new")];
    let out = substitution(String::from("{{A}}"), props).unwrap();
    assert_eq!(out, "new");
}

#[test]
fn substituted_value_is_not_rescanned() {
    let props = vec![prop("A", "{{B}}"), prop("B", "boom")];
    let out = substitution(String::from("{{A}}"), props).unwrap();
    assert_eq!(out, "{{B}}");
}

#[test]
fn placeholders_at_the_edges_are_substituted() {
    let props = vec![prop("A", "left"), prop("B", "right")];
    let out = substitution(String::from("{{A}} mid {{B}}"), props).unwrap();
    assert_eq!(out, "left mid right");
    let only = substitution(String::from("{{A}}"), vec![prop("A", "x")]).unwrap();
    assert_eq!(only, "x");
}

#[test]
fn empty_value_erases_the_marker() {
    let out = substitution(String::from("a{{GAP}}b"), vec![prop("GAP", "")]).unwrap();
    assert_eq!(out, "ab");
}

#[test]
fn resolved_template_flows_through_parse_and_format() {
    let template = "POST http://{{HOST}}/items\nContent-Type: application/json\n\n{{BODY}}";
    let props = vec![prop("HOST", "example.com"), prop("BODY", "{\"id\":7}")];
    let text = substitution(String::from(template), props).unwrap();
    let req = parse(&text).unwrap();
    assert_eq!(req.verb(), "POST");
    assert_eq!(req.url(), "http://example.com/items");
    let content_type = req.headers().get("content-type").cloned();
    let body = req.body().clone().unwrap();
    let shown = apply(content_type.as_deref(), body, &formatters());
    assert_eq!(shown, "{\n  \"id\": 7\n}");
}

#[test]
fn missing_value_fails_idempotently() {
    let first = substitution(String::from("url is {{MISSING}} here"), vec![prop("OTHER", "x")]);
    let second = substitution(String::from("url is {{MISSING}} here"), vec![prop("OTHER", "x")]);
    match first {
        Err(SubstitutionError::MissingValue(name)) => assert_eq!(name, "MISSING"),
        Ok(_) => panic!("substitution succeeded despite a missing value"),
    }
    match second {
        Err(SubstitutionError::MissingValue(name)) => assert_eq!(name, "MISSING"),
        Ok(_) => panic!("substitution succeeded despite a missing value"),
    }
}

#[test]
fn parse_get_without_headers_or_body() {
    let req = parse("GET http://example.com\n\n").unwrap();
    assert_eq!(req.verb(), "GET");
    assert_eq!(req.url(), "http://example.com");
    assert_eq!(req.headers().len(), 0);
    assert!(req.body().is_none());
}

#[test]
fn parse_post_with_header_and_body() {
    let req = parse("POST http://x\nContent-Type: application/json\n\n{\"a\":1}").unwrap();
    assert_eq!(req.verb(), "POST");
    assert_eq!(req.url(), "http://x");
    let pairs = req.headers().iterate();
    assert_eq!(pairs.len(), 1);
    assert_eq!(pairs[0].0, "Content-Type");
    assert_eq!(pairs[0].1, "application/json");
    assert_eq!(req.body().as_deref(), Some("{\"a\":1}"));
}

#[test]
fn parse_single_token_fails() {
    let err = parse("BADLINE").unwrap_err();
    assert_eq!(err, ParseError::MalformedStatusLine);
}

#[test]
fn parse_three_tokens_fails() {
    let err = parse("GET http://x extra\n").unwrap_err();
    assert_eq!(err, ParseError::MalformedStatusLine);
}

#[test]
fn parse_empty_input_fails() {
    assert_eq!(parse("").unwrap_err(), ParseError::MalformedStatusLine);
    assert_eq!(parse("\n\n\n").unwrap_err(), ParseError::MalformedStatusLine);
}

#[test]
fn parse_header_without_colon_fails() {
    let err = parse("GET http://x\nBadHeaderNoColon\n\nbody").unwrap_err();
    assert_eq!(err, ParseError::MalformedHeader);
}

#[test]
fn parse_skips_leading_blank_lines() {
    let req = parse("\n\nGET http://x\n").unwrap();
    assert_eq!(req.verb(), "GET");
    assert_eq!(req.url(), "http://x");
}

#[test]
fn parse_without_blank_line_has_no_body() {
    let req = parse("GET http://x\nAccept: text/plain").unwrap();
    assert_eq!(req.headers().get("accept").map(String::as_str), Some("text/plain"));
    assert!(req.body().is_none());
}

#[test]
fn parse_keeps_body_verbatim() {
    let req = parse("PUT http://x\nA: b\n\nline one\n\nline two\n").unwrap();
    assert_eq!(req.body().as_deref(), Some("line one\n\nline two\n"));
}

#[test]
fn parse_trims_header_values_only() {
    let req = parse("GET http://x\nX-Pad:    spaced out   \n").unwrap();
    assert_eq!(req.headers().get("X-Pad").map(String::as_str), Some("spaced out"));
}

#[test]
fn header_value_may_contain_colons() {
    let req = parse("GET http://x\nAuthorization: Basic a:b\n").unwrap();
    assert_eq!(req.headers().get("authorization").map(String::as_str), Some("Basic a:b"));
}

#[test]
fn tabs_separate_status_tokens() {
    let req = parse("GET\thttp://x\n").unwrap();
    assert_eq!(req.verb(), "GET");
    assert_eq!(req.url(), "http://x");
}

#[test]
fn body_of_blank_lines_is_kept() {
    let req = parse("GET http://x\n\n\n").unwrap();
    assert_eq!(req.body().as_deref(), Some("\n"));
}

#[test]
fn header_lookup_is_case_insensitive() {
    let mut h = HeaderCollection::new();
    h.insert(String::from("Content-Type"), String::from("json"));
    assert_eq!(h.get("content-type").map(String::as_str), Some("json"));
    assert_eq!(h.get("CONTENT-TYPE").map(String::as_str), Some("json"));
    assert_eq!(h.get("missing"), None);
}

#[test]
fn multi_valued_headers_keep_order_and_first_match() {
    let mut h = HeaderCollection::new();
    h.insert(String::from("X-A"), String::from("1"));
    h.insert(String::from("X-A"), String::from("2"));
    let pairs = h.iterate();
    assert_eq!(pairs.len(), 2);
    assert_eq!(pairs[0], (String::from("X-A"), String::from("1")));
    assert_eq!(pairs[1], (String::from("X-A"), String::from("2")));
    assert_eq!(h.get("X-A").map(String::as_str), Some("1"));
}

#[test]
fn get_all_returns_every_match_in_order() {
    let mut h = HeaderCollection::new();
    h.insert(String::from("X-A"), String::from("1"));
    h.insert(String::from("X-B"), String::from("other"));
    h.insert(String::from("x-a"), String::from("2"));
    assert_eq!(h.get_all("X-A"), vec![String::from("1"), String::from("2")]);
    assert_eq!(h.get_all("x-b"), vec![String::from("other")]);
    assert_eq!(h.get_all("x-c"), Vec::<String>::new());
}

#[test]
fn property_lookup_prefers_the_latest_pair() {
    let props = vec![prop("A", "first"), prop("B", "b"), prop("A", "second")];
    assert_eq!(fire::props::lookup(&props, "A").map(String::as_str), Some("second"));
    assert_eq!(fire::props::lookup(&props, "B").map(String::as_str), Some("b"));
    assert_eq!(fire::props::lookup(&props, "C"), None);
}

#[test]
fn iteration_restarts_each_time() {
    let mut h = HeaderCollection::new();
    h.insert(String::from("A"), String::from("1"));
    let first: Vec<(String, String)> = h.iterate();
    let second: Vec<(String, String)> = h.iterate();
    assert_eq!(first, second);
}

#[test]
fn pairs_are_indexable_in_order() {
    let mut h = HeaderCollection::new();
    h.insert(String::from("A"), String::from("1"));
    h.insert(String::from("B"), String::from("2"));
    assert_eq!(h.len(), 2);
    let (name, value) = h.pair_at(0);
    assert_eq!((name.as_str(), value.as_str()), ("A", "1"));
    let (name, value) = h.pair_at(1);
    assert_eq!((name.as_str(), value.as_str()), ("B", "2"));
}

#[test]
fn json_pretty_exact_output() {
    let rules = formatters();
    let out = apply(Some("application/json"), String::from("{\"a\":1}"), &rules);
    assert_eq!(out, "{\n  \"a\": 1\n}");
}

#[test]
fn json_roundtrip_is_semantically_equal() {
    let rules = formatters();
    let body = "{\"a\": [1, 2], \"b\": {\"c\": true, \"d\": \"x{y\"}}";
    let pretty = apply(Some("application/json"), String::from(body), &rules);
    let v1: serde_json::Value = serde_json::from_str(body).unwrap();
    let v2: serde_json::Value = serde_json::from_str(&pretty).unwrap();
    assert_eq!(v1, v2);
    let again = apply(Some("application/json"), pretty.clone(), &rules);
    assert_eq!(again, pretty);
}

#[test]
fn malformed_json_passes_through_unchanged() {
    let rules = formatters();
    let body = "{\"a\": [1, 2";
    let out = apply(Some("application/json"), String::from(body), &rules);
    assert_eq!(out, body);
    assert!(json_pretty(body).is_err());
}

#[test]
fn formatter_is_gated_on_content_type() {
    let rules = formatters();
    let body = "{\"a\":1}";
    assert_eq!(apply(Some("text/plain"), String::from(body), &rules), body);
    assert_eq!(apply(None, String::from(body), &rules), body);
    let charset = apply(Some("application/json; charset=utf-8"), String::from(body), &rules);
    assert_eq!(charset, "{\n  \"a\": 1\n}");
}

#[test]
fn nested_json_is_indented_per_level() {
    let out = json_pretty("[1,{\"k\":[2]}]").unwrap();
    assert_eq!(out, "[\n  1,\n  {\n    \"k\": [\n      2\n    ]\n  }\n]");
}

#[test]
fn mismatched_brackets_are_rejected() {
    assert!(json_pretty("[}").is_err());
    assert!(json_pretty("]").is_err());
    assert!(json_pretty("\"unterminated").is_err());
}

#[test]
fn scalar_bodies_pass_through_the_printer() {
    assert_eq!(json_pretty("42").unwrap(), "42");
    assert_eq!(json_pretty("null").unwrap(), "null");
}

#[test]
fn string_escapes_survive_pretty_printing() {
    let body = "{\"s\": \"br{ace \\\" and , colon :\"}";
    let out = json_pretty(body).unwrap();
    let v1: serde_json::Value = serde_json::from_str(body).unwrap();
    let v2: serde_json::Value = serde_json::from_str(&out).unwrap();
    assert_eq!(v1, v2);
}

#[test]
fn error_messages_name_the_failure() {
    let sub = SubstitutionError::MissingValue(String::from("HOST"));
    assert_eq!(
        sub.message(),
        "Unable to render request from template. Missing value for placeholder HOST"
    );
    assert!(ParseError::MalformedStatusLine.message().contains("status line"));
    assert!(ParseError::MalformedHeader.message().contains("header"));
}
