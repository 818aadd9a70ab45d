//! Tests of rendering and request selection.

use httpie::client::{find_matching_request, ResponseFormatter};
use httpie::json::{to_json_text, JsonValue};
use httpie::models::{HttpRequest, Method};
use httpie::script::{ResponseObject, TestResult};
use httpie::strmap::StringMap;

#[test]
fn test_response_formatter_creation() {
    let _formatter = ResponseFormatter::new();
}

#[test]
fn test_response_formatter_default() {
    let _formatter = ResponseFormatter::default();
}

#[test]
fn test_response_formatter_format_test_results() {
    let formatter = ResponseFormatter::new();
    let results = vec![
        TestResult {
            name: "Test 1".to_string(),
            passed: true,
            message: None,
        },
        TestResult {
            name: "Test 2".to_string(),
            passed: false,
            message: Some("Assertion failed".to_string()),
        },
        TestResult {
            name: "Test 3".to_string(),
            passed: false,
            message: Some("Custom message".to_string()),
        },
    ];

    let text = formatter.render_test_results("test_request", &results);

    assert!(text.contains("=== Test Results for test_request ==="));
    assert!(text.contains("Test 1"));
    assert!(text.contains("Test 2"));
    assert!(text.contains("Assertion failed"));
    assert!(text.contains("Test 3"));
    assert!(text.contains("Custom message"));
    assert!(text.contains("PASS"));
    assert!(text.contains("FAIL"));
}

#[test]
fn test_response_formatter_format_empty_test_results() {
    let formatter = ResponseFormatter::new();
    let results: Vec<TestResult> = Vec::new();

    let text = formatter.render_test_results("empty_test", &results);
    assert!(text.is_empty());
}

#[test]
fn test_render_response_plain_text_body() {
    let formatter = ResponseFormatter::new();
    let mut headers = StringMap::new();
    headers.insert("content-type".to_string(), "text/plain".to_string());
    let response = ResponseObject::from_parts(
        200,
        headers,
        "hello".to_string(),
        "text/plain".to_string(),
    );

    let text = formatter.render_response_from_object("plain", &response);
    assert_eq!(
        text,
        "=== plain ===\nStatus: 200\nHeaders:\n  content-type: \"text/plain\"\nBody:\nhello\n\n"
    );
}

#[test]
fn test_render_response_blank_body_prints_nothing() {
    let formatter = ResponseFormatter::new();
    let response = ResponseObject::from_parts(
        204,
        StringMap::new(),
        "  \n ".to_string(),
        "text/plain".to_string(),
    );

    let text = formatter.render_response_from_object("empty", &response);
    assert_eq!(text, "=== empty ===\nStatus: 204\nBody:\n\n");
}

#[test]
fn test_render_response_structured_body() {
    let formatter = ResponseFormatter::new();
    let response = ResponseObject::from_parts(
        200,
        StringMap::new(),
        "{\"code\": 200}".to_string(),
        "application/json".to_string(),
    );

    let text = formatter.render_response_from_object("json", &response);
    assert_eq!(text, "=== json ===\nStatus: 200\nBody:\n{\"code\":200}\n\n");
}

#[test]
fn test_json_serialization_exact() {
    let value = JsonValue::Object(vec![
        ("a".to_string(), JsonValue::Number("1".to_string())),
        (
            "b".to_string(),
            JsonValue::Array(vec![
                JsonValue::Null,
                JsonValue::Bool(true),
                JsonValue::Text("x\"y\\z".to_string()),
            ]),
        ),
    ]);

    assert_eq!(to_json_text(&value), "{\"a\":1,\"b\":[null,true,\"x\\\"y\\\\z\"]}");
}

#[test]
fn test_json_escape_control_characters() {
    let value = JsonValue::Text("a\nb\tc\u{01}".to_string());
    assert_eq!(to_json_text(&value), "\"a\\nb\\tc\\u0001\"");
}

#[test]
fn test_json_parse_builds_structured_values() {
    // through from_parts: a parsed body is not the raw text handed in
    let response = ResponseObject::from_parts(
        200,
        StringMap::new(),
        "[1, 2]".to_string(),
        "application/json".to_string(),
    );
    match &response.body {
        JsonValue::Array(items) => {
            assert_eq!(items.len(), 2);
            match &items[0] {
                JsonValue::Number(n) => assert_eq!(n, "1"),
                _ => panic!("expected a number"),
            }
        }
        _ => panic!("a JSON body must parse to its structure"),
    }
}

#[test]
fn test_find_matching_request_by_substring() {
    let requests = vec![
        HttpRequest::new("Get Users".to_string(), Method::Get, "https://a.test/u".to_string()),
        HttpRequest::new("Create User".to_string(), Method::Post, "https://a.test/u".to_string()),
        HttpRequest::new("Delete User".to_string(), Method::Delete, "https://a.test/u".to_string()),
    ];

    assert_eq!(find_matching_request(&requests, "Create"), Some(1));
    assert_eq!(find_matching_request(&requests, "User"), Some(0));
    assert_eq!(find_matching_request(&requests, "Get"), Some(0));
    assert_eq!(find_matching_request(&requests, "missing"), None);
    assert_eq!(find_matching_request(&requests, ""), Some(0));
}
