//! Tests of the response-script protocol: the setup script, the
//! interpretation of sandbox output, and the global variable store.

use httpie::error::HttpieError;
use httpie::json::JsonValue;
use httpie::script::{ResponseObject, ScriptEngine, TestResult, SETUP_PREFIX, SETUP_SUFFIX};
use httpie::strmap::StringMap;

#[test]
fn test_script_engine_creation() {
    let engine = ScriptEngine::new();
    assert_eq!(
        engine.get_all_global_variables().len(),
        0,
        "ScriptEngine creation should succeed"
    );
}

#[test]
fn test_script_engine_default() {
    let engine = ScriptEngine::default();
    assert_eq!(engine.get_all_global_variables().len(), 0);
}

#[test]
fn test_test_result_creation() {
    let result = TestResult {
        name: "Test Name".to_string(),
        passed: true,
        message: Some("Test message".to_string()),
    };

    assert_eq!(result.name, "Test Name");
    assert!(result.passed);
    assert_eq!(result.message, Some("Test message".to_string()));
}

#[test]
fn test_response_object_from_response() {
    let mut headers = StringMap::new();
    headers.insert(
        "content-type".to_string(),
        "application/json; charset=utf-8".to_string(),
    );
    headers.insert("x-custom-header".to_string(), "test-value".to_string());

    let response = ResponseObject::from_parts(
        201,
        headers,
        "{\"result\": \"created\", \"id\": 456}".to_string(),
        "application/json; charset=utf-8".to_string(),
    );

    assert_eq!(response.status, 201);
    assert_eq!(response.content_type, "application/json; charset=utf-8");
    assert_eq!(
        response.headers.get("x-custom-header").unwrap(),
        "test-value"
    );
    match &response.body {
        JsonValue::Object(members) => {
            let result = members.iter().find(|kv| kv.0 == "result").unwrap();
            match &result.1 {
                JsonValue::Text(s) => assert_eq!(s, "created"),
                _ => panic!("Body should be parsed as JSON object"),
            }
        }
        _ => panic!("Body should be parsed as JSON object"),
    }
}

#[test]
fn test_response_object_with_non_json_body() {
    let mut headers = StringMap::new();
    headers.insert("content-type".to_string(), "text/plain".to_string());

    let response = ResponseObject::from_parts(
        200,
        headers,
        "This is plain text".to_string(),
        "text/plain".to_string(),
    );

    assert_eq!(response.status, 200);
    match &response.body {
        JsonValue::Text(s) => assert_eq!(s, "This is plain text"),
        _ => panic!("Non-JSON body should be stored as string"),
    }
}

#[test]
fn test_response_object_clone() {
    let response = ResponseObject::from_parts(
        200,
        StringMap::new(),
        "ok".to_string(),
        "application/json".to_string(),
    );
    let copy = response.clone();

    assert_eq!(copy.status, response.status);
    assert_eq!(copy.content_type, response.content_type);
    assert_eq!(copy.headers.len(), response.headers.len());
}

#[test]
fn test_response_object_debug() {
    let response = ResponseObject::from_parts(
        200,
        StringMap::new(),
        "ok".to_string(),
        "application/json".to_string(),
    );
    let debug_str = format!("{:?}", response);

    assert!(debug_str.contains("ResponseObject"));
    assert!(debug_str.contains("200"));
    assert!(debug_str.contains("application/json"));
}

#[test]
fn test_setup_script_embeds_response() {
    let mut headers = StringMap::new();
    headers.insert("content-type".to_string(), "application/json".to_string());
    let response = ResponseObject::from_parts(
        200,
        headers,
        "{\"ok\":true}".to_string(),
        "application/json".to_string(),
    );

    let engine = ScriptEngine::new();
    let script = engine.setup_script(&response);

    assert!(script.starts_with(SETUP_PREFIX));
    assert!(script.ends_with(SETUP_SUFFIX));
    assert!(script.contains("\"status\":200"));
    assert!(script.contains("\"content-type\":\"application/json\""));
    assert!(script.contains("\"body\":{\"ok\":true}"));
    assert!(script.contains("\"contentType\":\"application/json\""));
}

#[test]
fn test_finish_execution_one_failing_test() {
    let mut engine = ScriptEngine::new();
    let results = engine
        .finish_execution(
            None,
            "[{\"name\":\"t\",\"passed\":false,\"message\":\"m\"}]",
            "{}",
        )
        .unwrap();

    assert_eq!(results.len(), 1);
    assert_eq!(results[0].name, "t");
    assert!(!results[0].passed);
    assert_eq!(results[0].message, Some("m".to_string()));
}

#[test]
fn test_finish_execution_one_passing_test() {
    let mut engine = ScriptEngine::new();
    let results = engine
        .finish_execution(
            None,
            "[{\"name\":\"t\",\"passed\":true,\"message\":null}]",
            "{}",
        )
        .unwrap();

    assert_eq!(results.len(), 1);
    assert_eq!(results[0].name, "t");
    assert!(results[0].passed);
    assert_eq!(results[0].message, None);
}

#[test]
fn test_finish_execution_keeps_order() {
    let mut engine = ScriptEngine::new();
    let results = engine
        .finish_execution(
            None,
            "[{\"name\":\"first\",\"passed\":true,\"message\":null},\
              {\"name\":\"second\",\"passed\":false,\"message\":\"no\"},\
              {\"name\":\"third\",\"passed\":true,\"message\":null}]",
            "{}",
        )
        .unwrap();

    assert_eq!(results.len(), 3);
    assert_eq!(results[0].name, "first");
    assert_eq!(results[1].name, "second");
    assert_eq!(results[2].name, "third");
}

#[test]
fn test_finish_execution_script_failure_discards_results() {
    let mut engine = ScriptEngine::new();
    let result = engine.finish_execution(
        Some("SyntaxError: unexpected token".to_string()),
        "[{\"name\":\"recorded before the error\",\"passed\":true,\"message\":null}]",
        "{\"would_be\":\"kept\"}",
    );

    match result {
        Err(HttpieError::ScriptError(m)) => {
            assert_eq!(m, "Script execution failed: SyntaxError: unexpected token");
        }
        _ => panic!("Script with syntax error should fail"),
    }
    // nothing of the failed run reaches the store
    assert_eq!(engine.get_all_global_variables().len(), 0);
    assert!(engine.get_global_variable("would_be").is_none());
}

#[test]
fn test_finish_execution_empty_script_output() {
    let mut engine = ScriptEngine::new();
    let results = engine.finish_execution(None, "[]", "{}").unwrap();
    assert!(
        results.is_empty(),
        "Empty script should produce no test results"
    );
}

#[test]
fn test_finish_execution_malformed_results() {
    let mut engine = ScriptEngine::new();
    let result = engine.finish_execution(None, "not json at all", "{}");
    match result {
        Err(HttpieError::ScriptError(m)) => {
            assert!(m.contains("Failed to parse test results"));
        }
        _ => panic!("Malformed test results should fail"),
    }
}

#[test]
fn test_get_all_global_variables() {
    let mut engine = ScriptEngine::new();
    engine
        .finish_execution(
            None,
            "[]",
            "{\"var1\":\"value1\",\"var2\":42,\"var3\":{\"nested\":\"object\"}}",
        )
        .unwrap();

    assert_eq!(engine.get_all_global_variables().len(), 3);
    match engine.get_global_variable("var1") {
        Some(JsonValue::Text(s)) => assert_eq!(s, "value1"),
        _ => panic!("var1 should hold a string"),
    }
    match engine.get_global_variable("var2") {
        Some(JsonValue::Number(n)) => assert_eq!(n, "42"),
        _ => panic!("var2 should hold a number"),
    }
    match engine.get_global_variable("var3") {
        Some(JsonValue::Object(_)) => {}
        _ => panic!("var3 should hold an object"),
    }
}

#[test]
fn test_global_variables_persist_across_executions() {
    let mut engine = ScriptEngine::new();
    engine
        .finish_execution(None, "[]", "{\"token\":\"abc123\"}")
        .unwrap();
    engine
        .finish_execution(None, "[]", "{\"userId\":\"123\"}")
        .unwrap();

    assert_eq!(engine.get_all_global_variables().len(), 2);
    match engine.get_global_variable("token") {
        Some(JsonValue::Text(s)) => assert_eq!(s, "abc123"),
        _ => panic!("token should persist"),
    }
}

#[test]
fn test_finish_execution_malformed_globals_object() {
    let mut engine = ScriptEngine::new();
    engine
        .finish_execution(None, "[]", "{\"kept\":\"before\"}")
        .unwrap();

    // a globals rendering that is not an object is an error and leaves the
    // store exactly as it was
    let result = engine.finish_execution(None, "[]", "[1,2,3]");
    match result {
        Err(HttpieError::ScriptError(m)) => {
            assert!(m.contains("Failed to parse global variables"));
        }
        _ => panic!("non-object globals must fail"),
    }
    assert_eq!(engine.get_all_global_variables().len(), 1);
    match engine.get_global_variable("kept") {
        Some(JsonValue::Text(s)) => assert_eq!(s, "before"),
        _ => panic!("the store must survive a failed interpretation"),
    }
}

#[test]
fn test_global_variable_override_across_executions() {
    let mut engine = ScriptEngine::new();
    engine
        .finish_execution(None, "[]", "{\"token\":\"old\"}")
        .unwrap();
    engine
        .finish_execution(None, "[]", "{\"token\":\"new\"}")
        .unwrap();

    assert_eq!(engine.get_all_global_variables().len(), 1);
    match engine.get_global_variable("token") {
        Some(JsonValue::Text(s)) => assert_eq!(s, "new"),
        _ => panic!("the later binding must win"),
    }
}

#[test]
fn test_response_object_invalid_json_body_falls_back_to_text() {
    let response = ResponseObject::from_parts(
        200,
        StringMap::new(),
        "{ not json at all".to_string(),
        "application/json".to_string(),
    );

    match &response.body {
        JsonValue::Text(s) => assert_eq!(s, "{ not json at all"),
        _ => panic!("an unparsable body must stay raw text"),
    }
}
