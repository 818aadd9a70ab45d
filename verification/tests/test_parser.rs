//! Tests of document parsing.

use httpie::models::{Environment, Method};
use httpie::parser::HttpParser;

#[test]
fn test_parser_creation() {
    let env = Environment::new();
    let _parser = HttpParser::new(env);
}

#[test]
fn test_parse_simple_get_request() {
    let content = "
### Simple GET Request
GET https://httpbin.org/get
User-Agent: httpie-test
";

    let env = Environment::new();
    let mut parser = HttpParser::new(env);

    let requests = parser.parse_text(content).unwrap();

    assert_eq!(requests.len(), 1);
    let request = &requests[0];
    assert_eq!(request.name, "Simple GET Request");
    assert_eq!(request.method, Method::Get);
    assert_eq!(request.url, "https://httpbin.org/get");
    assert_eq!(request.headers.len(), 1);
    assert_eq!(request.headers.get("User-Agent").unwrap(), "httpie-test");
    assert!(request.body.is_none());
    assert!(request.response_handler.is_none());
}

#[test]
fn test_parse_post_request_with_body() {
    let content = "
### POST Request with JSON Body
POST https://httpbin.org/post
Content-Type: application/json
Authorization: Bearer token123

{
  \"name\": \"test\",
  \"value\": 42
}
";

    let env = Environment::new();
    let mut parser = HttpParser::new(env);

    let requests = parser.parse_text(content).unwrap();

    assert_eq!(requests.len(), 1);
    let request = &requests[0];
    assert_eq!(request.name, "POST Request with JSON Body");
    assert_eq!(request.method, Method::Post);
    assert_eq!(request.url, "https://httpbin.org/post");
    assert_eq!(request.headers.len(), 2);
    assert_eq!(
        request.headers.get("Content-Type").unwrap(),
        "application/json"
    );
    assert_eq!(
        request.headers.get("Authorization").unwrap(),
        "Bearer token123"
    );

    let expected_body = "{\n  \"name\": \"test\",\n  \"value\": 42\n}";
    assert_eq!(request.body.as_ref().unwrap(), expected_body);
    assert!(request.response_handler.is_none());
}

#[test]
fn test_parse_request_with_variables() {
    let content = "
@baseUrl = https://api.example.com
@token = abc123

### Request with Variables
GET {{baseUrl}}/users
Authorization: Bearer {{token}}
";

    let env = Environment::new();
    let mut parser = HttpParser::new(env);

    let requests = parser.parse_text(content).unwrap();

    assert_eq!(requests.len(), 1);
    let request = &requests[0];
    assert_eq!(request.name, "Request with Variables");
    assert_eq!(request.method, Method::Get);
    assert_eq!(request.url, "https://api.example.com/users");
    assert_eq!(
        request.headers.get("Authorization").unwrap(),
        "Bearer abc123"
    );
}

#[test]
fn test_parse_request_with_response_handler() {
    let content = "
### Request with Response Handler
GET https://httpbin.org/get

> {%
client.test(\"Status should be 200\", function() {
    client.assert(response.status === 200);
});
%}
";

    let env = Environment::new();
    let mut parser = HttpParser::new(env);

    let requests = parser.parse_text(content).unwrap();

    assert_eq!(requests.len(), 1);
    let request = &requests[0];
    assert_eq!(request.name, "Request with Response Handler");
    assert!(
        request.response_handler.is_some(),
        "Response handler should be parsed"
    );

    let script = request.response_handler.as_ref().unwrap();
    assert!(script.contains("client.test"));
    assert!(script.contains("response.status === 200"));
}

#[test]
fn test_parse_multiple_requests() {
    let content = "
@baseUrl = https://httpbin.org
@token = test_token_123

### Test GET Request
GET {{baseUrl}}/get
User-Agent: httpie-test
Authorization: Bearer {{token}}

### Test POST Request
POST {{baseUrl}}/post
Content-Type: application/json

{
  \"name\": \"test\",
  \"value\": 123
}

> {%
client.test(\"Status should be 200\", function() {
    client.assert(response.status === 200, \"Expected status 200\");
});
%}

### Test PUT Request
PUT {{baseUrl}}/put
Content-Type: application/json

{
  \"id\": 1,
  \"updated\": true
}
";

    let env = Environment::new();
    let mut parser = HttpParser::new(env);

    let requests = parser.parse_text(content).unwrap();

    assert!(requests.len() >= 2);

    let get_request = requests.iter().find(|r| r.name.contains("GET")).unwrap();
    assert_eq!(get_request.method, Method::Get);
    assert!(get_request.url.contains("httpbin.org"));

    let post_request = requests.iter().find(|r| r.name.contains("POST")).unwrap();
    assert_eq!(post_request.method, Method::Post);
    assert!(post_request.body.is_some());
    assert!(
        post_request.response_handler.is_some(),
        "POST request should have response handler"
    );
}

#[test]
fn test_parse_empty_file() {
    let content = "";

    let env = Environment::new();
    let mut parser = HttpParser::new(env);

    let requests = parser.parse_text(content).unwrap();
    assert!(requests.is_empty());
}

#[test]
fn test_parse_file_with_only_variables() {
    let content = "
@baseUrl = https://api.example.com
@token = abc123
@version = v1
";

    let env = Environment::new();
    let mut parser = HttpParser::new(env);

    let requests = parser.parse_text(content).unwrap();
    assert!(requests.is_empty());
}

#[test]
fn test_parse_file_with_comments_only() {
    let content = "
# This is a comment
// This is also a comment
### This looks like a request but has no HTTP method
";

    let env = Environment::new();
    let mut parser = HttpParser::new(env);

    let requests = parser.parse_text(content).unwrap();
    assert!(requests.is_empty());
}

#[test]
fn test_parse_invalid_http_method() {
    let content = "
### Invalid Method Request
INVALID_METHOD https://httpbin.org/get
";

    let env = Environment::new();
    let mut parser = HttpParser::new(env);

    let result = parser.parse_text(content);
    match result {
        Ok(requests) => {
            assert!(
                requests.is_empty(),
                "Invalid method should result in no parsed requests"
            );
        }
        Err(e) => {
            assert!(e.message().contains("Invalid") || e.message().contains("method"));
        }
    }
}

#[test]
fn test_parse_malformed_request_line() {
    let content = "
### Malformed Request
GET
";

    let env = Environment::new();
    let mut parser = HttpParser::new(env);

    let result = parser.parse_text(content);
    assert!(result.is_err());

    if let Err(e) = result {
        assert!(e.message().contains("Invalid request"));
    }
}

#[test]
fn test_parse_request_with_environment_variables() {
    let content = "
### Request with Env Variables
GET {{BASE_URL}}/api/{{VERSION}}/users
Authorization: Bearer {{API_KEY}}
";

    let mut env = Environment::new();
    env.insert("BASE_URL".to_string(), "https://prod.api.com".to_string());
    env.insert("VERSION".to_string(), "v2".to_string());
    env.insert("API_KEY".to_string(), "prod_key_456".to_string());

    let mut parser = HttpParser::new(env);

    let requests = parser.parse_text(content).unwrap();

    assert_eq!(requests.len(), 1);
    let request = &requests[0];
    assert_eq!(request.url, "https://prod.api.com/api/v2/users");
    assert_eq!(
        request.headers.get("Authorization").unwrap(),
        "Bearer prod_key_456"
    );
}

#[test]
fn test_parse_request_with_mixed_variables() {
    let content = "
@fileVar = file_value

### Mixed Variables Request
GET {{BASE_URL}}/{{fileVar}}
X-File-Var: {{fileVar}}
X-Env-Var: {{ENV_VAR}}
";

    let mut env = Environment::new();
    env.insert("BASE_URL".to_string(), "https://api.com".to_string());
    env.insert("ENV_VAR".to_string(), "env_value".to_string());

    let mut parser = HttpParser::new(env);

    let requests = parser.parse_text(content).unwrap();

    assert_eq!(requests.len(), 1);
    let request = &requests[0];
    assert_eq!(request.url, "https://api.com/file_value");
    assert_eq!(request.headers.get("X-File-Var").unwrap(), "file_value");
    assert_eq!(request.headers.get("X-Env-Var").unwrap(), "env_value");
}

#[test]
fn test_parse_all_http_methods() {
    let content = "
### GET Request
GET https://httpbin.org/get

### POST Request
POST https://httpbin.org/post

### PUT Request
PUT https://httpbin.org/put

### DELETE Request
DELETE https://httpbin.org/delete

### PATCH Request
PATCH https://httpbin.org/patch

### HEAD Request
HEAD https://httpbin.org/get

### OPTIONS Request
OPTIONS https://httpbin.org/get
";

    let env = Environment::new();
    let mut parser = HttpParser::new(env);

    let requests = parser.parse_text(content).unwrap();

    assert_eq!(requests.len(), 7);

    let methods = [
        Method::Get,
        Method::Post,
        Method::Put,
        Method::Delete,
        Method::Patch,
        Method::Head,
        Method::Options,
    ];

    for (i, expected_method) in methods.iter().enumerate() {
        assert_eq!(requests[i].method, *expected_method);
    }
}

#[test]
fn test_parse_request_with_complex_body_and_script() {
    let content = "
### Complex Request
POST https://api.example.com/users
Content-Type: application/json
Authorization: Bearer token123

{
  \"user\": {
    \"name\": \"John Doe\",
    \"email\": \"john@example.com\",
    \"preferences\": {
      \"theme\": \"dark\",
      \"notifications\": true
    }
  }
}

> {%
client.test(\"User creation successful\", function() {
    client.assert(response.status === 201, \"Expected 201 Created\");
    client.assert(response.body.user.id !== undefined, \"User ID should be present\");
});

client.test(\"Response has correct structure\", function() {
    client.assert(typeof response.body.user === \"object\", \"User should be an object\");
    client.assert(response.body.user.name === \"John Doe\", \"Name should match\");
});

// Set global variables for subsequent requests
client.global.set(\"userId\", response.body.user.id);
client.global.set(\"userToken\", response.body.token);
%}
";

    let env = Environment::new();
    let mut parser = HttpParser::new(env);

    let requests = parser.parse_text(content).unwrap();

    assert_eq!(requests.len(), 1);
    let request = &requests[0];

    assert_eq!(request.name, "Complex Request");
    assert_eq!(request.method, Method::Post);
    assert!(request.body.is_some());
    assert!(
        request.response_handler.is_some(),
        "Complex request should have response handler"
    );

    let body = request.body.as_ref().unwrap();
    assert!(body.contains("John Doe"));
    assert!(body.contains("preferences"));

    let script = request.response_handler.as_ref().unwrap();
    assert!(script.contains("User creation successful"));
    assert!(script.contains("client.global.set"));
}

#[test]
fn test_parse_declared_variable_resolves_in_url() {
    // a file-scoped declaration feeds the URL and leaves everything else bare
    let content = "@base = https://x.test
### Get Users
GET {{base}}/users
Accept: application/json
";

    let env = Environment::new();
    let mut parser = HttpParser::new(env);

    let requests = parser.parse_text(content).unwrap();

    assert_eq!(requests.len(), 1);
    let request = &requests[0];
    assert_eq!(request.name, "Get Users");
    assert_eq!(request.method, Method::Get);
    assert_eq!(request.url, "https://x.test/users");
    assert_eq!(request.headers.len(), 1);
    assert_eq!(
        request.headers.get("Accept").unwrap(),
        "application/json"
    );
    assert!(request.body.is_none());
    assert!(request.response_handler.is_none());
}

#[test]
fn test_split_into_sections_keeps_order_and_drops_var_lines() {
    let content = "@k = v
preamble is discarded
### One
GET https://a.test/1

### Two
POST https://a.test/2
";

    let env = Environment::new();
    let parser = HttpParser::new(env);
    let sections = parser.split_into_sections(content);

    assert_eq!(sections.len(), 2);
    assert!(sections[0].starts_with("### One"));
    assert!(!sections[0].contains("@k"));
    assert!(!sections[0].contains("preamble"));
    assert!(sections[1].starts_with("### Two"));
}

#[test]
fn test_parse_file_variables_later_declaration_wins() {
    let content = "@key = first
### R
GET https://a.test
@key = second
";

    let mut env = Environment::new();
    env.insert("key".to_string(), "preloaded".to_string());
    let mut parser = HttpParser::new(env);
    parser.parse_file_variables(content);

    // declarations override the preloaded value, and the later one wins;
    // the parser state is observable through resolution
    let requests = parser.parse_text(content).unwrap();
    assert_eq!(requests.len(), 1);

    let mut env2 = Environment::new();
    env2.insert("key".to_string(), "preloaded".to_string());
    let mut parser2 = HttpParser::new(env2);
    let reqs = parser2
        .parse_text("@key = first\n@key = second\n### R\nGET https://a.test/{{key}}\n")
        .unwrap();
    assert_eq!(reqs[0].url, "https://a.test/second");
}

#[test]
fn test_declaration_inside_section_is_stripped_from_body() {
    // a `@key = value` line takes effect and never reaches a request body,
    // wherever in the file it stands
    let content = "### Post It
POST https://a.test/items
Content-Type: text/plain

line one
@hidden = declared-late
line two
";

    let env = Environment::new();
    let mut parser = HttpParser::new(env);
    let requests = parser.parse_text(content).unwrap();

    assert_eq!(requests.len(), 1);
    let body = requests[0].body.as_ref().unwrap();
    assert_eq!(body, "line one\nline two");

    // and the declaration is visible to resolution in the same document
    let mut parser2 = HttpParser::new(Environment::new());
    let reqs = parser2
        .parse_text("@late = yes\n### R\nGET https://a.test/{{late}}\n")
        .unwrap();
    assert_eq!(reqs[0].url, "https://a.test/yes");
}

#[test]
fn test_parse_crlf_line_endings() {
    let content = "### CRLF Request\r\nGET https://a.test/x\r\nAccept: text/plain\r\n";

    let env = Environment::new();
    let mut parser = HttpParser::new(env);
    let requests = parser.parse_text(content).unwrap();

    assert_eq!(requests.len(), 1);
    assert_eq!(requests[0].url, "https://a.test/x");
    assert_eq!(requests[0].headers.get("Accept").unwrap(), "text/plain");
}

#[test]
fn test_duplicate_header_keys_later_wins() {
    let content = "### Dup
GET https://a.test/x
X-Tag: first
X-Tag: second
";

    let env = Environment::new();
    let mut parser = HttpParser::new(env);
    let requests = parser.parse_text(content).unwrap();

    assert_eq!(requests[0].headers.len(), 1);
    assert_eq!(requests[0].headers.get("X-Tag").unwrap(), "second");
}

#[test]
fn test_header_line_without_colon_is_ignored() {
    let content = "### NoColon
GET https://a.test/x
this line is not a header
Accept: text/plain
";

    let env = Environment::new();
    let mut parser = HttpParser::new(env);
    let requests = parser.parse_text(content).unwrap();

    assert_eq!(requests[0].headers.len(), 1);
    assert_eq!(requests[0].headers.get("Accept").unwrap(), "text/plain");
}

#[test]
fn test_request_line_found_after_comment_lines() {
    let content = "### Commented
# a comment before the request line
GET https://a.test/x
";

    let env = Environment::new();
    let mut parser = HttpParser::new(env);
    let requests = parser.parse_text(content).unwrap();

    assert_eq!(requests.len(), 1);
    assert_eq!(requests[0].method, Method::Get);
}

#[test]
fn test_method_prefix_with_unknown_token_is_invalid_method() {
    // a token that merely begins like a method is selected as the request
    // line but is not a supported method
    let content = "### Strange
GETX https://a.test/x
";

    let env = Environment::new();
    let mut parser = HttpParser::new(env);
    let result = parser.parse_text(content);

    match result {
        Err(e) => assert_eq!(e.message(), "Invalid HTTP method: GETX"),
        Ok(_) => panic!("an unsupported method token must abort the parse"),
    }
}
