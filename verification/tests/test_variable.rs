//! Tests of placeholder resolution.

use httpie::models::Environment;
use httpie::variable::VariableReplacer;

#[test]
fn test_variable_replacer_creation() {
    let env = Environment::new();
    let replacer = VariableReplacer::new(&env);

    let result = replacer.replace("no variables here");
    assert_eq!(result, "no variables here");
}

#[test]
fn test_simple_variable_replacement() {
    let mut env = Environment::new();
    env.insert("baseUrl".to_string(), "https://api.example.com".to_string());
    env.insert("version".to_string(), "v1".to_string());

    let replacer = VariableReplacer::new(&env);

    let result = replacer.replace("{{baseUrl}}/{{version}}/users");
    assert_eq!(result, "https://api.example.com/v1/users");
}

#[test]
fn test_single_variable_replacement() {
    let mut env = Environment::new();
    env.insert("token".to_string(), "abc123".to_string());

    let replacer = VariableReplacer::new(&env);

    let result = replacer.replace("Bearer {{token}}");
    assert_eq!(result, "Bearer abc123");
}

#[test]
fn test_multiple_same_variable() {
    let mut env = Environment::new();
    env.insert("name".to_string(), "test".to_string());

    let replacer = VariableReplacer::new(&env);

    let result = replacer.replace("{{name}}_{{name}}_{{name}}");
    assert_eq!(result, "test_test_test");
}

#[test]
fn test_undefined_variable() {
    let env = Environment::new();
    let replacer = VariableReplacer::new(&env);

    let result = replacer.replace("{{undefined_variable}}");
    assert_eq!(result, "{{undefined_variable}}");
}

#[test]
fn test_mixed_defined_undefined_variables() {
    let mut env = Environment::new();
    env.insert("defined".to_string(), "value".to_string());

    let replacer = VariableReplacer::new(&env);

    let result = replacer.replace("{{defined}} and {{undefined}}");
    assert_eq!(result, "value and {{undefined}}");
}

#[test]
fn test_empty_variable_name() {
    let env = Environment::new();
    let replacer = VariableReplacer::new(&env);

    let result = replacer.replace("{{}}");
    assert_eq!(result, "{{}}");
}

#[test]
fn test_malformed_variable_syntax() {
    let mut env = Environment::new();
    env.insert("test".to_string(), "value".to_string());

    let replacer = VariableReplacer::new(&env);

    assert_eq!(replacer.replace("{test}"), "{test}");
    assert_eq!(replacer.replace("{{test}"), "{{test}");
    assert_eq!(replacer.replace("{test}}"), "{test}}");
    assert_eq!(replacer.replace("{{test"), "{{test");
}

#[test]
fn test_nested_braces() {
    let mut env = Environment::new();
    env.insert("outer".to_string(), "{{inner}}".to_string());
    env.insert("inner".to_string(), "value".to_string());

    let replacer = VariableReplacer::new(&env);
    let result = replacer.replace("{{outer}}");

    assert_eq!(result, "value");
}

#[test]
fn test_variable_with_special_characters() {
    let mut env = Environment::new();
    env.insert(
        "special_var".to_string(),
        "value with spaces and symbols!@#$%".to_string(),
    );
    env.insert(
        "url".to_string(),
        "https://example.com/path?param=value&other=123".to_string(),
    );

    let replacer = VariableReplacer::new(&env);

    let result1 = replacer.replace("{{special_var}}");
    assert_eq!(result1, "value with spaces and symbols!@#$%");

    let result2 = replacer.replace("{{url}}");
    assert_eq!(result2, "https://example.com/path?param=value&other=123");
}

#[test]
fn test_variable_in_json_body() {
    let mut env = Environment::new();
    env.insert("userId".to_string(), "12345".to_string());
    env.insert("userName".to_string(), "john_doe".to_string());

    let replacer = VariableReplacer::new(&env);

    let json_template = "{\n  \"id\": \"{{userId}}\",\n  \"name\": \"{{userName}}\",\n  \"active\": true\n}";

    let result = replacer.replace(json_template);
    let expected = "{\n  \"id\": \"12345\",\n  \"name\": \"john_doe\",\n  \"active\": true\n}";

    assert_eq!(result, expected);
}

#[test]
fn test_variable_in_headers() {
    let mut env = Environment::new();
    env.insert("authToken".to_string(), "Bearer abc123xyz".to_string());
    env.insert("contentType".to_string(), "application/json".to_string());

    let replacer = VariableReplacer::new(&env);

    let auth_header = replacer.replace("Authorization: {{authToken}}");
    assert_eq!(auth_header, "Authorization: Bearer abc123xyz");

    let content_header = replacer.replace("Content-Type: {{contentType}}");
    assert_eq!(content_header, "Content-Type: application/json");
}

#[test]
fn test_empty_string_replacement() {
    let env = Environment::new();
    let replacer = VariableReplacer::new(&env);

    let result = replacer.replace("");
    assert_eq!(result, "");
}

#[test]
fn test_no_variables_in_string() {
    let env = Environment::new();
    let replacer = VariableReplacer::new(&env);

    let input = "This is a plain string with no variables";
    let result = replacer.replace(input);
    assert_eq!(result, input);
}

#[test]
fn test_variable_with_numbers() {
    let mut env = Environment::new();
    env.insert("var1".to_string(), "first".to_string());
    env.insert("var2".to_string(), "second".to_string());
    env.insert("123".to_string(), "numeric".to_string());

    let replacer = VariableReplacer::new(&env);

    assert_eq!(replacer.replace("{{var1}}"), "first");
    assert_eq!(replacer.replace("{{var2}}"), "second");
    assert_eq!(replacer.replace("{{123}}"), "numeric");
}

#[test]
fn test_variable_case_sensitivity() {
    let mut env = Environment::new();
    env.insert("Variable".to_string(), "uppercase".to_string());
    env.insert("variable".to_string(), "lowercase".to_string());
    env.insert("VARIABLE".to_string(), "allcaps".to_string());

    let replacer = VariableReplacer::new(&env);

    assert_eq!(replacer.replace("{{Variable}}"), "uppercase");
    assert_eq!(replacer.replace("{{variable}}"), "lowercase");
    assert_eq!(replacer.replace("{{VARIABLE}}"), "allcaps");
}

#[test]
fn test_whitespace_in_variable_names() {
    let mut env = Environment::new();
    env.insert("var".to_string(), "value".to_string());

    let replacer = VariableReplacer::new(&env);

    assert_eq!(replacer.replace("{{ var }}"), "{{ var }}");
    assert_eq!(replacer.replace("{{var }}"), "{{var }}");
    assert_eq!(replacer.replace("{{ var}}"), "{{ var}}");
}

#[test]
fn test_complex_url_with_multiple_variables() {
    let mut env = Environment::new();
    env.insert("protocol".to_string(), "https".to_string());
    env.insert("host".to_string(), "api.example.com".to_string());
    env.insert("version".to_string(), "v2".to_string());
    env.insert("resource".to_string(), "users".to_string());
    env.insert("id".to_string(), "123".to_string());

    let replacer = VariableReplacer::new(&env);

    let url_template = "{{protocol}}://{{host}}/{{version}}/{{resource}}/{{id}}";
    let result = replacer.replace(url_template);

    assert_eq!(result, "https://api.example.com/v2/users/123");
}

#[test]
fn test_variable_replacement_performance() {
    let mut env = Environment::new();
    for i in 0..100 {
        env.insert(format!("var{}", i), format!("value{}", i));
    }

    let replacer = VariableReplacer::new(&env);

    let mut template = String::new();
    for i in 0..100 {
        template.push_str(&format!("{{{{var{}}}}}", i));
        if i < 99 {
            template.push(',');
        }
    }

    let result = replacer.replace(&template);

    for i in 0..100 {
        assert!(result.contains(&format!("value{}", i)));
    }
    assert!(!result.contains("{{"));
    assert!(!result.contains("}}"));
}

#[test]
fn test_self_referential_variable_terminates() {
    let mut env = Environment::new();
    env.insert("a".to_string(), "{{a}}".to_string());

    let replacer = VariableReplacer::new(&env);

    // a binding that names itself must not loop forever; it resolves to a
    // fixed point and stays there
    let result = replacer.replace("{{a}}");
    assert_eq!(result, "{{a}}");
}

#[test]
fn test_growing_self_reference_stops_at_cap() {
    let mut env = Environment::new();
    env.insert("a".to_string(), "x{{a}}".to_string());

    let replacer = VariableReplacer::new(&env);

    // each round adds one `x`; the cap of ten rounds stops the growth
    let result = replacer.replace("{{a}}");
    assert_eq!(result, "xxxxxxxxxx{{a}}");
}

#[test]
fn test_uuid_generator_token() {
    let env = Environment::new();
    let replacer = VariableReplacer::new(&env);

    let result = replacer.replace("$uuid");
    assert_eq!(result.len(), 36);
    assert_eq!(result.chars().filter(|c| *c == '-').count(), 4);
}

#[test]
fn test_uuid_token_single_value_for_repeats() {
    let env = Environment::new();
    let replacer = VariableReplacer::new(&env);

    let result = replacer.replace("$uuid/$uuid");
    assert_eq!(result.len(), 73);
    let halves: Vec<&str> = result.split('/').collect();
    assert_eq!(halves.len(), 2);
    assert_eq!(halves[0], halves[1]);
}

#[test]
fn test_timestamp_generator_token() {
    let env = Environment::new();
    let replacer = VariableReplacer::new(&env);

    let result = replacer.replace("$timestamp");
    assert!(!result.is_empty());
    assert!(result.chars().all(|c| c.is_ascii_digit()));
    // seconds since the Unix epoch are well past one billion by now
    assert!(result.len() >= 10);
}

#[test]
fn test_random_int_generator_token() {
    let env = Environment::new();
    let replacer = VariableReplacer::new(&env);

    let result = replacer.replace("$randomInt");
    let n: u64 = result.parse().expect("a decimal integer");
    assert!((1..=1000000).contains(&n));
}

#[test]
fn test_process_env_token_with_snapshot() {
    let env = Environment::new();
    let mut penv = httpie::strmap::StringMap::new();
    penv.insert("HOME_DIR".to_string(), "/home/tester".to_string());
    let replacer = VariableReplacer::new(&env).with_process_env(penv);

    assert_eq!(replacer.replace("$processEnv.HOME_DIR/data"), "/home/tester/data");
    // an unbound name resolves to the empty string
    assert_eq!(replacer.replace("[$processEnv.NO_SUCH_NAME]"), "[]");
}

#[test]
fn test_replace_user_variables_only() {
    let mut env = Environment::new();
    env.insert("key".to_string(), "val".to_string());
    let replacer = VariableReplacer::new(&env);

    assert_eq!(replacer.replace_user_variables("{{key}}"), "val");
}

#[test]
fn test_uuid_value_is_hex_and_hyphens() {
    let env = Environment::new();
    let replacer = VariableReplacer::new(&env);

    // the substituted identifier holds only lower-hex digits and hyphens, so
    // it can never form a placeholder that a later pass would rewrite
    let result = replacer.replace("$uuid");
    assert!(result
        .chars()
        .all(|c| c.is_ascii_hexdigit() && !c.is_ascii_uppercase() || c == '-'));
}
