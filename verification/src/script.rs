//! The response-script protocol.  A response handler runs in a sandboxed
//! interpreter that this library does not contain: the library builds the
//! script that prepares the sandbox (the response value and the `client`
//! API), and interprets what the sandbox hands back — a JSON rendering of the
//! recorded test results and of the global variable store.  The caller owns
//! the interpreter, feeds it these scripts, and returns their output here.

use crate::error::HttpieError;
use crate::json::{
    JsonMap, JsonValue, jentry_views, json_parses, json_string, json_text, json_value_of, obj_get,
    obj_lookup, to_json_text,
};
use crate::strmap::StringMap;
use crate::text::{chars_of, contains_pat, contains_sub, dec_of, push_all, string_of, u64_to_chars};
use vstd::prelude::*;

verus! {

/// Opens the sandbox environment, up to the response value.
pub const SETUP_PREFIX: &'static str = "globalThis.__httpie_globals = globalThis.__httpie_globals || {};\nglobalThis.__httpie_tests = [];\nglobalThis.response = ";

/// Closes the sandbox environment: the `client` API, a quiet console, and a
/// bare `assert`.
pub const SETUP_SUFFIX: &'static str = ";\nglobalThis.client = {\n    global: {\n        set: function(key, value) { globalThis.__httpie_globals[key] = value; },\n        get: function(key) { return globalThis.__httpie_globals[key]; }\n    },\n    test: function(name, testFn) {\n        try {\n            testFn();\n            globalThis.__httpie_tests.push({ name: name, passed: true, message: null });\n        } catch (error) {\n            globalThis.__httpie_tests.push({ name: name, passed: false, message: error.message });\n        }\n    },\n    assert: function(condition, message) {\n        if (!condition) { throw new Error(message || 'Assertion failed'); }\n    }\n};\nglobalThis.console = { log: function() {} };\nglobalThis.assert = function(condition, message) {\n    if (!condition) { throw new Error(message || 'Assertion failed'); }\n};\n";

/// Renders the recorded test results as JSON.
pub const TESTS_EXTRACTION_SCRIPT: &'static str =
    "JSON.stringify(globalThis.__httpie_tests || []);";

/// Renders the global variable store as JSON.
pub const GLOBALS_EXTRACTION_SCRIPT: &'static str =
    "JSON.stringify(globalThis.__httpie_globals || {});";

// ---------------------------------------------------------------------------
// the data carried across the boundary
// ---------------------------------------------------------------------------

/// One test recorded by a script, in declaration order.
#[derive(Debug)]
pub struct TestResult {
    pub name: String,
    pub passed: bool,
    pub message: Option<String>,
}

impl Clone for TestResult {
    /// A copy with the same fields.
    fn clone(&self) -> (r: Self)
        ensures
            r.name@ == self.name@,
            r.passed == self.passed,
            (r.message is Some <==> self.message is Some),
            r.message is Some ==> r.message->0@ == self.message->0@,
    {
        TestResult {
            name: self.name.clone(),
            passed: self.passed,
            message: match &self.message {
                Some(m) => Some(m.clone()),
                None => None,
            },
        }
    }
}

/// The characters of `application/json`.
pub open spec fn json_content_type() -> Seq<char> {
    seq![
        'a',
        'p',
        'p',
        'l',
        'i',
        'c',
        'a',
        't',
        'i',
        'o',
        'n',
        '/',
        'j',
        's',
        'o',
        'n',
    ]
}

/// A canonical snapshot of a received response, independent of the transport.
#[derive(Debug)]
pub struct ResponseObject {
    pub status: u16,
    pub headers: StringMap,
    pub body: JsonValue,
    pub content_type: String,
}

impl ResponseObject {
    /// Assemble a response snapshot from its plain parts.  A body under a
    /// JSON content type is parsed into a structured value where it parses;
    /// any other body is kept as its text.
    pub fn from_parts(
        status: u16,
        headers: StringMap,
        body_text: String,
        content_type: String,
    ) -> (r: Self)
        ensures
            r.status == status,
            r.headers == headers,
            r.content_type@ == content_type@,
            !contains_sub(content_type@, json_content_type()) ==> r.body == JsonValue::Text(
                body_text,
            ),
            contains_sub(content_type@, json_content_type()) ==> r.body == (
            if json_parses(body_text@) {
                json_value_of(body_text@)
            } else {
                JsonValue::Text(body_text)
            }),
    {
        let ct = chars_of(content_type.as_str());
        let pat = vec![
            'a',
            'p',
            'p',
            'l',
            'i',
            'c',
            'a',
            't',
            'i',
            'o',
            'n',
            '/',
            'j',
            's',
            'o',
            'n',
        ];
        proof {
            assert(pat@ =~= json_content_type());
        }
        let body = if contains_pat(&ct, &pat) {
            match crate::json::parse_json_text(body_text.as_str()) {
                Ok(v) => v,
                Err(_) => JsonValue::Text(body_text),
            }
        } else {
            JsonValue::Text(body_text)
        };
        ResponseObject { status, headers, body, content_type }
    }
}

impl Clone for ResponseObject {
    /// A copy with the same status, headers, content type and a body that
    /// serializes identically.
    fn clone(&self) -> (r: Self)
        ensures
            r.status == self.status,
            r.headers@ == self.headers@,
            r.headers.entries() == self.headers.entries(),
            json_text(r.body) == json_text(self.body),
            r.content_type@ == self.content_type@,
    {
        ResponseObject {
            status: self.status,
            headers: self.headers.clone(),
            body: self.body.clone(),
            content_type: self.content_type.clone(),
        }
    }
}

// ---------------------------------------------------------------------------
// the setup script
// ---------------------------------------------------------------------------

/// The members of the response's header object, in header order.
pub open spec fn headers_members(es: Seq<(Seq<char>, Seq<char>)>) -> Seq<char>
    decreases es.len(),
{
    if es.len() == 0 {
        Seq::empty()
    } else if es.len() == 1 {
        json_string(es[0].0) + seq![':'] + json_string(es[0].1)
    } else {
        json_string(es[0].0) + seq![':'] + json_string(es[0].1) + seq![','] + headers_members(
            es.drop_first(),
        )
    }
}

/// The JSON rendering of a response: status, headers, body, content type.
pub open spec fn response_json_text(
    status: u16,
    headers: Seq<(Seq<char>, Seq<char>)>,
    body: JsonValue,
    ct: Seq<char>,
) -> Seq<char> {
    "{\"status\":"@ + dec_of(status as nat) + ",\"headers\":{"@ + headers_members(headers)
        + "},\"body\":"@ + json_text(body) + ",\"contentType\":"@ + json_string(ct) + "}"@
}

/// The whole setup script for one response.
pub open spec fn setup_script_text(
    status: u16,
    headers: Seq<(Seq<char>, Seq<char>)>,
    body: JsonValue,
    ct: Seq<char>,
) -> Seq<char> {
    SETUP_PREFIX@ + response_json_text(status, headers, body, ct) + SETUP_SUFFIX@
}

proof fn lemma_headers_members_split(es: Seq<(Seq<char>, Seq<char>)>, i: int)
    requires
        0 < i < es.len(),
    ensures
        headers_members(es.skip(i - 1)) == json_string(es[i - 1].0) + seq![':'] + json_string(
            es[i - 1].1,
        ) + seq![','] + headers_members(es.skip(i)),
{
    let s = es.skip(i - 1);
    assert(s.len() >= 2);
    assert(s[0] == es[i - 1]);
    assert(s.drop_first() =~= es.skip(i));
}

fn headers_members_into(out: &mut Vec<char>, headers: &StringMap)
    ensures
        final(out)@ == old(out)@ + headers_members(headers.entries()),
{
    let ps = headers.pairs();
    let ghost es = headers.entries();
    let ghost base = old(out)@;
    let mut i: usize = 0;
    while i < ps.len()
        invariant
            i <= ps@.len(),
            crate::strmap::entry_views(ps@) == es,
            i == 0 ==> out@ == base,
            i > 0 ==> base + headers_members(es) == out@ + (if i < ps@.len() {
                seq![','] + headers_members(es.skip(i as int))
            } else {
                Seq::<char>::empty()
            }),
        decreases ps@.len() - i,
    {
        if i > 0 {
            out.push(',');
        }
        let ghost pre = out@;
        crate::json::string_into(out, ps[i].0.as_str());
        out.push(':');
        crate::json::string_into(out, ps[i].1.as_str());
        proof {
            assert(es[i as int] == (ps@[i as int].0@, ps@[i as int].1@));
            assert(out@ =~= pre + (json_string(es[i as int].0) + seq![':'] + json_string(
                es[i as int].1,
            )));
            if i == 0 {
                if es.len() == 1 {
                    assert(headers_members(es) == json_string(es[0].0) + seq![':'] + json_string(
                        es[0].1,
                    ));
                    assert(base + headers_members(es) =~= out@ + Seq::<char>::empty());
                } else {
                    assert(es.drop_first() =~= es.skip(1));
                    assert(base + headers_members(es) =~= out@ + (seq![','] + headers_members(
                        es.skip(1),
                    )));
                }
            } else {
                if i + 1 < es.len() {
                    lemma_headers_members_split(es, i + 1);
                    assert(base + headers_members(es) =~= out@ + (seq![','] + headers_members(
                        es.skip(i + 1),
                    )));
                } else {
                    assert(es.skip(i as int).len() == 1);
                    assert(es.skip(i as int)[0] == es[i as int]);
                    assert(headers_members(es.skip(i as int)) == json_string(es[i as int].0)
                        + seq![':'] + json_string(es[i as int].1));
                    assert(base + headers_members(es) =~= out@ + Seq::<char>::empty());
                }
            }
        }
        i = i + 1;
    }
    proof {
        if es.len() == 0 {
            assert(headers_members(es) == Seq::<char>::empty());
            assert(base + headers_members(es) =~= base);
        }
        assert(base + headers_members(es) =~= out@);
    }
}

// ---------------------------------------------------------------------------
// interpreting what the sandbox hands back
// ---------------------------------------------------------------------------

/// The test a JSON value describes: an object with a string `name`, a boolean
/// `passed`, and an absent, null or string `message`.
pub open spec fn test_of_json(v: JsonValue) -> Option<(Seq<char>, bool, Option<Seq<char>>)> {
    match v {
        JsonValue::Object(ps) => {
            let n = obj_lookup(ps@, "name"@);
            let p = obj_lookup(ps@, "passed"@);
            if n is Some && n->0 is Text && p is Some && p->0 is Bool {
                match obj_lookup(ps@, "message"@) {
                    Option::None => Some((n->0->Text_0@, p->0->Bool_0, None)),
                    Option::Some(m) => match m {
                        JsonValue::Null => Some((n->0->Text_0@, p->0->Bool_0, None)),
                        JsonValue::Text(t) => Some((n->0->Text_0@, p->0->Bool_0, Some(t@))),
                        _ => None,
                    },
                }
            } else {
                None
            }
        },
        _ => None,
    }
}

/// Every element of the array describes a test.
pub open spec fn all_tests_ok(a: Seq<JsonValue>) -> bool {
    forall|i: int| 0 <= i < a.len() ==> (#[trigger] test_of_json(a[i])) is Some
}

/// The results carry exactly the tests the array describes, in array order.
pub open spec fn results_match_tests(rs: Seq<TestResult>, a: Seq<JsonValue>) -> bool {
    &&& rs.len() == a.len()
    &&& forall|i: int|
        0 <= i < a.len() ==> {
            let t = (#[trigger] test_of_json(a[i]))->0;
            &&& rs[i].name@ == t.0
            &&& rs[i].passed == t.1
            &&& (rs[i].message is Some <==> t.2 is Some)
            &&& (t.2 is Some ==> rs[i].message->0@ == t.2->0)
        }
}

/// The sandbox's test-list rendering is well-formed: a JSON array whose
/// elements each describe a test.
pub open spec fn tests_json_ok(s: Seq<char>) -> bool {
    &&& json_parses(s)
    &&& json_value_of(s) is Array
    &&& all_tests_ok(json_value_of(s)->Array_0@)
}

/// The sandbox's global-store rendering is well-formed: a JSON object.
pub open spec fn globals_json_ok(s: Seq<char>) -> bool {
    json_parses(s) && json_value_of(s) is Object
}

/// The store after absorbing members in order; a later member overrides an
/// earlier one with the same key.
pub open spec fn store_after(
    m: Map<Seq<char>, JsonValue>,
    ps: Seq<(Seq<char>, JsonValue)>,
) -> Map<Seq<char>, JsonValue>
    decreases ps.len(),
{
    if ps.len() == 0 {
        m
    } else {
        store_after(m.insert(ps[0].0, ps[0].1), ps.drop_first())
    }
}

fn test_from_json(v: &JsonValue) -> (r: Option<TestResult>)
    ensures
        match test_of_json(*v) {
            Some(t) => r is Some && r->0.name@ == t.0 && r->0.passed == t.1 && (r->0.message
                is Some <==> t.2 is Some) && (t.2 is Some ==> r->0.message->0@ == t.2->0),
            None => r is None,
        },
{
    match v {
        JsonValue::Object(ps) => {
            let name = match obj_get(ps, "name") {
                Some(JsonValue::Text(s)) => s.clone(),
                _ => {
                    return None;
                },
            };
            let passed = match obj_get(ps, "passed") {
                Some(JsonValue::Bool(b)) => *b,
                _ => {
                    return None;
                },
            };
            let message = match obj_get(ps, "message") {
                None => None,
                Some(JsonValue::Null) => None,
                Some(JsonValue::Text(t)) => Some(t.clone()),
                _ => {
                    return None;
                },
            };
            Some(TestResult { name, passed, message })
        },
        _ => None,
    }
}

/// Interpret the sandbox's JSON rendering of its recorded tests: an array of
/// test objects yields the results in array order; any other shape is a
/// script error.
pub fn tests_from_json(v: &JsonValue) -> (r: Result<Vec<TestResult>, HttpieError>)
    ensures
        ({
            match *v {
                JsonValue::Array(a) => {
                    &&& (all_tests_ok(a@) ==> r is Ok && results_match_tests(r->Ok_0@, a@))
                    &&& (!all_tests_ok(a@) ==> r is Err && r->Err_0 is ScriptError)
                },
                _ => r is Err && r->Err_0 is ScriptError,
            }
        }),
{
    match v {
        JsonValue::Array(a) => {
            let mut out: Vec<TestResult> = Vec::new();
            let mut i: usize = 0;
            while i < a.len()
                invariant
                    *v == JsonValue::Array(*a),
                    i <= a@.len(),
                    out@.len() == i as int,
                    forall|j: int| 0 <= j < i ==> (#[trigger] test_of_json(a@[j])) is Some,
                    forall|j: int|
                        0 <= j < i ==> {
                            let t = (#[trigger] test_of_json(a@[j]))->0;
                            &&& out@[j].name@ == t.0
                            &&& out@[j].passed == t.1
                            &&& (out@[j].message is Some <==> t.2 is Some)
                            &&& (t.2 is Some ==> out@[j].message->0@ == t.2->0)
                        },
                decreases a@.len() - i,
            {
                match test_from_json(&a[i]) {
                    Some(t) => {
                        out.push(t);
                    },
                    None => {
                        proof {
                            assert(!all_tests_ok(a@)) by {
                                assert(test_of_json(a@[i as int]) is None);
                            }
                        }
                        return Err(
                            HttpieError::ScriptError(
                                "Failed to parse test results: unexpected test entry".to_owned(),
                            ),
                        );
                    },
                }
                i = i + 1;
            }
            Ok(out)
        },
        _ => Err(
            HttpieError::ScriptError(
                "Failed to parse test results: expected an array".to_owned(),
            ),
        ),
    }
}

// ---------------------------------------------------------------------------
// the engine
// ---------------------------------------------------------------------------

/// The sandbox-side state the library owns: the global variable store, which
/// persists across executions and is never merged back into the document's
/// variable environment.
#[derive(Debug)]
pub struct ScriptEngine {
    global_variables: JsonMap,
}

impl ScriptEngine {
    pub closed spec fn globals(&self) -> Map<Seq<char>, JsonValue> {
        self.global_variables@
    }

    /// A fresh engine: its global store is empty.
    pub fn new() -> (r: Self)
        ensures
            r.globals() == Map::<Seq<char>, JsonValue>::empty(),
    {
        ScriptEngine { global_variables: JsonMap::new() }
    }

    /// The script that prepares the sandbox for one response: the globals and
    /// test list, the response value, and the `client` API.
    pub fn setup_script(&self, response: &ResponseObject) -> (r: String)
        ensures
            r@ == setup_script_text(
                response.status,
                response.headers.entries(),
                response.body,
                response.content_type@,
            ),
    {
        let mut out: Vec<char> = Vec::new();
        push_all(&mut out, &chars_of(SETUP_PREFIX));
        push_all(&mut out, &chars_of("{\"status\":"));
        push_all(&mut out, &u64_to_chars(response.status as u64));
        push_all(&mut out, &chars_of(",\"headers\":{"));
        headers_members_into(&mut out, &response.headers);
        push_all(&mut out, &chars_of("},\"body\":"));
        push_all(&mut out, &chars_of(to_json_text(&response.body).as_str()));
        push_all(&mut out, &chars_of(",\"contentType\":"));
        crate::json::string_into(&mut out, response.content_type.as_str());
        push_all(&mut out, &chars_of("}"));
        push_all(&mut out, &chars_of(SETUP_SUFFIX));
        proof {
            assert(out@ =~= setup_script_text(
                response.status,
                response.headers.entries(),
                response.body,
                response.content_type@,
            ));
        }
        string_of(&out)
    }

    /// Close one execution.  A failure of the script itself discards every
    /// partial result and leaves the global store untouched.  Otherwise the
    /// sandbox's JSON renderings are interpreted: a well-formed test list
    /// comes back as results in recorded order, the members of a well-formed
    /// global object extend the store in member order, and a malformed
    /// rendering of either is a script error that leaves the store alone.
    pub fn finish_execution(
        &mut self,
        run_error: Option<String>,
        tests_json: &str,
        globals_json: &str,
    ) -> (r: Result<Vec<TestResult>, HttpieError>)
        ensures
            run_error is Some ==> r is Err && r->Err_0 is ScriptError
                && r->Err_0->ScriptError_0@ == "Script execution failed: "@ + run_error->0@,
            r is Err ==> final(self).globals() == old(self).globals(),
            r is Ok ==> run_error is None,
            run_error is None && !tests_json_ok(tests_json@) ==> r is Err && r->Err_0
                is ScriptError,
            run_error is None && tests_json_ok(tests_json@) && !globals_json_ok(globals_json@)
                ==> r is Err && r->Err_0 is ScriptError,
            run_error is None && tests_json_ok(tests_json@) && globals_json_ok(globals_json@)
                ==> r is Ok && results_match_tests(
                r->Ok_0@,
                json_value_of(tests_json@)->Array_0@,
            ) && final(self).globals() == store_after(
                old(self).globals(),
                jentry_views(json_value_of(globals_json@)->Object_0@),
            ),
    {
        match run_error {
            Some(m) => {
                let mut msg = "Script execution failed: ".to_owned();
                msg.append(m.as_str());
                Err(HttpieError::ScriptError(msg))
            },
            None => {
                let tv = match crate::json::parse_json_text(tests_json) {
                    Ok(v) => v,
                    Err(e) => {
                        let mut msg = "Failed to parse test results: ".to_owned();
                        msg.append(e.as_str());
                        return Err(HttpieError::ScriptError(msg));
                    },
                };
                let results = match tests_from_json(&tv) {
                    Ok(rs) => rs,
                    Err(e) => {
                        return Err(e);
                    },
                };
                let gv = match crate::json::parse_json_text(globals_json) {
                    Ok(v) => v,
                    Err(e) => {
                        let mut msg = "Failed to parse global variables: ".to_owned();
                        msg.append(e.as_str());
                        return Err(HttpieError::ScriptError(msg));
                    },
                };
                match gv {
                    JsonValue::Object(pairs) => {
                        let ghost members = jentry_views(pairs@);
                        let ghost g0 = self.global_variables@;
                        let mut rest = pairs;
                        while rest.len() > 0
                            invariant
                                store_after(g0, members) == store_after(
                                    self.global_variables@,
                                    jentry_views(rest@),
                                ),
                            decreases rest@.len(),
                        {
                            let ghost pre = jentry_views(rest@);
                            let ghost gpre = self.global_variables@;
                            let kv = rest.remove(0);
                            proof {
                                assert(pre[0] == (kv.0@, kv.1));
                                assert(jentry_views(rest@) =~= pre.drop_first());
                            }
                            self.global_variables.insert(kv.0, kv.1);
                            proof {
                                assert(store_after(gpre, pre) == store_after(
                                    gpre.insert(pre[0].0, pre[0].1),
                                    pre.drop_first(),
                                ));
                            }
                        }
                        proof {
                            assert(jentry_views(rest@) =~= Seq::<(Seq<char>, JsonValue)>::empty());
                            assert(store_after(g0, members) == self.global_variables@);
                        }
                    },
                    _ => {
                        return Err(
                            HttpieError::ScriptError(
                                "Failed to parse global variables: expected an object".to_owned(),
                            ),
                        );
                    },
                }
                Ok(results)
            },
        }
    }

    /// The stored value of one global variable.
    pub fn get_global_variable(&self, key: &str) -> (r: Option<&JsonValue>)
        ensures
            self.globals().contains_key(key@) ==> r is Some && *r->Some_0 == self.globals()[key@],
            !self.globals().contains_key(key@) ==> r is None,
    {
        self.global_variables.get(key)
    }

    /// The whole global store.
    pub fn get_all_global_variables(&self) -> (r: &JsonMap)
        ensures
            r@ == self.globals(),
    {
        &self.global_variables
    }
}

impl Default for ScriptEngine {
    /// A fresh engine with an empty global store.
    fn default() -> (r: Self)
        ensures
            r.globals() == Map::<Seq<char>, JsonValue>::empty(),
    {
        ScriptEngine::new()
    }
}

} // verus!
