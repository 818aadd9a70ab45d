//! Rendering of responses and test results as text, and the selection of a
//! request by name.  Printing itself, like the transport, stays outside the
//! library.

use crate::models::HttpRequest;
use crate::script::{ResponseObject, TestResult};
use crate::text::{chars_of, contains_pat, contains_sub, dec_of, push_all, string_of, trim_chars,
    u64_to_chars};
use crate::json::json_text;
use vstd::prelude::*;

verus! {

/// One rendered test result: a pass or fail mark, the test's name, and its
/// message when it carries one.
pub open spec fn test_result_line(t: TestResult) -> Seq<char> {
    (if t.passed {
        "\u{2713} PASS "@
    } else {
        "\u{2717} FAIL "@
    }) + t.name@ + seq!['\n'] + (match t.message {
        Option::Some(m) => "  Message: "@ + m@ + seq!['\n'],
        Option::None => Seq::<char>::empty(),
    })
}

pub open spec fn test_result_lines(ts: Seq<TestResult>) -> Seq<char>
    decreases ts.len(),
{
    if ts.len() == 0 {
        Seq::empty()
    } else {
        test_result_line(ts[0]) + test_result_lines(ts.drop_first())
    }
}

/// The rendering of a request's test results: empty when there are none, else
/// a heading, one line per result in order, and a closing blank line.
pub open spec fn test_results_text(name: Seq<char>, ts: Seq<TestResult>) -> Seq<char> {
    if ts.len() == 0 {
        Seq::empty()
    } else {
        "\n=== Test Results for "@ + name + " ===\n"@ + test_result_lines(ts) + seq!['\n']
    }
}

/// One rendered header line.
pub open spec fn header_line(kv: (Seq<char>, Seq<char>)) -> Seq<char> {
    "  "@ + kv.0 + ": \""@ + kv.1 + "\"\n"@
}

pub open spec fn header_lines(es: Seq<(Seq<char>, Seq<char>)>) -> Seq<char>
    decreases es.len(),
{
    if es.len() == 0 {
        Seq::empty()
    } else {
        header_line(es[0]) + header_lines(es.drop_first())
    }
}

/// The rendered body region: nothing for a blank text body, the text and a
/// newline otherwise, and the serialized value for a structured body.
pub open spec fn body_text(body: crate::json::JsonValue) -> Seq<char> {
    match body {
        crate::json::JsonValue::Text(s) => if crate::text::trim_seq(s@).len() == 0 {
            Seq::<char>::empty()
        } else {
            s@ + seq!['\n']
        },
        _ => json_text(body) + seq!['\n'],
    }
}

/// The rendering of a response: heading, status line, headers when any, and
/// the body, closed by a blank line.
pub open spec fn response_text(name: Seq<char>, r: ResponseObject) -> Seq<char> {
    "=== "@ + name + " ===\n"@ + "Status: "@ + dec_of(r.status as nat) + seq!['\n'] + (if r
        .headers.entries().len() == 0 {
        Seq::<char>::empty()
    } else {
        "Headers:\n"@ + header_lines(r.headers.entries())
    }) + "Body:\n"@ + body_text(r.body) + seq!['\n']
}

/// What a run does when one request fails: stop there, or go on with the
/// remaining requests.
#[derive(Clone, Copy, Debug, PartialEq, Eq, Structural)]
pub enum RunPolicy {
    AbortOnError,
    ContinueOnError,
}

/// Whether a run under this policy goes on after a failed request.
pub fn continues_after_error(policy: RunPolicy) -> (r: bool)
    ensures
        r == (policy == RunPolicy::ContinueOnError),
{
    match policy {
        RunPolicy::AbortOnError => false,
        RunPolicy::ContinueOnError => true,
    }
}

/// Renders responses and test results for display.
#[derive(Debug)]
pub struct ResponseFormatter;

impl ResponseFormatter {
    pub fn new() -> (r: Self)
        ensures
            true,
    {
        ResponseFormatter
    }

    /// The displayed form of a request's test results; empty when the script
    /// recorded none.
    pub fn render_test_results(&self, request_name: &str, test_results: &Vec<TestResult>) -> (r:
        String)
        ensures
            r@ == test_results_text(request_name@, test_results@),
    {
        if test_results.len() == 0 {
            let r = String::new();
            return r;
        }
        let mut out: Vec<char> = Vec::new();
        push_all(&mut out, &chars_of("\n=== Test Results for "));
        push_all(&mut out, &chars_of(request_name));
        push_all(&mut out, &chars_of(" ===\n"));
        let ghost base = out@;
        let mut i: usize = 0;
        proof {
            assert(test_result_lines(test_results@.take(0)) =~= Seq::<char>::empty());
            assert(base + test_result_lines(test_results@.take(0)) =~= base);
        }
        while i < test_results.len()
            invariant
                i <= test_results@.len(),
                out@ == base + test_result_lines(test_results@.take(i as int)),
            decreases test_results@.len() - i,
        {
            let ghost pre = out@;
            let t = &test_results[i];
            if t.passed {
                push_all(&mut out, &chars_of("\u{2713} PASS "));
            } else {
                push_all(&mut out, &chars_of("\u{2717} FAIL "));
            }
            push_all(&mut out, &chars_of(t.name.as_str()));
            out.push('\n');
            match &t.message {
                Some(m) => {
                    push_all(&mut out, &chars_of("  Message: "));
                    push_all(&mut out, &chars_of(m.as_str()));
                    out.push('\n');
                },
                None => {},
            }
            proof {
                assert(out@ =~= pre + test_result_line(test_results@[i as int]));
                lemma_test_result_lines_push(test_results@.take(i as int), test_results@[i as int]);
                assert(test_results@.take(i + 1) =~= test_results@.take(i as int).push(
                    test_results@[i as int],
                ));
            }
            i = i + 1;
        }
        out.push('\n');
        proof {
            assert(test_results@.take(test_results@.len() as int) =~= test_results@);
            assert(out@ =~= test_results_text(request_name@, test_results@));
        }
        string_of(&out)
    }

    /// The displayed form of a response snapshot.
    pub fn render_response_from_object(&self, request_name: &str, response: &ResponseObject) -> (r:
        String)
        ensures
            r@ == response_text(request_name@, *response),
    {
        let mut out: Vec<char> = Vec::new();
        push_all(&mut out, &chars_of("=== "));
        push_all(&mut out, &chars_of(request_name));
        push_all(&mut out, &chars_of(" ===\n"));
        push_all(&mut out, &chars_of("Status: "));
        push_all(&mut out, &u64_to_chars(response.status as u64));
        out.push('\n');
        let hs = response.headers.pairs();
        if hs.len() > 0 {
            push_all(&mut out, &chars_of("Headers:\n"));
            let ghost es = response.headers.entries();
            let ghost base = out@;
            let mut i: usize = 0;
            proof {
                assert(header_lines(es.take(0)) =~= Seq::<char>::empty());
                assert(base + header_lines(es.take(0)) =~= base);
            }
            while i < hs.len()
                invariant
                    i <= hs@.len(),
                    crate::strmap::entry_views(hs@) == es,
                    out@ == base + header_lines(es.take(i as int)),
                decreases hs@.len() - i,
            {
                let ghost pre = out@;
                push_all(&mut out, &chars_of("  "));
                push_all(&mut out, &chars_of(hs[i].0.as_str()));
                push_all(&mut out, &chars_of(": \""));
                push_all(&mut out, &chars_of(hs[i].1.as_str()));
                push_all(&mut out, &chars_of("\"\n"));
                proof {
                    assert(es[i as int] == (hs@[i as int].0@, hs@[i as int].1@));
                    assert(out@ =~= pre + header_line(es[i as int]));
                    lemma_header_lines_push(es.take(i as int), es[i as int]);
                    assert(es.take(i + 1) =~= es.take(i as int).push(es[i as int]));
                }
                i = i + 1;
            }
            proof {
                assert(es.take(es.len() as int) =~= es);
            }
        }
        push_all(&mut out, &chars_of("Body:\n"));
        match &response.body {
            crate::json::JsonValue::Text(s) => {
                let cs = chars_of(s.as_str());
                let trimmed = trim_chars(&cs);
                if trimmed.len() > 0 {
                    push_all(&mut out, &cs);
                    out.push('\n');
                }
            },
            other => {
                push_all(&mut out, &chars_of(crate::json::to_json_text(other).as_str()));
                out.push('\n');
            },
        }
        out.push('\n');
        proof {
            assert(out@ =~= response_text(request_name@, *response));
        }
        string_of(&out)
    }
}

impl Default for ResponseFormatter {
    /// The formatter has no state.
    fn default() -> (r: Self)
        ensures
            true,
    {
        ResponseFormatter::new()
    }
}

proof fn lemma_test_result_lines_push(ts: Seq<TestResult>, t: TestResult)
    ensures
        test_result_lines(ts.push(t)) == test_result_lines(ts) + test_result_line(t),
    decreases ts.len(),
{
    if ts.len() == 0 {
        assert(ts.push(t)[0] == t);
        assert(ts.push(t).drop_first() =~= Seq::<TestResult>::empty());
        assert(test_result_lines(ts.push(t)) == test_result_line(t) + test_result_lines(
            Seq::<TestResult>::empty(),
        ));
        assert(test_result_line(t) + Seq::<char>::empty() =~= Seq::<char>::empty()
            + test_result_line(t));
    } else {
        assert(ts.push(t).drop_first() =~= ts.drop_first().push(t));
        lemma_test_result_lines_push(ts.drop_first(), t);
        assert(ts.push(t)[0] == ts[0]);
        assert(test_result_line(ts[0]) + (test_result_lines(ts.drop_first()) + test_result_line(
            t,
        )) =~= (test_result_line(ts[0]) + test_result_lines(ts.drop_first())) + test_result_line(
            t,
        ));
    }
}

proof fn lemma_header_lines_push(es: Seq<(Seq<char>, Seq<char>)>, e: (Seq<char>, Seq<char>))
    ensures
        header_lines(es.push(e)) == header_lines(es) + header_line(e),
    decreases es.len(),
{
    if es.len() == 0 {
        assert(es.push(e)[0] == e);
        assert(es.push(e).drop_first() =~= Seq::<(Seq<char>, Seq<char>)>::empty());
        assert(header_lines(es.push(e)) == header_line(e) + header_lines(
            Seq::<(Seq<char>, Seq<char>)>::empty(),
        ));
        assert(header_line(e) + Seq::<char>::empty() =~= Seq::<char>::empty() + header_line(e));
    } else {
        assert(es.push(e).drop_first() =~= es.drop_first().push(e));
        lemma_header_lines_push(es.drop_first(), e);
        assert(es.push(e)[0] == es[0]);
        assert(header_line(es[0]) + (header_lines(es.drop_first()) + header_line(e)) =~= (
        header_line(es[0]) + header_lines(es.drop_first())) + header_line(e));
    }
}

/// Index of the first request whose name holds the given text; an empty text
/// matches every name.
pub fn find_matching_request(requests: &Vec<HttpRequest>, case_name: &str) -> (r: Option<usize>)
    ensures
        r is Some ==> r->Some_0 < requests@.len() && (case_name@.len() == 0 || contains_sub(
            requests@[r->Some_0 as int].name@,
            case_name@,
        )) && (forall|j: int|
            0 <= j < r->Some_0 ==> !(case_name@.len() == 0 || contains_sub(
                (#[trigger] requests@[j]).name@,
                case_name@,
            ))),
        r is None ==> forall|j: int|
            0 <= j < requests@.len() ==> !(case_name@.len() == 0 || contains_sub(
                (#[trigger] requests@[j]).name@,
                case_name@,
            )),
{
    let pat = chars_of(case_name);
    let mut i: usize = 0;
    while i < requests.len()
        invariant
            i <= requests@.len(),
            pat@ == case_name@,
            forall|j: int|
                0 <= j < i ==> !(case_name@.len() == 0 || contains_sub(
                    (#[trigger] requests@[j]).name@,
                    case_name@,
                )),
        decreases requests@.len() - i,
    {
        let hit = if pat.len() == 0 {
            true
        } else {
            let name = chars_of(requests[i].name.as_str());
            contains_pat(&name, &pat)
        };
        if hit {
            return Some(i);
        }
        i = i + 1;
    }
    None
}

} // verus!
