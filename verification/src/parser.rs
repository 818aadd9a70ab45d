//! The document parser.  A document is a sequence of lines: `@key = value`
//! lines declare file-scoped variables wherever they stand; `###` lines open
//! named sections; within a section the first line whose trimmed form begins
//! with a supported method name is the request line, colon lines up to the
//! first blank line are headers, and the rest is the body, up to an optional
//! script block between a line holding `> {%` and a line holding `%}`.

use crate::error::HttpieError;
use crate::models::{Environment, HttpRequest, Method, method_name, method_of};
use crate::strmap::StringMap;
use crate::text::{
    chars_of, contains_pat, contains_sub, find_sub, find_sub_at, is_space, is_space_char, join_nl,
    lemma_join_nl_push, push_all, split_lines, split_lines_chars, starts_with_at,
    starts_with_seq, string_of, subvec, trim_chars, trim_seq, views_of,
};
use crate::variable::{VariableReplacer, resolved_of};
use vstd::prelude::*;

verus! {

// ---------------------------------------------------------------------------
// line classification
// ---------------------------------------------------------------------------

/// The characters of `###`.
pub open spec fn section_marker() -> Seq<char> {
    seq!['#', '#', '#']
}

/// The characters of the script-opening marker `> {%`.
pub open spec fn script_open_marker() -> Seq<char> {
    seq!['>', ' ', '{', '%']
}

/// The characters of the script-closing marker `%}`.
pub open spec fn script_close_marker() -> Seq<char> {
    seq!['%', '}']
}

/// A `@key = value` declaration line.
pub open spec fn is_var_line(l: Seq<char>) -> bool {
    trim_seq(l).len() > 0 && trim_seq(l)[0] == '@'
}

/// The binding a declaration line makes, when it has an `=`: the key between
/// the `@` and the first `=`, and the value after it, both trimmed.
pub open spec fn var_binding_of(l: Seq<char>) -> Option<(Seq<char>, Seq<char>)> {
    let t = trim_seq(l);
    if t.len() > 0 && t[0] == '@' && contains_sub(t, seq!['=']) {
        let e = find_sub(t, seq!['=']);
        Some((trim_seq(t.subrange(1, e)), trim_seq(t.skip(e + 1))))
    } else {
        None
    }
}

/// The variable bindings declared by a document's lines; a later declaration
/// of the same key overrides an earlier one.
pub open spec fn file_vars(lines: Seq<Seq<char>>) -> Map<Seq<char>, Seq<char>>
    decreases lines.len(),
{
    if lines.len() == 0 {
        Map::empty()
    } else {
        let m = file_vars(lines.drop_last());
        match var_binding_of(lines.last()) {
            Some(kv) => m.insert(kv.0, kv.1),
            None => m,
        }
    }
}

/// A section-opening line: its trimmed form begins with `###`.
pub open spec fn is_section_start(l: Seq<char>) -> bool {
    starts_with_seq(trim_seq(l), section_marker())
}

// ---------------------------------------------------------------------------
// splitting into sections
// ---------------------------------------------------------------------------

/// Walk the remaining lines with the sections gathered so far, the current
/// section, and whether a section is open.  Variable lines vanish entirely;
/// lines before the first `###` are discarded.
pub open spec fn split_consume(
    lines: Seq<Seq<char>>,
    secs: Seq<Seq<Seq<char>>>,
    cur: Seq<Seq<char>>,
    open: bool,
) -> Seq<Seq<Seq<char>>>
    decreases lines.len(),
{
    if lines.len() == 0 {
        if open {
            secs.push(cur)
        } else {
            secs
        }
    } else {
        let l = lines[0];
        let rest = lines.drop_first();
        if is_var_line(l) {
            split_consume(rest, secs, cur, open)
        } else if is_section_start(l) {
            split_consume(
                rest,
                if open {
                    secs.push(cur)
                } else {
                    secs
                },
                seq![l],
                true,
            )
        } else if open {
            split_consume(rest, secs, cur.push(l), true)
        } else {
            split_consume(rest, secs, cur, false)
        }
    }
}

/// The sections of a document, each as its sequence of lines.
pub open spec fn sections_of(lines: Seq<Seq<char>>) -> Seq<Seq<Seq<char>>> {
    split_consume(lines, Seq::empty(), Seq::empty(), false)
}

pub open spec fn deep_views(s: Seq<Vec<Vec<char>>>) -> Seq<Seq<Seq<char>>> {
    s.map_values(|sec: Vec<Vec<char>>| views_of(sec@))
}

proof fn lemma_views_of_push(s: Seq<Vec<char>>, x: Vec<char>)
    ensures
        views_of(s.push(x)) == views_of(s).push(x@),
{
    assert(views_of(s.push(x)) =~= views_of(s).push(x@));
}

proof fn lemma_deep_views_push(s: Seq<Vec<Vec<char>>>, x: Vec<Vec<char>>)
    ensures
        deep_views(s.push(x)) == deep_views(s).push(views_of(x@)),
{
    assert(deep_views(s.push(x)) =~= deep_views(s).push(views_of(x@)));
}

fn clone_line(l: &Vec<char>) -> (r: Vec<char>)
    ensures
        r@ == l@,
{
    let r = subvec(l, 0, l.len());
    proof {
        assert(l@.subrange(0, l@.len() as int) =~= l@);
    }
    r
}

fn is_var_line_exec(l: &Vec<char>) -> (r: bool)
    ensures
        r == is_var_line(l@),
{
    let t = trim_chars(l);
    t.len() > 0 && t[0] == '@'
}

fn is_section_start_exec(l: &Vec<char>) -> (r: bool)
    ensures
        r == is_section_start(l@),
{
    let t = trim_chars(l);
    let m = vec!['#', '#', '#'];
    proof {
        assert(m@ =~= section_marker());
        if 3 <= t@.len() {
            assert(t@.take(3) =~= t@.subrange(0, 3));
        }
    }
    starts_with_at(&t, &m, 0)
}

fn split_sections_exec(lines: &Vec<Vec<char>>) -> (r: Vec<Vec<Vec<char>>>)
    ensures
        deep_views(r@) == sections_of(views_of(lines@)),
{
    let ghost all = views_of(lines@);
    let mut secs: Vec<Vec<Vec<char>>> = Vec::new();
    let mut cur: Vec<Vec<char>> = Vec::new();
    let mut open = false;
    let mut i: usize = 0;
    proof {
        assert(all.skip(0) =~= all);
        assert(deep_views(secs@) =~= Seq::<Seq<Seq<char>>>::empty());
        assert(views_of(cur@) =~= Seq::<Seq<char>>::empty());
    }
    while i < lines.len()
        invariant
            i <= lines@.len(),
            all == views_of(lines@),
            sections_of(all) == split_consume(all.skip(i as int), deep_views(secs@), views_of(
                cur@,
            ), open),
        decreases lines@.len() - i,
    {
        let ghost suf = all.skip(i as int);
        let ghost d0 = deep_views(secs@);
        let ghost c0 = views_of(cur@);
        let ghost o0 = open;
        proof {
            assert(suf[0] == all[i as int]);
            assert(all[i as int] == lines@[i as int]@);
            assert(suf.drop_first() =~= all.skip(i + 1));
        }
        let l = clone_line(&lines[i]);
        if is_var_line_exec(&l) {
        } else if is_section_start_exec(&l) {
            if open {
                let ghost spre = secs@;
                secs.push(cur);
                cur = Vec::new();
                proof {
                    lemma_deep_views_push(spre, secs@.last());
                    assert(spre.push(secs@.last()) =~= secs@);
                    assert(deep_views(secs@) == d0.push(c0));
                }
            } else {
                cur = Vec::new();
            }
            proof {
                assert(views_of(cur@) =~= Seq::<Seq<char>>::empty());
            }
            cur.push(l);
            open = true;
            proof {
                assert(views_of(cur@) =~= seq![all[i as int]]);
            }
        } else if open {
            let ghost pre = views_of(cur@);
            cur.push(l);
            proof {
                lemma_views_of_push(cur@.drop_last(), cur@.last());
                assert(views_of(cur@) =~= pre.push(all[i as int]));
            }
        }
        proof {
            assert(split_consume(suf, d0, c0, o0) == split_consume(
                all.skip(i + 1),
                deep_views(secs@),
                views_of(cur@),
                open,
            ));
        }
        i = i + 1;
    }
    proof {
        assert(all.skip(all.len() as int) =~= Seq::<Seq<char>>::empty());
    }
    if open {
        let ghost spre = secs@;
        let ghost c0 = views_of(cur@);
        secs.push(cur);
        proof {
            lemma_deep_views_push(spre, secs@.last());
            assert(spre.push(secs@.last()) =~= secs@);
            assert(deep_views(secs@) == deep_views(spre).push(c0));
        }
    }
    secs
}

fn join_lines_exec(lines: &Vec<Vec<char>>) -> (r: String)
    ensures
        r@ == join_nl(views_of(lines@)),
{
    let mut acc: Vec<char> = Vec::new();
    let mut i: usize = 0;
    proof {
        assert(views_of(lines@).take(0) =~= Seq::<Seq<char>>::empty());
    }
    while i < lines.len()
        invariant
            i <= lines@.len(),
            acc@ == join_nl(views_of(lines@).take(i as int)),
        decreases lines@.len() - i,
    {
        push_all(&mut acc, &lines[i]);
        acc.push('\n');
        proof {
            let lv = views_of(lines@);
            lemma_join_nl_push(lv.take(i as int), lv[i as int]);
            assert(lv.take(i + 1) =~= lv.take(i as int).push(lv[i as int]));
            assert(join_nl(lv.take(i as int)) + lv[i as int] + seq!['\n'] =~= (join_nl(
                lv.take(i as int),
            ) + lines@[i as int]@).push('\n'));
        }
        i = i + 1;
    }
    proof {
        assert(views_of(lines@).take(lines@.len() as int) =~= views_of(lines@));
    }
    string_of(&acc)
}

// ---------------------------------------------------------------------------
// whitespace tokens
// ---------------------------------------------------------------------------

/// Length of the longest prefix without whitespace.
pub open spec fn nonspace_run_len(s: Seq<char>) -> int
    decreases s.len(),
{
    if s.len() > 0 && !is_space_char(s[0]) {
        1 + nonspace_run_len(s.drop_first())
    } else {
        0
    }
}

pub proof fn lemma_nonspace_run_len_bounds(s: Seq<char>)
    ensures
        0 <= nonspace_run_len(s) <= s.len(),
    decreases s.len(),
{
    if s.len() > 0 && !is_space_char(s[0]) {
        lemma_nonspace_run_len_bounds(s.drop_first());
    }
}

pub proof fn lemma_nonspace_run_len_at(s: Seq<char>, n: int)
    requires
        0 <= n <= s.len(),
        forall|k: int| 0 <= k < n ==> !is_space_char(s[k]),
        n == s.len() || is_space_char(s[n]),
    ensures
        nonspace_run_len(s) == n,
    decreases n,
{
    if n > 0 {
        let t = s.drop_first();
        assert forall|k: int| 0 <= k < n - 1 implies !is_space_char(t[k]) by {
            assert(t[k] == s[k + 1]);
        }
        lemma_nonspace_run_len_at(t, n - 1);
    }
}

/// The whitespace-separated tokens of a line.
pub open spec fn ws_tokens(s: Seq<char>) -> Seq<Seq<char>>
    decreases s.len(),
    via ws_tokens_dec
{
    if s.len() == 0 {
        Seq::empty()
    } else if is_space_char(s[0]) {
        ws_tokens(s.drop_first())
    } else {
        let n = nonspace_run_len(s);
        seq![s.take(n)] + ws_tokens(s.skip(n))
    }
}

#[via_fn]
proof fn ws_tokens_dec(s: Seq<char>) {
    if s.len() > 0 && !is_space_char(s[0]) {
        lemma_nonspace_run_len_bounds(s.drop_first());
        assert(nonspace_run_len(s) >= 1);
    }
}

/// Tokenize a line at whitespace.
pub fn ws_tokens_exec(v: &Vec<char>) -> (r: Vec<Vec<char>>)
    ensures
        views_of(r@) == ws_tokens(v@),
{
    let mut out: Vec<Vec<char>> = Vec::new();
    let mut i: usize = 0;
    proof {
        assert(v@.skip(0) =~= v@);
        assert(views_of(out@) =~= Seq::<Seq<char>>::empty());
        assert(Seq::<Seq<char>>::empty() + ws_tokens(v@) =~= ws_tokens(v@));
    }
    while i < v.len()
        invariant
            i <= v@.len(),
            ws_tokens(v@) == views_of(out@) + ws_tokens(v@.skip(i as int)),
        decreases v@.len() - i,
    {
        let ghost suf = v@.skip(i as int);
        if is_space(v[i]) {
            proof {
                assert(suf.drop_first() =~= v@.skip(i + 1));
            }
            i = i + 1;
        } else {
            let mut j: usize = i;
            while j < v.len() && !is_space(v[j])
                invariant
                    i <= j <= v@.len(),
                    forall|k: int| i <= k < j ==> !is_space_char(v@[k]),
                decreases v@.len() - j,
            {
                j = j + 1;
            }
            proof {
                assert forall|k: int| 0 <= k < j - i implies !is_space_char(suf[k]) by {
                    assert(suf[k] == v@[k + i]);
                }
                if j < v@.len() {
                    assert(suf[j - i] == v@[j as int]);
                }
                lemma_nonspace_run_len_at(suf, j - i);
                assert(suf.take(j - i) =~= v@.subrange(i as int, j as int));
                assert(suf.skip(j - i) =~= v@.skip(j as int));
            }
            let tok = subvec(v, i, j);
            proof {
                assert(views_of(out@.push(tok)) =~= views_of(out@) + seq![tok@]);
                assert(views_of(out@) + (seq![suf.take(j - i)] + ws_tokens(v@.skip(j as int)))
                    =~= (views_of(out@) + seq![suf.take(j - i)]) + ws_tokens(v@.skip(j as int)));
            }
            out.push(tok);
            i = j;
        }
    }
    proof {
        assert(v@.skip(v@.len() as int) =~= Seq::<char>::empty());
        assert(views_of(out@) + Seq::<Seq<char>>::empty() =~= views_of(out@));
    }
    out
}

// ---------------------------------------------------------------------------
// the section grammar
// ---------------------------------------------------------------------------

/// A line that can be the request line: nonblank, not a `#` comment, and its
/// trimmed form begins with a supported method name.
pub open spec fn is_request_line(l: Seq<char>) -> bool {
    let t = trim_seq(l);
    &&& t.len() > 0
    &&& t[0] != '#'
    &&& exists|m: Method| starts_with_seq(t, method_name(m))
}

/// First index at or after `i` whose line satisfies `is_request_line`, or -1.
pub open spec fn request_line_idx(lines: Seq<Seq<char>>, i: int) -> int
    decreases lines.len() - i,
{
    if i < 0 || i >= lines.len() {
        -1
    } else if is_request_line(lines[i]) {
        i
    } else {
        request_line_idx(lines, i + 1)
    }
}

/// First index at or after `i` whose line is blank once trimmed, or -1.
pub open spec fn blank_idx(lines: Seq<Seq<char>>, i: int) -> int
    decreases lines.len() - i,
{
    if i < 0 || i >= lines.len() {
        -1
    } else if trim_seq(lines[i]).len() == 0 {
        i
    } else {
        blank_idx(lines, i + 1)
    }
}

/// First index at or after `i` whose line contains the marker, or -1.
pub open spec fn marker_idx(lines: Seq<Seq<char>>, i: int, marker: Seq<char>) -> int
    decreases lines.len() - i,
{
    if i < 0 || i >= lines.len() {
        -1
    } else if contains_sub(lines[i], marker) {
        i
    } else {
        marker_idx(lines, i + 1, marker)
    }
}

/// The header binding on a line: the first colon of the trimmed line splits
/// key from value, both trimmed.
pub open spec fn header_of(l: Seq<char>) -> Option<(Seq<char>, Seq<char>)> {
    let t = trim_seq(l);
    if contains_sub(t, seq![':']) {
        let c = find_sub(t, seq![':']);
        Some((trim_seq(t.take(c)), trim_seq(t.skip(c + 1))))
    } else {
        None
    }
}

/// The headers of the lines in `[i, end)`; a later line with the same key
/// overrides an earlier one.
pub open spec fn headers_map(lines: Seq<Seq<char>>, i: int, end: int) -> Map<Seq<char>, Seq<char>>
    decreases end - i,
{
    if end <= i {
        Map::empty()
    } else {
        let m = headers_map(lines, i, end - 1);
        match header_of(lines[end - 1]) {
            Some(kv) => m.insert(kv.0, kv.1),
            None => m,
        }
    }
}

/// Lines joined with single newlines, no trailing newline.
pub open spec fn join_body(ls: Seq<Seq<char>>) -> Seq<char>
    decreases ls.len(),
{
    if ls.len() == 0 {
        Seq::empty()
    } else if ls.len() == 1 {
        ls[0]
    } else {
        ls[0] + seq!['\n'] + join_body(ls.drop_first())
    }
}

#[verifier::rlimit(50)]
pub proof fn lemma_join_body_push(ls: Seq<Seq<char>>, l: Seq<char>)
    ensures
        join_body(ls.push(l)) == if ls.len() == 0 {
            l
        } else {
            join_body(ls) + seq!['\n'] + l
        },
    decreases ls.len(),
{
    if ls.len() == 0 {
        assert(ls.push(l)[0] == l);
        assert(join_body(ls.push(l)) == l);
    } else if ls.len() == 1 {
        assert(ls.push(l).drop_first() =~= seq![l]);
        assert(join_body(seq![l]) == l) by {
            assert(seq![l].len() == 1);
            assert(seq![l][0] == l);
        }
        assert(ls.push(l)[0] == ls[0]);
        assert(join_body(ls.push(l)) == ls[0] + seq!['\n'] + join_body(seq![l]));
    } else {
        assert(ls.push(l).drop_first() =~= ls.drop_first().push(l));
        lemma_join_body_push(ls.drop_first(), l);
        assert(ls.push(l)[0] == ls[0]);
        assert(join_body(ls.push(l)) == ls[0] + seq!['\n'] + (join_body(ls.drop_first())
            + seq!['\n'] + l));
        assert(ls[0] + seq!['\n'] + (join_body(ls.drop_first()) + seq!['\n'] + l) =~= (ls[0]
            + seq!['\n'] + join_body(ls.drop_first())) + seq!['\n'] + l);
    }
}

/// A section's request before variable resolution.
pub ghost struct RawRequest {
    pub name: Seq<char>,
    pub method: Method,
    pub url: Seq<char>,
    pub headers: Map<Seq<char>, Seq<char>>,
    pub body: Option<Seq<char>>,
    pub script: Option<Seq<char>>,
}

/// What parsing one section yields.
pub ghost enum SectionParse {
    /// No `###` opener or no request line: the section is skipped silently.
    NoRequest,
    /// A request line with fewer than two tokens: a hard error.
    BadLine,
    /// A request-line token that begins like a method but is not one.
    BadMethod(Seq<char>),
    /// A parsed request.
    Request(RawRequest),
}

/// Where the body ends and what the script block holds, given the lines and
/// the first body line.  A script block needs both markers; an opening marker
/// without a closing one leaves everything in the body.
pub open spec fn body_region(lines: Seq<Seq<char>>, bs: int) -> (int, Option<Seq<char>>) {
    let so = marker_idx(lines, bs, script_open_marker());
    if so >= 0 {
        let sc = marker_idx(lines, so + 1, script_close_marker());
        if sc >= 0 {
            (so, Some(join_body(lines.subrange(so + 1, sc))))
        } else {
            (lines.len() as int, None)
        }
    } else {
        (lines.len() as int, None)
    }
}

/// The whole grammar of one section, before variable resolution.
pub open spec fn parse_section_spec(lines: Seq<Seq<char>>) -> SectionParse {
    if lines.len() == 0 {
        SectionParse::NoRequest
    } else {
        let t0 = trim_seq(lines[0]);
        if !starts_with_seq(t0, section_marker()) {
            SectionParse::NoRequest
        } else {
            let name = trim_seq(t0.skip(3));
            let rl = request_line_idx(lines, 1);
            if rl < 0 {
                SectionParse::NoRequest
            } else {
                let toks = ws_tokens(trim_seq(lines[rl]));
                if toks.len() < 2 {
                    SectionParse::BadLine
                } else {
                    match method_of(toks[0]) {
                        Option::None => SectionParse::BadMethod(toks[0]),
                        Option::Some(m) => {
                            let blank = blank_idx(lines, rl + 1);
                            let hend = if blank < 0 {
                                lines.len() as int
                            } else {
                                blank
                            };
                            let headers = headers_map(lines, rl + 1, hend);
                            if blank < 0 {
                                SectionParse::Request(
                                    RawRequest {
                                        name,
                                        method: m,
                                        url: toks[1],
                                        headers,
                                        body: None,
                                        script: None,
                                    },
                                )
                            } else {
                                let reg = body_region(lines, blank + 1);
                                let joined = trim_seq(join_body(lines.subrange(blank + 1, reg.0)));
                                let body = if joined.len() == 0 {
                                    Option::<Seq<char>>::None
                                } else {
                                    Option::Some(joined)
                                };
                                SectionParse::Request(
                                    RawRequest {
                                        name,
                                        method: m,
                                        url: toks[1],
                                        headers,
                                        body,
                                        script: reg.1,
                                    },
                                )
                            }
                        },
                    }
                }
            }
        }
    }
}

/// An assembled request matches a raw one under resolution: the name and
/// script are kept verbatim, while the URL, each header value and the body
/// are resolved; header keys are preserved.
pub open spec fn request_matches_raw(
    req: HttpRequest,
    raw: RawRequest,
    penv: Map<Seq<char>, Seq<char>>,
    env: Map<Seq<char>, Seq<char>>,
) -> bool {
    &&& req.name@ == raw.name
    &&& req.method == raw.method
    &&& resolved_of(raw.url, req.url@, penv, env)
    &&& req.headers@.dom() == raw.headers.dom()
    &&& forall|k: Seq<char>| #[trigger]
        raw.headers.dom().contains(k) ==> resolved_of(raw.headers[k], req.headers@[k], penv, env)
    &&& (raw.body is None <==> req.body is None)
    &&& (raw.body is Some ==> resolved_of(raw.body->0, req.body->0@, penv, env))
    &&& (raw.script is None <==> req.response_handler is None)
    &&& (raw.script is Some ==> req.response_handler->0@ == raw.script->0)
}

/// How many of the first `end` sections yield a request.
pub open spec fn count_requests(secs: Seq<Seq<Seq<char>>>, end: int) -> int
    decreases end,
{
    if end <= 0 {
        0
    } else {
        count_requests(secs, end - 1) + if parse_section_spec(secs[end - 1]) is Request {
            1int
        } else {
            0int
        }
    }
}

pub proof fn lemma_count_requests_bounds(secs: Seq<Seq<Seq<char>>>, end: int)
    requires
        0 <= end,
    ensures
        0 <= count_requests(secs, end) <= end,
    decreases end,
{
    if end > 0 {
        lemma_count_requests_bounds(secs, end - 1);
    }
}

/// A document whose sections each hold a well-formed request parses to
/// exactly one request per section, in source order.
pub proof fn lemma_all_sections_counted(secs: Seq<Seq<Seq<char>>>, end: int)
    requires
        0 <= end <= secs.len(),
        forall|i: int| 0 <= i < secs.len() ==> (#[trigger] parse_section_spec(secs[i])) is Request,
    ensures
        count_requests(secs, end) == end,
    decreases end,
{
    if end > 0 {
        lemma_all_sections_counted(secs, end - 1);
    }
}

// ---------------------------------------------------------------------------
// the parser
// ---------------------------------------------------------------------------

fn is_request_line_exec(l: &Vec<char>) -> (r: bool)
    ensures
        r == is_request_line(l@),
{
    let t = trim_chars(l);
    if t.len() == 0 {
        return false;
    }
    if t[0] == '#' {
        return false;
    }
    let names: [&'static str; 8] = [
        "GET",
        "POST",
        "PUT",
        "DELETE",
        "PATCH",
        "HEAD",
        "OPTIONS",
        "GRAPHQL",
    ];
    let methods: [Method; 8] = [
        Method::Get,
        Method::Post,
        Method::Put,
        Method::Delete,
        Method::Patch,
        Method::Head,
        Method::Options,
        Method::Graphql,
    ];
    let mut i: usize = 0;
    while i < 8
        invariant
            i <= 8,
            names@.len() == 8,
            methods@.len() == 8,
            t@ == trim_seq(l@),
            t@.len() > 0,
            t@[0] != '#',
            forall|j: int| 0 <= j < 8 ==> names@[j]@ == method_name(methods@[j]),
            forall|j: int| 0 <= j < i ==> !starts_with_seq(t@, method_name(methods@[j])),
            methods@[0] == Method::Get && methods@[1] == Method::Post && methods@[2]
                == Method::Put && methods@[3] == Method::Delete && methods@[4] == Method::Patch
                && methods@[5] == Method::Head && methods@[6] == Method::Options && methods@[7]
                == Method::Graphql,
        decreases 8 - i,
    {
        let pat = chars_of(names[i]);
        let ok = starts_with_at(&t, &pat, 0);
        proof {
            crate::text::lemma_starts_with_occurs(t@, pat@);
        }
        if ok {
            proof {
                assert(is_request_line(l@)) by {
                    assert(starts_with_seq(trim_seq(l@), method_name(methods@[i as int])));
                }
            }
            return true;
        }
        i = i + 1;
    }
    proof {
        assert forall|m: Method| !starts_with_seq(t@, method_name(m)) by {
            if m == Method::Get {
                assert(!starts_with_seq(t@, method_name(methods@[0])));
            } else if m == Method::Post {
                assert(!starts_with_seq(t@, method_name(methods@[1])));
            } else if m == Method::Put {
                assert(!starts_with_seq(t@, method_name(methods@[2])));
            } else if m == Method::Delete {
                assert(!starts_with_seq(t@, method_name(methods@[3])));
            } else if m == Method::Patch {
                assert(!starts_with_seq(t@, method_name(methods@[4])));
            } else if m == Method::Head {
                assert(!starts_with_seq(t@, method_name(methods@[5])));
            } else if m == Method::Options {
                assert(!starts_with_seq(t@, method_name(methods@[6])));
            } else {
                assert(m == Method::Graphql);
                assert(!starts_with_seq(t@, method_name(methods@[7])));
            }
        }
    }
    false
}

/// Parses documents against an environment, which in-document declarations
/// extend before any section is read.
#[derive(Debug)]
pub struct HttpParser {
    environment: Environment,
    process_env: StringMap,
}

impl HttpParser {
    pub closed spec fn env(&self) -> Map<Seq<char>, Seq<char>> {
        self.environment@
    }

    pub closed spec fn penv(&self) -> Map<Seq<char>, Seq<char>> {
        self.process_env@
    }

    pub fn new(environment: Environment) -> (r: Self)
        ensures
            r.env() == environment@,
            r.penv() == Map::<Seq<char>, Seq<char>>::empty(),
    {
        HttpParser { environment, process_env: StringMap::new() }
    }

    /// The same parser with a snapshot of the process environment for
    /// `$processEnv.NAME` resolution.
    pub fn with_process_env(self, process_env: StringMap) -> (r: Self)
        ensures
            r.env() == self.env(),
            r.penv() == process_env@,
    {
        HttpParser { environment: self.environment, process_env }
    }

    /// Merge every `@key = value` declaration of the document into the
    /// environment; later declarations win.
    pub fn parse_file_variables(&mut self, content: &str)
        ensures
            final(self).env() == old(self).env().union_prefer_right(
                file_vars(split_lines(content@)),
            ),
            final(self).penv() == old(self).penv(),
    {
        let cs = chars_of(content);
        let lines = split_lines_chars(&cs);
        let mut vars = StringMap::new();
        let mut i: usize = 0;
        proof {
            assert(views_of(lines@).take(0) =~= Seq::<Seq<char>>::empty());
        }
        while i < lines.len()
            invariant
                i <= lines@.len(),
                views_of(lines@) == split_lines(content@),
                vars@ == file_vars(views_of(lines@).take(i as int)),
            decreases lines@.len() - i,
        {
            let ghost lv = views_of(lines@);
            let t = trim_chars(&lines[i]);
            proof {
                assert(lv.take(i + 1).drop_last() =~= lv.take(i as int));
                assert(lv.take(i + 1).last() == lv[i as int]);
                assert(lv[i as int] == lines@[i as int]@);
            }
            if t.len() > 0 && t[0] == '@' {
                let eqpat = vec!['='];
                proof {
                    assert(eqpat@ =~= seq!['=']);
                    assert(t@.skip(0) =~= t@);
                }
                match find_sub_at(&t, &eqpat, 0) {
                    Some(e) => {
                        proof {
                            crate::text::lemma_find_sub_is_first(t@, seq!['=']);
                            assert(e >= 1) by {
                                if e == 0 {
                                    assert(t@.subrange(0, 1) =~= seq![t@[0]]);
                                }
                            }
                        }
                        let key = string_of(&trim_chars(&subvec(&t, 1, e)));
                        let value = string_of(&trim_chars(&subvec(&t, e + 1, t.len())));
                        proof {
                            assert(t@.subrange(e as int + 1, t@.len() as int) =~= t@.skip(
                                e as int + 1,
                            ));
                            assert(var_binding_of(lv[i as int]) == Some((key@, value@)));
                        }
                        vars.insert(key, value);
                    },
                    None => {
                        proof {
                            assert(var_binding_of(lv[i as int]) is None);
                        }
                    },
                }
            } else {
                proof {
                    assert(var_binding_of(lv[i as int]) is None);
                }
            }
            i = i + 1;
        }
        proof {
            assert(views_of(lines@).take(lines@.len() as int) =~= views_of(lines@));
        }
        self.environment.extend(vars);
    }

    /// Split a document into its sections, each returned as its lines joined
    /// back with newlines.
    pub fn split_into_sections(&self, content: &str) -> (r: Vec<String>)
        ensures
            r@.map_values(|s: String| s@) == sections_of(split_lines(content@)).map_values(
                |sec: Seq<Seq<char>>| join_nl(sec),
            ),
    {
        let cs = chars_of(content);
        let lines = split_lines_chars(&cs);
        let sections = split_sections_exec(&lines);
        let mut out: Vec<String> = Vec::new();
        let mut i: usize = 0;
        let ghost target = sections_of(split_lines(content@)).map_values(
            |sec: Seq<Seq<char>>| join_nl(sec),
        );
        while i < sections.len()
            invariant
                i <= sections@.len(),
                deep_views(sections@) == sections_of(split_lines(content@)),
                target == sections_of(split_lines(content@)).map_values(
                    |sec: Seq<Seq<char>>| join_nl(sec),
                ),
                out@.len() == i as int,
                forall|j: int| 0 <= j < i ==> (#[trigger] out@[j])@ == target[j],
            decreases sections@.len() - i,
        {
            let joined = join_lines_exec(&sections[i]);
            proof {
                assert(deep_views(sections@)[i as int] == views_of(sections@[i as int]@));
            }
            out.push(joined);
            i = i + 1;
        }
        proof {
            assert(out@.map_values(|s: String| s@) =~= target);
        }
        out
    }

    /// Parse one section's lines.
    fn parse_request(&self, lines: &Vec<Vec<char>>) -> (r: Result<
        Option<HttpRequest>,
        HttpieError,
    >)
        ensures
            ({
                let sp = parse_section_spec(views_of(lines@));
                &&& (sp is NoRequest ==> r is Ok && r->Ok_0 is None)
                &&& (sp is BadLine ==> r is Err && r->Err_0 is InvalidRequest
                    && r->Err_0->InvalidRequest_0@ == "Invalid request line format"@)
                &&& (sp is BadMethod ==> r is Err && r->Err_0 is InvalidMethod
                    && r->Err_0->InvalidMethod_0@ == sp->BadMethod_0)
                &&& (sp is Request ==> r is Ok && r->Ok_0 is Some && request_matches_raw(
                    r->Ok_0->Some_0,
                    sp->Request_0,
                    self.penv(),
                    self.env(),
                ))
            }),
    {
        let ghost lv = views_of(lines@);
        let replacer = VariableReplacer::new(&self.environment).with_process_env(
            self.process_env.clone(),
        );
        if lines.len() == 0 {
            return Ok(None);
        }
        proof {
            assert(lv[0] == lines@[0]@);
        }
        let t0 = trim_chars(&lines[0]);
        let marker = vec!['#', '#', '#'];
        proof {
            assert(marker@ =~= section_marker());
            if 3 <= t0@.len() {
                assert(t0@.take(3) =~= t0@.subrange(0, 3));
            }
        }
        if !starts_with_at(&t0, &marker, 0) {
            return Ok(None);
        }
        let name = string_of(&trim_chars(&subvec(&t0, 3, t0.len())));
        proof {
            assert(t0@.subrange(3, t0@.len() as int) =~= t0@.skip(3));
        }
        // find the request line
        let mut rl: usize = 1;
        let mut found = false;
        while rl < lines.len() && !found
            invariant
                1 <= rl <= lines@.len(),
                lv == views_of(lines@),
                request_line_idx(lv, 1) == if found {
                    rl as int
                } else {
                    request_line_idx(lv, rl as int)
                },
                found ==> rl < lines@.len() && is_request_line(lv[rl as int]),
            decreases lines@.len() - rl + (if found {
                0int
            } else {
                1int
            }),
        {
            proof {
                assert(lv[rl as int] == lines@[rl as int]@);
            }
            if is_request_line_exec(&lines[rl]) {
                found = true;
            } else {
                rl = rl + 1;
            }
        }
        if !found {
            return Ok(None);
        }
        // tokenize the request line
        let toks = ws_tokens_exec(&trim_chars(&lines[rl]));
        proof {
            assert(views_of(toks@) == ws_tokens(trim_seq(lv[rl as int])));
        }
        if toks.len() < 2 {
            return Err(HttpieError::InvalidRequest("Invalid request line format".to_owned()));
        }
        proof {
            assert(views_of(toks@)[0] == toks@[0]@);
            assert(views_of(toks@)[1] == toks@[1]@);
        }
        let method = match Method::from_token(&toks[0]) {
            Some(m) => m,
            None => {
                return Err(HttpieError::InvalidMethod(string_of(&toks[0])));
            },
        };
        let url = replacer.replace(string_of(&toks[1]).as_str());
        // find the blank line ending the headers
        let mut bl: usize = rl + 1;
        let mut blank_found = false;
        while bl < lines.len() && !blank_found
            invariant
                rl + 1 <= bl <= lines@.len(),
                lv == views_of(lines@),
                blank_idx(lv, rl + 1) == if blank_found {
                    bl as int
                } else {
                    blank_idx(lv, bl as int)
                },
                blank_found ==> bl < lines@.len() && trim_seq(lv[bl as int]).len() == 0,
            decreases lines@.len() - bl + (if blank_found {
                0int
            } else {
                1int
            }),
        {
            proof {
                assert(lv[bl as int] == lines@[bl as int]@);
            }
            if trim_chars(&lines[bl]).len() == 0 {
                blank_found = true;
            } else {
                bl = bl + 1;
            }
        }
        let hend: usize = if blank_found {
            bl
        } else {
            lines.len()
        };
        proof {
            if blank_found {
                assert(blank_idx(lv, rl + 1) == bl as int);
            } else {
                assert(blank_idx(lv, rl + 1) == -1);
            }
        }
        // headers
        let mut headers = StringMap::new();
        let mut hi: usize = rl + 1;
        let colonpat = vec![':'];
        proof {
            assert(colonpat@ =~= seq![':']);
        }
        while hi < hend
            invariant
                rl + 1 <= hi <= hend <= lines@.len(),
                lv == views_of(lines@),
                colonpat@ == seq![':'],
                replacer.env() == self.env(),
                replacer.penv() == self.penv(),
                headers@.dom() == headers_map(lv, rl + 1, hi as int).dom(),
                forall|k: Seq<char>| #[trigger]
                    headers_map(lv, rl + 1, hi as int).dom().contains(k) ==> resolved_of(
                        headers_map(lv, rl + 1, hi as int)[k],
                        headers@[k],
                        self.penv(),
                        self.env(),
                    ),
            decreases hend - hi,
        {
            let ghost pre = headers_map(lv, rl + 1, hi as int);
            proof {
                assert(lv[hi as int] == lines@[hi as int]@);
            }
            let t = trim_chars(&lines[hi]);
            proof {
                assert(t@.skip(0) =~= t@);
            }
            match find_sub_at(&t, &colonpat, 0) {
                Some(c) => {
                    let tl = t.len();
                    let key = string_of(&trim_chars(&subvec(&t, 0, c)));
                    let raw_val = string_of(&trim_chars(&subvec(&t, c + 1, tl)));
                    let value = replacer.replace(raw_val.as_str());
                    proof {
                        assert(t@.subrange(0, c as int) =~= t@.take(c as int));
                        assert(t@.subrange(c as int + 1, t@.len() as int) =~= t@.skip(
                            c as int + 1,
                        ));
                        assert(header_of(lv[hi as int]) == Some((key@, raw_val@)));
                        assert(headers_map(lv, rl + 1, hi + 1) == pre.insert(key@, raw_val@));
                    }
                    let ghost hpre = headers@;
                    headers.insert(key, value);
                    proof {
                        let post = headers_map(lv, rl + 1, hi + 1);
                        assert(headers@.dom() =~= post.dom());
                        assert(replacer.env() == self.env());
                        assert(replacer.penv() == self.penv());
                        assert(resolved_of(raw_val@, value@, replacer.penv(), replacer.env()));
                        assert(resolved_of(raw_val@, value@, self.penv(), self.env()));
                        assert forall|k: Seq<char>| #[trigger] post.dom().contains(k) implies
                            resolved_of(post[k], headers@[k], self.penv(), self.env()) by {
                            if k == key@ {
                            } else {
                                assert(pre.dom().contains(k));
                                assert(post[k] == pre[k]);
                                assert(headers@[k] == hpre[k]);
                            }
                        }
                    }
                },
                None => {
                    proof {
                        assert(header_of(lv[hi as int]) is None);
                        assert(headers_map(lv, rl + 1, hi + 1) == pre);
                    }
                },
            }
            hi = hi + 1;
        }
        // body and script
        let mut body: Option<String> = None;
        let mut script: Option<String> = None;
        if blank_found {
            let bs = bl + 1;
            let open_marker = vec!['>', ' ', '{', '%'];
            let close_marker = vec!['%', '}'];
            proof {
                assert(open_marker@ =~= script_open_marker());
                assert(close_marker@ =~= script_close_marker());
            }
            let mut so: usize = bs;
            let mut so_found = false;
            while so < lines.len() && !so_found
                invariant
                    bs <= so <= lines@.len(),
                    lv == views_of(lines@),
                    open_marker@ == script_open_marker(),
                    marker_idx(lv, bs as int, script_open_marker()) == if so_found {
                        so as int
                    } else {
                        marker_idx(lv, so as int, script_open_marker())
                    },
                    so_found ==> so < lines@.len(),
                decreases lines@.len() - so + (if so_found {
                    0int
                } else {
                    1int
                }),
            {
                proof {
                    assert(lv[so as int] == lines@[so as int]@);
                }
                if contains_pat(&lines[so], &open_marker) {
                    so_found = true;
                } else {
                    so = so + 1;
                }
            }
            let mut body_end: usize = lines.len();
            if so_found {
                let mut sc: usize = so + 1;
                let mut sc_found = false;
                while sc < lines.len() && !sc_found
                    invariant
                        so + 1 <= sc <= lines@.len(),
                        lv == views_of(lines@),
                        close_marker@ == script_close_marker(),
                        marker_idx(lv, so + 1, script_close_marker()) == if sc_found {
                            sc as int
                        } else {
                            marker_idx(lv, sc as int, script_close_marker())
                        },
                        sc_found ==> sc < lines@.len(),
                    decreases lines@.len() - sc + (if sc_found {
                        0int
                    } else {
                        1int
                    }),
                {
                    proof {
                        assert(lv[sc as int] == lines@[sc as int]@);
                    }
                    if contains_pat(&lines[sc], &close_marker) {
                        sc_found = true;
                    } else {
                        sc = sc + 1;
                    }
                }
                if sc_found {
                    body_end = so;
                    let stext = join_body_exec(lines, so + 1, sc);
                    script = Some(stext);
                }
            }
            let joined = join_body_exec_chars(lines, bs, body_end);
            let trimmed = trim_chars(&joined);
            if trimmed.len() > 0 {
                body = Some(replacer.replace(string_of(&trimmed).as_str()));
            }
        }
        let ghost sp = parse_section_spec(lv);
        let req = HttpRequest::new(name, method, url)
            .with_headers(headers)
            .with_body(body)
            .with_response_handler(script);
        proof {
            assert(sp is Request);
            let raw = sp->Request_0;
            assert(request_matches_raw(req, raw, self.penv(), self.env()));
        }
        Ok(Some(req))
    }

    /// Parse the sections in order, collecting their requests; the first hard
    /// error aborts.
    fn parse_requests_sections(&self, sections: &Vec<Vec<Vec<char>>>) -> (r: Result<
        Vec<HttpRequest>,
        HttpieError,
    >)
        ensures
            parse_outcome(r, deep_views(sections@), self.penv(), self.env()),
    {
        let ghost secs = deep_views(sections@);
        let mut reqs: Vec<HttpRequest> = Vec::new();
        let mut i: usize = 0;
        while i < sections.len()
            invariant
                i <= sections@.len(),
                secs == deep_views(sections@),
                reqs@.len() == count_requests(secs, i as int),
                forall|j: int|
                    0 <= j < i ==> !((#[trigger] parse_section_spec(secs[j])) is BadLine) && !(
                    parse_section_spec(secs[j]) is BadMethod),
                forall|j: int|
                    0 <= j < i && (#[trigger] parse_section_spec(secs[j])) is Request
                        ==> 0 <= count_requests(secs, j) < reqs@.len() && request_matches_raw(
                        reqs@[count_requests(secs, j)],
                        parse_section_spec(secs[j])->Request_0,
                        self.penv(),
                        self.env(),
                    ),
            decreases sections@.len() - i,
        {
            proof {
                assert(secs[i as int] == views_of(sections@[i as int]@));
                lemma_count_requests_bounds(secs, i as int);
            }
            match self.parse_request(&sections[i]) {
                Ok(Some(req)) => {
                    reqs.push(req);
                },
                Ok(None) => {},
                Err(e) => {
                    proof {
                        assert(0 <= i < secs.len() && (forall|j: int|
                            0 <= j < i ==> !((#[trigger] parse_section_spec(secs[j])) is BadLine)
                                && !(parse_section_spec(secs[j]) is BadMethod)) && ((
                        parse_section_spec(secs[i as int]) is BadLine && e is InvalidRequest
                            && e->InvalidRequest_0@ == "Invalid request line format"@) || (
                        parse_section_spec(secs[i as int]) is BadMethod && e is InvalidMethod
                            && e->InvalidMethod_0@ == parse_section_spec(
                            secs[i as int],
                        )->BadMethod_0)));
                    }
                    return Err(e);
                },
            }
            i = i + 1;
        }
        Ok(reqs)
    }

    /// Parse a whole document: merge its variable declarations into the
    /// environment, then parse its sections in order.
    pub fn parse_text(&mut self, content: &str) -> (r: Result<Vec<HttpRequest>, HttpieError>)
        ensures
            final(self).env() == old(self).env().union_prefer_right(
                file_vars(split_lines(content@)),
            ),
            final(self).penv() == old(self).penv(),
            parse_outcome(
                r,
                sections_of(split_lines(content@)),
                final(self).penv(),
                final(self).env(),
            ),
    {
        self.parse_file_variables(content);
        let cs = chars_of(content);
        let lines = split_lines_chars(&cs);
        let sections = split_sections_exec(&lines);
        self.parse_requests_sections(&sections)
    }
}

/// What parsing a document's sections yields: on success, one request per
/// request-bearing section, in source order, each matching its raw parse
/// under resolution; on failure, the error of the first failing section, with
/// no earlier section failing.
pub open spec fn parse_outcome(
    r: Result<Vec<HttpRequest>, HttpieError>,
    secs: Seq<Seq<Seq<char>>>,
    penv: Map<Seq<char>, Seq<char>>,
    env: Map<Seq<char>, Seq<char>>,
) -> bool {
    match r {
        Result::Ok(reqs) => {
            &&& forall|i: int|
                0 <= i < secs.len() ==> !((#[trigger] parse_section_spec(secs[i])) is BadLine)
                    && !(parse_section_spec(secs[i]) is BadMethod)
            &&& reqs@.len() == count_requests(secs, secs.len() as int)
            &&& forall|i: int|
                0 <= i < secs.len() && (#[trigger] parse_section_spec(secs[i])) is Request
                    ==> 0 <= count_requests(secs, i) < reqs@.len() && request_matches_raw(
                    reqs@[count_requests(secs, i)],
                    parse_section_spec(secs[i])->Request_0,
                    penv,
                    env,
                )
        },
        Result::Err(e) => exists|i: int|
            0 <= i < secs.len() && (forall|j: int|
                0 <= j < i ==> !((#[trigger] parse_section_spec(secs[j])) is BadLine) && !(
                parse_section_spec(secs[j]) is BadMethod)) && ((parse_section_spec(secs[i])
                is BadLine && e is InvalidRequest && e->InvalidRequest_0@
                == "Invalid request line format"@) || (parse_section_spec(secs[i]) is BadMethod
                && e is InvalidMethod && e->InvalidMethod_0@ == parse_section_spec(
                secs[i],
            )->BadMethod_0)),
    }
}

/// A document whose sections are all well-formed — each parses to a request —
/// yields exactly one request per section, in source order.
pub proof fn lemma_well_formed_document(
    r: Result<Vec<HttpRequest>, HttpieError>,
    secs: Seq<Seq<Seq<char>>>,
    penv: Map<Seq<char>, Seq<char>>,
    env: Map<Seq<char>, Seq<char>>,
)
    requires
        parse_outcome(r, secs, penv, env),
        forall|i: int| 0 <= i < secs.len() ==> (#[trigger] parse_section_spec(secs[i])) is Request,
    ensures
        r is Ok,
        r->Ok_0@.len() == secs.len(),
        forall|i: int|
            0 <= i < secs.len() ==> request_matches_raw(
                r->Ok_0@[i],
                (#[trigger] parse_section_spec(secs[i]))->Request_0,
                penv,
                env,
            ),
{
    match r {
        Result::Ok(reqs) => {
            lemma_all_sections_counted(secs, secs.len() as int);
            assert forall|i: int| 0 <= i < secs.len() implies request_matches_raw(
                reqs@[i],
                (#[trigger] parse_section_spec(secs[i]))->Request_0,
                penv,
                env,
            ) by {
                lemma_all_sections_counted(secs, i);
            }
        },
        Result::Err(e) => {
            let i = choose|i: int|
                0 <= i < secs.len() && (forall|j: int|
                    0 <= j < i ==> !((#[trigger] parse_section_spec(secs[j])) is BadLine) && !(
                    parse_section_spec(secs[j]) is BadMethod)) && ((parse_section_spec(secs[i])
                    is BadLine && e is InvalidRequest && e->InvalidRequest_0@
                    == "Invalid request line format"@) || (parse_section_spec(secs[i])
                    is BadMethod && e is InvalidMethod && e->InvalidMethod_0@
                    == parse_section_spec(secs[i])->BadMethod_0));
            assert(parse_section_spec(secs[i]) is Request);
        },
    }
}

/// Join the lines in `[a, b)` with newlines, as characters.
fn join_body_exec_chars(lines: &Vec<Vec<char>>, a: usize, b: usize) -> (r: Vec<char>)
    requires
        a <= b <= lines@.len(),
    ensures
        r@ == join_body(views_of(lines@).subrange(a as int, b as int)),
{
    let ghost lv = views_of(lines@);
    let mut acc: Vec<char> = Vec::new();
    let mut i: usize = a;
    proof {
        assert(lv.subrange(a as int, a as int) =~= Seq::<Seq<char>>::empty());
    }
    while i < b
        invariant
            a <= i <= b <= lines@.len(),
            lv == views_of(lines@),
            acc@ == join_body(lv.subrange(a as int, i as int)),
        decreases b - i,
    {
        let ghost pre = lv.subrange(a as int, i as int);
        if i > a {
            acc.push('\n');
        }
        push_all(&mut acc, &lines[i]);
        proof {
            assert(lv.subrange(a as int, i + 1) =~= pre.push(lv[i as int]));
            lemma_join_body_push(pre, lv[i as int]);
            assert(lv[i as int] == lines@[i as int]@);
            if pre.len() == 0 {
                assert(acc@ =~= join_body(pre.push(lv[i as int])));
            } else {
                assert(acc@ =~= join_body(pre) + seq!['\n'] + lv[i as int]);
            }
        }
        i = i + 1;
    }
    acc
}

/// Join the lines in `[a, b)` with newlines, as a string.
fn join_body_exec(lines: &Vec<Vec<char>>, a: usize, b: usize) -> (r: String)
    requires
        a <= b <= lines@.len(),
    ensures
        r@ == join_body(views_of(lines@).subrange(a as int, b as int)),
{
    let v = join_body_exec_chars(lines, a, b);
    string_of(&v)
}

} // verus!
