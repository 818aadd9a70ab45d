//! Placeholder resolution.  A text is rewritten in three ordered passes, each
//! over the whole string: dynamic generator tokens, process-environment
//! lookups, then user variables of the form `{{name}}`.  The user pass is
//! repeated, up to a fixed cap, so that a substituted value may itself hold
//! further placeholders without ever looping forever.

use crate::models::Environment;
use crate::strmap::StringMap;
use crate::text::{
    chars_of, contains_sub, eq_chars, find_sub, find_sub_at, is_ident, is_ident_char, occurs_at,
    push_all, replace_all, replace_all_chars, starts_with_at, starts_with_seq, string_of, subvec,
    lemma_find_sub_found, lemma_find_sub_is_first, lemma_replace_all_id,
};
use vstd::prelude::*;

verus! {

/// Upper bound on user-variable resolution rounds; resolution stops early at
/// a fixed point, so the cap only matters for self-referential bindings.
pub const USER_RESOLUTION_CAP: usize = 10;

// ---------------------------------------------------------------------------
// the tokens
// ---------------------------------------------------------------------------

/// The characters of `$uuid`.
pub open spec fn uuid_token() -> Seq<char> {
    seq!['$', 'u', 'u', 'i', 'd']
}

/// The characters of `$timestamp`.
pub open spec fn timestamp_token() -> Seq<char> {
    seq!['$', 't', 'i', 'm', 'e', 's', 't', 'a', 'm', 'p']
}

/// The characters of `$randomInt`.
pub open spec fn random_int_token() -> Seq<char> {
    seq!['$', 'r', 'a', 'n', 'd', 'o', 'm', 'I', 'n', 't']
}

/// The characters of `$processEnv.`.
pub open spec fn process_env_token() -> Seq<char> {
    seq!['$', 'p', 'r', 'o', 'c', 'e', 's', 's', 'E', 'n', 'v', '.']
}

/// The characters of `{{`.
pub open spec fn open_token() -> Seq<char> {
    seq!['{', '{']
}

/// The characters of `}}`.
pub open spec fn close_token() -> Seq<char> {
    seq!['}', '}']
}

fn uuid_token_chars() -> (v: Vec<char>)
    ensures
        v@ == uuid_token(),
{
    let v = vec!['$', 'u', 'u', 'i', 'd'];
    proof {
        assert(v@ =~= uuid_token());
    }
    v
}

fn timestamp_token_chars() -> (v: Vec<char>)
    ensures
        v@ == timestamp_token(),
{
    let v = vec!['$', 't', 'i', 'm', 'e', 's', 't', 'a', 'm', 'p'];
    proof {
        assert(v@ =~= timestamp_token());
    }
    v
}

fn random_int_token_chars() -> (v: Vec<char>)
    ensures
        v@ == random_int_token(),
{
    let v = vec!['$', 'r', 'a', 'n', 'd', 'o', 'm', 'I', 'n', 't'];
    proof {
        assert(v@ =~= random_int_token());
    }
    v
}

fn process_env_token_chars() -> (v: Vec<char>)
    ensures
        v@ == process_env_token(),
{
    let v = vec!['$', 'p', 'r', 'o', 'c', 'e', 's', 's', 'E', 'n', 'v', '.'];
    proof {
        assert(v@ =~= process_env_token());
    }
    v
}

fn open_token_chars() -> (v: Vec<char>)
    ensures
        v@ == open_token(),
{
    let v = vec!['{', '{'];
    proof {
        assert(v@ =~= open_token());
    }
    v
}

fn close_token_chars() -> (v: Vec<char>)
    ensures
        v@ == close_token(),
{
    let v = vec!['}', '}'];
    proof {
        assert(v@ =~= close_token());
    }
    v
}

// ---------------------------------------------------------------------------
// pass 1: dynamic generators
// ---------------------------------------------------------------------------

/// The dynamic pass: each generator token replaced everywhere by one value
/// computed once for the whole call, `$uuid` first, then `$timestamp`, then
/// `$randomInt`.
pub open spec fn dynamic_pass(t: Seq<char>, u: Seq<char>, ts: Seq<char>, ri: Seq<char>) -> Seq<
    char,
> {
    replace_all(replace_all(replace_all(t, uuid_token(), u), timestamp_token(), ts),
        random_int_token(), ri)
}

/// Substitute given generator values; the exact text transformation, apart
/// from where the three values come from.
pub fn substitute_dynamic(text: &Vec<char>, u: &Vec<char>, ts: &Vec<char>, ri: &Vec<char>) -> (r:
    Vec<char>)
    ensures
        r@ == dynamic_pass(text@, u@, ts@, ri@),
{
    let t1 = replace_all_chars(text, &uuid_token_chars(), u);
    let t2 = replace_all_chars(&t1, &timestamp_token_chars(), ts);
    replace_all_chars(&t2, &random_int_token_chars(), ri)
}

// ---------------------------------------------------------------------------
// pass 2: process-environment lookups
// ---------------------------------------------------------------------------

/// Length of the longest prefix made of identifier characters.
pub open spec fn ident_run_len(s: Seq<char>) -> int
    decreases s.len(),
{
    if s.len() > 0 && is_ident_char(s[0]) {
        1 + ident_run_len(s.drop_first())
    } else {
        0
    }
}

pub proof fn lemma_ident_run_len_bounds(s: Seq<char>)
    ensures
        0 <= ident_run_len(s) <= s.len(),
    decreases s.len(),
{
    if s.len() > 0 && is_ident_char(s[0]) {
        lemma_ident_run_len_bounds(s.drop_first());
    }
}

pub proof fn lemma_ident_run_len_at(s: Seq<char>, n: int)
    requires
        0 <= n <= s.len(),
        forall|k: int| 0 <= k < n ==> is_ident_char(s[k]),
        n == s.len() || !is_ident_char(s[n]),
    ensures
        ident_run_len(s) == n,
    decreases n,
{
    if n == 0 {
    } else {
        let t = s.drop_first();
        assert forall|k: int| 0 <= k < n - 1 implies is_ident_char(t[k]) by {
            assert(t[k] == s[k + 1]);
        }
        lemma_ident_run_len_at(t, n - 1);
    }
}

/// The process-environment pass: after each `$processEnv.` the longest run of
/// identifier characters names a variable, replaced by its value, or by the
/// empty string when it is unbound.
pub open spec fn penv_pass(s: Seq<char>, penv: Map<Seq<char>, Seq<char>>) -> Seq<char>
    decreases s.len(),
    via penv_pass_dec
{
    if s.len() == 0 {
        Seq::empty()
    } else if starts_with_seq(s, process_env_token()) {
        let rest = s.skip(12);
        let n = ident_run_len(rest);
        let name = rest.take(n);
        let val = if penv.contains_key(name) {
            penv[name]
        } else {
            Seq::empty()
        };
        val + penv_pass(rest.skip(n), penv)
    } else {
        seq![s[0]] + penv_pass(s.drop_first(), penv)
    }
}

#[via_fn]
proof fn penv_pass_dec(s: Seq<char>, penv: Map<Seq<char>, Seq<char>>) {
    if s.len() > 0 && starts_with_seq(s, process_env_token()) {
        lemma_ident_run_len_bounds(s.skip(12));
    }
}

/// Apply the process-environment pass against a snapshot of the process
/// environment handed in as a map.
pub fn substitute_process_env(text: &Vec<char>, penv: &StringMap) -> (r: Vec<char>)
    ensures
        r@ == penv_pass(text@, penv@),
{
    let tok = process_env_token_chars();
    let mut out: Vec<char> = Vec::new();
    let mut i: usize = 0;
    proof {
        assert(text@.skip(0) =~= text@);
        assert(Seq::<char>::empty() + penv_pass(text@, penv@) =~= penv_pass(text@, penv@));
    }
    while i < text.len()
        invariant
            i <= text@.len(),
            tok@ == process_env_token(),
            penv_pass(text@, penv@) == out@ + penv_pass(text@.skip(i as int), penv@),
        decreases text@.len() - i,
    {
        let ghost suf = text@.skip(i as int);
        if starts_with_at(text, &tok, i) {
            proof {
                assert(starts_with_seq(suf, process_env_token())) by {
                    assert(suf.take(12) =~= text@.subrange(i as int, i + 12));
                }
            }
            // scan the identifier run after the token
            let mut j: usize = i + 12;
            while j < text.len() && is_ident(text[j])
                invariant
                    i + 12 <= j <= text@.len(),
                    forall|k: int| i + 12 <= k < j ==> is_ident_char(text@[k]),
                decreases text@.len() - j,
            {
                j = j + 1;
            }
            proof {
                let rest = suf.skip(12);
                assert(rest =~= text@.skip(i + 12));
                assert forall|k: int| 0 <= k < j - i - 12 implies is_ident_char(rest[k]) by {
                    assert(rest[k] == text@[k + i + 12]);
                }
                if j < text@.len() {
                    assert(rest[j - i - 12] == text@[j as int]);
                }
                lemma_ident_run_len_at(rest, j - i - 12);
                assert(rest.take(j - i - 12) =~= text@.subrange(i + 12, j as int));
                assert(rest.skip(j - i - 12) =~= text@.skip(j as int));
            }
            let name = string_of(&subvec(text, i + 12, j));
            match penv.get(name.as_str()) {
                Some(val) => {
                    let vc = chars_of(val.as_str());
                    push_all(&mut out, &vc);
                },
                None => {},
            }
            i = j;
        } else {
            proof {
                assert(suf.len() > 0);
                assert(!starts_with_seq(suf, process_env_token())) by {
                    if starts_with_seq(suf, process_env_token()) {
                        assert(occurs_at(text@, process_env_token(), i as int)) by {
                            assert(text@.subrange(i as int, i + 12) =~= suf.take(12));
                        }
                    }
                }
                assert(suf.drop_first() =~= text@.skip(i + 1));
                assert(out@ + (seq![suf[0]] + penv_pass(text@.skip(i + 1), penv@)) =~= out@.push(
                    text@[i as int],
                ) + penv_pass(text@.skip(i + 1), penv@));
            }
            let c = text[i];
            out.push(c);
            i = i + 1;
        }
    }
    proof {
        assert(text@.skip(text@.len() as int) =~= Seq::<char>::empty());
        assert(out@ + Seq::<char>::empty() =~= out@);
    }
    out
}

// ---------------------------------------------------------------------------
// pass 3: user variables
// ---------------------------------------------------------------------------

/// One left-to-right scan.  At `{{` with a later `}}`, the text between them
/// is a candidate name: when it is nonempty and bound, its value is emitted
/// and the scan continues after the `}}`; in every other case the character
/// is kept and the scan moves on by one.  Substituted values are not
/// rescanned within the same pass.
pub open spec fn user_pass(s: Seq<char>, env: Map<Seq<char>, Seq<char>>) -> Seq<char>
    decreases s.len(),
    via user_pass_dec
{
    if s.len() == 0 {
        Seq::empty()
    } else if starts_with_seq(s, open_token()) && ({
        let k = find_sub(s.skip(2), close_token());
        k >= 1 && env.contains_key(s.skip(2).take(k))
    }) {
        let k = find_sub(s.skip(2), close_token());
        env[s.skip(2).take(k)] + user_pass(s.skip(2 + k + 2), env)
    } else {
        seq![s[0]] + user_pass(s.drop_first(), env)
    }
}

#[via_fn]
proof fn user_pass_dec(s: Seq<char>, env: Map<Seq<char>, Seq<char>>) {
    if s.len() > 0 && starts_with_seq(s, open_token()) {
        lemma_find_sub_is_first(s.skip(2), close_token());
    }
}

/// The user pass repeated until it no longer changes the text, or the given
/// number of rounds is spent.
pub open spec fn user_subst(s: Seq<char>, env: Map<Seq<char>, Seq<char>>, fuel: nat) -> Seq<char>
    decreases fuel,
{
    if fuel == 0 {
        s
    } else {
        let t = user_pass(s, env);
        if t == s {
            s
        } else {
            user_subst(t, env, (fuel - 1) as nat)
        }
    }
}

fn user_pass_exec(text: &Vec<char>, env: &Environment) -> (r: Vec<char>)
    ensures
        r@ == user_pass(text@, env@),
{
    let open = open_token_chars();
    let close = close_token_chars();
    let mut out: Vec<char> = Vec::new();
    let mut i: usize = 0;
    proof {
        assert(text@.skip(0) =~= text@);
        assert(Seq::<char>::empty() + user_pass(text@, env@) =~= user_pass(text@, env@));
    }
    while i < text.len()
        invariant
            i <= text@.len(),
            open@ == open_token(),
            close@ == close_token(),
            user_pass(text@, env@) == out@ + user_pass(text@.skip(i as int), env@),
        decreases text@.len() - i,
    {
        let ghost suf = text@.skip(i as int);
        let ghost k = find_sub(suf.skip(2), close_token());
        let mut substituted = false;
        let is_open = starts_with_at(text, &open, i);
        proof {
            if i + 2 <= text@.len() {
                assert(suf.take(2) =~= text@.subrange(i as int, i + 2));
            } else {
                assert(!is_open);
                assert(!starts_with_seq(suf, open_token()));
            }
            assert(is_open == starts_with_seq(suf, open_token()));
        }
        if is_open {
            proof {
                assert(suf.skip(2) =~= text@.skip(i + 2));
            }
            match find_sub_at(text, &close, i + 2) {
                Some(cl) => {
                    proof {
                        assert(cl == i + 2 + k);
                    }
                    if cl - (i + 2) >= 1 {
                        let name = string_of(&subvec(text, i + 2, cl));
                        proof {
                            assert(name@ =~= suf.skip(2).take(k));
                        }
                        match env.get(name.as_str()) {
                            Some(val) => {
                                proof {
                                    assert(env@.contains_key(suf.skip(2).take(k)));
                                    assert(suf.skip(2 + k + 2) =~= text@.skip(i + 2 + k + 2));
                                }
                                let vc = chars_of(val.as_str());
                                push_all(&mut out, &vc);
                                i = cl + 2;
                                substituted = true;
                            },
                            None => {
                                proof {
                                    assert(!env@.contains_key(suf.skip(2).take(k)));
                                }
                            },
                        }
                    } else {
                        proof {
                            assert(k < 1);
                        }
                    }
                },
                None => {
                    proof {
                        assert(k < 0);
                    }
                },
            }
        }
        if !substituted {
            proof {
                assert(user_pass(suf, env@) == seq![suf[0]] + user_pass(suf.drop_first(), env@));
                assert(suf.drop_first() =~= text@.skip(i + 1));
                assert(out@ + (seq![suf[0]] + user_pass(text@.skip(i + 1), env@)) =~= out@.push(
                    text@[i as int],
                ) + user_pass(text@.skip(i + 1), env@));
            }
            let c = text[i];
            out.push(c);
            i = i + 1;
        }
    }
    proof {
        assert(text@.skip(text@.len() as int) =~= Seq::<char>::empty());
        assert(out@ + Seq::<char>::empty() =~= out@);
    }
    out
}

/// User-variable substitution with the resolution cap applied.
pub fn substitute_user_variables(text: &Vec<char>, env: &Environment) -> (r: Vec<char>)
    ensures
        r@ == user_subst(text@, env@, USER_RESOLUTION_CAP as nat),
{
    let mut cur = subvec(text, 0, text.len());
    proof {
        assert(text@.subrange(0, text@.len() as int) =~= text@);
    }
    let mut round: usize = 0;
    while round < USER_RESOLUTION_CAP
        invariant
            round <= USER_RESOLUTION_CAP,
            user_subst(text@, env@, USER_RESOLUTION_CAP as nat) == user_subst(
                cur@,
                env@,
                (USER_RESOLUTION_CAP - round) as nat,
            ),
        decreases USER_RESOLUTION_CAP - round,
    {
        let next = user_pass_exec(&cur, env);
        if eq_chars(&next, &cur) {
            return cur;
        }
        cur = next;
        round = round + 1;
    }
    cur
}

// ---------------------------------------------------------------------------
// the resolver
// ---------------------------------------------------------------------------

/// The whole resolution, given the three generated values.
pub open spec fn resolve_spec(
    t: Seq<char>,
    u: Seq<char>,
    ts: Seq<char>,
    ri: Seq<char>,
    penv: Map<Seq<char>, Seq<char>>,
    env: Map<Seq<char>, Seq<char>>,
) -> Seq<char> {
    user_subst(penv_pass(dynamic_pass(t, u, ts, ri), penv), env, USER_RESOLUTION_CAP as nat)
}

/// A character of a rendered identifier: a lower-case hexadecimal digit or a
/// hyphen.  No such character can open a placeholder token, so a substituted
/// identifier is never rewritten by a later pass.
pub open spec fn is_uuid_char(c: char) -> bool {
    ('0' <= c && c <= '9') || ('a' <= c && c <= 'f') || c == '-'
}

/// Values the generators can hand back: 36 hexadecimal-or-hyphen characters,
/// and the decimal forms of a second count and of an integer between one and
/// one million.
pub open spec fn generated_values(u: Seq<char>, ts: Seq<char>, ri: Seq<char>) -> bool {
    &&& u.len() == 36
    &&& forall|i: int| 0 <= i < u.len() ==> is_uuid_char(#[trigger] u[i])
    &&& exists|n: u64| ts == crate::text::dec_of(n as nat)
    &&& exists|n: u32| 1 <= n <= 1000000 && ri == crate::text::dec_of(n as nat)
}

/// `out` is `raw` after the dynamic pass, for some run of the generators.
pub open spec fn dynamic_resolved(raw: Seq<char>, out: Seq<char>) -> bool {
    exists|u: Seq<char>, ts: Seq<char>, ri: Seq<char>|
        generated_values(u, ts, ri) && out == dynamic_pass(raw, u, ts, ri)
}

/// `out` is a full resolution of `raw`: some run of the generators yields it.
pub open spec fn resolved_of(
    raw: Seq<char>,
    out: Seq<char>,
    penv: Map<Seq<char>, Seq<char>>,
    env: Map<Seq<char>, Seq<char>>,
) -> bool {
    exists|u: Seq<char>, ts: Seq<char>, ri: Seq<char>|
        generated_values(u, ts, ri) && out == resolve_spec(raw, u, ts, ri, penv, env)
}

/// A text without any placeholder token: none of the generator tokens, no
/// process-environment token, and no `{{` at all.
pub open spec fn token_free(t: Seq<char>) -> bool {
    &&& !contains_sub(t, uuid_token())
    &&& !contains_sub(t, timestamp_token())
    &&& !contains_sub(t, random_int_token())
    &&& !contains_sub(t, process_env_token())
    &&& !contains_sub(t, open_token())
}

/// Relies on `uuid::Uuid::new_v4` and its `Display` form: a fresh random
/// identifier rendered as 36 characters, each a lower-case hexadecimal digit
/// or a hyphen.
#[verifier::external_body]
fn generate_uuid() -> (r: String)
    ensures
        r@.len() == 36,
        forall|i: int| 0 <= i < r@.len() ==> is_uuid_char(#[trigger] r@[i]),
{
    uuid::Uuid::new_v4().to_string()
}

/// Relies on `std::time::SystemTime::now` and `duration_since`: whole seconds
/// since the Unix epoch, zero on a clock before it.
#[verifier::external_body]
fn unix_time_seconds() -> (r: u64) {
    std::time::SystemTime::now()
        .duration_since(std::time::UNIX_EPOCH)
        .map(|d| d.as_secs())
        .unwrap_or(0)
}

/// Relies on `rand::random_range`: a uniform value inside the inclusive
/// range it is given.
#[verifier::external_body]
fn random_int_bounded() -> (r: u32)
    ensures
        1 <= r <= 1000000,
{
    rand::random_range(1..=1000000u32)
}

/// Resolves placeholders in text fragments against an environment and an
/// optional snapshot of the process environment.
#[derive(Debug)]
pub struct VariableReplacer<'a> {
    environment: &'a Environment,
    process_env: StringMap,
}

impl<'a> VariableReplacer<'a> {
    pub closed spec fn env(&self) -> Map<Seq<char>, Seq<char>> {
        self.environment@
    }

    pub closed spec fn penv(&self) -> Map<Seq<char>, Seq<char>> {
        self.process_env@
    }

    /// A replacer over `environment`, with no process-environment bindings.
    pub fn new(environment: &'a Environment) -> (r: Self)
        ensures
            r.env() == environment@,
            r.penv() == Map::<Seq<char>, Seq<char>>::empty(),
    {
        VariableReplacer { environment, process_env: StringMap::new() }
    }

    /// The same replacer with a snapshot of the process environment, for the
    /// `$processEnv.NAME` pass; an unbound name resolves to the empty string.
    pub fn with_process_env(self, process_env: StringMap) -> (r: Self)
        ensures
            r.env() == self.env(),
            r.penv() == process_env@,
    {
        VariableReplacer { environment: self.environment, process_env }
    }

    /// Resolve every placeholder in `text`: generator tokens first, then
    /// process-environment lookups, then user variables (repeated up to the
    /// cap).  A text without placeholder tokens comes back unchanged.
    pub fn replace(&self, text: &str) -> (r: String)
        ensures
            resolved_of(text@, r@, self.penv(), self.env()),
            token_free(text@) ==> r@ == text@,
    {
        let t = chars_of(text);
        let after_dynamic = self.replace_dynamic_variables(&t);
        let after_penv = self.replace_env_variables(&after_dynamic);
        let resolved = self.replace_user_variables_chars(&after_penv);
        proof {
            let (u0, ts0, ri0) = choose|u: Seq<char>, ts: Seq<char>, ri: Seq<char>|
                generated_values(u, ts, ri) && after_dynamic@ == dynamic_pass(t@, u, ts, ri);
            assert(generated_values(u0, ts0, ri0) && resolved@ == resolve_spec(
                text@,
                u0,
                ts0,
                ri0,
                self.penv(),
                self.env(),
            ));
            assert(resolved_of(text@, resolved@, self.penv(), self.env()));
            if token_free(text@) {
                lemma_token_free_resolve(text@, self.penv(), self.env());
            }
        }
        string_of(&resolved)
    }

    /// The dynamic pass: each generator token replaced by one fresh value.
    fn replace_dynamic_variables(&self, text: &Vec<char>) -> (r: Vec<char>)
        ensures
            dynamic_resolved(text@, r@),
    {
        let u = chars_of(generate_uuid().as_str());
        let ts = crate::text::u64_to_chars(unix_time_seconds());
        let ri = crate::text::u64_to_chars(random_int_bounded() as u64);
        let r = substitute_dynamic(text, &u, &ts, &ri);
        proof {
            assert(generated_values(u@, ts@, ri@));
            assert(dynamic_resolved(text@, r@));
        }
        r
    }

    /// The process-environment pass over the stored snapshot.
    fn replace_env_variables(&self, text: &Vec<char>) -> (r: Vec<char>)
        ensures
            r@ == penv_pass(text@, self.penv()),
    {
        substitute_process_env(text, &self.process_env)
    }

    fn replace_user_variables_chars(&self, text: &Vec<char>) -> (r: Vec<char>)
        ensures
            r@ == user_subst(text@, self.env(), USER_RESOLUTION_CAP as nat),
    {
        substitute_user_variables(text, self.environment)
    }

    /// The user-variable pass alone, repeated up to the cap.
    pub fn replace_user_variables(&self, text: &str) -> (r: String)
        ensures
            r@ == user_subst(text@, self.env(), USER_RESOLUTION_CAP as nat),
    {
        let t = chars_of(text);
        string_of(&self.replace_user_variables_chars(&t))
    }
}

// ---------------------------------------------------------------------------
// laws of resolution
// ---------------------------------------------------------------------------

/// A text without a process-environment token passes through unchanged.
pub proof fn lemma_penv_pass_id(s: Seq<char>, penv: Map<Seq<char>, Seq<char>>)
    requires
        !contains_sub(s, process_env_token()),
    ensures
        penv_pass(s, penv) == s,
    decreases s.len(),
{
    lemma_find_sub_is_first(s, process_env_token());
    if s.len() == 0 {
        assert(penv_pass(s, penv) =~= s);
    } else {
        assert(!starts_with_seq(s, process_env_token())) by {
            if starts_with_seq(s, process_env_token()) {
                crate::text::lemma_starts_with_occurs(s, process_env_token());
            }
        }
        assert(!contains_sub(s.drop_first(), process_env_token())) by {
            lemma_find_sub_is_first(s.drop_first(), process_env_token());
            let j = find_sub(s.drop_first(), process_env_token());
            if j >= 0 {
                crate::text::lemma_occurs_drop_first(s, process_env_token(), j + 1);
            }
        }
        lemma_penv_pass_id(s.drop_first(), penv);
        assert(seq![s[0]] + s.drop_first() =~= s);
    }
}

/// A text without `{{` passes one user round unchanged.
pub proof fn lemma_user_pass_id(s: Seq<char>, env: Map<Seq<char>, Seq<char>>)
    requires
        !contains_sub(s, open_token()),
    ensures
        user_pass(s, env) == s,
    decreases s.len(),
{
    lemma_find_sub_is_first(s, open_token());
    if s.len() == 0 {
        assert(user_pass(s, env) =~= s);
    } else {
        assert(!starts_with_seq(s, open_token())) by {
            if starts_with_seq(s, open_token()) {
                crate::text::lemma_starts_with_occurs(s, open_token());
            }
        }
        assert(!contains_sub(s.drop_first(), open_token())) by {
            lemma_find_sub_is_first(s.drop_first(), open_token());
            let j = find_sub(s.drop_first(), open_token());
            if j >= 0 {
                crate::text::lemma_occurs_drop_first(s, open_token(), j + 1);
            }
        }
        lemma_user_pass_id(s.drop_first(), env);
        assert(seq![s[0]] + s.drop_first() =~= s);
    }
}

/// A fixed point of the user pass is returned as it stands, whatever the fuel.
pub proof fn lemma_user_subst_fix(s: Seq<char>, env: Map<Seq<char>, Seq<char>>, fuel: nat)
    requires
        user_pass(s, env) == s,
    ensures
        user_subst(s, env, fuel) == s,
{
}

/// A name with no brace characters in it.
pub open spec fn brace_free(name: Seq<char>) -> bool {
    forall|k: int| 0 <= k < name.len() ==> name[k] != '{' && name[k] != '}'
}

/// No two adjacent occurrences of `c` means no `cc` substring.
proof fn lemma_no_pair(s: Seq<char>, c: char)
    requires
        forall|j: int| 0 <= j < s.len() - 1 ==> !((#[trigger] s[j]) == c && s[j + 1] == c),
    ensures
        !contains_sub(s, seq![c, c]),
{
    lemma_find_sub_is_first(s, seq![c, c]);
    let r = find_sub(s, seq![c, c]);
    if r >= 0 {
        assert(occurs_at(s, seq![c, c], r));
        assert(s.subrange(r, r + 2)[0] == s[r]);
        assert(s.subrange(r, r + 2)[1] == s[r + 1]);
    }
}

/// The shape facts of a well-formed token `{{name}}` with a brace-free name.
proof fn lemma_token_shape(name: Seq<char>)
    requires
        name.len() >= 1,
        brace_free(name),
    ensures
        ({
            let s = open_token() + name + close_token();
            &&& starts_with_seq(s, open_token())
            &&& find_sub(s.skip(2), close_token()) == name.len()
            &&& s.skip(2).take(name.len() as int) == name
            &&& s.skip(2 + name.len() as int + 2) == Seq::<char>::empty()
            &&& !contains_sub(s.drop_first(), open_token())
        }),
{
    let s = open_token() + name + close_token();
    assert(s.len() == name.len() + 4);
    assert(s.take(2) =~= open_token());
    let rest = s.skip(2);
    assert(rest =~= name + close_token());
    assert(occurs_at(rest, close_token(), name.len() as int)) by {
        assert(rest.subrange(name.len() as int, name.len() as int + 2) =~= close_token());
    }
    assert forall|j: int| 0 <= j < name.len() implies !occurs_at(rest, close_token(), j) by {
        if occurs_at(rest, close_token(), j) {
            assert(rest.subrange(j, j + 2)[0] == rest[j]);
            assert(rest[j] == name[j]);
        }
    }
    lemma_find_sub_found(rest, close_token(), name.len() as int);
    assert(rest.take(name.len() as int) =~= name);
    assert(s.skip(2 + name.len() as int + 2) =~= Seq::<char>::empty());
    let d = s.drop_first();
    assert forall|j: int| 0 <= j < d.len() - 1 implies !((#[trigger] d[j]) == '{' && d[j + 1] == '{') by {
        if 1 <= j < name.len() + 1 {
            assert(d[j] == name[j - 1]);
        }
        if j == name.len() + 1 {
            assert(d[j] == '}');
        }
    }
    lemma_no_pair(d, '{');
}

/// One user round on a well-formed token substitutes a bound name and keeps
/// an unbound one verbatim.
proof fn lemma_user_pass_token(name: Seq<char>, env: Map<Seq<char>, Seq<char>>)
    requires
        name.len() >= 1,
        brace_free(name),
    ensures
        env.contains_key(name) ==> user_pass(open_token() + name + close_token(), env)
            == env[name],
        !env.contains_key(name) ==> user_pass(open_token() + name + close_token(), env)
            == open_token() + name + close_token(),
{
    let s = open_token() + name + close_token();
    lemma_token_shape(name);
    if env.contains_key(name) {
        assert(user_pass(s, env) == env[name] + user_pass(Seq::<char>::empty(), env));
        assert(env[name] + Seq::<char>::empty() =~= env[name]);
    } else {
        lemma_user_pass_id(s.drop_first(), env);
        assert(user_pass(s, env) == seq![s[0]] + s.drop_first());
        assert(seq![s[0]] + s.drop_first() =~= s);
    }
}

/// An unbound `{{name}}` token is left exactly as written, whatever else the
/// environment holds.
pub proof fn lemma_unresolved_variable_kept(
    name: Seq<char>,
    env: Map<Seq<char>, Seq<char>>,
    fuel: nat,
)
    requires
        name.len() >= 1,
        brace_free(name),
        !env.contains_key(name),
    ensures
        user_subst(open_token() + name + close_token(), env, fuel) == open_token() + name
            + close_token(),
{
    lemma_user_pass_token(name, env);
}

/// Nested resolution: when `a` is bound to the token `{{b}}` and `b` to a
/// value with no further `{{`, resolving `{{a}}` yields that value within the
/// resolution cap; the cap bounds the rounds, so resolution terminates even
/// on a self-referential binding.
pub proof fn lemma_nested_resolution(
    a: Seq<char>,
    b: Seq<char>,
    val: Seq<char>,
    env: Map<Seq<char>, Seq<char>>,
    fuel: nat,
)
    requires
        a.len() >= 1,
        brace_free(a),
        b.len() >= 1,
        brace_free(b),
        a != b,
        env.contains_key(a),
        env[a] == open_token() + b + close_token(),
        env.contains_key(b),
        env[b] == val,
        !contains_sub(val, open_token()),
        fuel >= 2,
    ensures
        user_subst(open_token() + a + close_token(), env, fuel) == val,
{
    let s = open_token() + a + close_token();
    let t = open_token() + b + close_token();
    lemma_user_pass_token(a, env);
    lemma_user_pass_token(b, env);
    assert(s != t) by {
        if s == t {
            assert(a =~= b) by {
                assert(s.len() == a.len() + 4 && t.len() == b.len() + 4);
                assert forall|k: int| 0 <= k < a.len() implies a[k] == b[k] by {
                    assert(s[k + 2] == a[k]);
                    assert(t[k + 2] == b[k]);
                }
            }
        }
    }
    assert(user_subst(s, env, fuel) == user_subst(t, env, (fuel - 1) as nat));
    if val == t {
        lemma_user_subst_fix(t, env, (fuel - 1) as nat);
    } else {
        assert(user_subst(t, env, (fuel - 1) as nat) == user_subst(val, env, (fuel - 2) as nat));
        lemma_user_pass_id(val, env);
        lemma_user_subst_fix(val, env, (fuel - 2) as nat);
    }
}

/// Malformed token forms are never substituted: a name in single braces, a
/// missing closing pair, a missing opening pair, and the empty token `{{}}`
/// all come through every round unchanged, whatever the environment holds.
pub proof fn lemma_malformed_tokens_kept(
    name: Seq<char>,
    env: Map<Seq<char>, Seq<char>>,
    fuel: nat,
)
    requires
        name.len() >= 1,
        brace_free(name),
    ensures
        user_subst(seq!['{'] + name + seq!['}'], env, fuel) == seq!['{'] + name + seq!['}'],
        user_subst(open_token() + name + seq!['}'], env, fuel) == open_token() + name
            + seq!['}'],
        user_subst(seq!['{'] + name + close_token(), env, fuel) == seq!['{'] + name
            + close_token(),
        user_subst(seq!['{', '{', '}', '}'], env, fuel) == seq!['{', '{', '}', '}'],
{
    // single braces: the text holds no `{{` at all
    let s1 = seq!['{'] + name + seq!['}'];
    assert forall|j: int| 0 <= j < s1.len() - 1 implies !((#[trigger] s1[j]) == '{' && s1[j + 1] == '{') by {
        if 1 <= j < name.len() + 1 {
            assert(s1[j] == name[j - 1]);
        }
    }
    lemma_no_pair(s1, '{');
    lemma_user_pass_id(s1, env);
    lemma_user_subst_fix(s1, env, fuel);

    // `{{name}`: an opening pair with no closing pair after it
    let s2 = open_token() + name + seq!['}'];
    assert(s2.take(2) =~= open_token());
    let rest2 = s2.skip(2);
    assert(rest2 =~= name + seq!['}']);
    assert forall|j: int| 0 <= j < rest2.len() - 1 implies !((#[trigger] rest2[j]) == '}' && rest2[j + 1] == '}') by {
        if 0 <= j < name.len() {
            assert(rest2[j] == name[j]);
        }
    }
    lemma_no_pair(rest2, '}');
    lemma_find_sub_is_first(rest2, close_token());
    assert(close_token() =~= seq!['}', '}']);
    assert(find_sub(rest2, close_token()) < 0);
    let d2 = s2.drop_first();
    assert forall|j: int| 0 <= j < d2.len() - 1 implies !((#[trigger] d2[j]) == '{' && d2[j + 1] == '{') by {
        if 1 <= j < name.len() + 1 {
            assert(d2[j] == name[j - 1]);
        }
        if j == name.len() + 1 {
            assert(d2[j] == '}');
        }
    }
    lemma_no_pair(d2, '{');
    lemma_user_pass_id(d2, env);
    assert(user_pass(s2, env) == seq![s2[0]] + d2);
    assert(seq![s2[0]] + d2 =~= s2);
    lemma_user_subst_fix(s2, env, fuel);

    // `{name}}`: no opening pair anywhere
    let s3 = seq!['{'] + name + close_token();
    assert forall|j: int| 0 <= j < s3.len() - 1 implies !((#[trigger] s3[j]) == '{' && s3[j + 1] == '{') by {
        if 1 <= j < name.len() + 1 {
            assert(s3[j] == name[j - 1]);
        }
        if j == name.len() + 1 {
            assert(s3[j] == '}');
        }
    }
    lemma_no_pair(s3, '{');
    lemma_user_pass_id(s3, env);
    lemma_user_subst_fix(s3, env, fuel);

    // `{{}}`: the empty token name never matches
    let s4 = seq!['{', '{', '}', '}'];
    assert(s4.take(2) =~= open_token());
    assert(starts_with_seq(s4, open_token()));
    let rest4 = s4.skip(2);
    assert(rest4 =~= seq!['}', '}']);
    assert(occurs_at(rest4, close_token(), 0)) by {
        assert(rest4.subrange(0, 2) =~= close_token());
    }
    lemma_find_sub_found(rest4, close_token(), 0);
    let d4 = s4.drop_first();
    assert(d4 =~= seq!['{', '}', '}']);
    assert forall|j: int| 0 <= j < d4.len() - 1 implies !((#[trigger] d4[j]) == '{' && d4[j + 1] == '{') by {}
    lemma_no_pair(d4, '{');
    lemma_user_pass_id(d4, env);
    assert(user_pass(s4, env) == seq![s4[0]] + d4);
    assert(seq![s4[0]] + d4 =~= s4);
    lemma_user_subst_fix(s4, env, fuel);
}

/// Resolution is the identity on token-free text.
pub proof fn lemma_token_free_resolve(
    t: Seq<char>,
    penv: Map<Seq<char>, Seq<char>>,
    env: Map<Seq<char>, Seq<char>>,
)
    requires
        token_free(t),
    ensures
        forall|u: Seq<char>, ts: Seq<char>, ri: Seq<char>|
            resolve_spec(t, u, ts, ri, penv, env) == t,
{
    assert forall|u: Seq<char>, ts: Seq<char>, ri: Seq<char>|
        resolve_spec(t, u, ts, ri, penv, env) == t by {
        lemma_replace_all_id(t, uuid_token(), u);
        lemma_replace_all_id(t, timestamp_token(), ts);
        lemma_replace_all_id(t, random_int_token(), ri);
        assert(dynamic_pass(t, u, ts, ri) == t);
        lemma_penv_pass_id(t, penv);
        lemma_user_pass_id(t, env);
        lemma_user_subst_fix(t, env, USER_RESOLUTION_CAP as nat);
    }
}

} // verus!
