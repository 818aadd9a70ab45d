//! Character-sequence utilities shared by the document parser, the variable
//! resolver and the renderers: conversions between `String` and `Vec<char>`,
//! substring search, replacement, trimming, line splitting and decimal
//! formatting, each proved against a recursive specification over `Seq<char>`.

use vstd::prelude::*;

verus! {

/// Relies on `String::push`: appends one character at the end.
pub assume_specification[ String::push ](s: &mut String, ch: char)
    ensures
        final(s)@ == old(s)@.push(ch),
;

// ---------------------------------------------------------------------------
// character classes
// ---------------------------------------------------------------------------

/// Whitespace as understood by `trim`: blank, tab, carriage return, newline.
pub open spec fn is_space_char(c: char) -> bool {
    c == ' ' || c == '\t' || c == '\r' || c == '\n'
}

pub fn is_space(c: char) -> (r: bool)
    ensures
        r == is_space_char(c),
{
    c == ' ' || c == '\t' || c == '\r' || c == '\n'
}

/// Characters allowed in a process-environment variable name:
/// ASCII letters, digits and underscore.
pub open spec fn is_ident_char(c: char) -> bool {
    ('a' <= c && c <= 'z') || ('A' <= c && c <= 'Z') || ('0' <= c && c <= '9') || c == '_'
}

pub fn is_ident(c: char) -> (r: bool)
    ensures
        r == is_ident_char(c),
{
    ('a' <= c && c <= 'z') || ('A' <= c && c <= 'Z') || ('0' <= c && c <= '9') || c == '_'
}

// ---------------------------------------------------------------------------
// conversions between String / &str and Vec<char>
// ---------------------------------------------------------------------------

pub fn chars_of(s: &str) -> (v: Vec<char>)
    ensures
        v@ == s@,
{
    let n = s.unicode_len();
    let mut v: Vec<char> = Vec::new();
    let mut i: usize = 0;
    while i < n
        invariant
            i <= n,
            n == s@.len(),
            v@ == s@.take(i as int),
        decreases n - i,
    {
        v.push(s.get_char(i));
        proof {
            assert(s@.take(i + 1 as int) =~= s@.take(i as int).push(s@[i as int]));
        }
        i = i + 1;
    }
    proof {
        assert(v@ =~= s@);
    }
    v
}

pub fn string_of(v: &Vec<char>) -> (s: String)
    ensures
        s@ == v@,
{
    let mut s = String::new();
    let mut i: usize = 0;
    while i < v.len()
        invariant
            i <= v.len(),
            s@ == v@.take(i as int),
        decreases v.len() - i,
    {
        s.push(v[i]);
        proof {
            assert(v@.take(i + 1 as int) =~= v@.take(i as int).push(v@[i as int]));
        }
        i = i + 1;
    }
    proof {
        assert(s@ =~= v@);
    }
    s
}

/// Copy of `v[a..b]`.
pub fn subvec(v: &Vec<char>, a: usize, b: usize) -> (r: Vec<char>)
    requires
        a <= b <= v@.len(),
    ensures
        r@ == v@.subrange(a as int, b as int),
{
    let mut r: Vec<char> = Vec::new();
    let mut i: usize = a;
    while i < b
        invariant
            a <= i <= b <= v@.len(),
            r@ == v@.subrange(a as int, i as int),
        decreases b - i,
    {
        r.push(v[i]);
        proof {
            assert(v@.subrange(a as int, i + 1 as int) =~= v@.subrange(a as int, i as int).push(
                v@[i as int],
            ));
        }
        i = i + 1;
    }
    r
}

pub fn push_all(out: &mut Vec<char>, src: &Vec<char>)
    ensures
        final(out)@ == old(out)@ + src@,
{
    let mut i: usize = 0;
    while i < src.len()
        invariant
            i <= src.len(),
            out@ == old(out)@ + src@.take(i as int),
        decreases src.len() - i,
    {
        proof {
            assert(old(out)@ + src@.take(i as int) =~= old(out)@ + src@.take(i as int));
        }
        out.push(src[i]);
        proof {
            assert(old(out)@ + src@.take(i + 1 as int) =~= (old(out)@ + src@.take(i as int)).push(
                src@[i as int],
            ));
        }
        i = i + 1;
    }
    proof {
        assert(old(out)@ + src@.take(src@.len() as int) =~= old(out)@ + src@);
    }
}

pub fn eq_chars(a: &Vec<char>, b: &Vec<char>) -> (r: bool)
    ensures
        r == (a@ == b@),
{
    if a.len() != b.len() {
        return false;
    }
    let mut i: usize = 0;
    while i < a.len()
        invariant
            i <= a.len(),
            a@.len() == b@.len(),
            forall|k: int| 0 <= k < i ==> a@[k] == b@[k],
        decreases a.len() - i,
    {
        if a[i] != b[i] {
            return false;
        }
        i = i + 1;
    }
    proof {
        assert(a@ =~= b@);
    }
    true
}

// ---------------------------------------------------------------------------
// substring search
// ---------------------------------------------------------------------------

/// `p` occurs in `s` at position `i`.
pub open spec fn occurs_at(s: Seq<char>, p: Seq<char>, i: int) -> bool {
    0 <= i && i + p.len() <= s.len() && s.subrange(i, i + p.len()) == p
}

pub open spec fn starts_with_seq(s: Seq<char>, p: Seq<char>) -> bool {
    p.len() <= s.len() && s.take(p.len() as int) == p
}

pub proof fn lemma_starts_with_occurs(s: Seq<char>, p: Seq<char>)
    ensures
        starts_with_seq(s, p) == occurs_at(s, p, 0),
{
    if p.len() <= s.len() {
        assert(s.take(p.len() as int) =~= s.subrange(0, p.len() as int));
    }
}

/// Index of the first occurrence of `p` in `s`, or -1 when there is none.
pub open spec fn find_sub(s: Seq<char>, p: Seq<char>) -> int
    decreases s.len(),
{
    if starts_with_seq(s, p) {
        0
    } else if s.len() == 0 {
        -1
    } else {
        let r = find_sub(s.drop_first(), p);
        if r < 0 {
            -1
        } else {
            r + 1
        }
    }
}

pub proof fn lemma_occurs_drop_first(s: Seq<char>, p: Seq<char>, i: int)
    requires
        i >= 1,
        s.len() >= 1,
    ensures
        occurs_at(s, p, i) == occurs_at(s.drop_first(), p, i - 1),
{
    if 0 <= i - 1 && i - 1 + p.len() <= s.drop_first().len() {
        assert(s.subrange(i, i + p.len() as int) =~= s.drop_first().subrange(
            i - 1,
            i - 1 + p.len() as int,
        ));
    }
}

pub proof fn lemma_find_sub_found(s: Seq<char>, p: Seq<char>, i: int)
    requires
        occurs_at(s, p, i),
        forall|j: int| 0 <= j < i ==> !occurs_at(s, p, j),
    ensures
        find_sub(s, p) == i,
    decreases i,
{
    lemma_starts_with_occurs(s, p);
    if i == 0 {
    } else {
        assert(!occurs_at(s, p, 0));
        assert(s.len() >= 1);
        lemma_occurs_drop_first(s, p, i);
        assert forall|j: int| 0 <= j < i - 1 implies !occurs_at(s.drop_first(), p, j) by {
            lemma_occurs_drop_first(s, p, j + 1);
        }
        lemma_find_sub_found(s.drop_first(), p, i - 1);
    }
}

pub proof fn lemma_find_sub_none(s: Seq<char>, p: Seq<char>)
    requires
        forall|j: int| 0 <= j ==> !occurs_at(s, p, j),
    ensures
        find_sub(s, p) == -1,
    decreases s.len(),
{
    lemma_starts_with_occurs(s, p);
    if s.len() > 0 {
        assert forall|j: int| 0 <= j implies !occurs_at(s.drop_first(), p, j) by {
            lemma_occurs_drop_first(s, p, j + 1);
        }
        lemma_find_sub_none(s.drop_first(), p);
    }
}

/// When found, the result is the first occurrence: everything earlier misses.
pub proof fn lemma_find_sub_is_first(s: Seq<char>, p: Seq<char>)
    ensures
        find_sub(s, p) >= 0 ==> occurs_at(s, p, find_sub(s, p)) && (forall|j: int|
            0 <= j < find_sub(s, p) ==> !occurs_at(s, p, j)),
        find_sub(s, p) == -1 ==> forall|j: int| 0 <= j ==> !occurs_at(s, p, j),
    decreases s.len(),
{
    lemma_starts_with_occurs(s, p);
    if starts_with_seq(s, p) {
    } else if s.len() == 0 {
        assert forall|j: int| 0 <= j implies !occurs_at(s, p, j) by {
            if occurs_at(s, p, j) {
                if j == 0 {
                } else {
                    assert(j + p.len() > 0);
                }
            }
        }
    } else {
        lemma_find_sub_is_first(s.drop_first(), p);
        let r = find_sub(s.drop_first(), p);
        if r >= 0 {
            lemma_occurs_drop_first(s, p, r + 1);
            assert forall|j: int| 0 <= j < r + 1 implies !occurs_at(s, p, j) by {
                if j > 0 {
                    lemma_occurs_drop_first(s, p, j);
                }
            }
        } else {
            assert forall|j: int| 0 <= j implies !occurs_at(s, p, j) by {
                if j > 0 {
                    lemma_occurs_drop_first(s, p, j);
                }
            }
        }
    }
}

pub fn starts_with_at(v: &Vec<char>, p: &Vec<char>, i: usize) -> (r: bool)
    requires
        i <= v@.len(),
    ensures
        r == occurs_at(v@, p@, i as int),
{
    if v.len() - i < p.len() {
        return false;
    }
    let vlen = v.len();
    let mut j: usize = 0;
    while j < p.len()
        invariant
            j <= p.len(),
            i + p.len() <= v@.len(),
            vlen == v@.len(),
            forall|k: int| 0 <= k < j ==> v@[i + k] == p@[k],
        decreases p.len() - j,
    {
        if v[i + j] != p[j] {
            proof {
                assert(v@.subrange(i as int, i + p@.len()) != p@) by {
                    assert(v@.subrange(i as int, i + p@.len())[j as int] == v@[i + j]);
                }
            }
            return false;
        }
        j = j + 1;
    }
    proof {
        assert(v@.subrange(i as int, i + p@.len()) =~= p@);
    }
    true
}

/// Search for `p` in `v`, starting at position `from`.  The result is stated
/// against `find_sub` on the suffix `v@.skip(from)`.
pub fn find_sub_at(v: &Vec<char>, p: &Vec<char>, from: usize) -> (r: Option<usize>)
    requires
        from <= v@.len(),
        p@.len() >= 1,
    ensures
        ({
            let rel = find_sub(v@.skip(from as int), p@);
            &&& (r is Some <==> rel >= 0)
            &&& (r is Some ==> r->Some_0 == from + rel && occurs_at(v@, p@, r->Some_0 as int))
        }),
{
    let ghost suf = v@.skip(from as int);
    let mut i: usize = from;
    while i < v.len()
        invariant
            from <= i <= v@.len(),
            p@.len() >= 1,
            suf == v@.skip(from as int),
            forall|j: int| from <= j < i ==> !occurs_at(v@, p@, j),
        decreases v.len() - i,
    {
        if starts_with_at(v, p, i) {
            proof {
                assert(occurs_at(suf, p@, i - from)) by {
                    assert(suf.subrange(i - from, i - from + p@.len()) =~= v@.subrange(
                        i as int,
                        i + p@.len(),
                    ));
                }
                assert forall|j: int| 0 <= j < i - from implies !occurs_at(suf, p@, j) by {
                    if occurs_at(suf, p@, j) {
                        assert(occurs_at(v@, p@, from + j)) by {
                            assert(v@.subrange(from + j, from + j + p@.len()) =~= suf.subrange(
                                j,
                                j + p@.len(),
                            ));
                        }
                    }
                }
                lemma_find_sub_found(suf, p@, i - from);
            }
            return Some(i);
        }
        i = i + 1;
    }
    proof {
        assert forall|j: int| 0 <= j implies !occurs_at(suf, p@, j) by {
            if occurs_at(suf, p@, j) {
                assert(occurs_at(v@, p@, from + j)) by {
                    assert(v@.subrange(from + j, from + j + p@.len()) =~= suf.subrange(
                        j,
                        j + p@.len(),
                    ));
                }
            }
        }
        lemma_find_sub_none(suf, p@);
    }
    None
}

pub open spec fn contains_sub(s: Seq<char>, p: Seq<char>) -> bool {
    find_sub(s, p) >= 0
}

pub fn contains_pat(v: &Vec<char>, p: &Vec<char>) -> (r: bool)
    requires
        p@.len() >= 1,
    ensures
        r == contains_sub(v@, p@),
{
    proof {
        assert(v@.skip(0) =~= v@);
    }
    find_sub_at(v, p, 0).is_some()
}

// ---------------------------------------------------------------------------
// replacement
// ---------------------------------------------------------------------------

/// Replace every occurrence of `p` in `s` by `val`, left to right, without
/// rescanning replaced text.  An empty pattern leaves the text unchanged.
pub open spec fn replace_all(s: Seq<char>, p: Seq<char>, val: Seq<char>) -> Seq<char>
    decreases s.len(),
{
    if p.len() == 0 || s.len() == 0 {
        s
    } else if starts_with_seq(s, p) {
        val + replace_all(s.skip(p.len() as int), p, val)
    } else {
        seq![s[0]] + replace_all(s.drop_first(), p, val)
    }
}

/// Text without any occurrence of the pattern is left untouched.
pub proof fn lemma_replace_all_id(s: Seq<char>, p: Seq<char>, val: Seq<char>)
    requires
        !contains_sub(s, p) || p.len() == 0,
    ensures
        replace_all(s, p, val) == s,
    decreases s.len(),
{
    if p.len() == 0 || s.len() == 0 {
    } else {
        assert(!starts_with_seq(s, p));
        lemma_replace_all_id(s.drop_first(), p, val);
        assert(seq![s[0]] + s.drop_first() =~= s);
    }
}

pub fn replace_all_chars(v: &Vec<char>, p: &Vec<char>, val: &Vec<char>) -> (r: Vec<char>)
    requires
        p@.len() >= 1,
    ensures
        r@ == replace_all(v@, p@, val@),
{
    let mut out: Vec<char> = Vec::new();
    let mut i: usize = 0;
    proof {
        assert(v@.skip(0) =~= v@);
        assert(Seq::<char>::empty() + replace_all(v@, p@, val@) =~= replace_all(v@, p@, val@));
    }
    while i < v.len()
        invariant
            i <= v@.len(),
            p@.len() >= 1,
            replace_all(v@, p@, val@) == out@ + replace_all(v@.skip(i as int), p@, val@),
        decreases v.len() - i,
    {
        if starts_with_at(v, p, i) {
            proof {
                assert(starts_with_seq(v@.skip(i as int), p@)) by {
                    assert(v@.skip(i as int).take(p@.len() as int) =~= v@.subrange(
                        i as int,
                        i + p@.len(),
                    ));
                }
                assert(v@.skip(i as int).skip(p@.len() as int) =~= v@.skip(i + p@.len()));
            }
            push_all(&mut out, val);
            i = i + p.len();
        } else {
            proof {
                let suf = v@.skip(i as int);
                assert(suf.len() > 0);
                assert(!starts_with_seq(suf, p@)) by {
                    if starts_with_seq(suf, p@) {
                        assert(occurs_at(v@, p@, i as int)) by {
                            assert(v@.subrange(i as int, i + p@.len()) =~= suf.take(
                                p@.len() as int,
                            ));
                        }
                    }
                }
                assert(suf.drop_first() =~= v@.skip(i + 1));
                assert(out@ + (seq![suf[0]] + replace_all(v@.skip(i + 1), p@, val@)) =~= (out@
                    + seq![v@[i as int]]) + replace_all(v@.skip(i + 1), p@, val@));
                assert(out@.push(v@[i as int]) =~= out@ + seq![v@[i as int]]);
            }
            let c = v[i];
            out.push(c);
            i = i + 1;
        }
    }
    proof {
        assert(v@.skip(v@.len() as int) =~= Seq::<char>::empty());
        assert(out@ + Seq::<char>::empty() =~= out@);
    }
    out
}

// ---------------------------------------------------------------------------
// trimming
// ---------------------------------------------------------------------------

pub open spec fn trim_front(s: Seq<char>) -> Seq<char>
    decreases s.len(),
{
    if s.len() > 0 && is_space_char(s[0]) {
        trim_front(s.drop_first())
    } else {
        s
    }
}

pub open spec fn trim_back(s: Seq<char>) -> Seq<char>
    decreases s.len(),
{
    if s.len() > 0 && is_space_char(s[s.len() - 1]) {
        trim_back(s.drop_last())
    } else {
        s
    }
}

/// Both ends trimmed of whitespace.
pub open spec fn trim_seq(s: Seq<char>) -> Seq<char> {
    trim_back(trim_front(s))
}

pub proof fn lemma_trim_front_skip(s: Seq<char>, a: int)
    requires
        0 <= a <= s.len(),
        forall|k: int| 0 <= k < a ==> is_space_char(s[k]),
        a == s.len() || !is_space_char(s[a]),
    ensures
        trim_front(s) == s.skip(a),
    decreases a,
{
    if a == 0 {
        assert(s.skip(0) =~= s);
    } else {
        assert(is_space_char(s[0]));
        let t = s.drop_first();
        assert forall|k: int| 0 <= k < a - 1 implies is_space_char(t[k]) by {
            assert(t[k] == s[k + 1]);
        }
        lemma_trim_front_skip(t, a - 1);
        assert(t.skip(a - 1) =~= s.skip(a));
    }
}

pub proof fn lemma_trim_back_take(s: Seq<char>, b: int)
    requires
        0 <= b <= s.len(),
        forall|k: int| b <= k < s.len() ==> is_space_char(s[k]),
        b == 0 || !is_space_char(s[b - 1]),
    ensures
        trim_back(s) == s.take(b),
    decreases s.len() - b,
{
    if b == s.len() {
        assert(s.take(b) =~= s);
    } else {
        assert(is_space_char(s[s.len() - 1]));
        let t = s.drop_last();
        lemma_trim_back_take(t, b);
        assert(t.take(b) =~= s.take(b));
    }
}

pub fn trim_chars(v: &Vec<char>) -> (r: Vec<char>)
    ensures
        r@ == trim_seq(v@),
{
    let mut a: usize = 0;
    while a < v.len() && is_space(v[a])
        invariant
            a <= v@.len(),
            forall|k: int| 0 <= k < a ==> is_space_char(v@[k]),
        decreases v.len() - a,
    {
        a = a + 1;
    }
    proof {
        lemma_trim_front_skip(v@, a as int);
    }
    let mut b: usize = v.len();
    while b > a && is_space(v[b - 1])
        invariant
            a <= b <= v@.len(),
            forall|k: int| b <= k < v@.len() ==> is_space_char(v@[k]),
        decreases b,
    {
        b = b - 1;
    }
    let r = subvec(v, a, b);
    proof {
        let f = v@.skip(a as int);
        assert forall|k: int| b - a <= k < f.len() implies is_space_char(f[k]) by {
            assert(f[k] == v@[k + a]);
        }
        if b - a > 0 {
            assert(f[b - a - 1] == v@[b as int - 1]);
        }
        lemma_trim_back_take(f, b - a);
        assert(f.take(b - a) =~= v@.subrange(a as int, b as int));
    }
    r
}

// ---------------------------------------------------------------------------
// line splitting and joining
// ---------------------------------------------------------------------------

pub open spec fn strip_cr(l: Seq<char>) -> Seq<char> {
    if l.len() > 0 && l[l.len() - 1] == '\r' {
        l.drop_last()
    } else {
        l
    }
}

/// The lines of `s`: split at `'\n'`, one trailing `'\r'` removed from each
/// line, no empty final line for text ending in a newline.
pub open spec fn split_lines(s: Seq<char>) -> Seq<Seq<char>>
    decreases s.len(),
    via split_lines_dec
{
    if s.len() == 0 {
        Seq::empty()
    } else {
        let i = find_sub(s, seq!['\n']);
        if i < 0 {
            seq![strip_cr(s)]
        } else {
            seq![strip_cr(s.take(i))] + split_lines(s.skip(i + 1))
        }
    }
}

#[via_fn]
proof fn split_lines_dec(s: Seq<char>) {
    if s.len() > 0 {
        let i = find_sub(s, seq!['\n']);
        if i >= 0 {
            lemma_find_sub_is_first(s, seq!['\n']);
        }
    }
}

pub open spec fn views_of(s: Seq<Vec<char>>) -> Seq<Seq<char>> {
    s.map_values(|l: Vec<char>| l@)
}

fn strip_cr_chars(l: Vec<char>) -> (r: Vec<char>)
    ensures
        r@ == strip_cr(l@),
{
    if l.len() > 0 && l[l.len() - 1] == '\r' {
        let r = subvec(&l, 0, l.len() - 1);
        proof {
            assert(l@.subrange(0, l@.len() - 1) =~= l@.drop_last());
        }
        r
    } else {
        l
    }
}

pub fn split_lines_chars(v: &Vec<char>) -> (r: Vec<Vec<char>>)
    ensures
        views_of(r@) == split_lines(v@),
{
    let nl: Vec<char> = vec!['\n'];
    proof {
        assert(nl@ =~= seq!['\n']);
    }
    let mut out: Vec<Vec<char>> = Vec::new();
    let mut start: usize = 0;
    proof {
        assert(v@.skip(0) =~= v@);
        assert(views_of(out@) =~= Seq::<Seq<char>>::empty());
        assert(Seq::<Seq<char>>::empty() + split_lines(v@) =~= split_lines(v@));
    }
    while start < v.len()
        invariant
            start <= v@.len(),
            nl@ == seq!['\n'],
            split_lines(v@) == views_of(out@) + split_lines(v@.skip(start as int)),
        decreases v.len() - start,
    {
        let ghost suf = v@.skip(start as int);
        match find_sub_at(v, &nl, start) {
            Some(j) => {
                let line = strip_cr_chars(subvec(v, start, j));
                proof {
                    let rel = find_sub(suf, seq!['\n']);
                    assert(j == start + rel);
                    assert(suf.take(rel) =~= v@.subrange(start as int, j as int));
                    assert(suf.skip(rel + 1) =~= v@.skip(j + 1));
                    assert(views_of(out@.push(line)) =~= views_of(out@) + seq![line@]);
                    assert(views_of(out@) + (seq![strip_cr(suf.take(rel))] + split_lines(
                        suf.skip(rel + 1),
                    )) =~= (views_of(out@) + seq![strip_cr(suf.take(rel))]) + split_lines(
                        suf.skip(rel + 1),
                    ));
                }
                out.push(line);
                start = j + 1;
            },
            None => {
                let line = strip_cr_chars(subvec(v, start, v.len()));
                proof {
                    assert(v@.subrange(start as int, v@.len() as int) =~= suf);
                    assert(views_of(out@.push(line)) =~= views_of(out@) + seq![line@]);
                    assert(views_of(out@) + seq![strip_cr(suf)] =~= views_of(out@.push(line)));
                }
                out.push(line);
                start = v.len();
                proof {
                    assert(v@.skip(v@.len() as int) =~= Seq::<char>::empty());
                }
            },
        }
    }
    proof {
        assert(v@.skip(start as int) =~= Seq::<char>::empty());
        assert(views_of(out@) + Seq::<Seq<char>>::empty() =~= views_of(out@));
    }
    out
}

/// Each line followed by one newline character.
pub open spec fn join_nl(ls: Seq<Seq<char>>) -> Seq<char>
    decreases ls.len(),
{
    if ls.len() == 0 {
        Seq::empty()
    } else {
        ls[0] + seq!['\n'] + join_nl(ls.drop_first())
    }
}

pub proof fn lemma_join_nl_push(ls: Seq<Seq<char>>, l: Seq<char>)
    ensures
        join_nl(ls.push(l)) == join_nl(ls) + l + seq!['\n'],
    decreases ls.len(),
{
    if ls.len() == 0 {
        assert(ls.push(l).drop_first() =~= Seq::<Seq<char>>::empty());
        assert(ls.push(l)[0] == l);
        assert(join_nl(ls.push(l)) == l + seq!['\n'] + join_nl(Seq::<Seq<char>>::empty()));
        assert(l + seq!['\n'] + Seq::<char>::empty() =~= Seq::<char>::empty() + l + seq!['\n']);
    } else {
        assert(ls.push(l).drop_first() =~= ls.drop_first().push(l));
        lemma_join_nl_push(ls.drop_first(), l);
        assert(ls.push(l)[0] == ls[0]);
        assert(join_nl(ls.push(l)) == ls[0] + seq!['\n'] + (join_nl(ls.drop_first()) + l
            + seq!['\n']));
        assert(ls[0] + seq!['\n'] + (join_nl(ls.drop_first()) + l + seq!['\n']) =~= (ls[0]
            + seq!['\n'] + join_nl(ls.drop_first())) + l + seq!['\n']);
    }
}

// ---------------------------------------------------------------------------
// decimal formatting
// ---------------------------------------------------------------------------

pub open spec fn dec_digit(d: int) -> char {
    ((d + 0x30) as u8) as char
}

pub open spec fn dec_str(n: nat) -> Seq<char>
    decreases n,
{
    if n == 0 {
        Seq::empty()
    } else {
        dec_str(n / 10) + seq![dec_digit(n as int % 10)]
    }
}

/// Decimal representation of `n`, without leading zeros, `"0"` for zero.
pub open spec fn dec_of(n: nat) -> Seq<char> {
    if n == 0 {
        seq!['0']
    } else {
        dec_str(n)
    }
}

pub fn u64_to_chars(n: u64) -> (r: Vec<char>)
    ensures
        r@ == dec_of(n as nat),
{
    if n == 0 {
        let r = vec!['0'];
        proof {
            assert(r@ =~= seq!['0']);
        }
        return r;
    }
    let mut acc: Vec<char> = Vec::new();
    let mut cur: u64 = n;
    while cur > 0
        invariant
            dec_str(n as nat) == dec_str(cur as nat) + acc@.reverse(),
        decreases cur,
    {
        let d = (cur % 10) as u8;
        let c = (d + 0x30) as char;
        proof {
            assert(c == dec_digit(cur as int % 10));
            assert((dec_str((cur / 10) as nat) + seq![dec_digit(cur as int % 10)]) + acc@.reverse()
                =~= dec_str((cur / 10) as nat) + (acc@.push(c)).reverse()) by {
                assert((acc@.push(c)).reverse() =~= seq![c] + acc@.reverse());
            }
        }
        acc.push(c);
        cur = cur / 10;
    }
    let mut out: Vec<char> = Vec::new();
    let mut k: usize = acc.len();
    while k > 0
        invariant
            k <= acc@.len(),
            out@ == acc@.subrange(k as int, acc@.len() as int).reverse(),
        decreases k,
    {
        proof {
            let big = acc@.subrange(k - 1, acc@.len() as int);
            assert(big.drop_first() =~= acc@.subrange(k as int, acc@.len() as int));
            assert(big.reverse() =~= big.drop_first().reverse().push(big[0]));
        }
        out.push(acc[k - 1]);
        k = k - 1;
    }
    proof {
        assert(acc@.subrange(0, acc@.len() as int) =~= acc@);
        assert(dec_str(n as nat) =~= acc@.reverse());
    }
    out
}

pub fn u64_to_string(n: u64) -> (s: String)
    ensures
        s@ == dec_of(n as nat),
{
    let v = u64_to_chars(n);
    string_of(&v)
}

} // verus!
