//! Structured values at the sandbox boundary.  Script-produced data and
//! response bodies are carried as a tagged value — null, boolean, number,
//! string, array or object — rather than as a host type, with a verified
//! serializer; parsing JSON text is delegated to serde_json behind a wrapper.

use crate::text::{chars_of, dec_of, push_all, string_of, u64_to_chars};
use vstd::prelude::*;

verus! {

broadcast use vstd::std_specs::vec::group_vec_axioms;

/// A JSON-shaped value.  A number keeps its literal text, so no
/// floating-point value enters the library.
#[derive(Debug)]
pub enum JsonValue {
    Null,
    Bool(bool),
    Number(String),
    Text(String),
    Array(Vec<JsonValue>),
    Object(Vec<(String, JsonValue)>),
}

// ---------------------------------------------------------------------------
// serialization
// ---------------------------------------------------------------------------

/// Hexadecimal digit characters, lower case.
pub open spec fn hex_digit(d: int) -> char {
    if d < 10 {
        ((d + 0x30) as u8) as char
    } else {
        ((d + 0x57) as u8) as char
    }
}

/// The escape of one character inside a JSON string literal: quote and
/// backslash escaped, control characters by their short form or `\u00..`.
pub open spec fn json_escape_char(c: char) -> Seq<char> {
    if c == '"' {
        seq!['\\', '"']
    } else if c == '\\' {
        seq!['\\', '\\']
    } else if c == '\n' {
        seq!['\\', 'n']
    } else if c == '\r' {
        seq!['\\', 'r']
    } else if c == '\t' {
        seq!['\\', 't']
    } else if c == '\u{08}' {
        seq!['\\', 'b']
    } else if c == '\u{0c}' {
        seq!['\\', 'f']
    } else if (c as u32) < 0x20 {
        seq!['\\', 'u', '0', '0', hex_digit((c as u32 / 16) as int), hex_digit(
            (c as u32 % 16) as int,
        )]
    } else {
        seq![c]
    }
}

pub open spec fn json_escape(s: Seq<char>) -> Seq<char>
    decreases s.len(),
{
    if s.len() == 0 {
        Seq::empty()
    } else {
        json_escape_char(s[0]) + json_escape(s.drop_first())
    }
}

/// A JSON string literal: the escaped text in double quotes.
pub open spec fn json_string(s: Seq<char>) -> Seq<char> {
    seq!['"'] + json_escape(s) + seq!['"']
}

/// The serialized form of a value.
pub open spec fn json_text(v: JsonValue) -> Seq<char>
    decreases v,
{
    match v {
        JsonValue::Null => seq!['n', 'u', 'l', 'l'],
        JsonValue::Bool(b) => if b {
            seq!['t', 'r', 'u', 'e']
        } else {
            seq!['f', 'a', 'l', 's', 'e']
        },
        JsonValue::Number(n) => n@,
        JsonValue::Text(s) => json_string(s@),
        JsonValue::Array(a) => seq!['['] + json_items(a@) + seq![']'],
        JsonValue::Object(o) => seq!['{'] + json_members(o@) + seq!['}'],
    }
}

/// Array elements, comma-separated.
pub open spec fn json_items(a: Seq<JsonValue>) -> Seq<char>
    decreases a,
{
    if a.len() == 0 {
        Seq::empty()
    } else if a.len() == 1 {
        json_text(a[0])
    } else {
        json_text(a[0]) + seq![','] + json_items(a.drop_first())
    }
}

/// Object members, comma-separated `"key":value` pairs.
pub open spec fn json_members(o: Seq<(String, JsonValue)>) -> Seq<char>
    decreases o,
{
    if o.len() == 0 {
        Seq::empty()
    } else if o.len() == 1 {
        json_string(o[0].0@) + seq![':'] + json_text(o[0].1)
    } else {
        json_string(o[0].0@) + seq![':'] + json_text(o[0].1) + seq![','] + json_members(
            o.drop_first(),
        )
    }
}

fn escape_into(out: &mut Vec<char>, s: &Vec<char>)
    ensures
        final(out)@ == old(out)@ + json_escape(s@),
{
    let mut i: usize = 0;
    proof {
        assert(s@.skip(0) =~= s@);
        assert(old(out)@ + Seq::<char>::empty() =~= old(out)@);
    }
    while i < s.len()
        invariant
            i <= s@.len(),
            old(out)@ + json_escape(s@) == out@ + json_escape(s@.skip(i as int)),
        decreases s@.len() - i,
    {
        let ghost suf = s@.skip(i as int);
        let ghost pre = out@;
        proof {
            assert(suf[0] == s@[i as int]);
            assert(suf.drop_first() =~= s@.skip(i + 1));
        }
        let c = s[i];
        if c == '"' {
            out.push('\\');
            out.push('"');
        } else if c == '\\' {
            out.push('\\');
            out.push('\\');
        } else if c == '\n' {
            out.push('\\');
            out.push('n');
        } else if c == '\r' {
            out.push('\\');
            out.push('r');
        } else if c == '\t' {
            out.push('\\');
            out.push('t');
        } else if c == '\u{08}' {
            out.push('\\');
            out.push('b');
        } else if c == '\u{0c}' {
            out.push('\\');
            out.push('f');
        } else if (c as u32) < 0x20 {
            let code = c as u32;
            let hi = (code / 16) as u8;
            let lo = (code % 16) as u8;
            let hic = if hi < 10 {
                (hi + 0x30) as char
            } else {
                (hi + 0x57) as char
            };
            let loc = if lo < 10 {
                (lo + 0x30) as char
            } else {
                (lo + 0x57) as char
            };
            out.push('\\');
            out.push('u');
            out.push('0');
            out.push('0');
            out.push(hic);
            out.push(loc);
            proof {
                assert(hi as int == (c as u32 / 16) as int);
                assert(lo as int == (c as u32 % 16) as int);
                assert(hic == hex_digit((c as u32 / 16) as int));
                assert(loc == hex_digit((c as u32 % 16) as int));
            }
        } else {
            out.push(c);
        }
        proof {
            assert(out@ =~= pre + json_escape_char(suf[0]));
            assert(pre + (json_escape_char(suf[0]) + json_escape(s@.skip(i + 1))) =~= (pre
                + json_escape_char(suf[0])) + json_escape(s@.skip(i + 1)));
        }
        i = i + 1;
    }
    proof {
        assert(s@.skip(s@.len() as int) =~= Seq::<char>::empty());
        assert(out@ + Seq::<char>::empty() =~= out@);
    }
}

/// Append the quoted, escaped form of a string.
pub fn string_into(out: &mut Vec<char>, s: &str)
    ensures
        final(out)@ == old(out)@ + json_string(s@),
{
    out.push('"');
    let cs = chars_of(s);
    escape_into(out, &cs);
    out.push('"');
    proof {
        assert(final(out)@ =~= old(out)@ + json_string(s@));
    }
}

proof fn lemma_json_items_split(a: Seq<JsonValue>, i: int)
    requires
        0 < i < a.len(),
    ensures
        json_items(a.skip(i - 1)) == json_text(a[i - 1]) + seq![','] + json_items(a.skip(i)),
{
    let s = a.skip(i - 1);
    assert(s.len() >= 2);
    assert(s[0] == a[i - 1]);
    assert(s.drop_first() =~= a.skip(i));
}

proof fn lemma_json_members_split(o: Seq<(String, JsonValue)>, i: int)
    requires
        0 < i < o.len(),
    ensures
        json_members(o.skip(i - 1)) == json_string(o[i - 1].0@) + seq![':'] + json_text(
            o[i - 1].1,
        ) + seq![','] + json_members(o.skip(i)),
{
    let s = o.skip(i - 1);
    assert(s.len() >= 2);
    assert(s[0] == o[i - 1]);
    assert(s.drop_first() =~= o.skip(i));
    assert(json_string(s[0].0@) + seq![':'] + json_text(s[0].1) + seq![','] + json_members(
        s.drop_first(),
    ) =~= json_string(o[i - 1].0@) + seq![':'] + json_text(o[i - 1].1) + seq![','] + json_members(
        o.skip(i),
    ));
}

fn value_into(out: &mut Vec<char>, v: &JsonValue)
    ensures
        final(out)@ == old(out)@ + json_text(*v),
    decreases *v,
{
    match v {
        JsonValue::Null => {
            out.push('n');
            out.push('u');
            out.push('l');
            out.push('l');
            proof {
                assert(out@ =~= old(out)@ + json_text(*v));
            }
        },
        JsonValue::Bool(b) => {
            if *b {
                out.push('t');
                out.push('r');
                out.push('u');
                out.push('e');
            } else {
                out.push('f');
                out.push('a');
                out.push('l');
                out.push('s');
                out.push('e');
            }
            proof {
                assert(out@ =~= old(out)@ + json_text(*v));
            }
        },
        JsonValue::Number(n) => {
            let cs = chars_of(n.as_str());
            push_all(out, &cs);
        },
        JsonValue::Text(s) => {
            string_into(out, s.as_str());
        },
        JsonValue::Array(a) => {
            out.push('[');
            let ghost base = out@;
            let mut i: usize = 0;
            while i < a.len()
                invariant
                    *v == JsonValue::Array(*a),
                    i <= a@.len(),
                    i == 0 ==> out@ == base,
                    i > 0 ==> base + json_items(a@) == out@ + (if i < a@.len() {
                        seq![','] + json_items(a@.skip(i as int))
                    } else {
                        Seq::<char>::empty()
                    }),
                decreases a@.len() - i,
            {
                if i > 0 {
                    out.push(',');
                }
                proof {
                    assert(decreases_to!(*v => (*v)->Array_0));
                    assert((*v)->Array_0 == *a);
                    assert(decreases_to!(*a => a@[i as int]));
                }
                value_into(out, &a[i]);
                proof {
                    if i == 0 {
                        if a@.len() == 1 {
                            assert(json_items(a@) == json_text(a@[0]));
                            assert(base + json_items(a@) =~= out@ + Seq::<char>::empty());
                        } else {
                            assert(json_items(a@) == json_text(a@[0]) + seq![','] + json_items(
                                a@.drop_first(),
                            ));
                            assert(a@.drop_first() =~= a@.skip(1));
                            assert(base + json_items(a@) =~= out@ + (seq![','] + json_items(
                                a@.skip(1),
                            )));
                        }
                    } else {
                        if i + 1 < a@.len() {
                            lemma_json_items_split(a@, i + 1);
                            assert(base + json_items(a@) =~= out@ + (seq![','] + json_items(
                                a@.skip(i + 1),
                            )));
                        } else {
                            assert(a@.skip(i as int).len() == 1);
                            assert(a@.skip(i as int)[0] == a@[i as int]);
                            assert(json_items(a@.skip(i as int)) == json_text(a@[i as int]));
                            assert(base + json_items(a@) =~= out@ + Seq::<char>::empty());
                        }
                    }
                }
                i = i + 1;
            }
            proof {
                if a@.len() == 0 {
                    assert(json_items(a@) == Seq::<char>::empty());
                    assert(base + json_items(a@) =~= base);
                }
                assert(base + json_items(a@) =~= out@);
            }
            out.push(']');
            proof {
                assert(out@ =~= old(out)@ + json_text(*v));
            }
        },
        JsonValue::Object(o) => {
            out.push('{');
            let ghost base = out@;
            let mut i: usize = 0;
            while i < o.len()
                invariant
                    *v == JsonValue::Object(*o),
                    i <= o@.len(),
                    i == 0 ==> out@ == base,
                    i > 0 ==> base + json_members(o@) == out@ + (if i < o@.len() {
                        seq![','] + json_members(o@.skip(i as int))
                    } else {
                        Seq::<char>::empty()
                    }),
                decreases o@.len() - i,
            {
                if i > 0 {
                    out.push(',');
                }
                let ghost pre = out@;
                string_into(out, o[i].0.as_str());
                out.push(':');
                proof {
                    assert(decreases_to!(*v => (*v)->Object_0));
                    assert((*v)->Object_0 == *o);
                    assert(decreases_to!(*o => o@[i as int]));
                    assert(decreases_to!(o@[i as int] => o@[i as int].1));
                }
                value_into(out, &o[i].1);
                proof {
                    assert(out@ =~= pre + (json_string(o@[i as int].0@) + seq![':'] + json_text(
                        o@[i as int].1,
                    )));
                    if i == 0 {
                        if o@.len() == 1 {
                            assert(json_members(o@) == json_string(o@[0].0@) + seq![':']
                                + json_text(o@[0].1));
                            assert(base + json_members(o@) =~= out@ + Seq::<char>::empty());
                        } else {
                            assert(json_members(o@) == json_string(o@[0].0@) + seq![':']
                                + json_text(o@[0].1) + seq![','] + json_members(o@.drop_first()));
                            assert(o@.drop_first() =~= o@.skip(1));
                            assert(base + json_members(o@) =~= out@ + (seq![','] + json_members(
                                o@.skip(1),
                            )));
                        }
                    } else {
                        if i + 1 < o@.len() {
                            lemma_json_members_split(o@, i + 1);
                            assert(base + json_members(o@) =~= out@ + (seq![','] + json_members(
                                o@.skip(i + 1),
                            )));
                        } else {
                            assert(o@.skip(i as int).len() == 1);
                            assert(o@.skip(i as int)[0] == o@[i as int]);
                            assert(json_members(o@.skip(i as int)) == json_string(o@[
                                i as int].0@) + seq![':'] + json_text(o@[i as int].1));
                            assert(base + json_members(o@) =~= out@ + Seq::<char>::empty());
                        }
                    }
                }
                i = i + 1;
            }
            proof {
                if o@.len() == 0 {
                    assert(json_members(o@) == Seq::<char>::empty());
                    assert(base + json_members(o@) =~= base);
                }
                assert(base + json_members(o@) =~= out@);
            }
            out.push('}');
            proof {
                assert(out@ =~= old(out)@ + json_text(*v));
            }
        },
    }
}

/// Serialize a value to JSON text.
pub fn to_json_text(v: &JsonValue) -> (r: String)
    ensures
        r@ == json_text(*v),
{
    let mut out: Vec<char> = Vec::new();
    value_into(&mut out, v);
    proof {
        assert(Seq::<char>::empty() + json_text(*v) =~= json_text(*v));
    }
    string_of(&out)
}

// ---------------------------------------------------------------------------
// object lookup
// ---------------------------------------------------------------------------

/// The first member with the given key, if any.
pub open spec fn obj_lookup(ps: Seq<(String, JsonValue)>, k: Seq<char>) -> Option<JsonValue>
    decreases ps.len(),
{
    if ps.len() == 0 {
        None
    } else if ps[0].0@ == k {
        Some(ps[0].1)
    } else {
        obj_lookup(ps.drop_first(), k)
    }
}

/// Look a key up among an object's members.
pub fn obj_get<'a>(ps: &'a Vec<(String, JsonValue)>, k: &str) -> (r: Option<&'a JsonValue>)
    ensures
        match obj_lookup(ps@, k@) {
            Some(v) => r is Some && *r->Some_0 == v,
            None => r is None,
        },
{
    let key = k.to_owned();
    let mut i: usize = 0;
    proof {
        assert(ps@.skip(0) =~= ps@);
    }
    while i < ps.len()
        invariant
            i <= ps@.len(),
            key@ == k@,
            obj_lookup(ps@, k@) == obj_lookup(ps@.skip(i as int), k@),
        decreases ps@.len() - i,
    {
        proof {
            assert(ps@.skip(i as int)[0] == ps@[i as int]);
            assert(ps@.skip(i as int).drop_first() =~= ps@.skip(i + 1));
        }
        if ps[i].0 == key {
            return Some(&ps[i].1);
        }
        i = i + 1;
    }
    proof {
        assert(ps@.skip(ps@.len() as int) =~= Seq::<(String, JsonValue)>::empty());
    }
    None
}

/// Serializations agree when arrays agree elementwise.
proof fn lemma_items_congruent(a: Seq<JsonValue>, b: Seq<JsonValue>)
    requires
        a.len() == b.len(),
        forall|i: int| 0 <= i < a.len() ==> json_text(#[trigger] a[i]) == json_text(b[i]),
    ensures
        json_items(a) == json_items(b),
    decreases a.len(),
{
    if a.len() > 1 {
        assert forall|i: int| 0 <= i < a.drop_first().len() implies json_text(
            #[trigger] a.drop_first()[i],
        ) == json_text(b.drop_first()[i]) by {
            assert(a.drop_first()[i] == a[i + 1]);
            assert(b.drop_first()[i] == b[i + 1]);
        }
        lemma_items_congruent(a.drop_first(), b.drop_first());
    }
}

/// Serializations agree when objects agree memberwise.
proof fn lemma_members_congruent(a: Seq<(String, JsonValue)>, b: Seq<(String, JsonValue)>)
    requires
        a.len() == b.len(),
        forall|i: int|
            0 <= i < a.len() ==> (#[trigger] a[i]).0@ == b[i].0@ && json_text(a[i].1) == json_text(
                b[i].1,
            ),
    ensures
        json_members(a) == json_members(b),
    decreases a.len(),
{
    if a.len() > 1 {
        assert forall|i: int| 0 <= i < a.drop_first().len() implies (#[trigger] a.drop_first()[
        i]).0@ == b.drop_first()[i].0@ && json_text(a.drop_first()[i].1) == json_text(
            b.drop_first()[i].1,
        ) by {
            assert(a.drop_first()[i] == a[i + 1]);
            assert(b.drop_first()[i] == b[i + 1]);
        }
        lemma_members_congruent(a.drop_first(), b.drop_first());
    }
}

impl Clone for JsonValue {
    /// A structurally equal copy: it serializes to the same text.
    fn clone(&self) -> (r: Self)
        ensures
            json_text(r) == json_text(*self),
        decreases *self,
    {
        match self {
            JsonValue::Null => JsonValue::Null,
            JsonValue::Bool(b) => JsonValue::Bool(*b),
            JsonValue::Number(n) => JsonValue::Number(n.clone()),
            JsonValue::Text(s) => JsonValue::Text(s.clone()),
            JsonValue::Array(a) => {
                let mut out: Vec<JsonValue> = Vec::new();
                let mut i: usize = 0;
                while i < a.len()
                    invariant
                        *self == JsonValue::Array(*a),
                        i <= a@.len(),
                        out@.len() == i as int,
                        forall|j: int|
                            0 <= j < i ==> json_text(#[trigger] out@[j]) == json_text(a@[j]),
                    decreases a@.len() - i,
                {
                    proof {
                        assert(decreases_to!(*self => (*self)->Array_0));
                        assert((*self)->Array_0 == *a);
                        assert(decreases_to!(*a => a@[i as int]));
                    }
                    out.push(a[i].clone());
                    i = i + 1;
                }
                proof {
                    lemma_items_congruent(out@, a@);
                }
                JsonValue::Array(out)
            },
            JsonValue::Object(o) => {
                let mut out: Vec<(String, JsonValue)> = Vec::new();
                let mut i: usize = 0;
                while i < o.len()
                    invariant
                        *self == JsonValue::Object(*o),
                        i <= o@.len(),
                        out@.len() == i as int,
                        forall|j: int|
                            0 <= j < i ==> (#[trigger] out@[j]).0@ == o@[j].0@ && json_text(
                                out@[j].1,
                            ) == json_text(o@[j].1),
                    decreases o@.len() - i,
                {
                    proof {
                        assert(decreases_to!(*self => (*self)->Object_0));
                        assert((*self)->Object_0 == *o);
                        assert(decreases_to!(*o => o@[i as int]));
                        assert(decreases_to!(o@[i as int] => o@[i as int].1));
                    }
                    out.push((o[i].0.clone(), o[i].1.clone()));
                    i = i + 1;
                }
                proof {
                    lemma_members_congruent(out@, o@);
                }
                JsonValue::Object(out)
            },
        }
    }
}

// ---------------------------------------------------------------------------
// a string-keyed map of structured values
// ---------------------------------------------------------------------------

/// Member views of a pair vector: keys as character sequences, in order.
pub open spec fn jentry_views(ps: Seq<(String, JsonValue)>) -> Seq<(Seq<char>, JsonValue)> {
    ps.map_values(|p: (String, JsonValue)| (p.0@, p.1))
}

/// The map denoted by an entry sequence; a later entry overrides an earlier
/// one with the same key.
pub open spec fn jmap_of(es: Seq<(Seq<char>, JsonValue)>) -> Map<Seq<char>, JsonValue>
    decreases es.len(),
{
    if es.len() == 0 {
        Map::empty()
    } else {
        jmap_of(es.drop_last()).insert(es.last().0, es.last().1)
    }
}

pub open spec fn junique_keys(es: Seq<(Seq<char>, JsonValue)>) -> bool {
    forall|i: int, j: int| 0 <= i < j < es.len() ==> es[i].0 != es[j].0
}

pub proof fn lemma_jmap_of_contains(es: Seq<(Seq<char>, JsonValue)>, k: Seq<char>)
    ensures
        jmap_of(es).contains_key(k) <==> exists|i: int| 0 <= i < es.len() && es[i].0 == k,
    decreases es.len(),
{
    if es.len() > 0 {
        lemma_jmap_of_contains(es.drop_last(), k);
        if jmap_of(es).contains_key(k) {
            if es.last().0 != k {
                let i = choose|i: int| 0 <= i < es.drop_last().len() && es.drop_last()[i].0 == k;
                assert(es[i].0 == k);
            }
        }
        if exists|i: int| 0 <= i < es.len() && es[i].0 == k {
            let i = choose|i: int| 0 <= i < es.len() && es[i].0 == k;
            if i < es.len() - 1 {
                assert(es.drop_last()[i].0 == k);
            }
        }
    }
}

pub proof fn lemma_jmap_of_get(es: Seq<(Seq<char>, JsonValue)>, i: int)
    requires
        junique_keys(es),
        0 <= i < es.len(),
    ensures
        jmap_of(es).contains_key(es[i].0),
        jmap_of(es)[es[i].0] == es[i].1,
    decreases es.len(),
{
    if i == es.len() - 1 {
    } else {
        assert(es.drop_last()[i] == es[i]);
        lemma_jmap_of_get(es.drop_last(), i);
        assert(es[i].0 != es.last().0);
    }
}

pub proof fn lemma_jmap_of_update(es: Seq<(Seq<char>, JsonValue)>, i: int, v: JsonValue)
    requires
        junique_keys(es),
        0 <= i < es.len(),
    ensures
        jmap_of(es.update(i, (es[i].0, v))) == jmap_of(es).insert(es[i].0, v),
    decreases es.len(),
{
    let k = es[i].0;
    let es2 = es.update(i, (k, v));
    if i == es.len() - 1 {
        assert(es2.drop_last() =~= es.drop_last());
        assert(jmap_of(es2) =~= jmap_of(es).insert(k, v));
    } else {
        assert(es2.drop_last() =~= es.drop_last().update(i, (k, v)));
        assert(es.drop_last()[i] == es[i]);
        lemma_jmap_of_update(es.drop_last(), i, v);
        assert(es.last().0 != k);
        assert(es2.last() == es.last());
        assert(jmap_of(es2) =~= jmap_of(es.drop_last()).insert(k, v).insert(
            es.last().0,
            es.last().1,
        ));
        assert(jmap_of(es.drop_last()).insert(k, v).insert(es.last().0, es.last().1) =~= jmap_of(
            es.drop_last(),
        ).insert(es.last().0, es.last().1).insert(k, v));
    }
}

/// A mapping from names to structured values, with distinct keys, kept in
/// insertion order: the sandbox's persistent global store.
#[derive(Debug)]
pub struct JsonMap {
    pairs: Vec<(String, JsonValue)>,
}

impl JsonMap {
    pub closed spec fn entries(&self) -> Seq<(Seq<char>, JsonValue)> {
        jentry_views(self.pairs@)
    }

    #[verifier::type_invariant]
    spec fn wf(&self) -> bool {
        junique_keys(self.entries())
    }

    pub open spec fn view(&self) -> Map<Seq<char>, JsonValue> {
        jmap_of(self.entries())
    }

    pub fn new() -> (r: JsonMap)
        ensures
            r@ == Map::<Seq<char>, JsonValue>::empty(),
            r.entries() == Seq::<(Seq<char>, JsonValue)>::empty(),
    {
        let r = JsonMap { pairs: Vec::new() };
        proof {
            assert(r.entries() =~= Seq::<(Seq<char>, JsonValue)>::empty());
        }
        r
    }

    pub fn len(&self) -> (n: usize)
        ensures
            n == self.entries().len(),
    {
        self.pairs.len()
    }

    fn index_of(&self, key: &str) -> (r: Option<usize>)
        ensures
            r is Some ==> r->Some_0 < self.entries().len() && self.entries()[r->Some_0 as int].0
                == key@,
            r is None ==> forall|i: int| 0 <= i < self.entries().len() ==> self.entries()[i].0
                != key@,
    {
        let k = key.to_owned();
        let mut i: usize = 0;
        while i < self.pairs.len()
            invariant
                i <= self.pairs@.len(),
                k@ == key@,
                forall|j: int| 0 <= j < i ==> self.entries()[j].0 != key@,
            decreases self.pairs@.len() - i,
        {
            if self.pairs[i].0 == k {
                return Some(i);
            }
            i = i + 1;
        }
        None
    }

    /// Look a key up; `None` exactly when the key is absent.
    pub fn get(&self, key: &str) -> (r: Option<&JsonValue>)
        ensures
            self@.contains_key(key@) ==> r is Some && *r->Some_0 == self@[key@],
            !self@.contains_key(key@) ==> r is None,
    {
        proof {
            use_type_invariant(&*self);
            lemma_jmap_of_contains(self.entries(), key@);
        }
        match self.index_of(key) {
            Some(i) => {
                proof {
                    lemma_jmap_of_get(self.entries(), i as int);
                }
                Some(&self.pairs[i].1)
            },
            None => None,
        }
    }

    /// Insert or update a binding.
    pub fn insert(&mut self, key: String, value: JsonValue)
        ensures
            final(self)@ == old(self)@.insert(key@, value),
    {
        proof {
            use_type_invariant(&*self);
        }
        let idx = self.index_of(key.as_str());
        let ghost es = self.entries();
        let mut ps: Vec<(String, JsonValue)> = Vec::new();
        core::mem::swap(&mut ps, &mut self.pairs);
        match idx {
            Some(i) => {
                proof {
                    lemma_jmap_of_update(es, i as int, value);
                }
                ps.set(i, (key, value));
                proof {
                    assert(jentry_views(ps@) =~= es.update(i as int, (key@, value)));
                }
                self.pairs = ps;
            },
            None => {
                ps.push((key, value));
                proof {
                    assert(jentry_views(ps@) =~= es.push((key@, value)));
                    assert(jentry_views(ps@).drop_last() =~= es);
                }
                self.pairs = ps;
            },
        }
    }

    /// The entries in insertion order, for iteration.
    pub fn pairs(&self) -> (r: &Vec<(String, JsonValue)>)
        ensures
            jentry_views(r@) == self.entries(),
            junique_keys(self.entries()),
    {
        proof {
            use_type_invariant(&*self);
        }
        &self.pairs
    }
}

// ---------------------------------------------------------------------------
// parsing, through serde_json
// ---------------------------------------------------------------------------

#[verifier::external_type_specification]
#[verifier::external_body]
pub struct ExValue(serde_json::Value);

/// The converting half of `parse_json_text`, separate only because it
/// recurses.  Relies on the shape of `serde_json::Value`: each variant
/// carried over to the library's tagged value one for one, a number by its
/// display form, an object in its map's iteration order.
#[verifier::external_body]
fn value_to_json(v: serde_json::Value) -> JsonValue {
    match v {
        serde_json::Value::Null => JsonValue::Null,
        serde_json::Value::Bool(b) => JsonValue::Bool(b),
        serde_json::Value::Number(n) => JsonValue::Number(n.to_string()),
        serde_json::Value::String(s) => JsonValue::Text(s),
        serde_json::Value::Array(a) => JsonValue::Array(
            a.into_iter().map(value_to_json).collect(),
        ),
        serde_json::Value::Object(o) => JsonValue::Object(
            o.into_iter().map(|kv| (kv.0, value_to_json(kv.1))).collect(),
        ),
    }
}

/// Whether a text is a JSON document that `parse_json_text` accepts.
pub uninterp spec fn json_parses(s: Seq<char>) -> bool;

/// The value `parse_json_text` reads from a text it accepts.
pub uninterp spec fn json_value_of(s: Seq<char>) -> JsonValue;

/// Relies on `serde_json::from_str`: `Ok` exactly when the text is a valid
/// JSON document, `Err` carrying the parser's message.  Parsing depends on
/// the text alone, so the outcome and the value carry the two names above.
#[verifier::external_body]
pub(crate) fn parse_json_text(s: &str) -> (r: Result<JsonValue, String>)
    ensures
        r is Ok <==> json_parses(s@),
        r is Ok ==> r->Ok_0 == json_value_of(s@),
{
    match serde_json::from_str::<serde_json::Value>(s) {
        Ok(v) => Ok(value_to_json(v)),
        Err(e) => Err(format!("{}", e)),
    }
}

} // verus!
