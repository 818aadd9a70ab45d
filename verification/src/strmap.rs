//! A string-keyed map kept as a vector of key/value pairs with pairwise
//! distinct keys, viewed in specifications as a `Map<Seq<char>, Seq<char>>`.
//! Request headers and variable environments use it; unlike a hash map its
//! entries keep their insertion order, which the renderers rely on.

use vstd::prelude::*;

verus! {

/// Entry views, in insertion order.
pub open spec fn entry_views(ps: Seq<(String, String)>) -> Seq<(Seq<char>, Seq<char>)> {
    ps.map_values(|p: (String, String)| (p.0@, p.1@))
}

/// The map denoted by an entry sequence; a later entry overrides an earlier
/// one with the same key.
pub open spec fn map_of(es: Seq<(Seq<char>, Seq<char>)>) -> Map<Seq<char>, Seq<char>>
    decreases es.len(),
{
    if es.len() == 0 {
        Map::empty()
    } else {
        map_of(es.drop_last()).insert(es.last().0, es.last().1)
    }
}

pub open spec fn unique_keys(es: Seq<(Seq<char>, Seq<char>)>) -> bool {
    forall|i: int, j: int| 0 <= i < j < es.len() ==> es[i].0 != es[j].0
}

pub proof fn lemma_map_of_contains(es: Seq<(Seq<char>, Seq<char>)>, k: Seq<char>)
    ensures
        map_of(es).contains_key(k) <==> exists|i: int| 0 <= i < es.len() && es[i].0 == k,
    decreases es.len(),
{
    if es.len() > 0 {
        lemma_map_of_contains(es.drop_last(), k);
        if map_of(es).contains_key(k) {
            if es.last().0 != k {
                let i = choose|i: int| 0 <= i < es.drop_last().len() && es.drop_last()[i].0 == k;
                assert(es[i].0 == k);
            }
        }
        if exists|i: int| 0 <= i < es.len() && es[i].0 == k {
            let i = choose|i: int| 0 <= i < es.len() && es[i].0 == k;
            if i < es.len() - 1 {
                assert(es.drop_last()[i].0 == k);
            }
        }
    }
}

pub proof fn lemma_map_of_get(es: Seq<(Seq<char>, Seq<char>)>, i: int)
    requires
        unique_keys(es),
        0 <= i < es.len(),
    ensures
        map_of(es).contains_key(es[i].0),
        map_of(es)[es[i].0] == es[i].1,
    decreases es.len(),
{
    if i == es.len() - 1 {
    } else {
        assert(es.drop_last()[i] == es[i]);
        lemma_map_of_get(es.drop_last(), i);
        assert(es[i].0 != es.last().0);
    }
}

pub proof fn lemma_map_of_finite(es: Seq<(Seq<char>, Seq<char>)>)
    ensures
        map_of(es).dom().finite(),
    decreases es.len(),
{
    if es.len() > 0 {
        lemma_map_of_finite(es.drop_last());
    }
}

pub proof fn lemma_map_of_len(es: Seq<(Seq<char>, Seq<char>)>)
    requires
        unique_keys(es),
    ensures
        map_of(es).dom().finite(),
        map_of(es).dom().len() == es.len(),
    decreases es.len(),
{
    if es.len() > 0 {
        lemma_map_of_len(es.drop_last());
        lemma_map_of_contains(es.drop_last(), es.last().0);
        assert(!map_of(es.drop_last()).contains_key(es.last().0)) by {
            if exists|i: int|
                0 <= i < es.drop_last().len() && es.drop_last()[i].0 == es.last().0 {
                let i = choose|i: int|
                    0 <= i < es.drop_last().len() && es.drop_last()[i].0 == es.last().0;
                assert(es[i].0 == es.last().0);
            }
        }
        vstd::set::axiom_set_insert_len(map_of(es.drop_last()).dom(), es.last().0);
    }
}

/// Updating the entry that holds a key is insertion into the map.
pub proof fn lemma_map_of_update(es: Seq<(Seq<char>, Seq<char>)>, i: int, v: Seq<char>)
    requires
        unique_keys(es),
        0 <= i < es.len(),
    ensures
        map_of(es.update(i, (es[i].0, v))) == map_of(es).insert(es[i].0, v),
    decreases es.len(),
{
    let k = es[i].0;
    let es2 = es.update(i, (k, v));
    if i == es.len() - 1 {
        assert(es2.drop_last() =~= es.drop_last());
        assert(map_of(es2) =~= map_of(es).insert(k, v));
    } else {
        assert(es2.drop_last() =~= es.drop_last().update(i, (k, v)));
        assert(es.drop_last()[i] == es[i]);
        lemma_map_of_update(es.drop_last(), i, v);
        assert(es.last().0 != k);
        assert(es2.last() == es.last());
        assert(map_of(es2) =~= map_of(es.drop_last()).insert(k, v).insert(
            es.last().0,
            es.last().1,
        ));
        assert(map_of(es.drop_last()).insert(k, v).insert(es.last().0, es.last().1)
            =~= map_of(es.drop_last()).insert(es.last().0, es.last().1).insert(k, v));
    }
}

/// String-to-string mapping with distinct keys, in insertion order.
#[derive(Debug)]
pub struct StringMap {
    pairs: Vec<(String, String)>,
}

impl StringMap {
    /// Entries as character sequences, in order.
    pub closed spec fn entries(&self) -> Seq<(Seq<char>, Seq<char>)> {
        entry_views(self.pairs@)
    }

    #[verifier::type_invariant]
    spec fn wf(&self) -> bool {
        unique_keys(self.entries())
    }

    pub open spec fn view(&self) -> Map<Seq<char>, Seq<char>> {
        map_of(self.entries())
    }

    pub fn new() -> (r: StringMap)
        ensures
            r@ == Map::<Seq<char>, Seq<char>>::empty(),
            r.entries() == Seq::<(Seq<char>, Seq<char>)>::empty(),
    {
        let r = StringMap { pairs: Vec::new() };
        proof {
            assert(r.entries() =~= Seq::<(Seq<char>, Seq<char>)>::empty());
        }
        r
    }

    /// Number of entries; equals the size of the map's domain.
    pub fn len(&self) -> (n: usize)
        ensures
            n == self.entries().len(),
            n == self@.dom().len(),
    {
        proof {
            use_type_invariant(&*self);
            lemma_map_of_len(self.entries());
        }
        self.pairs.len()
    }

    pub fn is_empty(&self) -> (r: bool)
        ensures
            r == (self@ == Map::<Seq<char>, Seq<char>>::empty()),
    {
        proof {
            use_type_invariant(&*self);
            lemma_map_of_len(self.entries());
            if self.entries().len() == 0 {
                assert(self@ =~= Map::<Seq<char>, Seq<char>>::empty());
            } else {
                lemma_map_of_get(self.entries(), 0);
            }
        }
        self.pairs.len() == 0
    }

    fn index_of(&self, key: &str) -> (r: Option<usize>)
        ensures
            r is Some ==> r->Some_0 < self.entries().len() && self.entries()[r->Some_0 as int].0
                == key@,
            r is None ==> forall|i: int| 0 <= i < self.entries().len() ==> self.entries()[i].0
                != key@,
    {
        let k = key.to_owned();
        let mut i: usize = 0;
        while i < self.pairs.len()
            invariant
                i <= self.pairs@.len(),
                k@ == key@,
                forall|j: int| 0 <= j < i ==> self.entries()[j].0 != key@,
            decreases self.pairs@.len() - i,
        {
            if self.pairs[i].0 == k {
                return Some(i);
            }
            i = i + 1;
        }
        None
    }

    /// Look a key up; `None` exactly when the key is absent.
    pub fn get(&self, key: &str) -> (r: Option<&String>)
        ensures
            self@.contains_key(key@) ==> r is Some && r->Some_0@ == self@[key@],
            !self@.contains_key(key@) ==> r is None,
    {
        proof {
            use_type_invariant(&*self);
            lemma_map_of_contains(self.entries(), key@);
        }
        match self.index_of(key) {
            Some(i) => {
                proof {
                    lemma_map_of_get(self.entries(), i as int);
                }
                Some(&self.pairs[i].1)
            },
            None => None,
        }
    }

    pub fn contains_key(&self, key: &str) -> (r: bool)
        ensures
            r == self@.contains_key(key@),
    {
        self.get(key).is_some()
    }

    /// Insert or update a binding.
    pub fn insert(&mut self, key: String, value: String)
        ensures
            final(self)@ == old(self)@.insert(key@, value@),
            final(self)@.contains_key(key@),
    {
        proof {
            use_type_invariant(&*self);
        }
        let idx = self.index_of(key.as_str());
        let ghost es = self.entries();
        let mut ps: Vec<(String, String)> = Vec::new();
        core::mem::swap(&mut ps, &mut self.pairs);
        match idx {
            Some(i) => {
                proof {
                    lemma_map_of_update(es, i as int, value@);
                }
                ps.set(i, (key, value));
                proof {
                    assert(entry_views(ps@) =~= es.update(i as int, (key@, value@)));
                }
                self.pairs = ps;
            },
            None => {
                ps.push((key, value));
                proof {
                    assert(entry_views(ps@) =~= es.push((key@, value@)));
                    assert(entry_views(ps@).drop_last() =~= es);
                }
                self.pairs = ps;
            },
        }
    }

    /// Add every binding of `other`, in order; bindings of `other` win.
    pub fn extend(&mut self, other: StringMap)
        ensures
            final(self)@ == old(self)@.union_prefer_right(other@),
    {
        proof {
            use_type_invariant(&other);
        }
        let ghost oes = other.entries();
        let mut rest = other.pairs;
        let mut taken: usize = 0;
        proof {
            assert(old(self)@.union_prefer_right(map_of(Seq::<(Seq<char>, Seq<char>)>::empty()))
                =~= old(self)@);
            assert(entry_views(rest@).take(0) =~= Seq::<(Seq<char>, Seq<char>)>::empty());
        }
        while taken < rest.len()
            invariant
                taken <= rest@.len(),
                entry_views(rest@) == oes,
                unique_keys(oes),
                self@ == old(self)@.union_prefer_right(map_of(oes.take(taken as int))),
            decreases rest@.len() - taken,
        {
            let ghost pre = self@;
            let pair = (rest[taken].0.clone(), rest[taken].1.clone());
            proof {
                assert(pair.0@ == oes[taken as int].0);
                assert(pair.1@ == oes[taken as int].1);
            }
            self.insert(pair.0, pair.1);
            proof {
                let t = taken as int;
                assert(oes.take(t + 1).drop_last() =~= oes.take(t));
                assert(oes.take(t + 1).last() == oes[t]);
                assert(map_of(oes.take(t + 1)) == map_of(oes.take(t)).insert(
                    oes[t].0,
                    oes[t].1,
                ));
                assert(old(self)@.union_prefer_right(map_of(oes.take(t + 1))) =~= pre.insert(
                    oes[t].0,
                    oes[t].1,
                ));
            }
            taken = taken + 1;
        }
        proof {
            assert(oes.take(oes.len() as int) =~= oes);
            assert(map_of(oes) == other@);
        }
    }

    /// The entries in insertion order, for iteration.
    pub fn pairs(&self) -> (r: &Vec<(String, String)>)
        ensures
            entry_views(r@) == self.entries(),
            unique_keys(self.entries()),
    {
        proof {
            use_type_invariant(&*self);
        }
        &self.pairs
    }
}

impl Clone for StringMap {
    /// A copy with the same entries.
    fn clone(&self) -> (r: Self)
        ensures
            r.entries() == self.entries(),
            r@ == self@,
    {
        proof {
            use_type_invariant(&*self);
        }
        let mut ps: Vec<(String, String)> = Vec::new();
        let mut i: usize = 0;
        while i < self.pairs.len()
            invariant
                i <= self.pairs@.len(),
                ps@.len() == i as int,
                forall|j: int|
                    0 <= j < i ==> ps@[j].0@ == self.pairs@[j].0@ && ps@[j].1@ == self.pairs@[
                        j].1@,
            decreases self.pairs@.len() - i,
        {
            let k = self.pairs[i].0.clone();
            let v = self.pairs[i].1.clone();
            ps.push((k, v));
            i = i + 1;
        }
        proof {
            assert forall|j: int| 0 <= j < ps@.len() implies entry_views(ps@)[j]
                == self.entries()[j] by {
                assert(entry_views(ps@)[j] == (ps@[j].0@, ps@[j].1@));
                assert(self.entries()[j] == (self.pairs@[j].0@, self.pairs@[j].1@));
            }
            assert(entry_views(ps@) =~= self.entries());
        }
        let r = StringMap { pairs: ps };
        r
    }
}

} // verus!
