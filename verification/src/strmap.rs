//! A verified association map from strings to values.
//!
//! Every index the topology keeps (rooms, role occupancy, external
//! networks, project roles) is a finite map keyed by an opaque string.
//! `StrMap` implements such a map as a vector of pairs with unique keys;
//! its view is a `Map<Seq<char>, V>`, and the entry sequence is exposed so
//! that iteration order (insertion order) can be specified exactly.

use vstd::prelude::*;

use crate::strutil::str_eq;

verus! {

/// The map denoted by an entry sequence: later entries overwrite earlier
/// ones, which matches collecting pairs into a map one by one.
pub open spec fn map_of<V>(s: Seq<(String, V)>) -> Map<Seq<char>, V>
    decreases s.len(),
{
    if s.len() == 0 {
        Map::empty()
    } else {
        map_of(s.drop_last()).insert(s.last().0@, s.last().1)
    }
}

pub proof fn lemma_map_of_contains<V>(s: Seq<(String, V)>, k: Seq<char>)
    ensures
        map_of(s).contains_key(k) <==> exists|i: int| 0 <= i < s.len() && s[i].0@ == k,
    decreases s.len(),
{
    if s.len() > 0 {
        lemma_map_of_contains(s.drop_last(), k);
        if s.last().0@ == k {
            assert(s[s.len() - 1].0@ == k);
        } else if map_of(s).contains_key(k) {
            let i = choose|i: int| 0 <= i < s.drop_last().len() && s.drop_last()[i].0@ == k;
            assert(s[i].0@ == k);
        } else {
            assert forall|i: int| 0 <= i < s.len() implies s[i].0@ != k by {
                if i < s.len() - 1 {
                    assert(s.drop_last()[i] == s[i]);
                }
            }
        }
    }
}

/// If position `i` holds the last entry with its key, the map takes its
/// value from there.
pub proof fn lemma_map_of_get<V>(s: Seq<(String, V)>, i: int)
    requires
        0 <= i < s.len(),
        forall|j: int| i < j < s.len() ==> s[j].0@ != s[i].0@,
    ensures
        map_of(s).contains_key(s[i].0@),
        map_of(s)[s[i].0@] == s[i].1,
    decreases s.len(),
{
    if i == s.len() - 1 {
    } else {
        assert(s.drop_last()[i] == s[i]);
        assert forall|j: int| i < j < s.drop_last().len() implies s.drop_last()[j].0@ != s[i].0@ by {
            assert(s.drop_last()[j] == s[j]);
        }
        lemma_map_of_get(s.drop_last(), i);
    }
}

pub proof fn lemma_map_of_update<V>(s: Seq<(String, V)>, i: int, p: (String, V))
    requires
        0 <= i < s.len(),
        s[i].0@ == p.0@,
        forall|j1: int, j2: int| 0 <= j1 < j2 < s.len() ==> s[j1].0@ != s[j2].0@,
    ensures
        map_of(s.update(i, p)) == map_of(s).insert(p.0@, p.1),
    decreases s.len(),
{
    let t = s.update(i, p);
    if i == s.len() - 1 {
        assert(t.drop_last() =~= s.drop_last());
        assert(map_of(t) == map_of(s.drop_last()).insert(p.0@, p.1));
        assert(map_of(s).insert(p.0@, p.1) =~= map_of(s.drop_last()).insert(p.0@, p.1));
    } else {
        assert(t.drop_last() =~= s.drop_last().update(i, p));
        assert(s.drop_last()[i] == s[i]);
        lemma_map_of_update(s.drop_last(), i, p);
        assert(t.last() == s.last());
        assert(map_of(t) == map_of(s.drop_last()).insert(p.0@, p.1).insert(s.last().0@, s.last().1));
        assert(s.last().0@ != p.0@);
        assert(map_of(s.drop_last()).insert(p.0@, p.1).insert(s.last().0@, s.last().1)
            =~= map_of(s.drop_last()).insert(s.last().0@, s.last().1).insert(p.0@, p.1));
    }
}

pub proof fn lemma_map_of_remove<V>(s: Seq<(String, V)>, i: int)
    requires
        0 <= i < s.len(),
        forall|j1: int, j2: int| 0 <= j1 < j2 < s.len() ==> s[j1].0@ != s[j2].0@,
    ensures
        map_of(s.remove(i)) == map_of(s).remove(s[i].0@),
    decreases s.len(),
{
    let t = s.remove(i);
    if i == s.len() - 1 {
        assert(t =~= s.drop_last());
        lemma_map_of_contains(s.drop_last(), s[i].0@);
        assert(!map_of(s.drop_last()).contains_key(s[i].0@));
        assert(map_of(s).remove(s[i].0@) =~= map_of(s.drop_last()));
    } else {
        assert(t.drop_last() =~= s.drop_last().remove(i));
        assert(s.drop_last()[i] == s[i]);
        lemma_map_of_remove(s.drop_last(), i);
        assert(t.last() == s.last());
        assert(map_of(t) == map_of(s.drop_last()).remove(s[i].0@).insert(s.last().0@, s.last().1));
        assert(s.last().0@ != s[i].0@);
        assert(map_of(s.drop_last()).remove(s[i].0@).insert(s.last().0@, s.last().1)
            =~= map_of(s.drop_last()).insert(s.last().0@, s.last().1).remove(s[i].0@));
    }
}

pub proof fn lemma_map_of_dom_len<V>(s: Seq<(String, V)>)
    requires
        forall|j1: int, j2: int| 0 <= j1 < j2 < s.len() ==> s[j1].0@ != s[j2].0@,
    ensures
        map_of(s).dom().finite(),
        map_of(s).dom().len() == s.len(),
    decreases s.len(),
{
    if s.len() > 0 {
        lemma_map_of_dom_len(s.drop_last());
        lemma_map_of_contains(s.drop_last(), s.last().0@);
        assert forall|j: int| 0 <= j < s.drop_last().len() implies s.drop_last()[j].0@ != s.last().0@ by {
            assert(s.drop_last()[j] == s[j]);
            assert(s.last() == s[s.len() - 1]);
        }
        assert(!map_of(s.drop_last()).contains_key(s.last().0@));
    }
}

/// An association map from strings to values with unique keys and a
/// deterministic entry order.
pub struct StrMap<V> {
    pub pairs: Vec<(String, V)>,
}

impl<V> StrMap<V> {
    /// The entries in order: first inserted first.
    pub open spec fn entries(self) -> Seq<(String, V)> {
        self.pairs@
    }

    /// Keys are pairwise distinct.
    pub open spec fn wf(self) -> bool {
        forall|j1: int, j2: int| 0 <= j1 < j2 < self.pairs@.len()
            ==> self.pairs@[j1].0@ != self.pairs@[j2].0@
    }

    pub fn new() -> (r: StrMap<V>)
        ensures
            r.wf(),
            r@ == Map::<Seq<char>, V>::empty(),
            r.entries() == Seq::<(String, V)>::empty(),
    {
        let r = StrMap { pairs: Vec::new() };
        proof {
            assert(r.entries() =~= Seq::<(String, V)>::empty());
        }
        r
    }

    pub fn len(&self) -> (r: usize)
        ensures
            r == self.entries().len(),
            self.wf() ==> r == self@.dom().len(),
    {
        proof {
            if self.wf() {
                lemma_map_of_dom_len(self.pairs@);
            }
        }
        self.pairs.len()
    }

    pub fn is_empty(&self) -> (r: bool)
        ensures
            r == (self.entries().len() == 0),
            r == self@.dom().is_empty(),
    {
        proof {
            lemma_map_of_contains(self.pairs@, choose|k: Seq<char>| self@.dom().contains(k));
            if self.pairs@.len() > 0 {
                lemma_map_of_contains(self.pairs@, self.pairs@[0].0@);
            }
        }
        self.pairs.len() == 0
    }

    pub fn contains_key(&self, k: &str) -> (r: bool)
        ensures
            r == self@.contains_key(k@),
    {
        proof {
            lemma_map_of_contains(self.pairs@, k@);
        }
        let n = self.pairs.len();
        let mut i: usize = 0;
        while i < n
            invariant
                n == self.pairs@.len(),
                i <= n,
                forall|j: int| 0 <= j < i ==> self.pairs@[j].0@ != k@,
            decreases n - i,
        {
            if str_eq(self.pairs[i].0.as_str(), k) {
                proof {
                    assert(exists|j: int| 0 <= j < self.pairs@.len() && self.pairs@[j].0@ == k@) by {
                        assert(0 <= (i as int) && (i as int) < self.pairs@.len() && self.pairs@[i as int].0@ == k@);
                    }
                    lemma_map_of_contains(self.pairs@, k@);
                    assert(self@.contains_key(k@));
                }
                return true;
            }
            i = i + 1;
        }
        false
    }

    pub fn get(&self, k: &str) -> (r: Option<&V>)
        requires
            self.wf(),
        ensures
            match r {
                Some(v) => self@.contains_key(k@) && *v == self@[k@],
                None => !self@.contains_key(k@),
            },
    {
        proof {
            lemma_map_of_contains(self.pairs@, k@);
        }
        let n = self.pairs.len();
        let mut i: usize = 0;
        while i < n
            invariant
                self.wf(),
                n == self.pairs@.len(),
                i <= n,
                forall|j: int| 0 <= j < i ==> self.pairs@[j].0@ != k@,
            decreases n - i,
        {
            if str_eq(self.pairs[i].0.as_str(), k) {
                proof {
                    lemma_map_of_get(self.pairs@, i as int);
                }
                return Some(&self.pairs[i].1);
            }
            i = i + 1;
        }
        None
    }

    /// Inserts or overwrites; an existing key keeps its position in the
    /// entry order, a new key goes to the end.
    pub fn insert(&mut self, k: String, v: V)
        requires
            old(self).wf(),
        ensures
            final(self).wf(),
            final(self)@ == old(self)@.insert(k@, v),
            !old(self)@.contains_key(k@)
                ==> final(self).entries() == old(self).entries().push((k, v)),
            old(self)@.contains_key(k@)
                ==> exists|i: int|
                    0 <= i < old(self).entries().len()
                    && old(self).entries()[i].0@ == k@
                    && final(self).entries() == old(self).entries().update(i, (k, v)),
    {
        proof {
            lemma_map_of_contains(self.pairs@, k@);
        }
        let n = self.pairs.len();
        let mut i: usize = 0;
        while i < n
            invariant
                self.wf(),
                self == old(self),
                n == self.pairs@.len(),
                i <= n,
                forall|j: int| 0 <= j < i ==> self.pairs@[j].0@ != k@,
            decreases n - i,
        {
            if str_eq(self.pairs[i].0.as_str(), k.as_str()) {
                proof {
                    assert(exists|j: int| 0 <= j < self.pairs@.len() && self.pairs@[j].0@ == k@) by {
                        assert(0 <= (i as int) && (i as int) < self.pairs@.len() && self.pairs@[i as int].0@ == k@);
                    }
                    lemma_map_of_contains(self.pairs@, k@);
                    assert(old(self)@.contains_key(k@));
                    lemma_map_of_update(self.pairs@, i as int, (k, v));
                }
                self.pairs.set(i, (k, v));
                proof {
                    assert(final(self).entries() == old(self).entries().update(i as int, (k, v)));
                }
                return;
            }
            i = i + 1;
        }
        self.pairs.push((k, v));
        proof {
            assert(final(self).pairs@.drop_last() =~= old(self).pairs@);
        }
    }

    /// Removes a key, preserving the order of the remaining entries, and
    /// hands back its value.
    pub fn remove(&mut self, k: &str) -> (r: Option<V>)
        requires
            old(self).wf(),
        ensures
            final(self).wf(),
            final(self)@ == old(self)@.remove(k@),
            match r {
                Some(v) => old(self)@.contains_key(k@) && v == old(self)@[k@]
                    && exists|i: int|
                        0 <= i < old(self).entries().len()
                        && old(self).entries()[i].0@ == k@
                        && final(self).entries() == old(self).entries().remove(i),
                None => !old(self)@.contains_key(k@) && *final(self) == *old(self),
            },
    {
        proof {
            lemma_map_of_contains(self.pairs@, k@);
        }
        let n = self.pairs.len();
        let mut i: usize = 0;
        while i < n
            invariant
                self.wf(),
                self == old(self),
                n == self.pairs@.len(),
                i <= n,
                forall|j: int| 0 <= j < i ==> self.pairs@[j].0@ != k@,
            decreases n - i,
        {
            if str_eq(self.pairs[i].0.as_str(), k) {
                proof {
                    assert(exists|j: int| 0 <= j < self.pairs@.len() && self.pairs@[j].0@ == k@) by {
                        assert(0 <= (i as int) && (i as int) < self.pairs@.len() && self.pairs@[i as int].0@ == k@);
                    }
                    lemma_map_of_contains(self.pairs@, k@);
                    assert(old(self)@.contains_key(k@));
                    lemma_map_of_get(self.pairs@, i as int);
                    lemma_map_of_remove(self.pairs@, i as int);
                }
                let p = self.pairs.remove(i);
                proof {
                    assert(final(self).entries() == old(self).entries().remove(i as int));
                }
                return Some(p.1);
            }
            i = i + 1;
        }
        proof {
            assert(old(self)@.remove(k@) =~= old(self)@);
        }
        None
    }

    /// The key of the entry at a position.
    pub fn key_at(&self, i: usize) -> (r: &String)
        requires
            i < self.entries().len(),
        ensures
            *r == self.entries()[i as int].0,
    {
        &self.pairs[i].0
    }

    /// The value of the entry at a position.
    pub fn value_at(&self, i: usize) -> (r: &V)
        requires
            i < self.entries().len(),
        ensures
            *r == self.entries()[i as int].1,
    {
        &self.pairs[i].1
    }
}

impl<V> View for StrMap<V> {
    type V = Map<Seq<char>, V>;

    open spec fn view(&self) -> Map<Seq<char>, V> {
        map_of(self.pairs@)
    }
}

} // verus!
