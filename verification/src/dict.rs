//! Dict maps keys to arbitrary values, kept in key order.

use vstd::prelude::*;
use vstd::laws_cmp::obeys_cmp;
use vstd::std_specs::cmp::OrdSpec;
use std::collections::BTreeMap;

verus! {

broadcast use vstd::std_specs::btree::group_btree_axioms;

/// Relies on `BTreeMap::pop_first`: it removes and returns the entry with
/// the least key, or `None` from an empty map.
#[verifier::external_body]
fn map_pop_first<K: Ord, V>(m: &mut BTreeMap<K, V>) -> (r: Option<(K, V)>)
    ensures
        obeys_cmp::<K>() ==> match r {
            Some(p) => {
                &&& old(m)@.contains_key(p.0)
                &&& old(m)@[p.0] == p.1
                &&& final(m)@ == old(m)@.remove(p.0)
                &&& forall|k: K| old(m)@.contains_key(k) && k != p.0 ==> (#[trigger] p.0.cmp_spec(
                    &k)) is Less
            },
            None => old(m)@ == final(m)@ && old(m)@.len() == 0,
        },
{
    m.pop_first()
}

/// Relies on `BTreeMap::iter`: it visits every entry exactly once, in
/// ascending key order.
#[verifier::external_body]
fn map_entries<'a, K: Ord, V>(m: &'a BTreeMap<K, V>) -> (r: Vec<(&'a K, &'a V)>)
    ensures
        obeys_cmp::<K>() ==> entries_ok(r@, m@),
{
    m.iter().collect()
}

/// Relies on `BTreeMap::get_key_value`: it returns the stored entry whose
/// key compares equal to the query, if any.
#[verifier::external_body]
fn map_get_key_value<'a, K: Ord, V>(m: &'a BTreeMap<K, V>, key: &K) -> (r: Option<(&'a K, &'a V)>)
    ensures
        obeys_cmp::<K>() ==> match r {
            Some(p) => m@.contains_key(*key) && *p.0 == *key && *p.1 == m@[*key],
            None => !m@.contains_key(*key),
        },
{
    m.get_key_value(key)
}

/// The sequence `es` lists exactly the entries of the map `m`, in strictly
/// ascending key order.
pub open spec fn entries_ok<'a, K: Ord, V>(es: Seq<(&'a K, &'a V)>, m: Map<K, V>) -> bool {
    &&& es.len() == m.len()
    &&& forall|i: int| #![trigger es[i]] 0 <= i < es.len() ==> m.contains_key(*es[i].0)
        && m[*es[i].0] == *es[i].1
    &&& forall|i: int, j: int| 0 <= i < j < es.len() ==> (#[trigger] es[i].0.cmp_spec(
        es[j].0)) is Less
    &&& forall|k: K| m.contains_key(k) ==> exists|i: int| 0 <= i < es.len() && *(
        #[trigger] es[i]).0 == k
}

/// Dict maps keys to arbitrary values.
#[derive(Debug, Clone, PartialEq, Eq)]
pub struct Dict<K, V> {
    data: BTreeMap<K, V>,
}

impl<K, V> View for Dict<K, V> {
    type V = Map<K, V>;

    closed spec fn view(&self) -> Map<K, V> {
        self.data@
    }
}

impl<K: Ord, V> Dict<K, V> {
    /// Construct an empty dictionary.
    pub fn new() -> (r: Self)
        ensures
            r@ == Map::<K, V>::empty(),
    {
        Dict { data: BTreeMap::new() }
    }

    /// Return the number of entries in the dictionary.
    pub fn len(&self) -> (r: usize)
        ensures
            obeys_cmp::<K>() ==> r == self@.len(),
    {
        self.data.len()
    }

    /// Return `true` if the dictionary contains no entries.
    pub fn is_empty(&self) -> (r: bool)
        ensures
            r == (self@.len() == 0),
    {
        self.data.is_empty()
    }

    /// Return the entries of the dictionary, sorted by key.
    pub fn iter(&self) -> (r: Vec<(&K, &V)>)
        ensures
            obeys_cmp::<K>() ==> entries_ok(r@, self@),
    {
        map_entries(&self.data)
    }

    /// Return the stored key-value pair of the specified `key`, or `None`.
    pub fn find(&self, key: &K) -> (r: Option<(&K, &V)>)
        ensures
            obeys_cmp::<K>() ==> match r {
                Some(p) => self@.contains_key(*key) && *p.0 == *key && *p.1 == self@[*key],
                None => !self@.contains_key(*key),
            },
    {
        map_get_key_value(&self.data, key)
    }

    /// Return `true` if the dictionary contains a value for the specified key.
    pub fn contains(&self, key: &K) -> (r: bool)
        ensures
            obeys_cmp::<K>() ==> r == self@.contains_key(*key),
    {
        self.data.contains_key(key)
    }

    /// Return a reference to the value for `key` if present, else `defaults`.
    pub fn get<'a>(&'a self, key: &K, defaults: &'a V) -> (r: &'a V)
        ensures
            obeys_cmp::<K>() ==> *r == if self@.contains_key(*key) {
                self@[*key]
            } else {
                *defaults
            },
    {
        match self.data.get(key) {
            Some(v) => v,
            None => defaults,
        }
    }

    /// Return the keys of the dictionary, in sorted order.
    pub fn keys(&self) -> (r: Vec<&K>)
        ensures
            obeys_cmp::<K>() ==> {
                &&& r@.len() == self@.len()
                &&& forall|i: int| 0 <= i < r@.len() ==> self@.contains_key(*(#[trigger] r@[i]))
                &&& forall|i: int, j: int| 0 <= i < j < r@.len() ==> (#[trigger] r@[
                    i].cmp_spec(r@[j])) is Less
                &&& forall|k: K| self@.contains_key(k) ==> exists|i: int| 0 <= i < r@.len()
                    && *(#[trigger] r@[i]) == k
            },
    {
        let entries = self.iter();
        let mut r: Vec<&K> = Vec::new();
        let n = entries.len();
        let mut i: usize = 0;
        while i < n
            invariant
                i <= n,
                n == entries@.len(),
                r@.len() == i,
                forall|j: int| 0 <= j < i ==> r@[j] == (#[trigger] entries@[j]).0,
            decreases n - i,
        {
            r.push(entries[i].0);
            i = i + 1;
        }
        proof {
            if obeys_cmp::<K>() {
                assert forall|j: int| 0 <= j < r@.len() implies self@.contains_key(
                    *(#[trigger] r@[j])) by {
                    assert(r@[j] == entries@[j].0);
                }
                assert forall|a: int, b: int| 0 <= a < b < r@.len() implies (#[trigger] r@[
                    a].cmp_spec(r@[b])) is Less by {
                    assert(r@[a] == entries@[a].0 && r@[b] == entries@[b].0);
                    assert((entries@[a].0.cmp_spec(entries@[b].0)) is Less);
                }
            }
        }
        r
    }

    /// Return the values of the dictionary, in order of their keys.
    pub fn values(&self) -> (r: Vec<&V>)
        ensures
            obeys_cmp::<K>() ==> r@.len() == self@.len() && exists|es: Seq<(&K, &V)>|
                #[trigger] entries_ok(es, self@) && r@.len() == es.len() && forall|i: int|
                #![trigger r@[i]] 0 <= i < r@.len() ==> r@[i] == es[i].1,
    {
        let entries = self.iter();
        let mut r: Vec<&V> = Vec::new();
        let n = entries.len();
        let mut i: usize = 0;
        while i < n
            invariant
                i <= n,
                n == entries@.len(),
                r@.len() == i,
                forall|j: int| 0 <= j < i ==> r@[j] == (#[trigger] entries@[j]).1,
            decreases n - i,
        {
            r.push(entries[i].1);
            i = i + 1;
        }
        proof {
            if obeys_cmp::<K>() {
                assert(entries_ok(entries@, self@));
                assert(r@.len() == entries@.len());
            }
        }
        r
    }

    /// Add the specified `key` and `value`; return `true` if the key was new.
    pub fn add(&mut self, key: K, value: V) -> (r: bool)
        ensures
            obeys_cmp::<K>() ==> final(self)@ == old(self)@.insert(key, value) && r == !old(
                self)@.contains_key(key),
    {
        match self.data.insert(key, value) {
            Some(_) => false,
            None => true,
        }
    }

    /// Remove `key` from the dictionary; return `true` if it was present.
    pub fn remove(&mut self, key: &K) -> (r: bool)
        ensures
            obeys_cmp::<K>() ==> final(self)@ == old(self)@.remove(*key) && r == old(
                self)@.contains_key(*key),
    {
        match self.data.remove(key) {
            Some(_) => true,
            None => false,
        }
    }

    /// Remove and return the entry with the least key, if any.
    pub fn pop(&mut self) -> (r: Option<(K, V)>)
        ensures
            obeys_cmp::<K>() ==> match r {
                Some(p) => {
                    &&& old(self)@.contains_key(p.0)
                    &&& old(self)@[p.0] == p.1
                    &&& final(self)@ == old(self)@.remove(p.0)
                    &&& forall|k: K| old(self)@.contains_key(k) && k != p.0 ==> (
                        #[trigger] p.0.cmp_spec(&k)) is Less
                },
                None => old(self)@ == final(self)@ && old(self)@.len() == 0,
            },
    {
        map_pop_first(&mut self.data)
    }

    /// Clear the dictionary, removing all entries.
    pub fn clear(&mut self)
        ensures
            final(self)@ == Map::<K, V>::empty(),
    {
        self.data.clear();
    }
}

} // verus!
