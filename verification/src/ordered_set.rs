//! OrderedSet is a collection of distinct objects, kept in ascending order.

use vstd::prelude::*;
use vstd::laws_cmp::obeys_cmp;
use vstd::std_specs::cmp::OrdSpec;
use std::collections::BTreeSet;

verus! {

broadcast use vstd::std_specs::btree::group_btree_axioms;

/// The sequence `es` lists exactly the elements of the set `m`, in strictly
/// ascending order.
pub open spec fn elements_ok<'a, T: Ord>(es: Seq<&'a T>, m: Set<T>) -> bool {
    &&& es.len() == m.len()
    &&& forall|i: int| 0 <= i < es.len() ==> m.contains(*(#[trigger] es[i]))
    &&& forall|i: int, j: int| 0 <= i < j < es.len() ==> (#[trigger] es[i].cmp_spec(
        es[j])) is Less
    &&& forall|x: T| m.contains(x) ==> exists|i: int| 0 <= i < es.len() && *(
        #[trigger] es[i]) == x
}

/// Relies on `BTreeSet::iter`: it visits every element exactly once, in
/// ascending order.
#[verifier::external_body]
fn set_elements<'a, T: Ord>(s: &'a BTreeSet<T>) -> (r: Vec<&'a T>)
    ensures
        obeys_cmp::<T>() ==> elements_ok(r@, s@),
{
    s.iter().collect()
}

/// Relies on `BTreeSet::first`: it returns the minimum element, if any.
#[verifier::external_body]
fn set_first<'a, T: Ord>(s: &'a BTreeSet<T>) -> (r: Option<&'a T>)
    ensures
        obeys_cmp::<T>() ==> match r {
            Some(x) => s@.contains(*x) && forall|y: T| s@.contains(y) && y != *x ==> (
                #[trigger] x.cmp_spec(&y)) is Less,
            None => s@.len() == 0,
        },
{
    s.first()
}

/// Relies on `BTreeSet::last`: it returns the maximum element, if any.
#[verifier::external_body]
fn set_last<'a, T: Ord>(s: &'a BTreeSet<T>) -> (r: Option<&'a T>)
    ensures
        obeys_cmp::<T>() ==> match r {
            Some(x) => s@.contains(*x) && forall|y: T| s@.contains(y) && y != *x ==> (
                #[trigger] x.cmp_spec(&y)) is Greater,
            None => s@.len() == 0,
        },
{
    s.last()
}

/// Relies on `BTreeSet::pop_first`: it removes and returns the minimum
/// element, or `None` from an empty set.
#[verifier::external_body]
fn set_pop_first<T: Ord>(s: &mut BTreeSet<T>) -> (r: Option<T>)
    ensures
        obeys_cmp::<T>() ==> match r {
            Some(x) => {
                &&& old(s)@.contains(x)
                &&& final(s)@ == old(s)@.remove(x)
                &&& forall|y: T| old(s)@.contains(y) && y != x ==> (#[trigger] x.cmp_spec(
                    &y)) is Less
            },
            None => old(s)@ == final(s)@ && old(s)@.len() == 0,
        },
{
    s.pop_first()
}

/// Relies on `BTreeSet::is_disjoint`: true exactly when the two sets share
/// no element.
#[verifier::external_body]
fn set_is_disjoint<T: Ord>(a: &BTreeSet<T>, b: &BTreeSet<T>) -> (r: bool)
    ensures
        obeys_cmp::<T>() ==> r == a@.disjoint(b@),
{
    a.is_disjoint(b)
}

/// OrderedSet is a collection of distinct objects.
#[derive(Debug, Clone, PartialEq, Eq)]
pub struct OrderedSet<T> {
    data: BTreeSet<T>,
}

impl<T> View for OrderedSet<T> {
    type V = Set<T>;

    closed spec fn view(&self) -> Set<T> {
        self.data@
    }
}

impl<T: Ord> OrderedSet<T> {
    /// Construct an empty set.
    pub fn new() -> (r: Self)
        ensures
            r@ == Set::<T>::empty(),
    {
        OrderedSet { data: BTreeSet::new() }
    }

    /// Return the number of elements in the set.
    pub fn len(&self) -> (r: usize)
        ensures
            obeys_cmp::<T>() ==> r == self@.len(),
    {
        self.data.len()
    }

    /// Return `true` if the set contains no elements.
    pub fn is_empty(&self) -> (r: bool)
        ensures
            r == self@.is_empty(),
    {
        self.data.is_empty()
    }

    /// Return the elements of the set, in ascending order.
    pub fn iter(&self) -> (r: Vec<&T>)
        ensures
            obeys_cmp::<T>() ==> elements_ok(r@, self@),
    {
        set_elements(&self.data)
    }

    /// Return the stored element equal to `value`, or `None`.
    pub fn find(&self, value: &T) -> (r: Option<&T>)
        ensures
            obeys_cmp::<T>() ==> match r {
                Some(e) => self@.contains(*value) && *e == *value,
                None => !self@.contains(*value),
            },
    {
        self.data.get(value)
    }

    /// Return `true` if the set contains an element equal to the value.
    pub fn contains(&self, value: &T) -> (r: bool)
        ensures
            obeys_cmp::<T>() ==> r == self@.contains(*value),
    {
        self.data.contains(value)
    }

    /// Get the smallest element of the set, or `None` if the set is empty.
    pub fn min(&self) -> (r: Option<&T>)
        ensures
            obeys_cmp::<T>() ==> match r {
                Some(x) => self@.contains(*x) && forall|y: T| self@.contains(y) && y != *x
                    ==> (#[trigger] x.cmp_spec(&y)) is Less,
                None => self@.len() == 0,
            },
    {
        set_first(&self.data)
    }

    /// Get the largest element of the set, or `None` if the set is empty.
    pub fn max(&self) -> (r: Option<&T>)
        ensures
            obeys_cmp::<T>() ==> match r {
                Some(x) => self@.contains(*x) && forall|y: T| self@.contains(y) && y != *x
                    ==> (#[trigger] x.cmp_spec(&y)) is Greater,
                None => self@.len() == 0,
            },
    {
        set_last(&self.data)
    }

    /// Return `true` if self has no elements in common with `other`.
    pub fn is_disjoint(&self, other: &Self) -> (r: bool)
        ensures
            obeys_cmp::<T>() ==> r == self@.disjoint(other@),
    {
        set_is_disjoint(&self.data, &other.data)
    }

    /// Add a value to the set; return whether it was newly inserted.
    pub fn add(&mut self, value: T) -> (r: bool)
        ensures
            obeys_cmp::<T>() ==> final(self)@ == old(self)@.insert(value) && r == !old(
                self)@.contains(value),
    {
        self.data.insert(value)
    }

    /// Remove a value from the set; return whether it was present.
    pub fn remove(&mut self, value: &T) -> (r: bool)
        ensures
            obeys_cmp::<T>() ==> final(self)@ == old(self)@.remove(*value) && r == old(
                self)@.contains(*value),
    {
        self.data.remove(value)
    }

    /// Remove and return the smallest element, if any.
    pub fn pop(&mut self) -> (r: Option<T>)
        ensures
            obeys_cmp::<T>() ==> match r {
                Some(x) => {
                    &&& old(self)@.contains(x)
                    &&& final(self)@ == old(self)@.remove(x)
                    &&& forall|y: T| old(self)@.contains(y) && y != x ==> (
                        #[trigger] x.cmp_spec(&y)) is Less
                },
                None => old(self)@ == final(self)@ && old(self)@.len() == 0,
            },
    {
        set_pop_first(&mut self.data)
    }

    /// Clear the set, removing all elements.
    pub fn clear(&mut self)
        ensures
            final(self)@ == Set::<T>::empty(),
    {
        self.data.clear();
    }
}

} // verus!
