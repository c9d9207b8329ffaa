//! List is a growable collection of homogeneous objects with Python-style
//! negative indexing.

use vstd::prelude::*;
use vstd::laws_eq::obeys_concrete_eq;
use crate::detail::calc_index;

verus! {

/// The first occurrences of the elements of `s`, in their original order.
pub open spec fn distinct_prefix<T>(s: Seq<T>) -> Seq<T>
    decreases s.len(),
{
    if s.len() == 0 {
        Seq::empty()
    } else {
        let p = distinct_prefix(s.drop_last());
        if p.contains(s.last()) {
            p
        } else {
            p.push(s.last())
        }
    }
}

/// The number of elements of `s` equal to `e`.
pub open spec fn occurrences<T>(s: Seq<T>, e: T) -> nat
    decreases s.len(),
{
    if s.len() == 0 {
        0
    } else {
        occurrences(s.drop_last(), e) + if s.last() == e {
            1nat
        } else {
            0nat
        }
    }
}

/// List is a collection of homogeneous objects.
#[derive(Debug, Clone, PartialEq, Eq, Hash)]
pub struct List<T> {
    data: Vec<T>,
}

impl<T> View for List<T> {
    type V = Seq<T>;

    closed spec fn view(&self) -> Seq<T> {
        self.data@
    }
}

impl<T> List<T> {
    /// Construct an empty list.
    pub fn new() -> (r: Self)
        ensures
            r@ == Seq::<T>::empty(),
    {
        List { data: Vec::new() }
    }

    /// Return the number of elements in the list.
    pub fn len(&self) -> (r: i32)
        requires
            self@.len() <= i32::MAX,
        ensures
            r == self@.len(),
    {
        self.data.len() as i32
    }

    /// Return `true` if the list contains no elements.
    pub fn is_empty(&self) -> (r: bool)
        ensures
            r == (self@.len() == 0),
    {
        self.data.len() == 0
    }

    /// Return the elements of the list as a slice, for iteration.
    pub fn iter(&self) -> (r: &[T])
        ensures
            r@ == self@,
    {
        self.data.as_slice()
    }

    /// Return the first occurrence of the specified `element` or `None`.
    pub fn find(&self, element: &T) -> (r: Option<&T>)
        where T: PartialEq
        ensures
            obeys_concrete_eq::<T>() ==> match r {
                Some(e) => self@.contains(*element) && *e == *element,
                None => !self@.contains(*element),
            },
    {
        proof {
            reveal(obeys_concrete_eq);
        }
        let n = self.data.len();
        let mut i: usize = 0;
        while i < n
            invariant
                i <= n,
                n == self@.len(),
                obeys_concrete_eq::<T>() ==> forall|j: int| 0 <= j < i ==> self@[j] != *element,
            decreases n - i,
        {
            if self.data[i] == *element {
                proof {
                    reveal(obeys_concrete_eq);
                }
                return Some(&self.data[i]);
            }
            proof {
                reveal(obeys_concrete_eq);
            }
            i = i + 1;
        }
        None
    }

    /// Return `true` if the list contains `element`.
    pub fn contains(&self, element: &T) -> (r: bool)
        where T: PartialEq
        ensures
            obeys_concrete_eq::<T>() ==> r == self@.contains(*element),
    {
        match self.find(element) {
            Some(_) => true,
            None => false,
        }
    }

    /// Count the number of occurrences of the specified `element`.
    pub fn count(&self, element: &T) -> (r: usize)
        where T: PartialEq
        ensures
            obeys_concrete_eq::<T>() ==> r == occurrences(self@, *element),
    {
        proof {
            reveal(obeys_concrete_eq);
        }
        let n = self.data.len();
        let mut cnt: usize = 0;
        let mut i: usize = 0;
        while i < n
            invariant
                i <= n,
                cnt <= i,
                n == self@.len(),
                obeys_concrete_eq::<T>() ==> cnt == occurrences(self@.take(i as int), *element),
            decreases n - i,
        {
            let hit = self.data[i] == *element;
            if hit {
                cnt = cnt + 1;
            }
            proof {
                reveal(obeys_concrete_eq);
                assert(self@.take(i + 1).drop_last() =~= self@.take(i as int));
                assert(self@.take(i + 1).last() == self@[i as int]);
            }
            i = i + 1;
        }
        proof {
            assert(self@.take(n as int) =~= self@);
        }
        cnt
    }

    /// Return a list without duplicate elements, keeping the original
    /// relative order of first occurrences.
    pub fn uniquify(&self) -> (r: Self)
        where T: PartialEq + Copy
        ensures
            obeys_concrete_eq::<T>() ==> r@ == distinct_prefix(self@),
    {
        proof {
            reveal(obeys_concrete_eq);
        }
        let n = self.data.len();
        let mut buffer: Vec<T> = Vec::new();
        let mut i: usize = 0;
        while i < n
            invariant
                i <= n,
                n == self@.len(),
                obeys_concrete_eq::<T>() ==> buffer@ == distinct_prefix(self@.take(i as int)),
            decreases n - i,
        {
            let mut seen = false;
            let mut j: usize = 0;
            while j < buffer.len()
                invariant
                    j <= buffer@.len(),
                    i < n,
                    n == self@.len(),
                    obeys_concrete_eq::<T>() ==> (seen <==> exists|k: int|
                        0 <= k < j && buffer@[k] == self@[i as int]),
                decreases buffer@.len() - j,
            {
                let hit = buffer[j] == self.data[i];
                proof {
                    reveal(obeys_concrete_eq);
                }
                if hit {
                    seen = true;
                }
                j = j + 1;
            }
            if !seen {
                buffer.push(self.data[i]);
            }
            proof {
                reveal(obeys_concrete_eq);
                if obeys_concrete_eq::<T>() {
                    assert(self@.take(i + 1).drop_last() =~= self@.take(i as int));
                    assert(self@.take(i + 1).last() == self@[i as int]);
                    let p = distinct_prefix(self@.take(i as int));
                    if seen {
                        assert(p.contains(self@[i as int]));
                        assert(buffer@ == p);
                    } else {
                        assert(!p.contains(self@[i as int]));
                        assert(buffer@ == p.push(self@[i as int]));
                    }
                    assert(distinct_prefix(self@.take(i + 1)) == if p.contains(self@.take(i + 1).last()) {
                        p
                    } else {
                        p.push(self@.take(i + 1).last())
                    });
                    assert(buffer@ == distinct_prefix(self@.take(i + 1)));
                }
            }
            i = i + 1;
        }
        proof {
            assert(self@.take(n as int) =~= self@);
        }
        List { data: buffer }
    }

    /// Insert the specified `element` at the specified `index`, which may be
    /// negative to count from the back.
    pub fn insert(&mut self, index: i32, element: T)
        requires
            old(self)@.len() < i32::MAX,
            -(old(self)@.len() as int) <= index <= old(self)@.len() as int,
        ensures
            final(self)@ == old(self)@.insert(
                if index < 0 {
                    index + old(self)@.len()
                } else {
                    index as int
                }, element),
    {
        let n = self.data.len();
        let pos = if index < 0 {
            calc_index(index, n)
        } else {
            index as usize
        };
        self.data.insert(pos, element);
    }

    /// Remove and return the element at the specified `index`, which may be
    /// negative to count from the back.
    pub fn remove(&mut self, index: i32) -> (r: T)
        requires
            old(self)@.len() >= 1,
            old(self)@.len() <= i32::MAX,
            -(old(self)@.len() as int) <= index < old(self)@.len() as int,
        ensures
            ({
                let pos = if index < 0 {
                    index + old(self)@.len()
                } else {
                    index as int
                };
                final(self)@ == old(self)@.remove(pos) && r == old(self)@[pos]
            }),
    {
        let n = self.data.len();
        let pos = calc_index(index, n);
        self.data.remove(pos)
    }

    /// Append an element to the back of the list.
    pub fn push(&mut self, element: T)
        requires
            old(self)@.len() < i32::MAX,
        ensures
            final(self)@ == old(self)@.push(element),
    {
        self.data.push(element);
    }

    /// Remove the last element and return it, or `None` if the list is empty.
    pub fn pop(&mut self) -> (r: Option<T>)
        ensures
            old(self)@.len() == 0 ==> r is None && final(self)@ == old(self)@,
            old(self)@.len() > 0 ==> r == Some(old(self)@.last()) && final(self)@ == old(
                self)@.drop_last(),
    {
        self.data.pop()
    }

    /// Clear the list.
    pub fn clear(&mut self)
        ensures
            final(self)@ == Seq::<T>::empty(),
    {
        self.data.clear();
    }

    /// Reverse the order of elements in the list, in place.
    pub fn reverse(&mut self)
        ensures
            final(self)@ == old(self)@.reverse(),
    {
        let ghost orig = self.data@;
        let n = self.data.len();
        let mut r: Vec<T> = Vec::new();
        while self.data.len() > 0
            invariant
                self.data@.len() <= orig.len(),
                self.data@ == orig.take(self.data@.len() as int),
                r@ =~= orig.skip(self.data@.len() as int).reverse(),
            decreases self.data@.len(),
        {
            let ghost k = self.data@.len() as int;
            let ghost prev = self.data@;
            let x = self.data.remove(self.data.len() - 1);
            r.push(x);
            proof {
                assert(self.data@ == prev.remove(k - 1));
                assert(prev == orig.take(k));
                assert(self.data@ =~= orig.take(k - 1));
                assert(x == orig[k - 1]);
                assert(r@ =~= orig.skip(k - 1).reverse());
            }
        }
        proof {
            assert(r@ =~= orig.reverse());
        }
        self.data = r;
    }
}

} // verus!
