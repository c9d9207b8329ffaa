//! Deque is a generalisation of stack and queue: elements can be pushed and
//! popped at either end, and the whole sequence can be rotated.

use vstd::prelude::*;

verus! {

/// Deque is a double-ended queue of homogeneous objects.
#[derive(Debug, Clone, PartialEq, Eq, Hash)]
pub struct Deque<T> {
    data: Vec<T>,
}

impl<T> View for Deque<T> {
    type V = Seq<T>;

    closed spec fn view(&self) -> Seq<T> {
        self.data@
    }
}

impl<T> Deque<T> {
    /// Construct an empty deque.
    pub fn new() -> (r: Self)
        ensures
            r@ == Seq::<T>::empty(),
    {
        Deque { data: Vec::new() }
    }

    /// Create an empty deque with space for at least `capacity` elements.
    pub fn with_capacity(capacity: usize) -> (r: Self)
        ensures
            r@ == Seq::<T>::empty(),
    {
        Deque { data: Vec::with_capacity(capacity) }
    }

    /// Return the number of elements in the deque.
    pub fn len(&self) -> (r: i32)
        requires
            self@.len() <= i32::MAX,
        ensures
            r == self@.len(),
    {
        self.data.len() as i32
    }

    /// Return `true` if the deque is empty.
    pub fn is_empty(&self) -> (r: bool)
        ensures
            r == (self@.len() == 0),
    {
        self.data.len() == 0
    }

    /// Return the elements of the deque as a slice, front first, for iteration.
    pub fn iter(&self) -> (r: &[T])
        ensures
            r@ == self@,
    {
        self.data.as_slice()
    }

    /// Provide a reference to the back element, or `None` if the deque is empty.
    pub fn back(&self) -> (r: Option<&T>)
        ensures
            self@.len() == 0 ==> r is None,
            self@.len() > 0 ==> (r matches Some(e) && *e == self@.last()),
    {
        self.data.as_slice().last()
    }

    /// Provide a reference to the front element, or `None` if the deque is empty.
    pub fn front(&self) -> (r: Option<&T>)
        ensures
            self@.len() == 0 ==> r is None,
            self@.len() > 0 ==> (r matches Some(e) && *e == self@[0]),
    {
        self.data.as_slice().first()
    }

    /// Provide a mutable reference to the back element, or `None` if the
    /// deque is empty.
    pub fn back_mut(&mut self) -> (r: Option<&mut T>)
        ensures
            old(self)@.len() == 0 ==> r is None && final(self)@ == old(self)@,
            old(self)@.len() > 0 ==> (r matches Some(e) && *e == old(self)@.last()
                && final(self)@ == old(self)@.update(old(self)@.len() - 1, *final(e))),
    {
        self.data.as_mut_slice().last_mut()
    }

    /// Provide a mutable reference to the front element, or `None` if the
    /// deque is empty.
    pub fn front_mut(&mut self) -> (r: Option<&mut T>)
        ensures
            old(self)@.len() == 0 ==> r is None && final(self)@ == old(self)@,
            old(self)@.len() > 0 ==> (r matches Some(e) && *e == old(self)@[0]
                && final(self)@ == old(self)@.update(0, *final(e))),
    {
        self.data.as_mut_slice().first_mut()
    }

    /// Append the given `element` to the back of the deque.
    pub fn push_back(&mut self, element: T)
        requires
            old(self)@.len() < i32::MAX,
        ensures
            final(self)@ == old(self)@.push(element),
    {
        self.data.push(element);
    }

    /// Prepend the given `element` to the front of the deque.
    pub fn push_front(&mut self, element: T)
        requires
            old(self)@.len() < i32::MAX,
        ensures
            final(self)@ == seq![element].add(old(self)@),
    {
        self.data.insert(0, element);
        proof {
            assert(final(self)@ =~= seq![element].add(old(self)@));
        }
    }

    /// Remove the last element and return it, or `None` if the deque is empty.
    pub fn pop_back(&mut self) -> (r: Option<T>)
        ensures
            old(self)@.len() == 0 ==> r is None && final(self)@ == old(self)@,
            old(self)@.len() > 0 ==> r == Some(old(self)@.last()) && final(self)@ == old(
                self)@.drop_last(),
    {
        self.data.pop()
    }

    /// Remove the first element and return it, or `None` if the deque is empty.
    pub fn pop_front(&mut self) -> (r: Option<T>)
        ensures
            old(self)@.len() == 0 ==> r is None && final(self)@ == old(self)@,
            old(self)@.len() > 0 ==> r == Some(old(self)@[0]) && final(self)@ == old(
                self)@.skip(1),
    {
        if self.data.len() == 0 {
            return None;
        }
        let x = self.data.remove(0);
        proof {
            assert(final(self)@ =~= old(self)@.skip(1));
        }
        Some(x)
    }

    /// Remove all elements from the deque.
    pub fn clear(&mut self)
        ensures
            final(self)@ == Seq::<T>::empty(),
    {
        self.data.clear();
    }

    /// Reserve capacity for at least `additional` more elements.
    pub fn reserve(&mut self, additional: usize)
        ensures
            final(self)@ == old(self)@,
    {
        self.data.reserve(additional);
    }

    /// Rotate the deque to the left: the first `k % len` elements move to the
    /// back, keeping their order.
    pub fn rotate_left(&mut self, k: usize)
        ensures
            old(self)@.len() == 0 ==> final(self)@ == old(self)@,
            old(self)@.len() > 0 ==> final(self)@ == old(self)@.skip(
                (k as int) % (old(self)@.len() as int)).add(old(self)@.take(
                (k as int) % (old(self)@.len() as int))),
    {
        let n = self.data.len();
        if n == 0 {
            return;
        }
        let k2 = k % n;
        if k2 == 0 {
            proof {
                assert(final(self)@ =~= old(self)@.skip(0).add(old(self)@.take(0)));
            }
            return;
        }
        let mut tail = self.data.split_off(k2);
        tail.append(&mut self.data);
        self.data = tail;
        proof {
            assert(final(self)@ =~= old(self)@.skip(k2 as int).add(old(self)@.take(k2 as int)));
        }
    }

    /// Rotate the deque to the right: the last `k % len` elements move to the
    /// front, keeping their order.
    pub fn rotate_right(&mut self, k: usize)
        ensures
            old(self)@.len() == 0 ==> final(self)@ == old(self)@,
            old(self)@.len() > 0 ==> ({
                let j = (old(self)@.len() - (k as int) % (old(self)@.len() as int))
                    % (old(self)@.len() as int);
                final(self)@ == old(self)@.skip(j).add(old(self)@.take(j))
            }),
    {
        let n = self.data.len();
        if n == 0 {
            return;
        }
        let j = (n - k % n) % n;
        self.rotate_left(j);
        proof {
            vstd::arithmetic::div_mod::lemma_small_mod(j as nat, n as nat);
            assert(j as int == (old(self)@.len() - (k as int) % (old(self)@.len() as int))
                % (old(self)@.len() as int));
        }
    }
}

} // verus!
