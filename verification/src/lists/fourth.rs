use vstd::prelude::*;
use std::collections::VecDeque;

verus! {

/// A queue with two ends. Its view lists the elements from the front to the
/// back. The elements lie in a ring buffer: nodes that are linked in both
/// directions would have to be shared and changed through the shares.
pub struct List<T> {
    items: VecDeque<T>,
}

impl<T> View for List<T> {
    type V = Seq<T>;

    closed spec fn view(&self) -> Seq<T> {
        self.items@
    }
}

/// Calls `VecDeque::front_mut`: a reference to the first element, through
/// which it can be changed; `None`, and nothing changed, if there is none.
#[verifier::external_body]
fn front_mut<T>(items: &mut VecDeque<T>) -> (front: Option<&mut T>)
    ensures
        match front {
            Some(x) => old(items)@.len() > 0 && *x == old(items)@[0]
                && final(items)@ == old(items)@.update(0, *final(x)),
            None => old(items)@.len() == 0 && final(items)@ == old(items)@,
        },
{
    items.front_mut()
}

impl<T> List<T> {
    pub fn new() -> (list: Self)
        ensures
            list@ == Seq::<T>::empty(),
    {
        List { items: VecDeque::new() }
    }

    pub fn push_back(&mut self, elem: T)
        ensures
            final(self)@ == old(self)@.push(elem),
    {
        self.items.push_back(elem);
    }

    pub fn push_front(&mut self, elem: T)
        ensures
            final(self)@ == seq![elem] + old(self)@,
    {
        self.items.push_front(elem);
    }

    /// Takes the element at the front out; `None` if there is none.
    pub fn pop_front(&mut self) -> (elem: Option<T>)
        ensures
            match elem {
                Some(x) => old(self)@.len() > 0 && x == old(self)@[0]
                    && final(self)@ == old(self)@.skip(1),
                None => old(self)@.len() == 0 && final(self)@ == old(self)@,
            },
    {
        let elem = self.items.pop_front();
        assert(elem is Some ==> self@ =~= old(self)@.skip(1));
        elem
    }

    /// Takes the element at the back out; `None` if there is none.
    pub fn pop_back(&mut self) -> (elem: Option<T>)
        ensures
            match elem {
                Some(x) => old(self)@.len() > 0 && x == old(self)@.last()
                    && final(self)@ == old(self)@.drop_last(),
                None => old(self)@.len() == 0 && final(self)@ == old(self)@,
            },
    {
        let elem = self.items.pop_back();
        assert(elem is Some ==> self@ =~= old(self)@.drop_last());
        elem
    }

    /// The element at the front; `None` if there is none.
    pub fn peek_front(&self) -> (front: Option<&T>)
        ensures
            match front {
                Some(x) => self@.len() > 0 && *x == self@[0],
                None => self@.len() == 0,
            },
    {
        if self.items.len() == 0 {
            None
        } else {
            Some(&self.items[0])
        }
    }

    /// The element at the front, to be changed in place; `None` if there is
    /// none.
    pub fn peek_front_mut(&mut self) -> (front: Option<&mut T>)
        ensures
            match front {
                Some(x) => old(self)@.len() > 0 && *x == old(self)@[0]
                    && final(self)@ == old(self)@.update(0, *final(x)),
                None => old(self)@.len() == 0 && final(self)@ == old(self)@,
            },
    {
        front_mut(&mut self.items)
    }
}

impl<T> Default for List<T> {
    fn default() -> (list: Self)
        ensures
            list@ == Seq::<T>::empty(),
    {
        Self::new()
    }
}

/// Hands out the elements of a list from either end, taking each out.
pub struct IntoIter<T>(List<T>);

impl<T> View for IntoIter<T> {
    type V = Seq<T>;

    closed spec fn view(&self) -> Seq<T> {
        self.0@
    }
}

impl<T> List<T> {
    pub fn into_iter(self) -> (iter: IntoIter<T>)
        ensures
            iter@ == self@,
    {
        IntoIter(self)
    }
}

impl<T> IntoIter<T> {
    /// The next element from the front.
    pub fn next(&mut self) -> (item: Option<T>)
        ensures
            match item {
                Some(x) => old(self)@.len() > 0 && x == old(self)@[0]
                    && final(self)@ == old(self)@.skip(1),
                None => old(self)@.len() == 0 && final(self)@ == old(self)@,
            },
    {
        self.0.pop_front()
    }

    /// The next element from the back.
    pub fn next_back(&mut self) -> (item: Option<T>)
        ensures
            match item {
                Some(x) => old(self)@.len() > 0 && x == old(self)@.last()
                    && final(self)@ == old(self)@.drop_last(),
                None => old(self)@.len() == 0 && final(self)@ == old(self)@,
            },
    {
        self.0.pop_back()
    }

    /// All elements that are left, from the front on.
    pub fn collect(self) -> (elems: Vec<T>)
        ensures
            elems@ == self@,
    {
        let mut iter = self;
        let mut elems: Vec<T> = Vec::new();
        let ghost all = iter@;
        loop
            invariant
                elems@ + iter@ == all,
            ensures
                elems@ == all,
            decreases iter@.len(),
        {
            match iter.next() {
                Some(x) => {
                    elems.push(x);
                    assert(elems@ + iter@ =~= all);
                },
                None => {
                    assert(elems@ =~= all);
                    break ;
                },
            }
        }
        elems
    }
}

} // verus!
