use vstd::prelude::*;

verus! {

/// A stack as a singly linked list. Its view lists the elements from the
/// top of the stack down.
pub struct List<T> {
    head: Option<Box<Node<T>>>,
}

struct Node<T> {
    elem: T,
    next: Option<Box<Node<T>>>,
}

impl<T> Node<T> {
    /// The element of this node and of all nodes behind it.
    spec fn elems(self) -> Seq<T>
        decreases self,
    {
        match self.next {
            None => seq![self.elem],
            Some(rest) => seq![self.elem] + rest.elems(),
        }
    }

    spec fn of_link(link: Option<Box<Node<T>>>) -> Seq<T> {
        match link {
            None => Seq::empty(),
            Some(node) => node.elems(),
        }
    }

    proof fn lemma_elems(self)
        ensures
            self.elems() == seq![self.elem] + Self::of_link(self.next),
            self.elems().len() > 0,
            self.elems()[0] == self.elem,
    {
        assert(seq![self.elem] + Seq::empty() =~= seq![self.elem]);
    }
}

impl<T> View for List<T> {
    type V = Seq<T>;

    closed spec fn view(&self) -> Seq<T> {
        Node::of_link(self.head)
    }
}

impl<T> List<T> {
    pub fn new() -> (list: Self)
        ensures
            list@ == Seq::<T>::empty(),
    {
        List { head: None }
    }

    pub fn is_empty(&self) -> (empty: bool)
        ensures
            empty == (self@.len() == 0),
    {
        proof {
            if self.head is Some {
                self.head->Some_0.lemma_elems();
            }
        }
        self.head.is_none()
    }

    /// Puts `x` on top of the stack.
    pub fn push(&mut self, x: T)
        ensures
            final(self)@ == seq![x] + old(self)@,
    {
        let new_node = Box::new(Node { elem: x, next: self.head.take() });
        proof {
            new_node.lemma_elems();
        }
        self.head = Some(new_node);
    }

    /// The top element; `None` if the stack is empty.
    pub fn peek(&self) -> (top: Option<&T>)
        ensures
            match top {
                Some(x) => self@.len() > 0 && *x == self@[0],
                None => self@.len() == 0,
            },
    {
        match &self.head {
            None => None,
            Some(node) => {
                proof {
                    node.lemma_elems();
                }
                Some(&node.elem)
            },
        }
    }

    /// Unlinks the top node and hands it out, cut off from the rest.
    fn pop_node(&mut self) -> (link: Option<Box<Node<T>>>)
        ensures
            match link {
                Some(node) => old(self)@.len() > 0 && node.elem == old(self)@[0]
                    && final(self)@ == old(self)@.skip(1),
                None => old(self)@.len() == 0 && final(self)@ == old(self)@,
            },
    {
        match self.head.take() {
            None => None,
            Some(mut node) => {
                proof {
                    node.lemma_elems();
                }
                self.head = node.next.take();
                assert(self@ =~= old(self)@.skip(1));
                Some(node)
            },
        }
    }

    /// Takes the top element off the stack; `None` if the stack is empty.
    pub fn pop(&mut self) -> (elem: Option<T>)
        ensures
            match elem {
                Some(x) => old(self)@.len() > 0 && x == old(self)@[0]
                    && final(self)@ == old(self)@.skip(1),
                None => old(self)@.len() == 0 && final(self)@ == old(self)@,
            },
    {
        match self.pop_node() {
            None => None,
            Some(node) => Some(node.elem),
        }
    }
}

impl<T> Default for List<T> {
    fn default() -> (list: Self)
        ensures
            list@ == Seq::<T>::empty(),
    {
        List::new()
    }
}

impl<T> List<T> {
    /// The top element, to be changed in place; `None` if the stack is
    /// empty.
    pub fn peek_mut(&mut self) -> (top: Option<&mut T>)
        ensures
            match top {
                Some(x) => old(self)@.len() > 0 && *x == old(self)@[0]
                    && final(self)@ == old(self)@.update(0, *final(x)),
                None => old(self)@.len() == 0 && final(self)@ == old(self)@,
            },
    {
        match &mut self.head {
            None => None,
            Some(node) => {
                proof {
                    node.lemma_elems();
                }
                Some(&mut node.elem)
            },
        }
    }
}

/// Hands out the elements of a stack from the top down, taking each off.
pub struct IntoIter<T>(List<T>);

impl<T> View for IntoIter<T> {
    type V = Seq<T>;

    closed spec fn view(&self) -> Seq<T> {
        self.0@
    }
}

impl<T> List<T> {
    pub fn into_iter(self) -> (iter: IntoIter<T>)
        ensures
            iter@ == self@,
    {
        IntoIter(self)
    }
}

impl<T> IntoIter<T> {
    pub fn next(&mut self) -> (item: Option<T>)
        ensures
            match item {
                Some(x) => old(self)@.len() > 0 && x == old(self)@[0]
                    && final(self)@ == old(self)@.skip(1),
                None => old(self)@.len() == 0 && final(self)@ == old(self)@,
            },
    {
        self.0.pop()
    }

    /// All elements that are left, from the top down.
    pub fn collect(self) -> (elems: Vec<T>)
        ensures
            elems@ == self@,
    {
        let mut iter = self;
        let mut elems: Vec<T> = Vec::new();
        let ghost all = iter@;
        loop
            invariant
                elems@ + iter@ == all,
            ensures
                elems@ == all,
            decreases iter@.len(),
        {
            match iter.next() {
                Some(x) => {
                    elems.push(x);
                    assert(elems@ + iter@ =~= all);
                },
                None => {
                    assert(elems@ =~= all);
                    break ;
                },
            }
        }
        elems
    }
}

/// Walks over the elements of a stack from the top down.
pub struct Iter<'a, T> {
    next: Option<&'a Node<T>>,
}

impl<'a, T> View for Iter<'a, T> {
    type V = Seq<T>;

    closed spec fn view(&self) -> Seq<T> {
        match self.next {
            None => Seq::empty(),
            Some(node) => node.elems(),
        }
    }
}

impl<T> List<T> {
    pub fn iter(&self) -> (iter: Iter<'_, T>)
        ensures
            iter@ == self@,
    {
        Iter {
            next: match &self.head {
                None => None,
                Some(node) => Some(&**node),
            },
        }
    }
}

impl<'a, T> Iter<'a, T> {
    pub fn next(&mut self) -> (item: Option<&'a T>)
        ensures
            match item {
                Some(x) => old(self)@.len() > 0 && *x == old(self)@[0]
                    && final(self)@ == old(self)@.skip(1),
                None => old(self)@.len() == 0 && final(self)@ == old(self)@,
            },
    {
        match self.next {
            None => None,
            Some(node) => {
                proof {
                    node.lemma_elems();
                }
                self.next = match &node.next {
                    None => None,
                    Some(rest) => Some(&**rest),
                };
                assert(self@ =~= old(self)@.skip(1));
                Some(&node.elem)
            },
        }
    }
}

impl<T> Node<T> {
    /// The element `pos` nodes behind this one, to be changed in place;
    /// `None` if the list ends before.
    fn elem_mut(&mut self, pos: usize) -> (elem: Option<&mut T>)
        ensures
            match elem {
                Some(x) => pos < old(self).elems().len() && *x == old(self).elems()[pos as int]
                    && final(self).elems() == old(self).elems().update(pos as int, *final(x)),
                None => pos >= old(self).elems().len() && final(self).elems() == old(self).elems(),
            },
        decreases pos,
    {
        proof {
            self.lemma_elems();
        }
        if pos == 0 {
            Some(&mut self.elem)
        } else {
            match &mut self.next {
                None => None,
                Some(rest) => rest.elem_mut(pos - 1),
            }
        }
    }
}

/// Walks over the elements of a stack from the top down and lets each be
/// changed in place. `pos` elements have been handed out.
pub struct IterMut<'a, T> {
    pub list: &'a mut List<T>,
    pub pos: usize,
}

impl<T> List<T> {
    pub fn iter_mut(&mut self) -> (iter: IterMut<'_, T>)
        ensures
            iter.list@ == old(self)@,
            iter.pos == 0,
            final(self)@ == final(iter.list)@,
    {
        IterMut { list: self, pos: 0 }
    }
}

impl<'a, T> IterMut<'a, T> {
    /// The next element, to be changed in place; `None` when all have been
    /// handed out.
    pub fn next(&mut self) -> (item: Option<&mut T>)
        requires
            old(self).list@.len() <= usize::MAX,
        ensures
            *final(final(self).list) == *final(old(self).list),
            match item {
                Some(x) => old(self).pos < old(self).list@.len()
                    && *x == old(self).list@[old(self).pos as int]
                    && final(self).pos == old(self).pos + 1
                    && final(self).list@ == old(self).list@.update(old(self).pos as int, *final(x)),
                None => old(self).pos >= old(self).list@.len() && final(self).pos == old(self).pos
                    && final(self).list@ == old(self).list@,
            },
    {
        let pos = self.pos;
        match &mut self.list.head {
            None => None,
            Some(node) => {
                let item = node.elem_mut(pos);
                if item.is_some() {
                    self.pos = pos + 1;
                }
                item
            },
        }
    }
}

} // verus!
