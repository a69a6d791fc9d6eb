use vstd::prelude::*;
use std::rc::Rc;

verus! {

/// A persistent stack: `prepend` and `tail` leave the list as it is and
/// return a new one that shares its nodes. The view lists the elements from
/// the head on.
pub struct List<T> {
    head: Option<Rc<Node<T>>>,
}

struct Node<T> {
    elem: T,
    next: Option<Rc<Node<T>>>,
}

impl<T> Node<T> {
    /// The element of this node and of all nodes behind it.
    spec fn elems(self) -> Seq<T>
        decreases self,
    {
        match self.next {
            None => seq![self.elem],
            Some(rest) => seq![self.elem] + rest.elems(),
        }
    }

    spec fn of_link(link: Option<Rc<Node<T>>>) -> Seq<T> {
        match link {
            None => Seq::empty(),
            Some(node) => node.elems(),
        }
    }

    proof fn lemma_elems(&self)
        ensures
            self.elems() == seq![self.elem] + Self::of_link(self.next),
            self.elems().len() > 0,
            self.elems()[0] == self.elem,
    {
        assert(seq![self.elem] + Seq::empty() =~= seq![self.elem]);
    }
}

/// Calls `Rc::clone`: the result is one more pointer to the same node.
#[verifier::external_body]
fn share<T>(node: &Rc<Node<T>>) -> (shared: Rc<Node<T>>)
    ensures
        shared == *node,
{
    Rc::clone(node)
}

/// A second handle on the nodes of `link`.
fn share_link<T>(link: &Option<Rc<Node<T>>>) -> (shared: Option<Rc<Node<T>>>)
    ensures
        shared == *link,
{
    match link {
        None => None,
        Some(node) => Some(share(node)),
    }
}

impl<T> View for List<T> {
    type V = Seq<T>;

    closed spec fn view(&self) -> Seq<T> {
        Node::of_link(self.head)
    }
}

impl<T> List<T> {
    pub fn new() -> (list: Self)
        ensures
            list@ == Seq::<T>::empty(),
    {
        List { head: None }
    }

    fn prepend_node(&self, node: Node<T>) -> (list: List<T>)
        ensures
            list@ == node.elems(),
    {
        List { head: Some(Rc::new(node)) }
    }

    /// The list with `t` in front of the elements of this one.
    pub fn prepend(&self, t: T) -> (list: List<T>)
        ensures
            list@ == seq![t] + self@,
    {
        let node = Node { elem: t, next: share_link(&self.head) };
        proof {
            node.lemma_elems();
        }
        self.prepend_node(node)
    }

    /// The list without its first element; empty if this one is empty.
    pub fn tail(&self) -> (list: List<T>)
        ensures
            list@ == if self@.len() > 0 {
                self@.skip(1)
            } else {
                Seq::empty()
            },
    {
        let list = List {
            head: match &self.head {
                None => None,
                Some(node) => {
                    proof {
                        node.lemma_elems();
                    }
                    share_link(&node.next)
                },
            },
        };
        assert(self@.len() > 0 ==> list@ =~= self@.skip(1));
        list
    }

    /// The first element; `None` if the list is empty.
    pub fn head(&self) -> (first: Option<&T>)
        ensures
            match first {
                Some(x) => self@.len() > 0 && *x == self@[0],
                None => self@.len() == 0,
            },
    {
        match &self.head {
            None => None,
            Some(node) => {
                proof {
                    node.lemma_elems();
                }
                Some(&node.elem)
            },
        }
    }
}

impl<T> Default for List<T> {
    fn default() -> (list: Self)
        ensures
            list@ == Seq::<T>::empty(),
    {
        List::new()
    }
}

/// Walks over the elements of a list from the head on.
pub struct Iter<'a, T> {
    next: Option<&'a Node<T>>,
}

impl<'a, T> View for Iter<'a, T> {
    type V = Seq<T>;

    closed spec fn view(&self) -> Seq<T> {
        match self.next {
            None => Seq::empty(),
            Some(node) => node.elems(),
        }
    }
}

impl<T> List<T> {
    pub fn iter(&self) -> (iter: Iter<'_, T>)
        ensures
            iter@ == self@,
    {
        Iter {
            next: match &self.head {
                None => None,
                Some(node) => Some(&**node),
            },
        }
    }
}

impl<'a, T> Iter<'a, T> {
    pub fn next(&mut self) -> (item: Option<&'a T>)
        ensures
            match item {
                Some(x) => old(self)@.len() > 0 && *x == old(self)@[0]
                    && final(self)@ == old(self)@.skip(1),
                None => old(self)@.len() == 0 && final(self)@ == old(self)@,
            },
    {
        match self.next {
            None => None,
            Some(node) => {
                proof {
                    node.lemma_elems();
                }
                self.next = match &node.next {
                    None => None,
                    Some(rest) => Some(&**rest),
                };
                assert(self@ =~= old(self)@.skip(1));
                Some(&node.elem)
            },
        }
    }

    /// References to all elements that are left, in their order.
    pub fn collect(self) -> (items: Vec<&'a T>)
        ensures
            items.len() == self@.len(),
            forall|i: int| 0 <= i < items.len() ==> *#[trigger] items[i] == self@[i],
    {
        let mut iter = self;
        let mut items: Vec<&'a T> = Vec::new();
        let ghost all = iter@;
        loop
            invariant
                items.len() + iter@.len() == all.len(),
                forall|i: int| 0 <= i < items.len() ==> *#[trigger] items[i] == all[i],
                iter@ == all.skip(items.len() as int),
            ensures
                items.len() == all.len(),
                forall|i: int| 0 <= i < items.len() ==> *#[trigger] items[i] == all[i],
            decreases iter@.len(),
        {
            match iter.next() {
                Some(x) => {
                    items.push(x);
                    assert(iter@ =~= all.skip(items.len() as int));
                },
                None => {
                    break ;
                },
            }
        }
        items
    }
}

} // verus!
