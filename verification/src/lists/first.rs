use vstd::prelude::*;

verus! {

/// A stack of `i32` as a singly linked list. Its view lists the elements
/// from the top of the stack down.
pub struct List {
    head: Link,
}

struct Node {
    elem: i32,
    next: Link,
}

enum Link {
    Empty,
    More(Box<Node>),
}

impl Link {
    spec fn elems(self) -> Seq<i32>
        decreases self,
    {
        match self {
            Link::Empty => Seq::empty(),
            Link::More(node) => seq![node.elem] + node.next.elems(),
        }
    }
}

impl View for List {
    type V = Seq<i32>;

    closed spec fn view(&self) -> Seq<i32> {
        self.head.elems()
    }
}

impl List {
    pub fn new() -> (list: Self)
        ensures
            list@ == Seq::<i32>::empty(),
    {
        List { head: Link::Empty }
    }

    pub fn is_empty(&self) -> (empty: bool)
        ensures
            empty == (self@.len() == 0),
    {
        match self.head {
            Link::Empty => true,
            Link::More(_) => false,
        }
    }

    /// Puts `x` on top of the stack.
    pub fn push(&mut self, x: i32)
        ensures
            final(self)@ == seq![x] + old(self)@,
    {
        let mut rest = Link::Empty;
        core::mem::swap(&mut self.head, &mut rest);
        let new_node = Box::new(Node { elem: x, next: rest });
        self.head = Link::More(new_node);
    }

    /// Unlinks the top node and hands it out, cut off from the rest.
    fn pop_node(&mut self) -> (link: Link)
        ensures
            old(self)@.len() == 0 ==> link is Empty && final(self)@ == old(self)@,
            old(self)@.len() > 0 ==> link is More && link->More_0.elem == old(self)@[0]
                && final(self)@ == old(self)@.skip(1),
    {
        let mut top = Link::Empty;
        core::mem::swap(&mut self.head, &mut top);
        match top {
            Link::Empty => Link::Empty,
            Link::More(mut node) => {
                let mut rest = Link::Empty;
                core::mem::swap(&mut node.next, &mut rest);
                self.head = rest;
                assert(self@ =~= old(self)@.skip(1));
                Link::More(node)
            },
        }
    }

    /// Takes the top element off the stack; `None` if the stack is empty.
    pub fn pop(&mut self) -> (elem: Option<i32>)
        ensures
            match elem {
                Some(x) => old(self)@.len() > 0 && x == old(self)@[0]
                    && final(self)@ == old(self)@.skip(1),
                None => old(self)@.len() == 0 && final(self)@ == old(self)@,
            },
    {
        match self.pop_node() {
            Link::Empty => None,
            Link::More(node) => Some(node.elem),
        }
    }
}

impl Default for List {
    fn default() -> (list: Self)
        ensures
            list@ == Seq::<i32>::empty(),
    {
        List::new()
    }
}

} // verus!
