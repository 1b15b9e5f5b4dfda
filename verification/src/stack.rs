use vstd::prelude::*;

verus! {

/// LIFO stacks. The view lists the elements bottom first, so the top of the
/// stack is the view's last element.
pub trait Stack<T>: Sized {
    spec fn items(&self) -> Seq<T>;

    spec fn wf(&self) -> bool;

    /// Places data on top of the stack.
    fn push(&mut self, data: T)
        requires
            old(self).wf(),
            old(self).items().len() < usize::MAX,
        ensures
            final(self).wf(),
            final(self).items() == old(self).items().push(data),
    ;

    /// Removes and returns the top element; None on an empty stack.
    fn pop(&mut self) -> (r: Option<T>)
        requires
            old(self).wf(),
        ensures
            final(self).wf(),
            match r {
                Some(x) => old(self).items().len() > 0 && x == old(self).items().last()
                    && final(self).items() == old(self).items().drop_last(),
                None => old(self).items().len() == 0 && final(self).items() == old(self).items(),
            },
    ;

    /// The top element, left in place; None on an empty stack.
    fn peek(&self) -> (r: Option<&T>)
        requires
            self.wf(),
        ensures
            match r {
                Some(x) => self.items().len() > 0 && *x == self.items().last(),
                None => self.items().len() == 0,
            },
    ;

    /// The number of stacked elements.
    fn size(&self) -> (n: usize)
        requires
            self.wf(),
        ensures
            n == self.items().len(),
    ;
}

struct Node<T> {
    data: T,
    next: Option<Box<Node<T>>>,
}

spec fn chain_view<T>(node: Option<Box<Node<T>>>) -> Seq<T>
    decreases node,
{
    match node {
        None => Seq::empty(),
        Some(b) => chain_view(b.next).push(b.data),
    }
}

/// A stack backed by a singly linked list of owned nodes, top at the head,
/// with an explicit element counter.
pub struct LinkedStack<T> {
    head: Option<Box<Node<T>>>,
    size: usize,
}

impl<T> LinkedStack<T> {
    pub fn new() -> (s: LinkedStack<T>)
        ensures
            s.wf(),
            s.items() == Seq::<T>::empty(),
    {
        LinkedStack { head: None, size: 0 }
    }
}

impl<T> Stack<T> for LinkedStack<T> {
    closed spec fn items(&self) -> Seq<T> {
        chain_view(self.head)
    }

    closed spec fn wf(&self) -> bool {
        self.size == chain_view(self.head).len()
    }

    fn push(&mut self, data: T) {
        let old_head = self.head.take();
        let node = Box::new(Node { data, next: old_head });
        self.head = Some(node);
        self.size = self.size + 1;
    }

    fn pop(&mut self) -> (r: Option<T>) {
        match self.head.take() {
            None => None,
            Some(node_ptr) => {
                let node = *node_ptr;
                self.head = node.next;
                self.size = self.size - 1;
                Some(node.data)
            },
        }
    }

    fn peek(&self) -> (r: Option<&T>) {
        match &self.head {
            None => None,
            Some(node) => Some(&node.data),
        }
    }

    fn size(&self) -> (n: usize) {
        self.size
    }
}

/// A stack backed by a growable array, top at the end.
pub struct VecStack<T> {
    vec: Vec<T>,
}

impl<T> VecStack<T> {
    pub fn new() -> (s: VecStack<T>)
        ensures
            s.wf(),
            s.items() == Seq::<T>::empty(),
    {
        VecStack { vec: Vec::new() }
    }
}

impl<T> Stack<T> for VecStack<T> {
    closed spec fn items(&self) -> Seq<T> {
        self.vec@
    }

    closed spec fn wf(&self) -> bool {
        true
    }

    fn push(&mut self, data: T) {
        self.vec.push(data);
    }

    fn pop(&mut self) -> (r: Option<T>) {
        self.vec.pop()
    }

    fn peek(&self) -> (r: Option<&T>) {
        let n = self.vec.len();
        if n == 0 {
            return None;
        }
        Some(&self.vec[n - 1])
    }

    fn size(&self) -> (n: usize) {
        self.vec.len()
    }
}

} // verus!
