//! A stack on a singly linked list. Each node owns the next one, and the
//! stack owns the first.

use vstd::prelude::*;

verus! {

/// A stack implemented with a linked list.
#[derive(Debug)]
pub struct Stack<T> {
    head: Option<Box<Node<T>>>,
}

#[derive(Debug)]
struct Node<T> {
    elem: T,
    next: Option<Box<Node<T>>>,
}

impl<T> Node<T> {
    /// The elements of the chain that starts at `link`, the first node's
    /// element first.
    spec fn chain(link: Option<Box<Node<T>>>) -> Seq<T>
        decreases link,
    {
        match link {
            None => Seq::empty(),
            Some(node) => seq![node.elem] + Self::chain(node.next),
        }
    }

    /// The elements of the chain that starts at this node.
    spec fn chain_from(&self) -> Seq<T> {
        seq![self.elem] + Self::chain(self.next)
    }
}

impl<T> View for Stack<T> {
    type V = Seq<T>;

    /// The elements of the stack, the one pushed last first.
    closed spec fn view(&self) -> Seq<T> {
        Node::chain(self.head)
    }
}

impl<T> Default for Stack<T> {
    /// Creates an empty stack.
    fn default() -> (stack: Self)
        ensures
            stack@ == Seq::<T>::empty(),
    {
        Stack::new()
    }
}

impl<T> Stack<T> {
    /// Creates an empty stack.
    pub fn new() -> (stack: Self)
        ensures
            stack@ == Seq::<T>::empty(),
    {
        Stack { head: None }
    }

    /// Adds an element first in the stack.
    pub fn push(&mut self, elem: T)
        ensures
            final(self)@ == seq![elem] + old(self)@,
    {
        let old_head: Option<Box<Node<T>>> = self.head.take();

        let node = Node { elem, next: old_head };

        let boxed_node: Box<Node<T>> = Box::new(node);
        let new_head: Option<Box<Node<T>>> = Some(boxed_node);
        self.head = new_head;
    }

    /// Removes the first element and returns it, or `None` if the stack is
    /// empty.
    pub fn pop(&mut self) -> (popped: Option<T>)
        ensures
            old(self)@.len() == 0 ==> popped is None && final(self)@ == old(self)@,
            old(self)@.len() > 0 ==> popped == Some(old(self)@[0]),
            old(self)@.len() > 0 ==> final(self)@ == old(self)@.drop_first(),
    {
        let old_head: Option<Box<Node<T>>> = self.head.take();

        match old_head {
            None => None,
            Some(boxed_node) => {
                let node = *boxed_node;
                let new_head: Option<Box<Node<T>>> = node.next;
                self.head = new_head;
                let elem = node.elem;
                proof {
                    assert(self@ =~= old(self)@.drop_first());
                }
                Some(elem)
            },
        }
    }

    /// Returns the first element in the stack, or `None` if it is empty.
    pub fn peek(&self) -> (first: Option<&T>)
        ensures
            self@.len() == 0 ==> first is None,
            self@.len() > 0 ==> first == Some(&self@[0]),
    {
        let head: &Option<Box<Node<T>>> = &self.head;

        match head {
            None => None,
            Some(boxed_node) => {
                let elem = &boxed_node.elem;
                Some(elem)
            },
        }
    }

    /// Returns a mutable reference to the first element in the stack, or
    /// `None` if it is empty. What is written through the reference becomes
    /// the first element; the others stay.
    pub fn peek_mut(&mut self) -> (first: Option<&mut T>)
        ensures
            old(self)@.len() == 0 ==> first is None && final(self)@ == old(self)@,
            old(self)@.len() > 0 ==> first is Some && *first.unwrap() == old(self)@[0],
            old(self)@.len() > 0 ==> final(self)@ == old(self)@.update(0, *final(first.unwrap())),
    {
        let head: &mut Option<Box<Node<T>>> = &mut self.head;

        match head {
            None => None,
            Some(boxed_node) => {
                let elem = &mut boxed_node.elem;
                Some(elem)
            },
        }
    }

    /// Returns an iterator over references to the elements, the one pushed
    /// last first. The stack is left as it is.
    pub fn iter(&self) -> (iter: Iter<'_, T>)
        ensures
            iter@ == self@,
    {
        let head: &Option<Box<Node<T>>> = &self.head;

        let next = match head {
            Some(boxed_node) => {
                let node = &**boxed_node;
                Some(node)
            },
            None => None,
        };

        Iter { next }
    }

    /// Consumes the stack into an iterator that hands out the elements by
    /// value, the one pushed last first.
    pub fn into_iter(self) -> (iter: IntoIter<T>)
        ensures
            iter@ == self@,
    {
        IntoIter { stack: self }
    }
}

impl<T> Drop for Stack<T> {
    /// Unlinks the nodes one after the other, so that releasing a long
    /// chain does not nest one release inside the other.
    fn drop(&mut self)
        opens_invariants none
        no_unwind
    {
        let mut cur_link: Option<Box<Node<T>>> = None;
        core::mem::swap(&mut cur_link, &mut self.head);

        loop
            decreases Node::chain(cur_link).len(),
        {
            match cur_link {
                None => {
                    break;
                },
                Some(boxed_node) => {
                    let node = *boxed_node;
                    cur_link = node.next;
                },
            }
        }
    }
}

/// An owning iterator over the elements of a [`Stack`].
pub struct IntoIter<T> {
    stack: Stack<T>,
}

impl<T> View for IntoIter<T> {
    type V = Seq<T>;

    /// The elements still to come, the next one first.
    closed spec fn view(&self) -> Seq<T> {
        self.stack@
    }
}

impl<T> IntoIter<T> {
    /// Hands out the next element, or `None` once all have been handed out.
    pub fn next(&mut self) -> (item: Option<T>)
        ensures
            old(self)@.len() == 0 ==> item is None && final(self)@ == old(self)@,
            old(self)@.len() > 0 ==> item == Some(old(self)@[0]),
            old(self)@.len() > 0 ==> final(self)@ == old(self)@.drop_first(),
    {
        self.stack.pop()
    }
}

/// An iterator over references to the elements of a [`Stack`].
pub struct Iter<'a, T> {
    next: Option<&'a Node<T>>,
}

impl<'a, T> View for Iter<'a, T> {
    type V = Seq<T>;

    /// The elements still to come, the next one first.
    closed spec fn view(&self) -> Seq<T> {
        match self.next {
            None => Seq::empty(),
            Some(node) => node.chain_from(),
        }
    }
}

impl<'a, T> Iter<'a, T> {
    /// Hands out a reference to the next element, or `None` once all have
    /// been visited.
    pub fn next(&mut self) -> (item: Option<&'a T>)
        ensures
            old(self)@.len() == 0 ==> item is None && final(self)@ == old(self)@,
            old(self)@.len() > 0 ==> item == Some(&old(self)@[0]),
            old(self)@.len() > 0 ==> final(self)@ == old(self)@.drop_first(),
    {
        let old_next = self.next;

        match old_next {
            Some(old_node) => {
                let next_next: &Option<Box<Node<T>>> = &old_node.next;

                let new_next = match next_next {
                    Some(boxed_node) => {
                        let new_node = &**boxed_node;
                        Some(new_node)
                    },
                    None => None,
                };

                self.next = new_next;
                let elem = &old_node.elem;
                proof {
                    assert(self@ =~= old(self)@.drop_first());
                }
                Some(elem)
            },
            None => None,
        }
    }
}

} // verus!
