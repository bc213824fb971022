//! A persistent stack built from reference-counted cons cells.
//!
//! Pushing and popping share structure instead of copying: a push wraps the
//! old head in a new cell, and a pop hands back the tail as a stack of its
//! own. The view lists the elements bottom first, so the top of the stack is
//! the last element of the view.

use std::rc::Rc;
use vstd::prelude::*;

verus! {

enum StackElement<T> {
    Cons(T, Rc<StackElement<T>>),
    Nil,
}

/// An immutable stack; pushing or popping returns a new stack that shares
/// its cells with the old one.
pub struct Stack<T> {
    head: Rc<StackElement<T>>,
}

spec fn elems<T>(e: StackElement<T>) -> Seq<T>
    decreases e,
{
    match e {
        StackElement::Cons(value, tail) => elems(*tail).push(value),
        StackElement::Nil => Seq::empty(),
    }
}

impl<T> View for Stack<T> {
    type V = Seq<T>;

    closed spec fn view(&self) -> Seq<T> {
        elems(*self.head)
    }
}

impl<T> Stack<T> {
    /// The empty stack.
    pub fn new() -> (r: Stack<T>)
        ensures
            r@ == Seq::<T>::empty(),
    {
        Stack { head: Rc::new(StackElement::Nil) }
    }

    /// The stack with `value` on top of `self`; `self` stays usable.
    pub fn push(&self, value: T) -> (r: Stack<T>)
        ensures
            r@ == self@.push(value),
    {
        Stack { head: Rc::new(StackElement::Cons(value, self.head.clone())) }
    }

    /// The top element and the stack below it, or `None` on the empty stack.
    pub fn pop(&self) -> (r: Option<(&T, Stack<T>)>)
        ensures
            match r {
                Some((top, rest)) => self@.len() > 0 && *top == self@.last() && rest@
                    == self@.drop_last(),
                None => self@.len() == 0,
            },
    {
        match &*self.head {
            StackElement::Cons(value, tail) => {
                proof {
                    assert(elems(**tail).push(*value).drop_last() =~= elems(**tail));
                }
                Some((value, Stack { head: tail.clone() }))
            },
            StackElement::Nil => None,
        }
    }
}

} // verus!
