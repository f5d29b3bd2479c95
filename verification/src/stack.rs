//! A persistent singly-linked list with shared tails: the spine of the
//! functional window.
use vstd::prelude::*;

verus! {

use std::rc::Rc;

/// An immutable list; `cons` shares the receiver as the new tail.
pub enum List<T> {
    Nil,
    Cons(T, Rc<List<T>>),
}

impl<T: Copy> List<T> {
    /// The elements, head first.
    pub closed spec fn view(self) -> Seq<T>
        decreases self,
    {
        match self {
            List::Nil => Seq::empty(),
            List::Cons(h, tl) => seq![h] + tl@,
        }
    }

    pub fn empty() -> (r: List<T>)
        ensures
            r@ == Seq::<T>::empty(),
    {
        List::Nil
    }

    pub fn is_empty(&self) -> (r: bool)
        ensures
            r == (self@.len() == 0),
    {
        match self {
            List::Nil => true,
            _ => false,
        }
    }

    pub fn cons(&self, x: T) -> (r: List<T>)
        ensures
            r@ == seq![x] + self@,
    {
        List::Cons(x, Rc::new(self.clone_list()))
    }

    pub fn head(&self) -> (r: Option<T>)
        ensures
            r == (if self@.len() == 0 {
                Option::<T>::None
            } else {
                Option::Some(self@[0])
            }),
    {
        match self {
            List::Cons(h, _) => Some(*h),
            List::Nil => None,
        }
    }

    pub fn tail(&self) -> (r: List<T>)
        ensures
            r@ == (if self@.len() == 0 {
                self@
            } else {
                self@.drop_first()
            }),
    {
        match self {
            List::Nil => List::Nil,
            List::Cons(_, t) => {
                let r = (**t).clone_list();
                proof {
                    assert(self@.drop_first() =~= r@);
                }
                r
            },
        }
    }

    /// A structural copy sharing every tail.
    pub fn clone_list(&self) -> (r: List<T>)
        ensures
            r@ == self@,
    {
        match self {
            List::Nil => List::Nil,
            List::Cons(h, t) => List::Cons(*h, t.clone()),
        }
    }
}

} // verus!
