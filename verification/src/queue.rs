//! The default frontier: a first-in-first-out queue backed by a double-ended
//! sequence with amortized O(1) push-to-tail and pop-from-head.

use std::collections::VecDeque;
use vstd::prelude::*;

use crate::traits::Queue;

verus! {

/// A FIFO frontier backed by `std::collections::VecDeque`.
pub struct VecDeQueue<T>(VecDeque<T>);

impl<T> Queue<T> for VecDeQueue<T> {
    closed spec fn contents(self) -> Seq<T> {
        self.0@
    }

    fn new() -> (q: Self) {
        VecDeQueue(VecDeque::new())
    }

    fn push(&mut self, item: T) {
        self.0.push_back(item)
    }

    fn peek(&self) -> (r: Option<&T>) {
        if self.0.len() == 0 {
            None
        } else {
            Some(&self.0[0])
        }
    }

    fn pop(&mut self) -> (r: Option<T>) {
        let r = self.0.pop_front();
        proof {
            if r is Some {
                assert(self.0@ =~= old(self).0@.skip(1));
            }
        }
        r
    }

    fn is_empty(&self) -> (r: bool) {
        self.0.len() == 0
    }

    fn size(&self) -> (r: usize) {
        self.0.len()
    }
}

} // verus!
