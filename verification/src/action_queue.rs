//! The solver's worklist: a FIFO queue of pending inference actions, plus the
//! two output sets of cell indices to submit to the server (clear requests and
//! flag requests), each kept free of duplicates.

use std::collections::VecDeque;
use vstd::prelude::*;

use crate::cell::Action;

verus! {

/// Append an index to a duplicate-free output set: a no-op when it is already
/// a member.
pub open spec fn added(s: Seq<usize>, x: usize) -> Seq<usize> {
    if s.contains(x) {
        s
    } else {
        s.push(x)
    }
}

pub struct ActionQueue {
    actions: VecDeque<Action>,
    server_to_clear: Vec<usize>,
    server_to_flag: Vec<usize>,
}

impl ActionQueue {
    /// The pending actions, front of the queue first.
    pub closed spec fn pending(&self) -> Seq<Action> {
        self.actions@
    }

    /// The indices to submit to the server as clear requests.
    pub closed spec fn to_clear(&self) -> Seq<usize> {
        self.server_to_clear@
    }

    /// The indices to submit to the server as flag requests.
    pub closed spec fn to_flag(&self) -> Seq<usize> {
        self.server_to_flag@
    }

    /// The two output sets never hold an index twice.
    pub closed spec fn wf(&self) -> bool {
        &&& self.server_to_clear@.no_duplicates()
        &&& self.server_to_flag@.no_duplicates()
    }

    pub fn new() -> (r: ActionQueue)
        ensures
            r.wf(),
            r.pending() == Seq::<Action>::empty(),
            r.to_clear() == Seq::<usize>::empty(),
            r.to_flag() == Seq::<usize>::empty(),
    {
        ActionQueue {
            actions: VecDeque::new(),
            server_to_clear: Vec::new(),
            server_to_flag: Vec::new(),
        }
    }

    /// Append an action at the tail of the worklist.
    pub fn push(&mut self, action: Action)
        ensures
            final (self).wf() == old(self).wf(),
            final (self).pending() == old(self).pending().push(action),
            final (self).to_clear() == old(self).to_clear(),
            final (self).to_flag() == old(self).to_flag(),
    {
        self.actions.push_back(action);
    }

    /// Take the action at the head of the worklist, if any: strict FIFO order.
    pub fn pull(&mut self) -> (r: Option<Action>)
        ensures
            final (self).wf() == old(self).wf(),
            final (self).to_clear() == old(self).to_clear(),
            final (self).to_flag() == old(self).to_flag(),
            match r {
                Some(a) => old(self).pending().len() > 0 && a == old(self).pending()[0] && final (
                self).pending() == old(self).pending().skip(1),
                None => old(self).pending().len() == 0 && final (self).pending() == old(
                    self,
                ).pending(),
            },
    {
        let r = self.actions.pop_front();
        proof {
            if old(self).pending().len() > 0 {
                assert(old(self).pending().subrange(1, old(self).pending().len() as int) =~= old(
                    self,
                ).pending().skip(1));
            }
        }
        r
    }

    /// Record an index to submit as a clear request; submitting one twice is
    /// unnecessary, so a duplicate is dropped.
    pub fn add_to_clear(&mut self, index: usize)
        requires
            old(self).wf(),
        ensures
            final (self).wf(),
            final (self).pending() == old(self).pending(),
            final (self).to_clear() == added(old(self).to_clear(), index),
            final (self).to_flag() == old(self).to_flag(),
    {
        if !vec_contains(&self.server_to_clear, index) {
            self.server_to_clear.push(index);
        }
    }

    /// Record an index to submit as a flag request; a duplicate is dropped.
    pub fn add_to_flag(&mut self, index: usize)
        requires
            old(self).wf(),
        ensures
            final (self).wf(),
            final (self).pending() == old(self).pending(),
            final (self).to_clear() == old(self).to_clear(),
            final (self).to_flag() == added(old(self).to_flag(), index),
    {
        if !vec_contains(&self.server_to_flag, index) {
            self.server_to_flag.push(index);
        }
    }

    /// The recorded clear requests, in insertion order.
    pub fn get_to_clear(&self) -> (r: &Vec<usize>)
        ensures
            r@ == self.to_clear(),
            self.wf() ==> r@.no_duplicates(),
    {
        &self.server_to_clear
    }

    /// The recorded flag requests, in insertion order.
    pub fn get_to_flag(&self) -> (r: &Vec<usize>)
        ensures
            r@ == self.to_flag(),
            self.wf() ==> r@.no_duplicates(),
    {
        &self.server_to_flag
    }
}

/// Whether `x` occurs in `v`.
pub fn vec_contains(v: &Vec<usize>, x: usize) -> (r: bool)
    ensures
        r == v@.contains(x),
{
    let mut k: usize = 0;
    while k < v.len()
        invariant
            k <= v@.len(),
            forall|i: int| 0 <= i < k ==> v@[i] != x,
        decreases v@.len() - k,
    {
        if v[k] == x {
            return true;
        }
        k = k + 1;
    }
    false
}

} // verus!
