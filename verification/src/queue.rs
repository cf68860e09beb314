//! The work queue: the units that wait for a free slot, first in, first out.

use crate::model::{unit_views, UnitView, WorkUnit};
use std::collections::VecDeque;
use vstd::prelude::*;

verus! {

/// Pending work units in the order in which they were pushed.
pub struct WorkQueue {
    items: VecDeque<WorkUnit>,
}

impl View for WorkQueue {
    type V = Seq<UnitView>;

    closed spec fn view(&self) -> Seq<UnitView> {
        unit_views(self.items@)
    }
}

impl WorkQueue {
    /// A queue that holds nothing.
    pub fn new() -> (queue: WorkQueue)
        ensures
            queue@ == Seq::<UnitView>::empty(),
    {
        let queue = WorkQueue { items: VecDeque::new() };
        assert(queue@ == Seq::<UnitView>::empty());
        queue
    }

    /// The number of waiting units.
    pub fn len(&self) -> (n: usize)
        ensures
            n == self@.len(),
    {
        self.items.len()
    }

    /// Whether no unit waits.
    pub fn is_empty(&self) -> (empty: bool)
        ensures
            empty == (self@.len() == 0),
    {
        self.items.len() == 0
    }

    /// Puts `unit` behind all waiting units.
    pub fn push(&mut self, unit: WorkUnit)
        ensures
            final(self)@ == old(self)@.push(unit@),
    {
        self.items.push_back(unit);
        assert(self@ == old(self)@.push(unit@));
    }

    /// Takes the unit that has waited longest, if any waits.
    pub fn pop(&mut self) -> (unit: Option<WorkUnit>)
        ensures
            old(self)@.len() == 0 ==> unit is None && final(self)@ == old(self)@,
            old(self)@.len() > 0 ==> unit is Some && unit->0@ == old(self)@[0] && final(self)@
                == old(self)@.drop_first(),
    {
        let unit = self.items.pop_front();
        assert(old(self)@.len() > 0 ==> self@ == old(self)@.drop_first());
        unit
    }
}

} // verus!
