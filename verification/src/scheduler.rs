//! The concurrency scheduler: it bounds the listings in flight, refills free
//! slots from the work queue, and tells completion from failure. It makes no
//! remote call itself: its driver issues the listing that a decision names
//! and reports the outcome back.

use crate::model::{text_of, LeafObject, ListingError, ListingPage, UnitView, WorkUnit};
use crate::model::{leaf_views, outcome_view};
use crate::queue::WorkQueue;
use crate::sink::ResultSink;
use crate::state::{count_active, lemma_first_free_unique};
use crate::state::{ActionView, SchedulerView};
use crate::walker::deliver;
use vstd::prelude::*;

verus! {

/// The limit on listings in flight where the caller states none.
pub const DEFAULT_LIMIT: usize = 8;

/// What the scheduler asks of its driver next.
#[derive(Debug, PartialEq, Eq)]
pub enum Action {
    /// Issue the listing of `unit`, and report its outcome under `slot`.
    Start { slot: usize, unit: WorkUnit },
    /// Nothing can be started: wait until a listing in flight has finished.
    Wait,
    /// The traversal is complete.
    Done,
    /// A listing has failed: the traversal is over and has not succeeded.
    Failed,
}

impl View for Action {
    type V = ActionView;

    open spec fn view(&self) -> ActionView {
        match self {
            Action::Start { slot, unit } => ActionView::Start { slot: *slot as int, unit: unit@ },
            Action::Wait => ActionView::Wait,
            Action::Done => ActionView::Done,
            Action::Failed => ActionView::Failed,
        }
    }
}

/// The slot table as contracts see it.
pub open spec fn slot_views(slots: Seq<Option<WorkUnit>>) -> Seq<Option<UnitView>> {
    slots.map_values(
        |entry: Option<WorkUnit>|
            match entry {
                Some(unit) => Some(unit@),
                None => None,
            },
    )
}

/// The state of one traversal: the work queue, the table of listings in
/// flight, the result sink, and the failure once there is one.
pub struct Scheduler {
    limit: usize,
    queue: WorkQueue,
    slots: Vec<Option<WorkUnit>>,
    sink: ResultSink,
    failure: Option<ListingError>,
}

impl View for Scheduler {
    type V = SchedulerView;

    closed spec fn view(&self) -> SchedulerView {
        SchedulerView {
            limit: self.limit as nat,
            queue: self.queue@,
            slots: slot_views(self.slots@),
            sink: self.sink@,
            failure: match self.failure {
                Some(error) => Some(error@),
                None => None,
            },
        }
    }
}

impl Scheduler {
    #[verifier::type_invariant]
    spec fn well_formed(self) -> bool {
        &&& self.limit >= 1
        &&& self.slots@.len() <= self.limit
    }

    /// A traversal of everything below `root` with at most `limit` listings
    /// in flight. There is none for a limit of zero, under which no listing
    /// could ever start.
    pub fn new(root: Option<String>, limit: usize) -> (made: Option<Scheduler>)
        ensures
            limit == 0 ==> made is None,
            limit >= 1 ==> made is Some && made->0@ == SchedulerView::init(
                text_of(root),
                limit as nat,
            ),
    {
        if limit == 0 {
            return None;
        }
        let mut queue = WorkQueue::new();
        queue.push(WorkUnit::first_page(root));
        let scheduler = Scheduler {
            limit,
            queue,
            slots: Vec::new(),
            sink: ResultSink::new(),
            failure: None,
        };
        assert(scheduler@.queue == seq![UnitView { prefix: text_of(root), cursor: None }]);
        assert(scheduler@.slots == Seq::<Option<UnitView>>::empty());
        Some(scheduler)
    }

    /// The most listings that may be in flight at once.
    pub fn limit(&self) -> (limit: usize)
        ensures
            limit == self@.limit,
            self@.valid(),
    {
        proof {
            use_type_invariant(self);
        }
        self.limit
    }

    /// The number of units that wait for a slot.
    pub fn pending_count(&self) -> (n: usize)
        ensures
            n == self@.queue.len(),
    {
        self.queue.len()
    }

    /// The number of listings in flight. It never exceeds the limit.
    pub fn active_count(&self) -> (n: usize)
        ensures
            n == self@.active(),
            n <= self@.limit,
    {
        proof {
            use_type_invariant(self);
        }
        let mut n: usize = 0;
        let mut i: usize = 0;
        while i < self.slots.len()
            invariant
                i <= self.slots.len(),
                n == count_active(slot_views(self.slots@).take(i as int)),
                n <= i,
            decreases self.slots.len() - i,
        {
            proof {
                let all = slot_views(self.slots@);
                assert(all.take(i + 1).drop_last() == all.take(i as int));
            }
            if self.slots[i].is_some() {
                n = n + 1;
            }
            i = i + 1;
        }
        proof {
            let all = slot_views(self.slots@);
            assert(all.take(i as int) == all);
        }
        n
    }

    /// Whether a listing is in flight under `slot`.
    pub fn is_active(&self, slot: usize) -> (active: bool)
        ensures
            active == self@.is_active(slot as int),
    {
        slot < self.slots.len() && self.slots[slot].is_some()
    }

    /// The error that ended the traversal, once a listing has failed.
    pub fn failure(&self) -> (failure: Option<&ListingError>)
        ensures
            failure is Some <==> self@.failure is Some,
            failure is Some ==> failure->0@ == self@.failure->0,
    {
        self.failure.as_ref()
    }

    /// Whether the traversal is complete.
    pub fn is_done(&self) -> (done: bool)
        ensures
            done == self@.is_done(),
    {
        self.failure.is_none() && self.queue.is_empty() && self.all_vacant()
    }

    /// Whether no listing is in flight.
    fn all_vacant(&self) -> (vacant: bool)
        ensures
            vacant == (forall|j: int|
                0 <= j < self@.slots.len() ==> (#[trigger] self@.slots[j]) is None),
    {
        let mut i: usize = 0;
        while i < self.slots.len()
            invariant
                i <= self.slots.len(),
                forall|j: int| 0 <= j < i ==> (#[trigger] slot_views(self.slots@)[j]) is None,
            decreases self.slots.len() - i,
        {
            if self.slots[i].is_some() {
                assert(self@.slots[i as int] is Some);
                return false;
            }
            i = i + 1;
        }
        true
    }

    /// The lowest slot that is not in use.
    fn first_free(&self) -> (slot: usize)
        ensures
            slot == self@.free_slot(),
            self@.is_first_free(slot as int),
    {
        let mut i: usize = 0;
        while i < self.slots.len()
            invariant
                i <= self.slots.len(),
                forall|j: int| 0 <= j < i ==> (#[trigger] slot_views(self.slots@)[j]) is Some,
            ensures
                i < self.slots.len() ==> slot_views(self.slots@)[i as int] is None,
            decreases self.slots.len() - i,
        {
            if self.slots[i].is_none() {
                break;
            }
            i = i + 1;
        }
        proof {
            assert(self@.is_first_free(i as int));
            lemma_first_free_unique(self@, i as int);
        }
        i
    }

    /// Decides what to do next, and takes the step where it is a start.
    ///
    /// After a failure the answer is `Failed`, and nothing is started again.
    /// Otherwise, while a unit waits and a slot within the limit is free, the
    /// oldest waiting unit takes the lowest free slot and the answer names
    /// both. With nothing waiting and nothing in flight the answer is `Done`.
    /// In every other state it is `Wait`, and then a listing is in flight.
    pub fn next_action(&mut self) -> (action: Action)
        ensures
            action@ == old(self)@.decision(),
            final(self)@ == old(self)@.decide(),
            final(self)@.valid(),
    {
        proof {
            use_type_invariant(&*self);
        }
        if self.failure.is_some() {
            return Action::Failed;
        }
        let slot = self.first_free();
        if slot < self.limit && !self.queue.is_empty() {
            let mut queue = WorkQueue::new();
            std::mem::swap(&mut queue, &mut self.queue);
            let popped = queue.pop();
            self.queue = queue;
            match popped {
                Some(unit) => {
                    let copy = unit.clone();
                    let mut slots: Vec<Option<WorkUnit>> = Vec::new();
                    std::mem::swap(&mut slots, &mut self.slots);
                    let ghost before = slot_views(slots@);
                    if slot < slots.len() {
                        slots[slot] = Some(unit);
                        assert(slot_views(slots@) == before.update(slot as int, Some(unit@)));
                    } else {
                        slots.push(Some(unit));
                        assert(slot_views(slots@) == before.push(Some(unit@)));
                    }
                    self.slots = slots;
                    Action::Start { slot, unit: copy }
                },
                None => Action::Wait,
            }
        } else if self.is_done() {
            Action::Done
        } else {
            Action::Wait
        }
    }

    /// Takes in the outcome of the listing that was started under `slot`.
    ///
    /// The answer is whether a listing was in flight under `slot`; where none
    /// was, nothing changes. Otherwise the slot is vacated. While nothing has
    /// failed, a page adds its sub-prefixes and its continuation to the queue
    /// and its objects to the sink, and an error ends the traversal as
    /// failed. After a failure, later outcomes are dropped.
    pub fn complete(&mut self, slot: usize, outcome: Result<ListingPage, ListingError>) -> (known:
        bool)
        ensures
            known == old(self)@.is_active(slot as int),
            final(self)@ == old(self)@.complete(slot as int, outcome_view(outcome)),
            final(self)@.valid(),
    {
        proof {
            use_type_invariant(&*self);
        }
        if slot >= self.slots.len() {
            return false;
        }
        let mut slots: Vec<Option<WorkUnit>> = Vec::new();
        std::mem::swap(&mut slots, &mut self.slots);
        let ghost before = slot_views(slots@);
        let taken = slots[slot].take();
        assert(slot_views(slots@) == before.update(slot as int, None));
        self.slots = slots;
        match taken {
            None => {
                assert(before.update(slot as int, None) == before);
                false
            },
            Some(unit) => {
                if self.failure.is_none() {
                    match outcome {
                        Ok(page) => {
                            let mut queue = WorkQueue::new();
                            let mut sink = ResultSink::new();
                            std::mem::swap(&mut queue, &mut self.queue);
                            std::mem::swap(&mut sink, &mut self.sink);
                            deliver(unit, page, &mut queue, &mut sink);
                            self.queue = queue;
                            self.sink = sink;
                        },
                        Err(error) => {
                            self.failure = Some(error);
                        },
                    }
                }
                true
            },
        }
    }

    /// Hands the objects found since the last call to the consumer, in the
    /// order in which they were found.
    pub fn drain(&mut self) -> (leaves: Vec<LeafObject>)
        ensures
            leaf_views(leaves@) == old(self)@.sink.buffered,
            final(self)@ == old(self)@.drain(),
            final(self)@.valid(),
    {
        proof {
            use_type_invariant(&*self);
        }
        let mut sink = ResultSink::new();
        std::mem::swap(&mut sink, &mut self.sink);
        let leaves = sink.drain();
        self.sink = sink;
        leaves
    }
}

} // verus!
