//! The scheduler as a transition system: its state as plain mathematical
//! values, and the two moves that change it. The executable scheduler is
//! specified by these functions, and the theorems about whole traversals are
//! stated over them.

use crate::model::{PageView, UnitView};
use crate::sink::SinkView;
use vstd::prelude::*;

verus! {

/// The number of occupied slots among `slots`.
pub open spec fn count_active(slots: Seq<Option<UnitView>>) -> nat
    decreases slots.len(),
{
    if slots.len() == 0 {
        0
    } else {
        count_active(slots.drop_last()) + if slots.last() is Some {
            1nat
        } else {
            0nat
        }
    }
}

/// What the scheduler asks of its driver next.
pub enum ActionView {
    /// Issue the listing of `unit`, and report its outcome under `slot`.
    Start { slot: int, unit: UnitView },
    /// Nothing can be started: wait until a listing in flight has finished.
    Wait,
    /// The traversal is complete.
    Done,
    /// A listing has failed: the traversal is over and has not succeeded.
    Failed,
}

/// The state of a traversal.
pub struct SchedulerView {
    /// The most listings that may be in flight at once.
    pub limit: nat,
    /// The units that wait for a slot, oldest first.
    pub queue: Seq<UnitView>,
    /// The slot table: for each slot, the unit whose listing is in flight.
    pub slots: Seq<Option<UnitView>>,
    /// The objects found so far.
    pub sink: SinkView,
    /// The first error that a listing reported, once there is one.
    pub failure: Option<Seq<char>>,
}

impl SchedulerView {
    /// The state before the first listing: the root waits alone.
    pub open spec fn init(root: Option<Seq<char>>, limit: nat) -> SchedulerView {
        SchedulerView {
            limit,
            queue: seq![UnitView { prefix: root, cursor: None }],
            slots: Seq::empty(),
            sink: SinkView { delivered: Seq::empty(), buffered: Seq::empty() },
            failure: None,
        }
    }

    /// What holds of every state that the scheduler can be in: at least one
    /// slot may be used, and the table never outgrows the limit.
    pub open spec fn valid(self) -> bool {
        &&& self.limit >= 1
        &&& self.slots.len() <= self.limit
    }

    /// The number of listings in flight.
    pub open spec fn active(self) -> nat {
        count_active(self.slots)
    }

    /// Whether a listing is in flight under `slot`.
    pub open spec fn is_active(self, slot: int) -> bool {
        0 <= slot < self.slots.len() && self.slots[slot] is Some
    }

    /// Whether `slot` is the lowest slot that is not in use: either a vacated
    /// entry of the table, or the entry by which the table would grow.
    pub open spec fn is_first_free(self, slot: int) -> bool {
        &&& 0 <= slot <= self.slots.len()
        &&& forall|j: int| 0 <= j < slot ==> (#[trigger] self.slots[j]) is Some
        &&& slot < self.slots.len() ==> self.slots[slot] is None
    }

    /// The lowest slot that is not in use.
    pub open spec fn free_slot(self) -> int {
        choose|slot: int| self.is_first_free(slot)
    }

    /// Whether a listing may be started: nothing has failed, work waits, and
    /// a slot within the limit is free.
    pub open spec fn can_start(self) -> bool {
        &&& self.failure is None
        &&& self.queue.len() > 0
        &&& self.free_slot() < self.limit
    }

    /// Whether the traversal is complete: nothing has failed, nothing waits,
    /// and nothing is in flight.
    pub open spec fn is_done(self) -> bool {
        &&& self.failure is None
        &&& self.queue.len() == 0
        &&& forall|j: int| 0 <= j < self.slots.len() ==> (#[trigger] self.slots[j]) is None
    }

    /// The state after the oldest waiting unit took the lowest free slot.
    pub open spec fn start(self) -> SchedulerView {
        let slot = self.free_slot();
        let unit = self.queue[0];
        SchedulerView {
            queue: self.queue.drop_first(),
            slots: if slot < self.slots.len() {
                self.slots.update(slot, Some(unit))
            } else {
                self.slots.push(Some(unit))
            },
            ..self
        }
    }

    /// What the scheduler asks for in this state.
    pub open spec fn decision(self) -> ActionView {
        if self.failure is Some {
            ActionView::Failed
        } else if self.can_start() {
            ActionView::Start { slot: self.free_slot(), unit: self.queue[0] }
        } else if self.is_done() {
            ActionView::Done
        } else {
            ActionView::Wait
        }
    }

    /// The state after the scheduler has made its decision: a start takes
    /// effect, any other decision changes nothing.
    pub open spec fn decide(self) -> SchedulerView {
        if self.can_start() {
            self.start()
        } else {
            self
        }
    }

    /// The state after the listing under `slot` has finished with `outcome`.
    /// The slot is vacated. While nothing has failed, a page adds its
    /// sub-prefixes and its continuation to the queue and its objects to the
    /// sink, and an error becomes the failure of the traversal. After a
    /// failure, later outcomes are dropped. An outcome for a slot that holds
    /// no listing changes nothing.
    pub open spec fn complete(self, slot: int, outcome: Result<PageView, Seq<char>>) -> SchedulerView {
        if !self.is_active(slot) {
            self
        } else {
            let unit = self.slots[slot]->0;
            let vacated = self.slots.update(slot, None);
            if self.failure is Some {
                SchedulerView { slots: vacated, ..self }
            } else {
                match outcome {
                    Ok(page) => SchedulerView {
                        slots: vacated,
                        queue: self.queue + page.children(unit),
                        sink: self.sink.accept(page.objects),
                        ..self
                    },
                    Err(error) => SchedulerView { slots: vacated, failure: Some(error), ..self },
                }
            }
        }
    }

    /// The state after the consumer took the buffered objects.
    pub open spec fn drain(self) -> SchedulerView {
        SchedulerView { sink: self.sink.hand_over(), ..self }
    }
}

/// At most one slot is the lowest free one, so a slot that is shown to be
/// the lowest free one is `free_slot`.
pub proof fn lemma_first_free_unique(s: SchedulerView, slot: int)
    requires
        s.is_first_free(slot),
    ensures
        s.free_slot() == slot,
{
    let other = s.free_slot();
    assert(s.is_first_free(other));
    if other < slot {
        assert(s.slots[other] is Some);
    } else if slot < other {
        assert(s.slots[slot] is Some);
    }
}

/// Some slot is always the lowest free one.
pub proof fn lemma_first_free_exists(s: SchedulerView)
    ensures
        s.is_first_free(s.free_slot()),
    decreases s.slots.len(),
{
    if s.slots.len() == 0 {
        assert(s.is_first_free(0));
    } else {
        let shorter = SchedulerView { slots: s.slots.drop_last(), ..s };
        lemma_first_free_exists(shorter);
        let k = shorter.free_slot();
        assert forall|j: int| 0 <= j < k implies (#[trigger] s.slots[j]) is Some by {
            assert(shorter.slots[j] is Some);
        }
        if k < shorter.slots.len() {
            assert(shorter.slots[k] is None);
            assert(s.is_first_free(k));
        } else if s.slots.last() is None {
            assert(s.is_first_free(k));
        } else {
            assert forall|j: int| 0 <= j < s.slots.len() implies (#[trigger] s.slots[j]) is Some by {
                if j < k {
                    assert(shorter.slots[j] is Some);
                }
            }
            assert(s.is_first_free(s.slots.len() as int));
        }
    }
}

/// No more slots are occupied than the table has.
pub proof fn lemma_count_active_bounded(slots: Seq<Option<UnitView>>)
    ensures
        count_active(slots) <= slots.len(),
    decreases slots.len(),
{
    if slots.len() > 0 {
        lemma_count_active_bounded(slots.drop_last());
    }
}

/// No slot is occupied exactly when every entry of the table is vacant.
pub proof fn lemma_count_active_zero(slots: Seq<Option<UnitView>>)
    ensures
        count_active(slots) == 0 <==> forall|j: int|
            0 <= j < slots.len() ==> (#[trigger] slots[j]) is None,
    decreases slots.len(),
{
    if slots.len() > 0 {
        let shorter = slots.drop_last();
        lemma_count_active_zero(shorter);
        if count_active(slots) == 0 {
            assert forall|j: int| 0 <= j < slots.len() implies (#[trigger] slots[j]) is None by {
                if j < shorter.len() {
                    assert(shorter[j] is None);
                }
            }
        }
        if forall|j: int| 0 <= j < slots.len() ==> (#[trigger] slots[j]) is None {
            assert forall|j: int| 0 <= j < shorter.len() implies (#[trigger] shorter[j]) is None by {
                assert(slots[j] is None);
            }
            assert(slots.last() is None);
        }
    }
}

/// Every slot is occupied exactly when the count equals the size of the
/// table.
pub proof fn lemma_count_active_full(slots: Seq<Option<UnitView>>)
    ensures
        count_active(slots) == slots.len() <==> forall|j: int|
            0 <= j < slots.len() ==> (#[trigger] slots[j]) is Some,
    decreases slots.len(),
{
    if slots.len() > 0 {
        let shorter = slots.drop_last();
        lemma_count_active_full(shorter);
        lemma_count_active_bounded(shorter);
        if count_active(slots) == slots.len() {
            assert forall|j: int| 0 <= j < slots.len() implies (#[trigger] slots[j]) is Some by {
                if j < shorter.len() {
                    assert(shorter[j] is Some);
                }
            }
        }
        if forall|j: int| 0 <= j < slots.len() ==> (#[trigger] slots[j]) is Some {
            assert forall|j: int| 0 <= j < shorter.len() implies (#[trigger] shorter[j]) is Some by {
                assert(slots[j] is Some);
            }
            assert(slots.last() is Some);
        }
    }
}

/// Occupying a vacant slot raises the count by one, vacating an occupied
/// one lowers it by one, and any other update leaves it as it was.
pub proof fn lemma_count_active_update(
    slots: Seq<Option<UnitView>>,
    slot: int,
    entry: Option<UnitView>,
)
    requires
        0 <= slot < slots.len(),
    ensures
        count_active(slots.update(slot, entry)) + (if slots[slot] is Some {
            1nat
        } else {
            0nat
        }) == count_active(slots) + (if entry is Some {
            1nat
        } else {
            0nat
        }),
    decreases slots.len(),
{
    let updated = slots.update(slot, entry);
    if slot == slots.len() - 1 {
        assert(updated.drop_last() == slots.drop_last());
    } else {
        assert(updated.drop_last() == slots.drop_last().update(slot, entry));
        lemma_count_active_update(slots.drop_last(), slot, entry);
    }
}

} // verus!
