//! Which listing calls a traversal issues: the units that were started, the
//! units in flight, and how both relate to the pages that the store holds.

use crate::model::UnitView;
use crate::namespace::{page_at, root_unit, Namespace, Weight};
use crate::namespace::lemma_gather_slots_update;
use crate::state::SchedulerView;
use crate::state::lemma_first_free_exists;
use crate::traversal::{answers, apply, follows, is_start, outstanding, run, Event};
use crate::traversal::{
    lemma_gather_all_single, lemma_page_outstanding, lemma_start_keeps_outstanding,
    lemma_vacate_outstanding,
};
use vstd::multiset::Multiset;
use vstd::prelude::*;

verus! {

/// The units whose listings are in flight.
pub open spec fn in_flight(slots: Seq<Option<UnitView>>) -> Multiset<UnitView>
    decreases slots.len(),
{
    if slots.len() == 0 {
        Multiset::empty()
    } else {
        in_flight(slots.drop_last()).add(entry_unit(slots.last()))
    }
}

/// The unit of one slot: none for a vacant slot.
pub open spec fn entry_unit(entry: Option<UnitView>) -> Multiset<UnitView> {
    match entry {
        Some(unit) => Multiset::singleton(unit),
        None => Multiset::empty(),
    }
}

/// The units whose listings a sequence of calls starts, each as often as it
/// was started.
pub open spec fn requested(s: SchedulerView, events: Seq<Event>) -> Multiset<UnitView>
    decreases events.len(),
{
    if events.len() == 0 {
        Multiset::empty()
    } else {
        let before = run(s, events.drop_last());
        let earlier = requested(s, events.drop_last());
        if is_start(before, events.last()) {
            earlier.add(Multiset::singleton(before.queue[0]))
        } else {
            earlier
        }
    }
}

/// Replacing the entry of one slot exchanges the unit of that slot.
pub proof fn lemma_in_flight_update(
    slots: Seq<Option<UnitView>>,
    slot: int,
    entry: Option<UnitView>,
)
    requires
        0 <= slot < slots.len(),
    ensures
        in_flight(slots.update(slot, entry)).add(entry_unit(slots[slot])) =~= in_flight(slots).add(
            entry_unit(entry),
        ),
    decreases slots.len(),
{
    let updated = slots.update(slot, entry);
    let shorter = slots.drop_last();
    assert(in_flight(slots) == in_flight(shorter).add(entry_unit(slots.last())));
    assert(in_flight(updated) == in_flight(updated.drop_last()).add(entry_unit(updated.last())));
    if slot == slots.len() - 1 {
        assert(updated.drop_last() == shorter);
        assert(updated.last() == entry);
        assert(slots.last() == slots[slot]);
    } else {
        assert(updated.drop_last() == shorter.update(slot, entry));
        assert(updated.last() == slots.last());
        assert(shorter[slot] == slots[slot]);
        lemma_in_flight_update(shorter, slot, entry);
        crate::namespace::lemma_add_on_both_sides(
            in_flight(shorter.update(slot, entry)),
            entry_unit(slots[slot]),
            in_flight(shorter),
            entry_unit(entry),
            entry_unit(slots.last()),
        );
    }
}

/// Each unit in flight is among the pages that are still to be taken in.
pub proof fn lemma_in_flight_is_outstanding(ns: Namespace, slots: Seq<Option<UnitView>>)
    ensures
        in_flight(slots).subset_of(ns.gather_slots(slots, page_at())),
    decreases slots.len(),
{
    if slots.len() > 0 {
        let shorter = slots.drop_last();
        lemma_in_flight_is_outstanding(ns, shorter);
        let own = entry_unit(slots.last());
        let whole = ns.gather_entry(slots.last(), page_at());
        assert(own.subset_of(whole)) by {
            if slots.last() is Some {
                let unit = slots.last()->0;
                let below = ns.gather_below(ns.children(unit), (ns.height)(unit), page_at());
                assert(whole == Multiset::singleton(unit).add(below));
                assert forall|v: UnitView| own.count(v) <= whole.count(v) by {
                    assert(Multiset::singleton(unit).add(below).count(v) == Multiset::singleton(
                        unit,
                    ).count(v) + below.count(v));
                }
            }
        }
        assert forall|v: UnitView|
            in_flight(slots).count(v) <= ns.gather_slots(slots, page_at()).count(v) by {
            assert(in_flight(shorter).add(own).count(v) == in_flight(shorter).count(v) + own.count(
                v,
            ));
            assert(ns.gather_slots(shorter, page_at()).add(whole).count(v) == ns.gather_slots(
                shorter,
                page_at(),
            ).count(v) + whole.count(v));
            assert(in_flight(shorter).count(v) <= ns.gather_slots(shorter, page_at()).count(v));
            assert(own.count(v) <= whole.count(v));
        }
    }
}

/// The ledger of listing calls: the units started so far, together with the
/// pages still to be taken in, are the pages that the store holds below the
/// root together with the units in flight. After a failure, whose later
/// outcomes are dropped, they are at most that.
pub open spec fn ledger(
    ns: Namespace,
    root: Option<Seq<char>>,
    s: SchedulerView,
    started: Multiset<UnitView>,
) -> bool {
    let owed = outstanding(ns, s, page_at());
    let total = ns.pages_under(root_unit(root));
    let flying = in_flight(s.slots);
    &&& started.add(owed).subset_of(total.add(flying))
    &&& s.failure is None ==> started.add(owed) == total.add(flying)
}

/// The units started after one more call.
pub open spec fn started_after(
    s: SchedulerView,
    event: Event,
    started: Multiset<UnitView>,
) -> Multiset<UnitView> {
    if is_start(s, event) {
        started.add(Multiset::singleton(s.queue[0]))
    } else {
        started
    }
}

/// A call that reports what the store answers keeps the ledger.
pub proof fn lemma_apply_ledger(
    ns: Namespace,
    root: Option<Seq<char>>,
    s: SchedulerView,
    event: Event,
    started: Multiset<UnitView>,
)
    requires
        ns.well_founded(),
        ledger(ns, root, s, started),
        answers(ns, s, event),
    ensures
        ledger(ns, root, apply(s, event), started_after(s, event, started)),
{
    let after = apply(s, event);
    let owed = outstanding(ns, s, page_at());
    let owed_after = outstanding(ns, after, page_at());
    let total = ns.pages_under(root_unit(root));
    let flying = in_flight(s.slots);
    let flying_after = in_flight(after.slots);
    let started_then = started_after(s, event, started);
    match event {
        Event::Decide => {
            if s.can_start() {
                let unit = s.queue[0];
                let slot = s.free_slot();
                let one = Multiset::singleton(unit);
                lemma_first_free_exists(s);
                lemma_start_keeps_outstanding(ns, s, page_at());
                assert(flying_after =~= flying.add(one)) by {
                    if slot < s.slots.len() {
                        lemma_in_flight_update(s.slots, slot, Some(unit));
                        assert(entry_unit(s.slots[slot]) == Multiset::<UnitView>::empty());
                        assert(entry_unit(Some(unit)) == one);
                        assert forall|v: UnitView|
                            flying_after.count(v) == flying.add(one).count(v) by {
                            assert(flying_after.add(Multiset::<UnitView>::empty()).count(v)
                                == flying_after.count(v));
                        }
                    } else {
                        assert(s.slots.push(Some(unit)).drop_last() == s.slots);
                    }
                }
                assert forall|v: UnitView|
                    started_then.add(owed_after).count(v) <= total.add(flying_after).count(v) by {
                    assert(started.add(owed).count(v) <= total.add(flying).count(v));
                    assert(started.add(one).count(v) == started.count(v) + one.count(v));
                    assert(flying.add(one).count(v) == flying.count(v) + one.count(v));
                }
                if s.failure is None {
                    assert forall|v: UnitView|
                        started_then.add(owed_after).count(v) == total.add(flying_after).count(
                            v,
                        ) by {
                        assert(started.add(owed).count(v) == total.add(flying).count(v));
                        assert(started.add(one).count(v) == started.count(v) + one.count(v));
                        assert(flying.add(one).count(v) == flying.count(v) + one.count(v));
                    }
                    assert(started_then.add(owed_after) =~= total.add(flying_after));
                }
            }
        },
        Event::Complete { slot, outcome } => {
            if s.is_active(slot) {
                let unit = s.slots[slot]->0;
                let one = Multiset::singleton(unit);
                lemma_in_flight_update(s.slots, slot, None);
                assert(entry_unit(s.slots[slot]) == one);
                assert(entry_unit(None) == Multiset::<UnitView>::empty());
                assert(flying_after.add(one) == flying.add(Multiset::<UnitView>::empty()));
                if s.failure is None && outcome is Ok {
                    lemma_page_outstanding(ns, s, slot, page_at());
                    assert(owed_after.add(one) == owed);
                    assert forall|v: UnitView|
                        started.add(owed_after).count(v) == total.add(flying_after).count(v) by {
                        assert(started.add(owed).count(v) == total.add(flying).count(v));
                        assert(owed_after.add(one).count(v) == owed_after.count(v) + one.count(v));
                        assert(flying_after.add(one).count(v) == flying_after.count(v) + one.count(
                            v,
                        ));
                        assert(flying.add(Multiset::<UnitView>::empty()).count(v) == flying.count(
                            v,
                        ));
                    }
                    assert(started.add(owed_after) =~= total.add(flying_after));
                } else {
                    lemma_vacate_outstanding(ns, s, slot, page_at());
                    let own = ns.pages_under(unit);
                    let below = ns.gather_below(ns.children(unit), (ns.height)(unit), page_at());
                    assert(own == one.add(below));
                    let waiting = ns.gather_all(s.queue, page_at());
                    let vacated = ns.gather_slots(s.slots.update(slot, None), page_at());
                    let before = ns.gather_slots(s.slots, page_at());
                    assert(vacated.add(own) == before);
                    assert forall|v: UnitView|
                        started.add(owed_after).count(v) <= total.add(flying_after).count(v) by {
                        assert(started.add(owed).count(v) <= total.add(flying).count(v));
                        assert(vacated.add(own).count(v) == vacated.count(v) + own.count(v));
                        assert(one.add(below).count(v) == one.count(v) + below.count(v));
                        assert(waiting.add(vacated).count(v) == waiting.count(v) + vacated.count(
                            v,
                        ));
                        assert(waiting.add(before).count(v) == waiting.count(v) + before.count(v));
                        assert(flying_after.add(one).count(v) == flying_after.count(v) + one.count(
                            v,
                        ));
                        assert(flying.add(Multiset::<UnitView>::empty()).count(v) == flying.count(
                            v,
                        ));
                    }
                }
            }
        },
        Event::Drain => {},
    }
}

/// Every sequence of calls that reports what the store answers keeps the
/// ledger.
pub proof fn lemma_run_ledger(
    ns: Namespace,
    root: Option<Seq<char>>,
    s: SchedulerView,
    events: Seq<Event>,
)
    requires
        ns.well_founded(),
        ledger(ns, root, s, Multiset::empty()),
        follows(ns, s, events),
    ensures
        ledger(ns, root, run(s, events), requested(s, events)),
    decreases events.len(),
{
    if events.len() > 0 {
        lemma_run_ledger(ns, root, s, events.drop_last());
        lemma_apply_ledger(
            ns,
            root,
            run(s, events.drop_last()),
            events.last(),
            requested(s, events.drop_last()),
        );
    }
}

/// The ledger holds before the first listing.
pub proof fn lemma_init_ledger(ns: Namespace, root: Option<Seq<char>>, limit: nat)
    ensures
        ledger(ns, root, SchedulerView::init(root, limit), Multiset::empty()),
{
    let s = SchedulerView::init(root, limit);
    let total = ns.pages_under(root_unit(root));
    lemma_gather_all_single(ns, root_unit(root), page_at());
    assert(s.slots.len() == 0);
    assert(in_flight(s.slots) == Multiset::<UnitView>::empty());
    assert(ns.gather_slots(s.slots, page_at()) == Multiset::<UnitView>::empty());
    assert(Multiset::<UnitView>::empty().add(outstanding(ns, s, page_at())) =~= total.add(
        in_flight(s.slots),
    ));
}

/// No call adds to what is still to be collected.
pub proof fn lemma_apply_outstanding_shrinks<A>(
    ns: Namespace,
    s: SchedulerView,
    event: Event,
    weight: Weight<A>,
)
    requires
        ns.well_founded(),
        answers(ns, s, event),
    ensures
        outstanding(ns, apply(s, event), weight).subset_of(outstanding(ns, s, weight)),
{
    let after = apply(s, event);
    let owed = outstanding(ns, s, weight);
    let owed_after = outstanding(ns, after, weight);
    match event {
        Event::Decide => {
            if s.can_start() {
                lemma_start_keeps_outstanding(ns, s, weight);
            }
        },
        Event::Complete { slot, outcome } => {
            if s.is_active(slot) {
                let unit = s.slots[slot]->0;
                if s.failure is None && outcome is Ok {
                    lemma_page_outstanding(ns, s, slot, weight);
                    let here = weight(unit, ns.page(unit));
                    assert forall|v: A| owed_after.count(v) <= owed.count(v) by {
                        assert(owed_after.add(here).count(v) == owed_after.count(v) + here.count(
                            v,
                        ));
                    }
                } else {
                    lemma_vacate_outstanding(ns, s, slot, weight);
                    let waiting = ns.gather_all(s.queue, weight);
                    let vacated = ns.gather_slots(s.slots.update(slot, None), weight);
                    let before = ns.gather_slots(s.slots, weight);
                    let own = ns.gather(unit, weight);
                    assert forall|v: A| owed_after.count(v) <= owed.count(v) by {
                        assert(vacated.add(own).count(v) == vacated.count(v) + own.count(v));
                        assert(waiting.add(vacated).count(v) == waiting.count(v) + vacated.count(
                            v,
                        ));
                        assert(waiting.add(before).count(v) == waiting.count(v) + before.count(v));
                    }
                }
            }
        },
        Event::Drain => {},
    }
}

/// No sequence of calls adds to what is still to be collected.
pub proof fn lemma_run_outstanding_shrinks<A>(
    ns: Namespace,
    s: SchedulerView,
    events: Seq<Event>,
    weight: Weight<A>,
)
    requires
        ns.well_founded(),
        follows(ns, s, events),
    ensures
        outstanding(ns, run(s, events), weight).subset_of(outstanding(ns, s, weight)),
    decreases events.len(),
{
    if events.len() > 0 {
        lemma_run_outstanding_shrinks(ns, s, events.drop_last(), weight);
        lemma_apply_outstanding_shrinks(ns, run(s, events.drop_last()), events.last(), weight);
    }
}

/// What the traversal from one of a run of units collects is part of what
/// is collected from the run.
pub proof fn lemma_gather_all_at<A>(ns: Namespace, units: Seq<UnitView>, i: int, weight: Weight<A>)
    requires
        0 <= i < units.len(),
    ensures
        ns.gather(units[i], weight).subset_of(ns.gather_all(units, weight)),
    decreases units.len(),
{
    let shorter = units.drop_last();
    let before = ns.gather_all(shorter, weight);
    let end = ns.gather(units.last(), weight);
    assert(ns.gather_all(units, weight) == before.add(end));
    assert forall|v: A|
        ns.gather(units[i], weight).count(v) <= ns.gather_all(units, weight).count(v) by {
        assert(before.add(end).count(v) == before.count(v) + end.count(v));
        if i < units.len() - 1 {
            lemma_gather_all_at(ns, shorter, i, weight);
            assert(shorter[i] == units[i]);
            assert(ns.gather(shorter[i], weight).count(v) <= before.count(v));
        }
    }
}

/// What the traversals from two of a run of units collect together is part
/// of what is collected from the run.
pub proof fn lemma_gather_all_pair<A>(
    ns: Namespace,
    units: Seq<UnitView>,
    i: int,
    j: int,
    weight: Weight<A>,
)
    requires
        0 <= i < j < units.len(),
    ensures
        ns.gather(units[i], weight).add(ns.gather(units[j], weight)).subset_of(
            ns.gather_all(units, weight),
        ),
    decreases units.len(),
{
    let shorter = units.drop_last();
    let before = ns.gather_all(shorter, weight);
    let end = ns.gather(units.last(), weight);
    let first = ns.gather(units[i], weight);
    let second = ns.gather(units[j], weight);
    assert(ns.gather_all(units, weight) == before.add(end));
    assert(shorter[i] == units[i]);
    if j == units.len() - 1 {
        lemma_gather_all_at(ns, shorter, i, weight);
    } else {
        assert(shorter[j] == units[j]);
        lemma_gather_all_pair(ns, shorter, i, j, weight);
    }
    assert forall|v: A| first.add(second).count(v) <= before.add(end).count(v) by {
        assert(before.add(end).count(v) == before.count(v) + end.count(v));
        assert(first.add(second).count(v) == first.count(v) + second.count(v));
        if j == units.len() - 1 {
            assert(first.count(v) <= before.count(v));
        } else {
            assert(first.add(second).count(v) <= before.count(v));
        }
    }
}

/// What the traversal from the unit of one slot collects is part of what is
/// collected from the table.
pub proof fn lemma_gather_slots_at<A>(
    ns: Namespace,
    slots: Seq<Option<UnitView>>,
    i: int,
    weight: Weight<A>,
)
    requires
        0 <= i < slots.len(),
    ensures
        ns.gather_entry(slots[i], weight).subset_of(ns.gather_slots(slots, weight)),
{
    lemma_gather_slots_update(ns, slots, i, None, weight);
    let vacated = ns.gather_slots(slots.update(i, None), weight);
    let own = ns.gather_entry(slots[i], weight);
    let whole = ns.gather_slots(slots, weight);
    assert(ns.gather_entry(None, weight) == Multiset::<A>::empty());
    assert forall|v: A| own.count(v) <= whole.count(v) by {
        assert(vacated.add(own).count(v) == vacated.count(v) + own.count(v));
        assert(whole.add(Multiset::<A>::empty()).count(v) == whole.count(v));
    }
}

/// What the traversals from the units of two slots collect together is part
/// of what is collected from the table.
pub proof fn lemma_gather_slots_pair<A>(
    ns: Namespace,
    slots: Seq<Option<UnitView>>,
    i: int,
    j: int,
    weight: Weight<A>,
)
    requires
        0 <= i < slots.len(),
        0 <= j < slots.len(),
        i != j,
    ensures
        ns.gather_entry(slots[i], weight).add(ns.gather_entry(slots[j], weight)).subset_of(
            ns.gather_slots(slots, weight),
        ),
{
    let without = slots.update(j, None);
    lemma_gather_slots_update(ns, slots, j, None, weight);
    lemma_gather_slots_at(ns, without, i, weight);
    assert(without[i] == slots[i]);
    let first = ns.gather_entry(slots[i], weight);
    let second = ns.gather_entry(slots[j], weight);
    let rest = ns.gather_slots(without, weight);
    let whole = ns.gather_slots(slots, weight);
    assert(ns.gather_entry(None, weight) == Multiset::<A>::empty());
    assert forall|v: A| first.add(second).count(v) <= whole.count(v) by {
        assert(first.add(second).count(v) == first.count(v) + second.count(v));
        assert(rest.add(second).count(v) == rest.count(v) + second.count(v));
        assert(whole.add(Multiset::<A>::empty()).count(v) == whole.count(v));
        assert(first.count(v) <= rest.count(v));
    }
}

/// The traversal from a unit asks for the page of that unit.
pub proof fn lemma_own_page_counted(ns: Namespace, unit: UnitView)
    ensures
        ns.pages_under(unit).count(unit) >= 1,
{
    let below = ns.gather_below(ns.children(unit), (ns.height)(unit), page_at());
    assert(ns.pages_under(unit) == Multiset::singleton(unit).add(below));
    assert(Multiset::singleton(unit).add(below).count(unit) == Multiset::singleton(unit).count(
        unit,
    ) + below.count(unit));
}

} // verus!
