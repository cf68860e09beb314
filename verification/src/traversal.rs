//! Whole traversals: sequences of scheduler moves against a store, and what
//! holds of every one of them. Nothing here is executable. The moves are the
//! same functions that specify the executable scheduler, so each theorem
//! speaks of every sequence of calls that a driver can make.

use crate::model::{LeafView, PageView, UnitView};
use crate::namespace::{leaves_at, page_at, root_unit, Namespace, Weight};
use crate::namespace::{
    lemma_gather_all_concat, lemma_gather_all_first, lemma_gather_slots_push,
    lemma_gather_slots_update, lemma_gather_unfold,
};
use crate::state::{count_active, SchedulerView};
use crate::state::{lemma_count_active_update, lemma_first_free_exists};
use vstd::multiset::Multiset;
use vstd::prelude::*;

verus! {

/// One call that a driver makes on the scheduler.
pub enum Event {
    /// The driver asks what to do next.
    Decide,
    /// The driver reports how the listing under `slot` ended.
    Complete { slot: int, outcome: Result<PageView, Seq<char>> },
    /// The consumer takes the buffered objects.
    Drain,
}

/// The state after one call.
pub open spec fn apply(s: SchedulerView, event: Event) -> SchedulerView {
    match event {
        Event::Decide => s.decide(),
        Event::Complete { slot, outcome } => s.complete(slot, outcome),
        Event::Drain => s.drain(),
    }
}

/// The state after a sequence of calls.
pub open spec fn run(s: SchedulerView, events: Seq<Event>) -> SchedulerView
    decreases events.len(),
{
    if events.len() == 0 {
        s
    } else {
        apply(run(s, events.drop_last()), events.last())
    }
}

/// Whether a call starts a listing.
pub open spec fn is_start(s: SchedulerView, event: Event) -> bool {
    event is Decide && s.can_start()
}

/// Whether a call takes in the outcome of a listing in flight.
pub open spec fn is_finish(s: SchedulerView, event: Event) -> bool {
    event matches Event::Complete { slot, .. } && s.is_active(slot)
}

/// The number of listings that a sequence of calls starts.
pub open spec fn starts(s: SchedulerView, events: Seq<Event>) -> nat
    decreases events.len(),
{
    if events.len() == 0 {
        0
    } else {
        starts(s, events.drop_last()) + if is_start(
            run(s, events.drop_last()),
            events.last(),
        ) {
            1nat
        } else {
            0nat
        }
    }
}

/// The number of outcomes of listings in flight that a sequence of calls
/// takes in.
pub open spec fn finishes(s: SchedulerView, events: Seq<Event>) -> nat
    decreases events.len(),
{
    if events.len() == 0 {
        0
    } else {
        finishes(s, events.drop_last()) + if is_finish(
            run(s, events.drop_last()),
            events.last(),
        ) {
            1nat
        } else {
            0nat
        }
    }
}

/// Whether a call reports what the store answers: the outcome of a listing
/// in flight is the store's page for the unit of that slot, or an error.
pub open spec fn answers(ns: Namespace, s: SchedulerView, event: Event) -> bool {
    event matches Event::Complete { slot, outcome } ==> (s.is_active(slot) ==> match outcome {
        Ok(page) => page == ns.page(s.slots[slot]->0),
        Err(_) => true,
    })
}

/// Whether every call of a sequence reports what the store answers.
pub open spec fn follows(ns: Namespace, s: SchedulerView, events: Seq<Event>) -> bool
    decreases events.len(),
{
    events.len() == 0 || (follows(ns, s, events.drop_last()) && answers(
        ns,
        run(s, events.drop_last()),
        events.last(),
    ))
}

/// What is still to be collected in a state: over the traversals from the
/// units that wait and from the units in flight.
pub open spec fn outstanding<A>(ns: Namespace, s: SchedulerView, weight: Weight<A>) -> Multiset<A> {
    ns.gather_all(s.queue, weight).add(ns.gather_slots(s.slots, weight))
}

/// A start moves a unit from the queue to a slot: what is still to be
/// collected stays the same.
pub proof fn lemma_start_keeps_outstanding<A>(ns: Namespace, s: SchedulerView, weight: Weight<A>)
    requires
        s.can_start(),
    ensures
        outstanding(ns, s.start(), weight) =~= outstanding(ns, s, weight),
{
    let slot = s.free_slot();
    let unit = s.queue[0];
    lemma_first_free_exists(s);
    lemma_gather_all_first(ns, s.queue, weight);
    let waiting = ns.gather_all(s.queue.drop_first(), weight);
    let flying = ns.gather_slots(s.slots, weight);
    let own = ns.gather(unit, weight);
    assert(ns.gather_entry(Some(unit), weight) == own);
    if slot < s.slots.len() {
        lemma_gather_slots_update(ns, s.slots, slot, Some(unit), weight);
        let updated = ns.gather_slots(s.slots.update(slot, Some(unit)), weight);
        assert(ns.gather_entry(s.slots[slot], weight) == Multiset::<A>::empty());
        assert(updated.add(Multiset::<A>::empty()) == flying.add(own));
        assert forall|v: A|
            waiting.add(updated).count(v) == own.add(waiting).add(flying).count(v) by {
            assert(updated.add(Multiset::<A>::empty()).count(v) == updated.count(v));
            assert(flying.add(own).count(v) == flying.count(v) + own.count(v));
            assert(own.add(waiting).count(v) == own.count(v) + waiting.count(v));
        }
    } else {
        lemma_gather_slots_push(ns, s.slots, Some(unit), weight);
        let pushed = ns.gather_slots(s.slots.push(Some(unit)), weight);
        assert(pushed == flying.add(own));
        assert forall|v: A|
            waiting.add(pushed).count(v) == own.add(waiting).add(flying).count(v) by {
            assert(flying.add(own).count(v) == flying.count(v) + own.count(v));
            assert(own.add(waiting).count(v) == own.count(v) + waiting.count(v));
        }
    }
}

/// Vacating a slot takes out of what is still to be collected all that the
/// traversal from its unit would have collected.
pub proof fn lemma_vacate_outstanding<A>(
    ns: Namespace,
    s: SchedulerView,
    slot: int,
    weight: Weight<A>,
)
    requires
        s.is_active(slot),
    ensures
        ns.gather_slots(s.slots.update(slot, None), weight).add(
            ns.gather(s.slots[slot]->0, weight),
        ) =~= ns.gather_slots(s.slots, weight),
{
    lemma_gather_slots_update(ns, s.slots, slot, None, weight);
    let vacated = ns.gather_slots(s.slots.update(slot, None), weight);
    let own = ns.gather(s.slots[slot]->0, weight);
    let flying = ns.gather_slots(s.slots, weight);
    assert(ns.gather_entry(None, weight) == Multiset::<A>::empty());
    assert(ns.gather_entry(s.slots[slot], weight) == own);
    assert(vacated.add(own) == flying.add(Multiset::<A>::empty()));
    assert forall|v: A| vacated.add(own).count(v) == flying.count(v) by {
        assert(flying.add(Multiset::<A>::empty()).count(v) == flying.count(v));
    }
}

/// When the store's page for a unit in flight is taken in, what is still to
/// be collected shrinks by exactly what is collected at that page.
pub proof fn lemma_page_outstanding<A>(
    ns: Namespace,
    s: SchedulerView,
    slot: int,
    weight: Weight<A>,
)
    requires
        ns.well_founded(),
        s.is_active(slot),
        s.failure is None,
    ensures
        ({
            let unit = s.slots[slot]->0;
            let page = ns.page(unit);
            outstanding(ns, s.complete(slot, Ok(page)), weight).add(weight(unit, page))
                =~= outstanding(ns, s, weight)
        }),
{
    let unit = s.slots[slot]->0;
    let page = ns.page(unit);
    let after = s.complete(slot, Ok(page));
    lemma_vacate_outstanding(ns, s, slot, weight);
    lemma_gather_unfold(ns, unit, weight);
    lemma_gather_all_concat(ns, s.queue, ns.children(unit), weight);
    let waiting = ns.gather_all(s.queue, weight);
    let below = ns.gather_all(ns.children(unit), weight);
    let vacated = ns.gather_slots(s.slots.update(slot, None), weight);
    let flying = ns.gather_slots(s.slots, weight);
    let here = weight(unit, page);
    let own = ns.gather(unit, weight);
    assert(after.queue == s.queue + ns.children(unit));
    assert(ns.gather_all(after.queue, weight) == waiting.add(below));
    assert(own == here.add(below));
    assert(vacated.add(own) == flying);
    assert forall|v: A|
        waiting.add(below).add(vacated).add(here).count(v) == waiting.add(flying).count(v) by {
        assert(vacated.add(own).count(v) == vacated.count(v) + own.count(v));
        assert(here.add(below).count(v) == here.count(v) + below.count(v));
        assert(waiting.add(below).count(v) == waiting.count(v) + below.count(v));
    }
}

/// The objects found so far, with the number of times each was found.
pub open spec fn found(s: SchedulerView) -> Multiset<LeafView> {
    s.sink.emitted().to_multiset()
}

/// The listing calls that the rest of the traversal still has to issue: the
/// pages still to be taken in, less those whose listing is in flight.
pub open spec fn unrequested(ns: Namespace, s: SchedulerView) -> int {
    outstanding(ns, s, page_at()).len() - s.active()
}

/// The bookkeeping of a traversal from `root`: nothing is found that the
/// store does not hold below the root, and while nothing has failed, what
/// has been found and what is still to be found make up exactly what the
/// store holds below the root.
pub open spec fn accounted(ns: Namespace, root: Option<Seq<char>>, s: SchedulerView) -> bool {
    &&& s.valid()
    &&& found(s).subset_of(ns.leaves_under(root_unit(root)))
    &&& s.failure is None ==> found(s).add(outstanding(ns, s, leaves_at()))
        == ns.leaves_under(root_unit(root))
}

/// From a single unit, what is collected is what its traversal collects.
pub proof fn lemma_gather_all_single<A>(ns: Namespace, unit: UnitView, weight: Weight<A>)
    ensures
        ns.gather_all(seq![unit], weight) =~= ns.gather(unit, weight),
{
    let one = seq![unit];
    assert(one.drop_last() == Seq::<UnitView>::empty());
    assert(one.last() == unit);
    assert(ns.gather_all(one.drop_last(), weight) == Multiset::<A>::empty());
    assert(ns.gather_all(one, weight) == ns.gather_all(one.drop_last(), weight).add(
        ns.gather(one.last(), weight),
    ));
}

/// The bookkeeping holds before the first listing.
pub proof fn lemma_init_accounted(ns: Namespace, root: Option<Seq<char>>, limit: nat)
    requires
        limit >= 1,
    ensures
        accounted(ns, root, SchedulerView::init(root, limit)),
        outstanding(ns, SchedulerView::init(root, limit), page_at()) =~= ns.pages_under(
            root_unit(root),
        ),
        SchedulerView::init(root, limit).active() == 0,
{
    let s = SchedulerView::init(root, limit);
    let unit = root_unit(root);
    assert(s.sink.emitted() == Seq::<LeafView>::empty());
    assert(found(s) =~= Multiset::<LeafView>::empty()) by {
        s.sink.emitted().to_multiset_ensures();
        assert(found(s).len() == 0);
    }
    lemma_gather_all_single(ns, unit, leaves_at());
    lemma_gather_all_single(ns, unit, page_at());
    assert(s.slots.len() == 0);
    assert(found(s).add(outstanding(ns, s, leaves_at())) =~= ns.leaves_under(unit));
}

/// A call that reports what the store answers keeps the bookkeeping.
pub proof fn lemma_apply_accounted(
    ns: Namespace,
    root: Option<Seq<char>>,
    s: SchedulerView,
    event: Event,
)
    requires
        ns.well_founded(),
        accounted(ns, root, s),
        answers(ns, s, event),
    ensures
        accounted(ns, root, apply(s, event)),
        apply(s, event).failure is None ==> s.failure is None,
{
    let after = apply(s, event);
    let total = ns.leaves_under(root_unit(root));
    match event {
        Event::Decide => {
            if s.can_start() {
                lemma_first_free_exists(s);
                lemma_start_keeps_outstanding(ns, s, leaves_at());
            }
        },
        Event::Complete { slot, outcome } => {
            if s.is_active(slot) && s.failure is None && outcome is Ok {
                let unit = s.slots[slot]->0;
                let page = ns.page(unit);
                lemma_page_outstanding(ns, s, slot, leaves_at());
                let here = page.objects.to_multiset();
                assert(after.sink.emitted() == s.sink.emitted() + page.objects);
                vstd::seq_lib::lemma_multiset_commutative(s.sink.emitted(), page.objects);
                let rest = outstanding(ns, after, leaves_at());
                assert(rest.add(here) == outstanding(ns, s, leaves_at()));
                assert forall|v: LeafView|
                    found(after).add(rest).count(v) == total.count(v) by {
                    assert(found(s).add(rest.add(here)).count(v) == total.count(v));
                    assert(rest.add(here).count(v) == rest.count(v) + here.count(v));
                    assert(found(s).add(here).count(v) == found(s).count(v) + here.count(v));
                }
                assert(found(after).add(rest) =~= total);
                assert forall|v: LeafView| found(after).count(v) <= total.count(v) by {
                    assert(found(after).add(rest).count(v) == found(after).count(v) + rest.count(
                        v,
                    ));
                }
            }
        },
        Event::Drain => {
            assert(after.sink.emitted() == s.sink.emitted());
        },
    }
}

/// Every sequence of calls that reports what the store answers keeps the
/// bookkeeping.
pub proof fn lemma_run_accounted(
    ns: Namespace,
    root: Option<Seq<char>>,
    s: SchedulerView,
    events: Seq<Event>,
)
    requires
        ns.well_founded(),
        accounted(ns, root, s),
        follows(ns, s, events),
    ensures
        accounted(ns, root, run(s, events)),
    decreases events.len(),
{
    if events.len() > 0 {
        lemma_run_accounted(ns, root, s, events.drop_last());
        lemma_apply_accounted(ns, root, run(s, events.drop_last()), events.last());
    }
}

/// The traversal from any unit takes at least one listing call: its own.
pub proof fn lemma_own_page(ns: Namespace, unit: UnitView)
    ensures
        ns.pages_under(unit).len() >= 1,
{
    let below = ns.gather_below(ns.children(unit), (ns.height)(unit), page_at());
    assert(ns.pages_under(unit) == Multiset::singleton(unit).add(below));
    assert(Multiset::singleton(unit).add(below).len() == Multiset::singleton(unit).len()
        + below.len());
}

/// The units in flight account for at least one page each.
pub proof fn lemma_slots_hold_pages(ns: Namespace, slots: Seq<Option<UnitView>>)
    ensures
        ns.gather_slots(slots, page_at()).len() >= count_active(slots),
    decreases slots.len(),
{
    if slots.len() > 0 {
        lemma_slots_hold_pages(ns, slots.drop_last());
        let before = ns.gather_slots(slots.drop_last(), page_at());
        let entry = ns.gather_entry(slots.last(), page_at());
        assert(before.add(entry).len() == before.len() + entry.len());
        if slots.last() is Some {
            lemma_own_page(ns, slots.last()->0);
        }
    }
}

/// No fewer pages are still to be taken in than listings are in flight.
pub proof fn lemma_unrequested_not_negative(ns: Namespace, s: SchedulerView)
    ensures
        unrequested(ns, s) >= 0,
{
    lemma_slots_hold_pages(ns, s.slots);
    let waiting = ns.gather_all(s.queue, page_at());
    let flying = ns.gather_slots(s.slots, page_at());
    assert(waiting.add(flying).len() == waiting.len() + flying.len());
}

/// A start puts one more listing in flight, a finish takes one out, and no
/// other call changes their number.
pub proof fn lemma_apply_active(s: SchedulerView, event: Event)
    ensures
        apply(s, event).active() + (if is_finish(s, event) {
            1nat
        } else {
            0nat
        }) == s.active() + (if is_start(s, event) {
            1nat
        } else {
            0nat
        }),
{
    match event {
        Event::Decide => {
            if s.can_start() {
                lemma_first_free_exists(s);
                let slot = s.free_slot();
                let entry = Some(s.queue[0]);
                if slot < s.slots.len() {
                    lemma_count_active_update(s.slots, slot, entry);
                } else {
                    assert(s.slots.push(entry).drop_last() == s.slots);
                }
            }
        },
        Event::Complete { slot, outcome } => {
            if s.is_active(slot) {
                lemma_count_active_update(s.slots, slot, None);
            }
        },
        Event::Drain => {},
    }
}

/// A start issues one of the listing calls that were still to be issued. A
/// page that is taken in leaves their number as it was: the call for it was
/// counted when it started. No call adds to their number, and while nothing
/// has failed none is lost.
pub proof fn lemma_apply_calls(ns: Namespace, s: SchedulerView, event: Event)
    requires
        ns.well_founded(),
        answers(ns, s, event),
    ensures
        unrequested(ns, apply(s, event)) + (if is_start(s, event) {
            1int
        } else {
            0int
        }) <= unrequested(ns, s),
        apply(s, event).failure is None ==> unrequested(ns, apply(s, event)) + (if is_start(
            s,
            event,
        ) {
            1int
        } else {
            0int
        }) == unrequested(ns, s),
        apply(s, event).failure is None ==> s.failure is None,
{
    let after = apply(s, event);
    lemma_apply_active(s, event);
    match event {
        Event::Decide => {
            if s.can_start() {
                lemma_start_keeps_outstanding(ns, s, page_at());
            }
        },
        Event::Complete { slot, outcome } => {
            if s.is_active(slot) {
                let unit = s.slots[slot]->0;
                if s.failure is None && outcome is Ok {
                    lemma_page_outstanding(ns, s, slot, page_at());
                    let rest = outstanding(ns, after, page_at());
                    let here = Multiset::singleton(unit);
                    assert(rest.add(here).len() == rest.len() + here.len());
                } else {
                    lemma_vacate_outstanding(ns, s, slot, page_at());
                    lemma_own_page(ns, unit);
                    let waiting = ns.gather_all(s.queue, page_at());
                    let vacated = ns.gather_slots(s.slots.update(slot, None), page_at());
                    let flying = ns.gather_slots(s.slots, page_at());
                    let own = ns.pages_under(unit);
                    assert(vacated.add(own).len() == vacated.len() + own.len());
                    assert(waiting.add(vacated).len() == waiting.len() + vacated.len());
                    assert(waiting.add(flying).len() == waiting.len() + flying.len());
                }
            }
        },
        Event::Drain => {},
    }
}

/// Over any sequence of calls that reports what the store answers: the
/// listings started and the listing calls still to be issued never exceed
/// the listing calls that were to be issued at the outset, and make up
/// exactly that number while nothing has failed. The listings in flight are
/// those started and not yet finished.
pub proof fn lemma_run_calls(ns: Namespace, s: SchedulerView, events: Seq<Event>)
    requires
        ns.well_founded(),
        follows(ns, s, events),
    ensures
        starts(s, events) + unrequested(ns, run(s, events)) <= unrequested(ns, s),
        run(s, events).failure is None ==> starts(s, events) + unrequested(ns, run(s, events))
            == unrequested(ns, s),
        run(s, events).failure is None ==> s.failure is None,
        run(s, events).active() + finishes(s, events) == s.active() + starts(s, events),
    decreases events.len(),
{
    if events.len() > 0 {
        let before = run(s, events.drop_last());
        lemma_run_calls(ns, s, events.drop_last());
        lemma_apply_calls(ns, before, events.last());
        lemma_apply_active(before, events.last());
    }
}

} // verus!
