//! What every traversal guarantees, stated over all stores, all limits and
//! all orders in which listings can finish.

use crate::model::{LeafView, UnitView};
use crate::namespace::{leaves_at, page_at, root_unit, Namespace, Weight};
use crate::requests::{in_flight, requested};
use crate::requests::{
    lemma_gather_all_at, lemma_gather_all_pair, lemma_gather_slots_at, lemma_gather_slots_pair,
    lemma_in_flight_is_outstanding, lemma_init_ledger, lemma_own_page_counted, lemma_run_ledger,
    lemma_run_outstanding_shrinks,
};
use crate::state::SchedulerView;
use crate::state::{
    lemma_count_active_bounded, lemma_count_active_full, lemma_count_active_zero,
    lemma_first_free_exists,
};
use crate::traversal::{apply, finishes, follows, found, outstanding, run, starts};
use crate::traversal::{is_start, Event};
use crate::traversal::{
    lemma_apply_active, lemma_init_accounted, lemma_run_accounted, lemma_run_calls,
    lemma_unrequested_not_negative,
};
use vstd::multiset::Multiset;
use vstd::prelude::*;

verus! {

/// Whether no two objects of a collection share a key, and none occurs
/// twice.
pub open spec fn distinct_keys(leaves: Multiset<LeafView>) -> bool {
    forall|a: LeafView, b: LeafView|
        #[trigger] leaves.count(a) > 0 && #[trigger] leaves.count(b) > 0 && a.key == b.key ==> a
            == b && leaves.count(a) == 1
}

/// A table of vacant slots holds nothing to collect.
pub proof fn lemma_vacant_slots_hold_nothing<A>(
    ns: Namespace,
    slots: Seq<Option<UnitView>>,
    weight: Weight<A>,
)
    requires
        forall|j: int| 0 <= j < slots.len() ==> (#[trigger] slots[j]) is None,
    ensures
        ns.gather_slots(slots, weight) =~= Multiset::<A>::empty(),
    decreases slots.len(),
{
    if slots.len() > 0 {
        let shorter = slots.drop_last();
        assert forall|j: int| 0 <= j < shorter.len() implies (#[trigger] shorter[j]) is None by {
            assert(slots[j] is None);
        }
        lemma_vacant_slots_hold_nothing(ns, shorter, weight);
        assert(slots.last() == slots[slots.len() - 1]);
        assert(ns.gather_entry(slots.last(), weight) == Multiset::<A>::empty());
    }
}

/// In a complete traversal nothing is left to collect.
pub proof fn lemma_done_leaves_nothing<A>(ns: Namespace, s: SchedulerView, weight: Weight<A>)
    requires
        s.is_done(),
    ensures
        outstanding(ns, s, weight) =~= Multiset::<A>::empty(),
        s.active() == 0,
{
    lemma_vacant_slots_hold_nothing(ns, s.slots, weight);
    lemma_count_active_zero(s.slots);
}

/// A slot within the limit is free exactly while fewer listings are in
/// flight than the limit allows.
pub proof fn lemma_free_slot_within_limit(s: SchedulerView)
    requires
        s.valid(),
    ensures
        s.free_slot() < s.limit <==> s.active() < s.limit,
        s.active() <= s.limit,
{
    lemma_first_free_exists(s);
    lemma_count_active_bounded(s.slots);
    lemma_count_active_full(s.slots);
    let slot = s.free_slot();
    if slot < s.slots.len() {
        assert(s.slots[slot] is None);
    }
}

/// Every call leaves the scheduler in a state it can be in.
pub proof fn lemma_apply_valid(s: SchedulerView, event: Event)
    requires
        s.valid(),
    ensures
        apply(s, event).valid(),
{
    lemma_first_free_exists(s);
}

/// Every sequence of calls leaves the scheduler in a state it can be in.
pub proof fn lemma_run_valid(s: SchedulerView, events: Seq<Event>)
    requires
        s.valid(),
    ensures
        run(s, events).valid(),
    decreases events.len(),
{
    if events.len() > 0 {
        lemma_run_valid(s, events.drop_last());
        lemma_apply_valid(run(s, events.drop_last()), events.last());
    }
}

/// The scheduler never deadlocks. In a state that is neither complete nor
/// failed, either a listing can be started or one is in flight whose outcome
/// the scheduler waits for. It answers `Wait` only with a listing in flight,
/// `Done` only with none in flight and none waiting, and it starts a listing
/// only while fewer than the limit are in flight.
pub proof fn theorem_progress(s: SchedulerView)
    requires
        s.valid(),
    ensures
        s.decision() is Wait ==> s.active() >= 1,
        s.decision() is Done ==> s.active() == 0 && s.queue.len() == 0,
        s.decision() is Start ==> s.active() < s.limit && s.decide().active() == s.active() + 1,
        s.decision() is Failed <==> s.failure is Some,
{
    lemma_free_slot_within_limit(s);
    lemma_count_active_zero(s.slots);
    lemma_count_active_full(s.slots);
    lemma_first_free_exists(s);
    lemma_apply_active(s, Event::Decide);
}

/// Every object exactly once, and the traversal ends.
///
/// Take any store that is finite below every unit, any limit of at least
/// one, and any sequence of calls from the initial state in which each
/// outcome reported is what the store answers (or an error). Then:
///
/// - nothing is ever found that the store does not hold below the root, and
///   nothing more often than the store holds it;
/// - once the scheduler says that the traversal is complete, the objects
///   found are exactly those that the store holds below the root, each as
///   often as the store lists it;
/// - no more listings are started than the store has pages below the root,
///   and no more outcomes are taken in than listings were started, so no
///   sequence of calls keeps the scheduler busy for ever;
/// - once the traversal is complete, each page of the store below the root
///   has been asked for exactly once.
pub proof fn theorem_every_leaf_once(
    ns: Namespace,
    root: Option<Seq<char>>,
    limit: nat,
    events: Seq<Event>,
)
    requires
        ns.well_founded(),
        limit >= 1,
        follows(ns, SchedulerView::init(root, limit), events),
    ensures
        ({
            let first = SchedulerView::init(root, limit);
            let last = run(first, events);
            let all = ns.leaves_under(root_unit(root));
            let pages = ns.pages_under(root_unit(root)).len();
            &&& found(last).subset_of(all)
            &&& last.is_done() ==> found(last) == all
            &&& starts(first, events) <= pages
            &&& finishes(first, events) <= starts(first, events)
            &&& last.is_done() ==> starts(first, events) == pages && finishes(first, events)
                == pages
        }),
{
    let first = SchedulerView::init(root, limit);
    let last = run(first, events);
    lemma_init_accounted(ns, root, limit);
    lemma_run_accounted(ns, root, first, events);
    lemma_run_calls(ns, first, events);
    lemma_unrequested_not_negative(ns, last);
    if last.is_done() {
        lemma_done_leaves_nothing(ns, last, leaves_at());
        lemma_done_leaves_nothing(ns, last, page_at());
        assert(found(last).add(Multiset::<LeafView>::empty()) =~= found(last));
    }
}

/// The limit changes the order of discovery and nothing else: two complete
/// traversals of the same store from the same root find the same objects,
/// each the same number of times, whatever their limits and whatever the
/// order in which their listings finished.
pub proof fn theorem_limit_does_not_matter(
    ns: Namespace,
    root: Option<Seq<char>>,
    limit_a: nat,
    events_a: Seq<Event>,
    limit_b: nat,
    events_b: Seq<Event>,
)
    requires
        ns.well_founded(),
        limit_a >= 1,
        limit_b >= 1,
        follows(ns, SchedulerView::init(root, limit_a), events_a),
        follows(ns, SchedulerView::init(root, limit_b), events_b),
        run(SchedulerView::init(root, limit_a), events_a).is_done(),
        run(SchedulerView::init(root, limit_b), events_b).is_done(),
    ensures
        found(run(SchedulerView::init(root, limit_a), events_a)) == found(
            run(SchedulerView::init(root, limit_b), events_b),
        ),
{
    theorem_every_leaf_once(ns, root, limit_a, events_a);
    theorem_every_leaf_once(ns, root, limit_b, events_b);
}

/// Where the store holds no key twice below the root, no key is ever found
/// twice: at every point of every traversal, the objects found so far have
/// pairwise different keys.
pub proof fn theorem_no_key_twice(
    ns: Namespace,
    root: Option<Seq<char>>,
    limit: nat,
    events: Seq<Event>,
)
    requires
        ns.well_founded(),
        limit >= 1,
        follows(ns, SchedulerView::init(root, limit), events),
        distinct_keys(ns.leaves_under(root_unit(root))),
    ensures
        ({
            let emitted = run(SchedulerView::init(root, limit), events).sink.emitted();
            forall|i: int, j: int|
                0 <= i < j < emitted.len() ==> (#[trigger] emitted[i]).key != (
                #[trigger] emitted[j]).key
        }),
{
    let last = run(SchedulerView::init(root, limit), events);
    let emitted = last.sink.emitted();
    let all = ns.leaves_under(root_unit(root));
    theorem_every_leaf_once(ns, root, limit, events);
    emitted.to_multiset_ensures();
    assert forall|x: LeafView| found(last).contains(x) implies found(last).count(x) == 1 by {
        assert(found(last).count(x) <= all.count(x));
        assert(all.count(x) > 0);
    }
    emitted.lemma_multiset_has_no_duplicates_conv();
    assert forall|i: int, j: int| 0 <= i < j < emitted.len() implies (#[trigger] emitted[i]).key
        != (#[trigger] emitted[j]).key by {
        assert(emitted.contains(emitted[i]));
        assert(emitted.contains(emitted[j]));
        assert(found(last).count(emitted[i]) <= all.count(emitted[i]));
        assert(found(last).count(emitted[j]) <= all.count(emitted[j]));
        assert(emitted[i] != emitted[j]);
    }
}

/// Never more listings in flight than the limit: after any sequence of
/// calls whatever, reporting any outcomes under any slots.
pub proof fn theorem_bounded_concurrency(root: Option<Seq<char>>, limit: nat, events: Seq<Event>)
    requires
        limit >= 1,
    ensures
        run(SchedulerView::init(root, limit), events).valid(),
        run(SchedulerView::init(root, limit), events).active() <= limit,
        run(SchedulerView::init(root, limit), events).limit == limit,
    decreases events.len(),
{
    let first = SchedulerView::init(root, limit);
    lemma_run_valid(first, events);
    lemma_count_active_bounded(run(first, events).slots);
    if events.len() > 0 {
        theorem_bounded_concurrency(root, limit, events.drop_last());
    }
}

/// Units are started in the order in which they joined the queue. A start
/// takes the unit that has waited longest, and the others move up by one
/// place. No other call takes a unit out of the queue or changes the order
/// of those that wait: new units join behind them. So a unit with `n` units
/// before it is started by the start after the next `n`.
pub proof fn theorem_first_in_first_out(s: SchedulerView, event: Event)
    ensures
        ({
            let after = apply(s, event);
            let waiting = s.queue.len() as int;
            if is_start(s, event) {
                &&& after.queue.len() >= waiting - 1
                &&& after.queue.take(waiting - 1) == s.queue.drop_first()
                &&& after.is_active(s.free_slot())
                &&& after.slots[s.free_slot()] == Some(s.queue[0])
            } else {
                &&& after.queue.len() >= waiting
                &&& after.queue.take(waiting) == s.queue
            }
        }),
{
    let after = apply(s, event);
    let waiting = s.queue.len() as int;
    lemma_first_free_exists(s);
    if is_start(s, event) {
        assert(after.queue.take(waiting - 1) == s.queue.drop_first());
    } else {
        assert(after.queue.take(waiting) == s.queue);
    }
}

/// The first error ends the traversal. An error reported for a listing in
/// flight, while nothing has failed, becomes the failure. From then on,
/// whatever is called and reported: the failure stays the same one, the
/// scheduler answers `Failed`, no listing is started, nothing joins the
/// queue or the sink, and the listings in flight only become fewer.
pub proof fn theorem_fail_fast(s: SchedulerView, events: Seq<Event>)
    requires
        s.failure is Some,
    ensures
        run(s, events).failure == s.failure,
        run(s, events).decision() is Failed,
        starts(s, events) == 0,
        run(s, events).queue == s.queue,
        run(s, events).sink.emitted() == s.sink.emitted(),
        run(s, events).active() <= s.active(),
    decreases events.len(),
{
    if events.len() > 0 {
        let before = run(s, events.drop_last());
        theorem_fail_fast(s, events.drop_last());
        lemma_apply_active(before, events.last());
        assert(apply(before, events.last()).sink.emitted() == before.sink.emitted());
    }
}

/// An error for a listing in flight, reported while nothing has failed, is
/// the failure of the traversal.
pub proof fn theorem_error_fails(s: SchedulerView, slot: int, error: Seq<char>)
    requires
        s.failure is None,
        s.is_active(slot),
    ensures
        s.complete(slot, Err(error)).failure == Some(error),
        s.complete(slot, Err(error)).decision() is Failed,
        s.complete(slot, Err(error)).queue == s.queue,
        s.complete(slot, Err(error)).sink == s.sink,
{
}

/// The number of listings started is the number of units started.
pub proof fn lemma_starts_count_requested(s: SchedulerView, events: Seq<Event>)
    ensures
        requested(s, events).len() == starts(s, events),
    decreases events.len(),
{
    if events.len() > 0 {
        lemma_starts_count_requested(s, events.drop_last());
        let before = run(s, events.drop_last());
        let earlier = requested(s, events.drop_last());
        let one = Multiset::singleton(before.queue[0]);
        assert(earlier.add(one).len() == earlier.len() + one.len());
    }
}

/// Every page exactly once.
///
/// Under the conditions of `theorem_every_leaf_once`: no listing is ever
/// started that the store does not hold as a page below the root, and none
/// more often than the store holds it; once the traversal is complete, the
/// listings started are exactly the pages of the store below the root. In
/// particular the page after a page without a cursor is never asked for:
/// the store holds no such page.
pub proof fn theorem_every_page_once(
    ns: Namespace,
    root: Option<Seq<char>>,
    limit: nat,
    events: Seq<Event>,
)
    requires
        ns.well_founded(),
        limit >= 1,
        follows(ns, SchedulerView::init(root, limit), events),
    ensures
        ({
            let first = SchedulerView::init(root, limit);
            let last = run(first, events);
            let pages = ns.pages_under(root_unit(root));
            &&& requested(first, events).subset_of(pages)
            &&& requested(first, events).len() == starts(first, events)
            &&& last.is_done() ==> requested(first, events) == pages
        }),
{
    let first = SchedulerView::init(root, limit);
    let last = run(first, events);
    let pages = ns.pages_under(root_unit(root));
    let started = requested(first, events);
    let owed = outstanding(ns, last, page_at());
    let waiting = ns.gather_all(last.queue, page_at());
    let flying_pages = ns.gather_slots(last.slots, page_at());
    let flying = in_flight(last.slots);
    lemma_init_ledger(ns, root, limit);
    lemma_run_ledger(ns, root, first, events);
    lemma_starts_count_requested(first, events);
    lemma_in_flight_is_outstanding(ns, last.slots);
    assert forall|v: UnitView| started.count(v) <= pages.count(v) by {
        assert(started.add(owed).count(v) <= pages.add(flying).count(v));
        assert(waiting.add(flying_pages).count(v) == waiting.count(v) + flying_pages.count(v));
        assert(flying.count(v) <= flying_pages.count(v));
    }
    if last.is_done() {
        lemma_done_leaves_nothing(ns, last, page_at());
        assert forall|v: UnitView| started.count(v) == pages.count(v) by {
            assert(started.add(owed).count(v) == pages.add(flying).count(v));
            assert(owed.count(v) == 0);
            assert(flying.count(v) <= flying_pages.count(v));
            assert(waiting.add(flying_pages).count(v) == waiting.count(v) + flying_pages.count(v));
        }
        assert(started =~= pages);
    }
}

/// Whether the pages of each prefix form one chain below the root: the
/// store holds no page twice, and of two pages of the same prefix one is
/// reached from the other by following cursors.
pub open spec fn one_chain_per_prefix(ns: Namespace, root: Option<Seq<char>>) -> bool {
    let pages = ns.pages_under(root_unit(root));
    &&& forall|u: UnitView| #[trigger] pages.count(u) <= 1
    &&& forall|a: UnitView, b: UnitView|
        #![trigger pages.count(a), pages.count(b)]
        pages.count(a) > 0 && pages.count(b) > 0 && a.prefix == b.prefix && a != b
            ==> ns.pages_under(a).count(b) > 0 || ns.pages_under(b).count(a) > 0
}

/// Two units whose traversals are both still to come, in a store where the
/// pages of each prefix form one chain, are units of different prefixes.
pub proof fn lemma_pending_units_apart(
    ns: Namespace,
    root: Option<Seq<char>>,
    owed: Multiset<UnitView>,
    a: UnitView,
    b: UnitView,
)
    requires
        one_chain_per_prefix(ns, root),
        owed.subset_of(ns.pages_under(root_unit(root))),
        ns.pages_under(a).add(ns.pages_under(b)).subset_of(owed),
    ensures
        a.prefix != b.prefix,
{
    let pages = ns.pages_under(root_unit(root));
    let both = ns.pages_under(a).add(ns.pages_under(b));
    lemma_own_page_counted(ns, a);
    lemma_own_page_counted(ns, b);
    assert(both.count(a) == ns.pages_under(a).count(a) + ns.pages_under(b).count(a));
    assert(both.count(b) == ns.pages_under(a).count(b) + ns.pages_under(b).count(b));
    assert(both.count(a) <= owed.count(a) <= pages.count(a) <= 1);
    assert(both.count(b) <= owed.count(b) <= pages.count(b) <= 1);
    if a.prefix == b.prefix {
        if a != b {
            assert(pages.count(a) > 0 && pages.count(b) > 0);
            assert(ns.pages_under(a).count(b) > 0 || ns.pages_under(b).count(a) > 0);
        }
    }
}

/// One page of a prefix at a time.
///
/// In a store where the pages of each prefix form one chain, at every point
/// of every traversal the units that wait and the units in flight are units
/// of pairwise different prefixes. So two pages of one prefix are never asked
/// for at the same time, and the next page of a prefix does not even wait
/// while a page of that prefix is in flight.
pub proof fn theorem_one_page_of_a_prefix_at_a_time(
    ns: Namespace,
    root: Option<Seq<char>>,
    limit: nat,
    events: Seq<Event>,
)
    requires
        ns.well_founded(),
        limit >= 1,
        follows(ns, SchedulerView::init(root, limit), events),
        one_chain_per_prefix(ns, root),
    ensures
        ({
            let last = run(SchedulerView::init(root, limit), events);
            &&& forall|i: int, j: int|
                #![trigger last.slots[i], last.slots[j]]
                last.is_active(i) && last.is_active(j) && i != j ==> last.slots[i]->0.prefix
                    != last.slots[j]->0.prefix
            &&& forall|i: int, k: int|
                #![trigger last.slots[i], last.queue[k]]
                last.is_active(i) && 0 <= k < last.queue.len() ==> last.slots[i]->0.prefix
                    != last.queue[k].prefix
            &&& forall|k: int, l: int|
                #![trigger last.queue[k], last.queue[l]]
                0 <= k < l < last.queue.len() ==> last.queue[k].prefix != last.queue[l].prefix
        }),
{
    let first = SchedulerView::init(root, limit);
    let last = run(first, events);
    let pages = ns.pages_under(root_unit(root));
    let owed = outstanding(ns, last, page_at());
    let waiting = ns.gather_all(last.queue, page_at());
    let flying = ns.gather_slots(last.slots, page_at());
    lemma_init_accounted(ns, root, limit);
    lemma_run_outstanding_shrinks(ns, first, events, page_at());
    assert(owed.subset_of(pages));
    assert forall|i: int, j: int|
        #![trigger last.slots[i], last.slots[j]]
        last.is_active(i) && last.is_active(j) && i != j implies last.slots[i]->0.prefix
            != last.slots[j]->0.prefix by {
        let a = last.slots[i]->0;
        let b = last.slots[j]->0;
        lemma_gather_slots_pair(ns, last.slots, i, j, page_at());
        assert(ns.gather_entry(last.slots[i], page_at()) == ns.pages_under(a));
        assert(ns.gather_entry(last.slots[j], page_at()) == ns.pages_under(b));
        let both = ns.pages_under(a).add(ns.pages_under(b));
        assert forall|v: UnitView| both.count(v) <= owed.count(v) by {
            assert(both.count(v) <= flying.count(v));
            assert(waiting.add(flying).count(v) == waiting.count(v) + flying.count(v));
        }
        lemma_pending_units_apart(ns, root, owed, a, b);
    }
    assert forall|i: int, k: int|
        #![trigger last.slots[i], last.queue[k]]
        last.is_active(i) && 0 <= k < last.queue.len() implies last.slots[i]->0.prefix
            != last.queue[k].prefix by {
        let a = last.slots[i]->0;
        let b = last.queue[k];
        lemma_gather_slots_at(ns, last.slots, i, page_at());
        lemma_gather_all_at(ns, last.queue, k, page_at());
        assert(ns.gather_entry(last.slots[i], page_at()) == ns.pages_under(a));
        let both = ns.pages_under(a).add(ns.pages_under(b));
        assert forall|v: UnitView| both.count(v) <= owed.count(v) by {
            assert(both.count(v) == ns.pages_under(a).count(v) + ns.pages_under(b).count(v));
            assert(ns.pages_under(a).count(v) <= flying.count(v));
            assert(ns.pages_under(b).count(v) <= waiting.count(v));
            assert(waiting.add(flying).count(v) == waiting.count(v) + flying.count(v));
        }
        lemma_pending_units_apart(ns, root, owed, a, b);
    }
    assert forall|k: int, l: int|
        #![trigger last.queue[k], last.queue[l]]
        0 <= k < l < last.queue.len() implies last.queue[k].prefix != last.queue[l].prefix by {
        let a = last.queue[k];
        let b = last.queue[l];
        lemma_gather_all_pair(ns, last.queue, k, l, page_at());
        let both = ns.pages_under(a).add(ns.pages_under(b));
        assert forall|v: UnitView| both.count(v) <= owed.count(v) by {
            assert(both.count(v) <= waiting.count(v));
            assert(waiting.add(flying).count(v) == waiting.count(v) + flying.count(v));
        }
        lemma_pending_units_apart(ns, root, owed, a, b);
    }
}

} // verus!
