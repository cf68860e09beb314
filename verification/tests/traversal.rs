use prefix_crawl::model::{LeafObject, ListingError, ListingPage, WorkUnit};
use prefix_crawl::scheduler::{Action, Scheduler, DEFAULT_LIMIT};
use std::collections::HashMap;

type Key = (Option<String>, Option<String>);

/// A store held in memory: for each unit, the page or the error that its
/// listing comes back with. A unit that the store does not know lists as an
/// empty page.
struct Store {
    answers: HashMap<Key, Result<ListingPage, String>>,
}

fn text(s: &str) -> String {
    s.to_string()
}

fn leaf(key: &str) -> LeafObject {
    LeafObject::with_key(text(key))
}

fn page(prefixes: &[&str], objects: &[&str], next: Option<&str>) -> ListingPage {
    ListingPage {
        prefixes: prefixes.iter().map(|p| text(p)).collect(),
        objects: objects.iter().map(|k| leaf(k)).collect(),
        next_cursor: next.map(text),
    }
}

fn copy_page(p: &ListingPage) -> ListingPage {
    ListingPage {
        prefixes: p.prefixes.clone(),
        objects: p
            .objects
            .iter()
            .map(|l| LeafObject {
                key: l.key.clone(),
                size: l.size,
                e_tag: l.e_tag.clone(),
                last_modified: l.last_modified.clone(),
                storage_class: l.storage_class.clone(),
            })
            .collect(),
        next_cursor: p.next_cursor.clone(),
    }
}

impl Store {
    fn new() -> Store {
        Store { answers: HashMap::new() }
    }

    fn put(&mut self, prefix: Option<&str>, cursor: Option<&str>, answer: ListingPage) {
        self.answers.insert((prefix.map(text), cursor.map(text)), Ok(answer));
    }

    fn fail(&mut self, prefix: Option<&str>, cursor: Option<&str>, message: &str) {
        self.answers.insert((prefix.map(text), cursor.map(text)), Err(text(message)));
    }

    fn list(&self, unit: &WorkUnit) -> Result<ListingPage, ListingError> {
        match self.answers.get(&(unit.prefix.clone(), unit.cursor.clone())) {
            Some(Ok(p)) => Ok(copy_page(p)),
            Some(Err(m)) => Err(ListingError { message: m.clone() }),
            None => Ok(page(&[], &[], None)),
        }
    }
}

/// Which of the listings in flight finishes next.
#[derive(Clone, Copy)]
enum Order {
    LowestSlot,
    HighestSlot,
    Alternate,
}

/// What one traversal did.
struct Report {
    keys: Vec<String>,
    failure: Option<String>,
    calls: Vec<Key>,
    most_in_flight: usize,
    calls_after_failure: usize,
}

/// Drives a scheduler against a store: starts whatever the scheduler asks
/// for, lets one listing in flight finish, and repeats.
fn crawl(store: &Store, root: Option<&str>, limit: usize, order: Order) -> Report {
    let mut scheduler = Scheduler::new(root.map(text), limit).unwrap();
    let mut in_flight: Vec<(usize, WorkUnit)> = Vec::new();
    let mut report = Report {
        keys: Vec::new(),
        failure: None,
        calls: Vec::new(),
        most_in_flight: 0,
        calls_after_failure: 0,
    };
    let mut turn = 0usize;
    let mut failed = false;
    loop {
        loop {
            match scheduler.next_action() {
                Action::Start { slot, unit } => {
                    if failed {
                        report.calls_after_failure += 1;
                    }
                    report.calls.push((unit.prefix.clone(), unit.cursor.clone()));
                    for (other, flying) in in_flight.iter() {
                        assert_ne!(*other, slot);
                        assert_ne!(flying.prefix, unit.prefix);
                    }
                    in_flight.push((slot, unit));
                    assert_eq!(scheduler.active_count(), in_flight.len());
                    assert!(in_flight.len() <= limit);
                    if in_flight.len() > report.most_in_flight {
                        report.most_in_flight = in_flight.len();
                    }
                }
                Action::Wait => {
                    assert!(!in_flight.is_empty());
                    break;
                }
                Action::Done => {
                    assert!(in_flight.is_empty());
                    assert!(scheduler.is_done());
                    return report;
                }
                Action::Failed => {
                    failed = true;
                    report.failure = scheduler.failure().map(|e| e.message.clone());
                    if in_flight.is_empty() {
                        return report;
                    }
                    break;
                }
            }
        }
        turn += 1;
        in_flight.sort_by_key(|(slot, _)| *slot);
        let pick = match order {
            Order::LowestSlot => 0,
            Order::HighestSlot => in_flight.len() - 1,
            Order::Alternate => {
                if turn % 2 == 0 {
                    0
                } else {
                    in_flight.len() - 1
                }
            }
        };
        let (slot, unit) = in_flight.remove(pick);
        assert!(scheduler.is_active(slot));
        assert!(scheduler.complete(slot, store.list(&unit)));
        assert!(!scheduler.is_active(slot));
        for found in scheduler.drain() {
            report.keys.push(found.line());
        }
    }
}

fn sorted(mut keys: Vec<String>) -> Vec<String> {
    keys.sort();
    keys
}

fn example_store() -> Store {
    let mut store = Store::new();
    store.put(None, None, page(&["a/", "b/"], &[], None));
    store.put(Some("a/"), None, page(&[], &["a/1.txt", "a/2.txt"], None));
    store.put(Some("b/"), None, page(&["b/c/"], &["b/x.txt"], None));
    store.put(Some("b/c/"), None, page(&[], &["b/c/y.txt"], None));
    store
}

/// A tree of the given depth in which each prefix has `fan` sub-prefixes and
/// three objects, listed over two pages.
fn grow(store: &mut Store, prefix: Option<&str>, depth: usize, fan: usize, all: &mut Vec<String>) {
    let base = prefix.unwrap_or("");
    let mut below: Vec<String> = Vec::new();
    if depth > 0 {
        for i in 0..fan {
            below.push(format!("{}d{}/", base, i));
        }
    }
    let names: Vec<&str> = below.iter().map(|s| s.as_str()).collect();
    let first = format!("{}f0", base);
    let second = format!("{}f1", base);
    let third = format!("{}f2", base);
    store.put(prefix, None, page(&names, &[&first, &second], Some("more")));
    store.put(prefix, Some("more"), page(&[], &[&third], None));
    all.push(first);
    all.push(second);
    all.push(third);
    for child in below.iter() {
        grow(store, Some(child), depth - 1, fan, all);
    }
}

#[test]
fn example_store_yields_its_four_objects() {
    let report = crawl(&example_store(), None, DEFAULT_LIMIT, Order::LowestSlot);
    assert_eq!(report.failure, None);
    assert_eq!(
        sorted(report.keys),
        vec![text("a/1.txt"), text("a/2.txt"), text("b/c/y.txt"), text("b/x.txt")]
    );
    assert_eq!(report.calls.len(), 4);
}

#[test]
fn example_store_is_found_in_queue_order_with_one_slot() {
    let report = crawl(&example_store(), None, 1, Order::LowestSlot);
    assert_eq!(
        report.keys,
        vec![text("a/1.txt"), text("a/2.txt"), text("b/x.txt"), text("b/c/y.txt")]
    );
    assert_eq!(
        report.calls,
        vec![
            (None, None),
            (Some(text("a/")), None),
            (Some(text("b/")), None),
            (Some(text("b/c/")), None)
        ]
    );
    assert_eq!(report.most_in_flight, 1);
}

#[test]
fn every_object_of_a_generated_tree_is_found_once() {
    let mut store = Store::new();
    let mut all: Vec<String> = Vec::new();
    grow(&mut store, None, 3, 3, &mut all);
    assert_eq!(all.len(), 3 * 40);
    for limit in [1usize, 2, 3, 8, 64] {
        for order in [Order::LowestSlot, Order::HighestSlot, Order::Alternate] {
            let report = crawl(&store, None, limit, order);
            assert_eq!(report.failure, None);
            assert_eq!(sorted(report.keys), sorted(all.clone()));
            assert_eq!(report.calls.len(), 2 * 40);
        }
    }
}

#[test]
fn one_slot_and_eight_slots_find_the_same_objects() {
    let mut store = Store::new();
    let mut all: Vec<String> = Vec::new();
    grow(&mut store, None, 2, 4, &mut all);
    let one = crawl(&store, None, 1, Order::LowestSlot);
    let eight = crawl(&store, None, 8, Order::HighestSlot);
    assert_eq!(one.most_in_flight, 1);
    assert_eq!(eight.most_in_flight, 8);
    assert_eq!(sorted(one.keys), sorted(eight.keys));
}

#[test]
fn no_key_is_found_twice() {
    let mut store = Store::new();
    let mut all: Vec<String> = Vec::new();
    grow(&mut store, None, 3, 2, &mut all);
    let report = crawl(&store, None, 4, Order::Alternate);
    let keys = sorted(report.keys);
    for pair in keys.windows(2) {
        assert_ne!(pair[0], pair[1]);
    }
    assert_eq!(keys.len(), all.len());
}

#[test]
fn a_chain_of_three_pages_is_listed_in_three_calls() {
    let mut store = Store::new();
    store.put(None, None, page(&[], &["k1", "k2"], Some("c1")));
    store.put(None, Some("c1"), page(&[], &["k3", "k4"], Some("c2")));
    store.put(None, Some("c2"), page(&[], &["k5"], None));
    let report = crawl(&store, None, 8, Order::LowestSlot);
    assert_eq!(report.failure, None);
    assert_eq!(report.keys, vec![text("k1"), text("k2"), text("k3"), text("k4"), text("k5")]);
    assert_eq!(
        report.calls,
        vec![(None, None), (None, Some(text("c1"))), (None, Some(text("c2")))]
    );
    assert_eq!(report.most_in_flight, 1);
}

#[test]
fn two_pages_of_one_prefix_are_never_in_flight_together() {
    let mut scheduler = Scheduler::new(None, 4).unwrap();
    assert!(matches!(scheduler.next_action(), Action::Start { slot: 0, .. }));
    assert!(scheduler.complete(0, Ok(page(&["a/"], &["k1"], Some("c1")))));
    assert_eq!(
        scheduler.next_action(),
        Action::Start { slot: 0, unit: WorkUnit { prefix: Some(text("a/")), cursor: None } }
    );
    assert_eq!(
        scheduler.next_action(),
        Action::Start { slot: 1, unit: WorkUnit { prefix: None, cursor: Some(text("c1")) } }
    );
    assert_eq!(scheduler.next_action(), Action::Wait);
    assert!(scheduler.complete(1, Ok(page(&[], &["k2"], Some("c2")))));
    assert_eq!(scheduler.pending_count(), 1);
    assert_eq!(
        scheduler.next_action(),
        Action::Start { slot: 1, unit: WorkUnit { prefix: None, cursor: Some(text("c2")) } }
    );
    assert_eq!(scheduler.next_action(), Action::Wait);
    assert_eq!(scheduler.active_count(), 2);
    assert!(scheduler.complete(1, Ok(page(&[], &["k3"], None))));
    assert!(scheduler.complete(0, Ok(page(&[], &["a/k"], None))));
    assert_eq!(scheduler.next_action(), Action::Done);
    let found: Vec<String> = scheduler.drain().iter().map(|l| l.line()).collect();
    assert_eq!(found, vec![text("k1"), text("k2"), text("k3"), text("a/k")]);
}

#[test]
fn an_empty_container_is_done_after_one_listing() {
    let mut scheduler = Scheduler::new(None, 8).unwrap();
    assert_eq!(
        scheduler.next_action(),
        Action::Start { slot: 0, unit: WorkUnit { prefix: None, cursor: None } }
    );
    assert_eq!(scheduler.next_action(), Action::Wait);
    assert!(scheduler.complete(0, Ok(page(&[], &[], None))));
    assert_eq!(scheduler.next_action(), Action::Done);
    assert!(scheduler.is_done());
    assert!(scheduler.drain().is_empty());
    assert!(scheduler.failure().is_none());
    assert_eq!(scheduler.next_action(), Action::Done);
}

#[test]
fn never_more_listings_in_flight_than_the_limit() {
    let mut store = Store::new();
    let mut all: Vec<String> = Vec::new();
    grow(&mut store, None, 2, 5, &mut all);
    for limit in [1usize, 2, 3, 5] {
        let report = crawl(&store, None, limit, Order::HighestSlot);
        assert_eq!(report.most_in_flight, limit);
        assert_eq!(sorted(report.keys), sorted(all.clone()));
    }
}

#[test]
fn an_error_ends_the_traversal_and_starts_nothing_more() {
    let mut store = example_store();
    store.fail(Some("b/"), None, "access denied");
    for limit in [1usize, 2, 8] {
        let report = crawl(&store, None, limit, Order::LowestSlot);
        assert_eq!(report.failure, Some(text("access denied")));
        assert_eq!(report.calls_after_failure, 0);
        assert!(!report.calls.contains(&(Some(text("b/c/")), None)));
    }
}

#[test]
fn an_error_at_the_root_fails_at_once() {
    let mut scheduler = Scheduler::new(Some(text("x/")), 4).unwrap();
    assert_eq!(
        scheduler.next_action(),
        Action::Start { slot: 0, unit: WorkUnit { prefix: Some(text("x/")), cursor: None } }
    );
    assert!(scheduler.complete(0, Err(ListingError { message: text("timeout") })));
    assert_eq!(scheduler.next_action(), Action::Failed);
    assert_eq!(scheduler.failure(), Some(&ListingError { message: text("timeout") }));
    assert!(!scheduler.is_done());
    assert_eq!(scheduler.active_count(), 0);
    assert_eq!(scheduler.next_action(), Action::Failed);
}

#[test]
fn the_first_error_is_kept_and_later_outcomes_are_dropped() {
    let mut scheduler = Scheduler::new(None, 3).unwrap();
    assert!(matches!(scheduler.next_action(), Action::Start { slot: 0, .. }));
    assert!(scheduler.complete(0, Ok(page(&["a/", "b/", "c/"], &["top"], None))));
    assert!(matches!(scheduler.next_action(), Action::Start { slot: 0, .. }));
    assert!(matches!(scheduler.next_action(), Action::Start { slot: 1, .. }));
    assert!(matches!(scheduler.next_action(), Action::Start { slot: 2, .. }));
    assert_eq!(scheduler.next_action(), Action::Wait);
    assert!(scheduler.complete(1, Err(ListingError { message: text("first") })));
    assert_eq!(scheduler.next_action(), Action::Failed);
    assert_eq!(scheduler.active_count(), 2);
    assert!(scheduler.complete(0, Ok(page(&["a/deeper/"], &["a/late"], Some("next")))));
    assert!(scheduler.complete(2, Err(ListingError { message: text("second") })));
    assert_eq!(scheduler.active_count(), 0);
    assert_eq!(scheduler.pending_count(), 0);
    assert_eq!(scheduler.failure(), Some(&ListingError { message: text("first") }));
    let found: Vec<String> = scheduler.drain().iter().map(|l| l.line()).collect();
    assert_eq!(found, vec![text("top")]);
    assert_eq!(scheduler.next_action(), Action::Failed);
}

#[test]
fn a_limit_of_zero_is_refused() {
    assert!(Scheduler::new(None, 0).is_none());
    assert!(Scheduler::new(Some(text("p/")), 0).is_none());
    assert!(Scheduler::new(None, 1).is_some());
}

#[test]
fn a_new_scheduler_holds_the_root_alone() {
    let scheduler = Scheduler::new(Some(text("photos/")), DEFAULT_LIMIT).unwrap();
    assert_eq!(DEFAULT_LIMIT, 8);
    assert_eq!(scheduler.limit(), 8);
    assert_eq!(scheduler.pending_count(), 1);
    assert_eq!(scheduler.active_count(), 0);
    assert!(!scheduler.is_done());
    assert!(scheduler.failure().is_none());
    assert!(!scheduler.is_active(0));
}

#[test]
fn the_lowest_free_slot_is_taken_first() {
    let mut scheduler = Scheduler::new(None, 3).unwrap();
    assert!(matches!(scheduler.next_action(), Action::Start { slot: 0, .. }));
    assert!(scheduler.complete(0, Ok(page(&["a/", "b/", "c/", "d/", "e/"], &[], None))));
    assert_eq!(scheduler.pending_count(), 5);
    assert_eq!(
        scheduler.next_action(),
        Action::Start { slot: 0, unit: WorkUnit { prefix: Some(text("a/")), cursor: None } }
    );
    assert_eq!(
        scheduler.next_action(),
        Action::Start { slot: 1, unit: WorkUnit { prefix: Some(text("b/")), cursor: None } }
    );
    assert_eq!(
        scheduler.next_action(),
        Action::Start { slot: 2, unit: WorkUnit { prefix: Some(text("c/")), cursor: None } }
    );
    assert_eq!(scheduler.next_action(), Action::Wait);
    assert_eq!(scheduler.active_count(), 3);
    assert_eq!(scheduler.pending_count(), 2);
    assert!(scheduler.complete(1, Ok(page(&[], &[], None))));
    assert!(scheduler.is_active(0));
    assert!(!scheduler.is_active(1));
    assert!(scheduler.is_active(2));
    assert_eq!(
        scheduler.next_action(),
        Action::Start { slot: 1, unit: WorkUnit { prefix: Some(text("d/")), cursor: None } }
    );
    assert!(scheduler.complete(0, Ok(page(&[], &[], None))));
    assert!(scheduler.complete(2, Ok(page(&[], &[], None))));
    assert_eq!(
        scheduler.next_action(),
        Action::Start { slot: 0, unit: WorkUnit { prefix: Some(text("e/")), cursor: None } }
    );
    assert_eq!(scheduler.next_action(), Action::Wait);
    assert_eq!(scheduler.active_count(), 2);
    assert_eq!(scheduler.pending_count(), 0);
}

#[test]
fn a_continuation_waits_behind_the_sub_prefixes_of_its_page() {
    let mut scheduler = Scheduler::new(Some(text("r/")), 1).unwrap();
    assert!(matches!(scheduler.next_action(), Action::Start { slot: 0, .. }));
    assert!(scheduler.complete(0, Ok(page(&["r/a/", "r/b/"], &["r/1"], Some("t1")))));
    assert_eq!(scheduler.pending_count(), 3);
    assert_eq!(
        scheduler.next_action(),
        Action::Start { slot: 0, unit: WorkUnit { prefix: Some(text("r/a/")), cursor: None } }
    );
    assert!(scheduler.complete(0, Ok(page(&[], &[], None))));
    assert_eq!(
        scheduler.next_action(),
        Action::Start { slot: 0, unit: WorkUnit { prefix: Some(text("r/b/")), cursor: None } }
    );
    assert!(scheduler.complete(0, Ok(page(&[], &[], None))));
    assert_eq!(
        scheduler.next_action(),
        Action::Start {
            slot: 0,
            unit: WorkUnit { prefix: Some(text("r/")), cursor: Some(text("t1")) }
        }
    );
    assert!(scheduler.complete(0, Ok(page(&[], &["r/2"], None))));
    assert_eq!(scheduler.next_action(), Action::Done);
    let found: Vec<String> = scheduler.drain().iter().map(|l| l.line()).collect();
    assert_eq!(found, vec![text("r/1"), text("r/2")]);
}

#[test]
fn an_outcome_for_a_slot_without_a_listing_changes_nothing() {
    let mut scheduler = Scheduler::new(None, 2).unwrap();
    assert!(!scheduler.complete(0, Ok(page(&["a/"], &["k"], None))));
    assert!(!scheduler.complete(7, Err(ListingError { message: text("stray") })));
    assert_eq!(scheduler.pending_count(), 1);
    assert_eq!(scheduler.active_count(), 0);
    assert!(scheduler.failure().is_none());
    assert!(scheduler.drain().is_empty());
    assert!(matches!(scheduler.next_action(), Action::Start { slot: 0, .. }));
    assert!(scheduler.complete(0, Ok(page(&[], &[], None))));
    assert!(!scheduler.complete(0, Ok(page(&["late/"], &["late"], None))));
    assert_eq!(scheduler.pending_count(), 0);
    assert_eq!(scheduler.next_action(), Action::Done);
}

#[test]
fn drain_hands_over_each_object_once_and_in_order() {
    let mut scheduler = Scheduler::new(None, 2).unwrap();
    assert!(matches!(scheduler.next_action(), Action::Start { slot: 0, .. }));
    assert!(scheduler.complete(0, Ok(page(&[], &["z", "a", "m"], Some("more")))));
    let first: Vec<String> = scheduler.drain().iter().map(|l| l.line()).collect();
    assert_eq!(first, vec![text("z"), text("a"), text("m")]);
    assert!(scheduler.drain().is_empty());
    assert!(matches!(scheduler.next_action(), Action::Start { slot: 0, .. }));
    assert!(scheduler.complete(0, Ok(page(&[], &["b"], None))));
    let second: Vec<String> = scheduler.drain().iter().map(|l| l.line()).collect();
    assert_eq!(second, vec![text("b")]);
}
