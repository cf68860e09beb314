use prefix_crawl::model::{copy_text, LeafObject, ListingPage, WorkUnit};
use prefix_crawl::queue::WorkQueue;
use prefix_crawl::sink::ResultSink;
use prefix_crawl::walker::{deliver, request, ListingRequest};

fn word(s: &str) -> String {
    s.to_string()
}

fn unit(prefix: Option<&str>, cursor: Option<&str>) -> WorkUnit {
    WorkUnit { prefix: prefix.map(word), cursor: cursor.map(word) }
}

fn drain_queue(queue: &mut WorkQueue) -> Vec<WorkUnit> {
    let mut all = Vec::new();
    while let Some(next) = queue.pop() {
        all.push(next);
    }
    all
}

#[test]
fn first_page_has_no_cursor() {
    assert_eq!(WorkUnit::first_page(None), unit(None, None));
    assert_eq!(WorkUnit::first_page(Some(word("a/b/"))), unit(Some("a/b/"), None));
}

#[test]
fn a_cloned_unit_equals_the_unit_it_was_made_from() {
    let source = unit(Some("logs/2020/"), Some("token-17"));
    let copy = source.clone();
    assert_eq!(copy, source);
    assert_eq!(unit(None, None).clone(), unit(None, None));
}

#[test]
fn copy_text_keeps_presence_and_content() {
    assert_eq!(copy_text(&None), None);
    assert_eq!(copy_text(&Some(word(""))), Some(word("")));
    assert_eq!(copy_text(&Some(word("x/y"))), Some(word("x/y")));
}

#[test]
fn an_object_is_named_by_its_key() {
    assert_eq!(LeafObject::with_key(word("a/1.txt")).line(), "a/1.txt");
    let full = LeafObject {
        key: Some(word("b/x.txt")),
        size: Some(42),
        e_tag: Some(word("\"abc\"")),
        last_modified: Some(word("2020-01-01T00:00:00.000Z")),
        storage_class: Some(word("STANDARD")),
    };
    assert_eq!(full.line(), "b/x.txt");
}

#[test]
fn an_object_without_a_key_is_named_by_an_empty_line() {
    let nameless = LeafObject {
        key: None,
        size: Some(7),
        e_tag: None,
        last_modified: None,
        storage_class: None,
    };
    assert_eq!(nameless.line(), "");
}

#[test]
fn with_key_sets_the_key_alone() {
    assert_eq!(
        LeafObject::with_key(word("k")),
        LeafObject {
            key: Some(word("k")),
            size: None,
            e_tag: None,
            last_modified: None,
            storage_class: None
        }
    );
}

#[test]
fn assemble_counts_absent_lists_as_empty() {
    let page = ListingPage::assemble(None, None, None);
    assert_eq!(page, ListingPage { prefixes: vec![], objects: vec![], next_cursor: None });
}

#[test]
fn assemble_leaves_out_entries_without_a_prefix() {
    let page = ListingPage::assemble(
        Some(vec![None, Some(word("a/")), None, Some(word("b/")), Some(word("")), None]),
        Some(vec![LeafObject::with_key(word("k1")), LeafObject::with_key(word("k2"))]),
        Some(word("next")),
    );
    assert_eq!(page.prefixes, vec![word("a/"), word("b/"), word("")]);
    assert_eq!(
        page.objects,
        vec![LeafObject::with_key(word("k1")), LeafObject::with_key(word("k2"))]
    );
    assert_eq!(page.next_cursor, Some(word("next")));
}

#[test]
fn assemble_keeps_empty_lists_empty() {
    let page = ListingPage::assemble(Some(vec![]), Some(vec![]), None);
    assert!(page.prefixes.is_empty());
    assert!(page.objects.is_empty());
    assert_eq!(page.next_cursor, None);
    let only_gaps = ListingPage::assemble(Some(vec![None, None]), None, None);
    assert!(only_gaps.prefixes.is_empty());
}

#[test]
fn a_request_asks_for_one_level_below_the_unit() {
    assert_eq!(
        request("store", &unit(Some("b/"), Some("t9")), Some(2)),
        ListingRequest {
            container: word("store"),
            delimiter: word("/"),
            prefix: Some(word("b/")),
            cursor: Some(word("t9")),
            page_size: Some(2),
        }
    );
    assert_eq!(
        request("store", &unit(None, None), None),
        ListingRequest {
            container: word("store"),
            delimiter: word("/"),
            prefix: None,
            cursor: None,
            page_size: None,
        }
    );
}

#[test]
fn a_queue_gives_back_in_the_order_of_arrival() {
    let mut queue = WorkQueue::new();
    assert!(queue.is_empty());
    assert_eq!(queue.len(), 0);
    assert_eq!(queue.pop(), None);
    queue.push(unit(Some("a/"), None));
    queue.push(unit(Some("b/"), None));
    queue.push(unit(Some("a/"), Some("t")));
    assert!(!queue.is_empty());
    assert_eq!(queue.len(), 3);
    assert_eq!(queue.pop(), Some(unit(Some("a/"), None)));
    queue.push(unit(None, None));
    assert_eq!(queue.len(), 3);
    assert_eq!(
        drain_queue(&mut queue),
        vec![unit(Some("b/"), None), unit(Some("a/"), Some("t")), unit(None, None)]
    );
    assert!(queue.is_empty());
    assert_eq!(queue.pop(), None);
}

#[test]
fn a_queue_keeps_equal_units_apart() {
    let mut queue = WorkQueue::new();
    queue.push(unit(Some("a/"), None));
    queue.push(unit(Some("a/"), None));
    assert_eq!(queue.len(), 2);
    assert_eq!(queue.pop(), Some(unit(Some("a/"), None)));
    assert_eq!(queue.pop(), Some(unit(Some("a/"), None)));
    assert_eq!(queue.pop(), None);
}

#[test]
fn a_sink_hands_over_what_it_received_once() {
    let mut sink = ResultSink::new();
    assert_eq!(sink.len(), 0);
    assert!(sink.drain().is_empty());
    sink.push(LeafObject::with_key(word("k1")));
    sink.push_all(vec![LeafObject::with_key(word("k2")), LeafObject::with_key(word("k3"))]);
    sink.push_all(vec![]);
    assert_eq!(sink.len(), 3);
    let got: Vec<String> = sink.drain().iter().map(|found| found.line()).collect();
    assert_eq!(got, vec![word("k1"), word("k2"), word("k3")]);
    assert_eq!(sink.len(), 0);
    assert!(sink.drain().is_empty());
    sink.push(LeafObject::with_key(word("k4")));
    let later: Vec<String> = sink.drain().iter().map(|found| found.line()).collect();
    assert_eq!(later, vec![word("k4")]);
}

#[test]
fn deliver_queues_sub_prefixes_then_the_continuation() {
    let mut queue = WorkQueue::new();
    let mut sink = ResultSink::new();
    queue.push(unit(Some("waiting/"), None));
    sink.push(LeafObject::with_key(word("earlier")));
    let page = ListingPage {
        prefixes: vec![word("p/x/"), word("p/y/")],
        objects: vec![LeafObject::with_key(word("p/1")), LeafObject::with_key(word("p/2"))],
        next_cursor: Some(word("c2")),
    };
    deliver(unit(Some("p/"), Some("c1")), page, &mut queue, &mut sink);
    assert_eq!(
        drain_queue(&mut queue),
        vec![
            unit(Some("waiting/"), None),
            unit(Some("p/x/"), None),
            unit(Some("p/y/"), None),
            unit(Some("p/"), Some("c2"))
        ]
    );
    let got: Vec<String> = sink.drain().iter().map(|found| found.line()).collect();
    assert_eq!(got, vec![word("earlier"), word("p/1"), word("p/2")]);
}

#[test]
fn deliver_of_a_last_page_queues_no_continuation() {
    let mut queue = WorkQueue::new();
    let mut sink = ResultSink::new();
    let page = ListingPage {
        prefixes: vec![],
        objects: vec![LeafObject::with_key(word("only"))],
        next_cursor: None,
    };
    deliver(unit(None, Some("c9")), page, &mut queue, &mut sink);
    assert!(queue.is_empty());
    assert_eq!(sink.len(), 1);
}

#[test]
fn deliver_of_the_root_continues_at_the_root() {
    let mut queue = WorkQueue::new();
    let mut sink = ResultSink::new();
    let page = ListingPage { prefixes: vec![word("a/")], objects: vec![], next_cursor: Some(word("t")) };
    deliver(unit(None, None), page, &mut queue, &mut sink);
    assert_eq!(drain_queue(&mut queue), vec![unit(Some("a/"), None), unit(None, Some("t"))]);
    assert_eq!(sink.len(), 0);
}
