//! The pagination walker: what is asked of the remote side for one work unit,
//! and what the page that comes back adds to the queue and to the sink. The
//! walker keeps nothing between pages: a unit holds all that a listing needs.

use crate::model::{copy_text, text_of, texts_of, ListingPage, UnitView, WorkUnit};
use crate::queue::WorkQueue;
use crate::sink::ResultSink;
use vstd::prelude::*;

verus! {

/// The separator by which the remote side groups keys into one level of
/// sub-prefixes.
pub open spec fn delimiter() -> Seq<char> {
    "/"@
}

/// One listing call as contracts see it.
pub struct RequestView {
    pub container: Seq<char>,
    pub delimiter: Seq<char>,
    pub prefix: Option<Seq<char>>,
    pub cursor: Option<Seq<char>>,
    pub page_size: Option<i64>,
}

/// The arguments of one listing call.
#[derive(Debug, PartialEq, Eq)]
pub struct ListingRequest {
    pub container: String,
    pub delimiter: String,
    pub prefix: Option<String>,
    pub cursor: Option<String>,
    pub page_size: Option<i64>,
}

impl View for ListingRequest {
    type V = RequestView;

    open spec fn view(&self) -> RequestView {
        RequestView {
            container: self.container@,
            delimiter: self.delimiter@,
            prefix: text_of(self.prefix),
            cursor: text_of(self.cursor),
            page_size: self.page_size,
        }
    }
}

/// The listing call that serves `unit` in `container`: one level below the
/// unit's prefix, resumed at the unit's cursor where it has one, with pages
/// of at most `page_size` entries where a size is given.
pub fn request(container: &str, unit: &WorkUnit, page_size: Option<i64>) -> (call: ListingRequest)
    ensures
        call@ == (RequestView {
            container: container@,
            delimiter: delimiter(),
            prefix: unit@.prefix,
            cursor: unit@.cursor,
            page_size,
        }),
{
    ListingRequest {
        container: container.to_owned(),
        delimiter: "/".to_owned(),
        prefix: copy_text(&unit.prefix),
        cursor: copy_text(&unit.cursor),
        page_size,
    }
}

/// Hands on what `page`, the answer to the listing of `unit`, has found:
/// each sub-prefix joins the queue as a first-page unit, each object goes to
/// the sink, and where the page carries a cursor the next page of the same
/// prefix joins the queue behind the sub-prefixes.
pub fn deliver(unit: WorkUnit, page: ListingPage, queue: &mut WorkQueue, sink: &mut ResultSink)
    ensures
        final(queue)@ == old(queue)@ + page@.children(unit@),
        final(sink)@ == old(sink)@.accept(page@.objects),
{
    let ListingPage { prefixes, objects, next_cursor } = page;
    let ghost below = texts_of(prefixes@).map_values(
        |p: Seq<char>| UnitView { prefix: Some(p), cursor: None },
    );
    let mut i: usize = 0;
    while i < prefixes.len()
        invariant
            i <= prefixes.len(),
            below == texts_of(prefixes@).map_values(
                |p: Seq<char>| UnitView { prefix: Some(p), cursor: None },
            ),
            queue@ == old(queue)@ + below.take(i as int),
        decreases prefixes.len() - i,
    {
        let child = WorkUnit::first_page(Some(prefixes[i].clone()));
        assert(child@ == below[i as int]);
        assert(below.take(i + 1) == below.take(i as int).push(below[i as int]));
        queue.push(child);
        i = i + 1;
    }
    assert(below.take(i as int) == below);
    match next_cursor {
        Some(cursor) => {
            queue.push(WorkUnit { prefix: unit.prefix, cursor: Some(cursor) });
        },
        None => {},
    }
    sink.push_all(objects);
}

} // verus!
