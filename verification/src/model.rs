//! The data of a traversal: work units, listed objects, pages and errors,
//! each with the mathematical value that contracts speak of.

use vstd::prelude::*;

verus! {

/// The characters of an optional string.
pub open spec fn text_of(s: Option<String>) -> Option<Seq<char>> {
    match s {
        Some(t) => Some(t@),
        None => None,
    }
}

/// The characters of each string of a sequence.
pub open spec fn texts_of(items: Seq<String>) -> Seq<Seq<char>> {
    items.map_values(|s: String| s@)
}

/// The characters of each optional string of a sequence.
pub open spec fn optional_texts_of(items: Seq<Option<String>>) -> Seq<Option<Seq<char>>> {
    items.map_values(|s: Option<String>| text_of(s))
}

/// Copies an optional string.
pub fn copy_text(s: &Option<String>) -> (copy: Option<String>)
    ensures
        text_of(copy) == text_of(*s),
{
    match s {
        Some(t) => Some(t.clone()),
        None => None,
    }
}

/// A position in the traversal: a prefix and, when a listing of it was cut
/// short, the cursor at which to resume. An absent prefix is the root.
pub struct UnitView {
    pub prefix: Option<Seq<char>>,
    pub cursor: Option<Seq<char>>,
}

/// One unit of pending work: everything needed to start or resume the
/// listing of one prefix.
#[derive(Debug, PartialEq, Eq)]
pub struct WorkUnit {
    pub prefix: Option<String>,
    pub cursor: Option<String>,
}

impl View for WorkUnit {
    type V = UnitView;

    open spec fn view(&self) -> UnitView {
        UnitView { prefix: text_of(self.prefix), cursor: text_of(self.cursor) }
    }
}

impl Clone for WorkUnit {
    fn clone(&self) -> (copy: Self)
        ensures
            copy@ == self@,
    {
        WorkUnit { prefix: copy_text(&self.prefix), cursor: copy_text(&self.cursor) }
    }
}

impl WorkUnit {
    /// The unit that starts the listing of `prefix` from its first page.
    pub fn first_page(prefix: Option<String>) -> (unit: WorkUnit)
        ensures
            unit@ == (UnitView { prefix: text_of(prefix), cursor: None }),
    {
        WorkUnit { prefix, cursor: None }
    }
}

/// What a listing reports of one stored object.
pub struct LeafView {
    pub key: Option<Seq<char>>,
    pub size: Option<i64>,
    pub e_tag: Option<Seq<char>>,
    pub last_modified: Option<Seq<char>>,
    pub storage_class: Option<Seq<char>>,
}

/// One stored object as a listing reports it: its key, and the attributes
/// that travel with it untouched. It is never listed further.
#[derive(Debug, PartialEq, Eq)]
pub struct LeafObject {
    pub key: Option<String>,
    pub size: Option<i64>,
    pub e_tag: Option<String>,
    pub last_modified: Option<String>,
    pub storage_class: Option<String>,
}

impl View for LeafObject {
    type V = LeafView;

    open spec fn view(&self) -> LeafView {
        LeafView {
            key: text_of(self.key),
            size: self.size,
            e_tag: text_of(self.e_tag),
            last_modified: text_of(self.last_modified),
            storage_class: text_of(self.storage_class),
        }
    }
}

impl LeafView {
    /// The line that names the object in the output: its key, or nothing
    /// where the listing gave none.
    pub open spec fn line(self) -> Seq<char> {
        match self.key {
            Some(k) => k,
            None => Seq::empty(),
        }
    }
}

impl LeafObject {
    /// An object known by its key alone.
    pub fn with_key(key: String) -> (leaf: LeafObject)
        ensures
            leaf@ == (LeafView {
                key: Some(key@),
                size: None,
                e_tag: None,
                last_modified: None,
                storage_class: None,
            }),
    {
        LeafObject {
            key: Some(key),
            size: None,
            e_tag: None,
            last_modified: None,
            storage_class: None,
        }
    }

    /// The line that names the object in the output.
    pub fn line(&self) -> (line: String)
        ensures
            line@ == self@.line(),
    {
        match &self.key {
            Some(k) => k.clone(),
            None => String::new(),
        }
    }
}

/// The views of a sequence of objects, in order.
pub open spec fn leaf_views(items: Seq<LeafObject>) -> Seq<LeafView> {
    items.map_values(|leaf: LeafObject| leaf@)
}

/// The views of a sequence of work units, in order.
pub open spec fn unit_views(items: Seq<WorkUnit>) -> Seq<UnitView> {
    items.map_values(|unit: WorkUnit| unit@)
}

/// The entries of a sequence that are present, in order.
pub open spec fn present(items: Seq<Option<Seq<char>>>) -> Seq<Seq<char>>
    decreases items.len(),
{
    if items.len() == 0 {
        Seq::empty()
    } else {
        let before = present(items.drop_last());
        match items.last() {
            Some(text) => before.push(text),
            None => before,
        }
    }
}

/// The answer to one listing call.
pub struct PageView {
    pub prefixes: Seq<Seq<char>>,
    pub objects: Seq<LeafView>,
    pub next_cursor: Option<Seq<char>>,
}

impl PageView {
    /// The work that a page of `parent` gives rise to: one first-page unit for
    /// each sub-prefix, in order, then the next page of `parent` itself where
    /// the page carries a cursor.
    pub open spec fn children(self, parent: UnitView) -> Seq<UnitView> {
        let below = self.prefixes.map_values(
            |p: Seq<char>| UnitView { prefix: Some(p), cursor: None },
        );
        match self.next_cursor {
            Some(c) => below.push(UnitView { prefix: parent.prefix, cursor: Some(c) }),
            None => below,
        }
    }

    /// The page of a prefix that holds nothing.
    pub open spec fn empty() -> PageView {
        PageView { prefixes: Seq::empty(), objects: Seq::empty(), next_cursor: None }
    }
}

/// The answer to one listing call: the sub-prefixes and the objects directly
/// below the listed prefix, and the cursor of the next page where the answer
/// was cut short. No cursor means that the prefix is fully listed.
#[derive(Debug, PartialEq, Eq)]
pub struct ListingPage {
    pub prefixes: Vec<String>,
    pub objects: Vec<LeafObject>,
    pub next_cursor: Option<String>,
}

impl View for ListingPage {
    type V = PageView;

    open spec fn view(&self) -> PageView {
        PageView {
            prefixes: texts_of(self.prefixes@),
            objects: leaf_views(self.objects@),
            next_cursor: text_of(self.next_cursor),
        }
    }
}

impl ListingPage {
    /// Builds a page from the parts of a raw listing answer, in which a list
    /// may be absent and a sub-prefix entry may be empty. An absent list
    /// counts as an empty one, and entries without a prefix are left out.
    pub fn assemble(
        common_prefixes: Option<Vec<Option<String>>>,
        contents: Option<Vec<LeafObject>>,
        next_cursor: Option<String>,
    ) -> (page: ListingPage)
        ensures
            page@.prefixes == (match common_prefixes {
                Some(list) => present(optional_texts_of(list@)),
                None => Seq::empty(),
            }),
            page@.objects == (match contents {
                Some(list) => leaf_views(list@),
                None => Seq::empty(),
            }),
            page@.next_cursor == text_of(next_cursor),
    {
        let mut prefixes: Vec<String> = Vec::new();
        match common_prefixes {
            Some(list) => {
                let mut i: usize = 0;
                while i < list.len()
                    invariant
                        i <= list.len(),
                        texts_of(prefixes@) == present(optional_texts_of(list@).take(i as int)),
                    decreases list.len() - i,
                {
                    proof {
                        let all = optional_texts_of(list@);
                        assert(all.take(i + 1).drop_last() == all.take(i as int));
                        assert(all.take(i + 1).last() == text_of(list@[i as int]));
                    }
                    match &list[i] {
                        Some(p) => {
                            let ghost before = prefixes@;
                            prefixes.push(p.clone());
                            assert(texts_of(prefixes@) == texts_of(before).push(p@));
                        },
                        None => {},
                    }
                    i = i + 1;
                }
                proof {
                    let all = optional_texts_of(list@);
                    assert(all.take(i as int) == all);
                }
            },
            None => {
                assert(texts_of(prefixes@) == Seq::<Seq<char>>::empty());
            },
        }
        let objects = match contents {
            Some(list) => list,
            None => {
                let none: Vec<LeafObject> = Vec::new();
                assert(leaf_views(none@) == Seq::<LeafView>::empty());
                none
            },
        };
        ListingPage { prefixes, objects, next_cursor }
    }
}

/// Why a listing call failed, as the remote side put it. The traversal
/// passes it on and reads nothing in it.
#[derive(Debug, PartialEq, Eq)]
pub struct ListingError {
    pub message: String,
}

impl View for ListingError {
    type V = Seq<char>;

    open spec fn view(&self) -> Seq<char> {
        self.message@
    }
}

/// What one listing call came to, as contracts see it.
pub open spec fn outcome_view(outcome: Result<ListingPage, ListingError>) -> Result<
    PageView,
    Seq<char>,
> {
    match outcome {
        Ok(page) => Ok(page@),
        Err(error) => Err(error@),
    }
}

} // verus!
