//! A remote store as a mathematical object: what each listing call answers,
//! and how deep the listing below each unit can go. The theorems about whole
//! traversals are stated against such a store.

use crate::model::{LeafView, PageView, UnitView};
use vstd::multiset::Multiset;
use vstd::prelude::*;

verus! {

/// A store that answers every listing call with a fixed page.
pub struct Namespace {
    /// The page that the listing of a unit comes back with.
    pub listing: spec_fn(UnitView) -> PageView,
    /// For each unit, a bound on the number of levels of listing below it.
    pub height: spec_fn(UnitView) -> nat,
}

/// What is collected at one page: a function of the unit listed and of the
/// page that came back.
pub type Weight<A> = spec_fn(UnitView, PageView) -> Multiset<A>;

impl Namespace {
    /// The page that the listing of `unit` comes back with.
    pub open spec fn page(self, unit: UnitView) -> PageView {
        (self.listing)(unit)
    }

    /// The units that the listing of `unit` gives rise to.
    pub open spec fn children(self, unit: UnitView) -> Seq<UnitView> {
        self.page(unit).children(unit)
    }

    /// Whether the store is finite below every unit: each unit that a page
    /// gives rise to, a sub-prefix or a continuation, lies strictly lower
    /// than the unit that was listed. No chain of pages and no nesting of
    /// prefixes goes on for ever.
    pub open spec fn well_founded(self) -> bool {
        forall|unit: UnitView, i: int|
            0 <= i < self.children(unit).len() ==> (self.height)(
                #[trigger] self.children(unit)[i],
            ) < (self.height)(unit)
    }

    /// What is collected over the whole traversal that starts at `unit`: at
    /// its own page, and over the traversal of each unit that the page gives
    /// rise to.
    pub open spec fn gather<A>(self, unit: UnitView, weight: Weight<A>) -> Multiset<A>
        decreases (self.height)(unit), 1nat, 0nat,
    {
        weight(unit, self.page(unit)).add(
            self.gather_below(self.children(unit), (self.height)(unit), weight),
        )
    }

    /// What is collected over the traversals that start at those of `units`
    /// that lie lower than `bound`.
    pub open spec fn gather_below<A>(self, units: Seq<UnitView>, bound: nat, weight: Weight<A>)
        -> Multiset<A>
        decreases bound, 0nat, units.len(),
    {
        if units.len() == 0 {
            Multiset::empty()
        } else {
            let before = self.gather_below(units.drop_last(), bound, weight);
            if (self.height)(units.last()) < bound {
                before.add(self.gather(units.last(), weight))
            } else {
                before
            }
        }
    }

    /// What is collected over the traversals that start at each of `units`.
    pub open spec fn gather_all<A>(self, units: Seq<UnitView>, weight: Weight<A>) -> Multiset<A>
        decreases units.len(),
    {
        if units.len() == 0 {
            Multiset::empty()
        } else {
            self.gather_all(units.drop_last(), weight).add(self.gather(units.last(), weight))
        }
    }

    /// What is collected over the traversals that start at each unit in
    /// flight.
    pub open spec fn gather_slots<A>(self, slots: Seq<Option<UnitView>>, weight: Weight<A>)
        -> Multiset<A>
        decreases slots.len(),
    {
        if slots.len() == 0 {
            Multiset::empty()
        } else {
            self.gather_slots(slots.drop_last(), weight).add(
                self.gather_entry(slots.last(), weight),
            )
        }
    }

    /// What is collected over the traversal that starts at the unit of a
    /// slot: nothing for a vacant slot.
    pub open spec fn gather_entry<A>(self, entry: Option<UnitView>, weight: Weight<A>)
        -> Multiset<A> {
        match entry {
            Some(unit) => self.gather(unit, weight),
            None => Multiset::empty(),
        }
    }

    /// Every object that the traversal from `unit` meets, with the number of
    /// times it is listed.
    pub open spec fn leaves_under(self, unit: UnitView) -> Multiset<LeafView> {
        self.gather(unit, leaves_at())
    }

    /// Every listing call that the traversal from `unit` takes, named by the
    /// unit it serves.
    pub open spec fn pages_under(self, unit: UnitView) -> Multiset<UnitView> {
        self.gather(unit, page_at())
    }
}

/// The objects of one page.
pub open spec fn leaves_at() -> Weight<LeafView> {
    |unit: UnitView, page: PageView| page.objects.to_multiset()
}

/// One page, named by the unit that it serves.
pub open spec fn page_at() -> Weight<UnitView> {
    |unit: UnitView, page: PageView| Multiset::singleton(unit)
}

/// The root of a traversal: the first page of the starting prefix.
pub open spec fn root_unit(root: Option<Seq<char>>) -> UnitView {
    UnitView { prefix: root, cursor: None }
}

/// Where every unit lies lower than the bound, the bound leaves nothing out.
pub proof fn lemma_gather_below_all<A>(
    ns: Namespace,
    units: Seq<UnitView>,
    bound: nat,
    weight: Weight<A>,
)
    requires
        forall|i: int| 0 <= i < units.len() ==> (ns.height)(#[trigger] units[i]) < bound,
    ensures
        ns.gather_below(units, bound, weight) == ns.gather_all(units, weight),
    decreases units.len(),
{
    if units.len() > 0 {
        let shorter = units.drop_last();
        assert forall|i: int| 0 <= i < shorter.len() implies (ns.height)(#[trigger] shorter[i])
            < bound by {
            assert(shorter[i] == units[i]);
        }
        lemma_gather_below_all(ns, shorter, bound, weight);
        assert(units.last() == units[units.len() - 1]);
    }
}

/// In a well-founded store, the traversal from a unit collects at its page
/// and over the traversals from all that the page gives rise to.
pub proof fn lemma_gather_unfold<A>(ns: Namespace, unit: UnitView, weight: Weight<A>)
    requires
        ns.well_founded(),
    ensures
        ns.gather(unit, weight) == weight(unit, ns.page(unit)).add(
            ns.gather_all(ns.children(unit), weight),
        ),
{
    lemma_gather_below_all(ns, ns.children(unit), (ns.height)(unit), weight);
}

/// What is collected from two runs of units, one after the other, is the sum
/// of what is collected from each.
pub proof fn lemma_gather_all_concat<A>(
    ns: Namespace,
    a: Seq<UnitView>,
    b: Seq<UnitView>,
    weight: Weight<A>,
)
    ensures
        ns.gather_all(a + b, weight) =~= ns.gather_all(a, weight).add(ns.gather_all(b, weight)),
    decreases b.len(),
{
    if b.len() == 0 {
        assert(a + b == a);
    } else {
        lemma_gather_all_concat(ns, a, b.drop_last(), weight);
        assert((a + b).drop_last() == a + b.drop_last());
        assert((a + b).last() == b.last());
    }
}

/// What is collected from a run of units is what is collected from the
/// first and from the rest.
pub proof fn lemma_gather_all_first<A>(ns: Namespace, units: Seq<UnitView>, weight: Weight<A>)
    requires
        units.len() > 0,
    ensures
        ns.gather_all(units, weight) =~= ns.gather(units[0], weight).add(
            ns.gather_all(units.drop_first(), weight),
        ),
{
    let head = seq![units[0]];
    assert(head + units.drop_first() == units);
    lemma_gather_all_concat(ns, head, units.drop_first(), weight);
    assert(head.drop_last() == Seq::<UnitView>::empty());
    assert(ns.gather_all(head, weight) =~= ns.gather(units[0], weight)) by {
        assert(ns.gather_all(head.drop_last(), weight) == Multiset::<A>::empty());
        assert(head.last() == units[0]);
    }
}

/// Replacing the entry of one slot exchanges what that slot contributes.
pub proof fn lemma_gather_slots_update<A>(
    ns: Namespace,
    slots: Seq<Option<UnitView>>,
    slot: int,
    entry: Option<UnitView>,
    weight: Weight<A>,
)
    requires
        0 <= slot < slots.len(),
    ensures
        ns.gather_slots(slots.update(slot, entry), weight).add(
            ns.gather_entry(slots[slot], weight),
        ) =~= ns.gather_slots(slots, weight).add(ns.gather_entry(entry, weight)),
    decreases slots.len(),
{
    let updated = slots.update(slot, entry);
    let shorter = slots.drop_last();
    assert(ns.gather_slots(slots, weight) == ns.gather_slots(shorter, weight).add(
        ns.gather_entry(slots.last(), weight),
    ));
    assert(ns.gather_slots(updated, weight) == ns.gather_slots(updated.drop_last(), weight).add(
        ns.gather_entry(updated.last(), weight),
    ));
    if slot == slots.len() - 1 {
        assert(updated.drop_last() == shorter);
        assert(updated.last() == entry);
        assert(slots.last() == slots[slot]);
    } else {
        assert(updated.drop_last() == shorter.update(slot, entry));
        assert(updated.last() == slots.last());
        assert(shorter[slot] == slots[slot]);
        lemma_gather_slots_update(ns, shorter, slot, entry, weight);
        lemma_add_on_both_sides(
            ns.gather_slots(shorter.update(slot, entry), weight),
            ns.gather_entry(slots[slot], weight),
            ns.gather_slots(shorter, weight),
            ns.gather_entry(entry, weight),
            ns.gather_entry(slots.last(), weight),
        );
    }
}

/// Equal sums stay equal when the same summand joins each in the middle.
pub proof fn lemma_add_on_both_sides<A>(
    a: Multiset<A>,
    b: Multiset<A>,
    c: Multiset<A>,
    d: Multiset<A>,
    x: Multiset<A>,
)
    requires
        a.add(b) == c.add(d),
    ensures
        a.add(x).add(b) =~= c.add(x).add(d),
{
    assert forall|v: A| a.add(x).add(b).count(v) == c.add(x).add(d).count(v) by {
        assert(a.add(b).count(v) == a.count(v) + b.count(v));
        assert(c.add(d).count(v) == c.count(v) + d.count(v));
    }
}

/// A slot that is added contributes what its entry collects.
pub proof fn lemma_gather_slots_push<A>(
    ns: Namespace,
    slots: Seq<Option<UnitView>>,
    entry: Option<UnitView>,
    weight: Weight<A>,
)
    ensures
        ns.gather_slots(slots.push(entry), weight) =~= ns.gather_slots(slots, weight).add(
            ns.gather_entry(entry, weight),
        ),
{
    assert(slots.push(entry).drop_last() == slots);
}

} // verus!
