//! The result sink: the objects that the traversal has found, held until the
//! consumer takes them.

use crate::model::{leaf_views, LeafObject, LeafView};
use vstd::prelude::*;

verus! {

/// What a sink has received: the objects already handed to the consumer, and
/// those that still wait in the buffer.
pub struct SinkView {
    pub delivered: Seq<LeafView>,
    pub buffered: Seq<LeafView>,
}

impl SinkView {
    /// Every object that ever reached the sink, in the order of arrival.
    pub open spec fn emitted(self) -> Seq<LeafView> {
        self.delivered + self.buffered
    }

    /// The sink after `items` arrived.
    pub open spec fn accept(self, items: Seq<LeafView>) -> SinkView {
        SinkView { delivered: self.delivered, buffered: self.buffered + items }
    }

    /// The sink after the consumer took what was buffered.
    pub open spec fn hand_over(self) -> SinkView {
        SinkView { delivered: self.delivered + self.buffered, buffered: Seq::empty() }
    }
}

/// An unbounded buffer of found objects. A push never blocks and never
/// fails, so a slow consumer cannot hold up the traversal.
pub struct ResultSink {
    buffer: Vec<LeafObject>,
    delivered: Ghost<Seq<LeafView>>,
}

impl View for ResultSink {
    type V = SinkView;

    closed spec fn view(&self) -> SinkView {
        SinkView { delivered: self.delivered@, buffered: leaf_views(self.buffer@) }
    }
}

impl ResultSink {
    /// A sink that has received nothing.
    pub fn new() -> (sink: ResultSink)
        ensures
            sink@ == (SinkView { delivered: Seq::empty(), buffered: Seq::empty() }),
    {
        let sink = ResultSink { buffer: Vec::new(), delivered: Ghost(Seq::empty()) };
        assert(sink@.buffered == Seq::<LeafView>::empty());
        sink
    }

    /// The number of objects that wait for the consumer.
    pub fn len(&self) -> (n: usize)
        ensures
            n == self@.buffered.len(),
    {
        self.buffer.len()
    }

    /// Receives one object.
    pub fn push(&mut self, leaf: LeafObject)
        ensures
            final(self)@ == old(self)@.accept(seq![leaf@]),
    {
        self.buffer.push(leaf);
        assert(self@.buffered == old(self)@.buffered + seq![leaf@]);
    }

    /// Receives the objects of one page, in the order of the page.
    pub fn push_all(&mut self, leaves: Vec<LeafObject>)
        ensures
            final(self)@ == old(self)@.accept(leaf_views(leaves@)),
    {
        let ghost arrived = leaf_views(leaves@);
        let mut leaves = leaves;
        self.buffer.append(&mut leaves);
        assert(self@.buffered == old(self)@.buffered + arrived);
    }

    /// Hands the buffered objects to the consumer, oldest first, and leaves
    /// the buffer empty.
    pub fn drain(&mut self) -> (leaves: Vec<LeafObject>)
        ensures
            leaf_views(leaves@) == old(self)@.buffered,
            final(self)@ == old(self)@.hand_over(),
    {
        let mut leaves: Vec<LeafObject> = Vec::new();
        std::mem::swap(&mut leaves, &mut self.buffer);
        proof {
            self.delivered@ = self.delivered@ + leaf_views(leaves@);
        }
        assert(self@.buffered == Seq::<LeafView>::empty());
        leaves
    }
}

} // verus!
