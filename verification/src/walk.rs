//! The node walker: a cursor over the table's node region that yields one
//! record per step, advancing by each record's self-reported length, and
//! rejects a record whose length is zero, shorter than the fixed prefix, or
//! larger than the bytes that remain.

use crate::node::{decode_node, spec_decode_node, MscNode, NODE_PREFIX_SIZE};
use crate::MpamError;
use vstd::prelude::*;

verus! {

/// The records a walk of `b` starting at `off` with `budget` bytes left
/// yields: `None` when some record on the way is malformed, `Some` of the
/// record sequence when the walk reaches the end of the budget cleanly.
pub open spec fn spec_walk(b: Seq<u8>, off: int, budget: int) -> Option<Seq<MscNode>>
    decreases budget,
{
    if budget <= 0 {
        Some(Seq::empty())
    } else if budget < NODE_PREFIX_SIZE {
        None
    } else {
        let node = spec_decode_node(b, off);
        if node.length < NODE_PREFIX_SIZE || node.length > budget {
            None
        } else {
            match spec_walk(b, off + node.length, budget - node.length) {
                Some(rest) => Some(seq![node] + rest),
                None => None,
            }
        }
    }
}

/// The total byte size the records in `nodes` declare.
pub open spec fn sum_lengths(nodes: Seq<MscNode>) -> int
    decreases nodes.len(),
{
    if nodes.len() == 0 {
        0
    } else {
        nodes[0].length + sum_lengths(nodes.drop_first())
    }
}

pub proof fn lemma_sum_lengths_nonneg(nodes: Seq<MscNode>)
    ensures
        sum_lengths(nodes) >= 0,
    decreases nodes.len(),
{
    if nodes.len() > 0 {
        lemma_sum_lengths_nonneg(nodes.drop_first());
    }
}

proof fn lemma_sum_lengths_cons(nodes: Seq<MscNode>)
    requires
        nodes.len() > 0,
    ensures
        sum_lengths(nodes) == nodes[0].length + sum_lengths(nodes.drop_first()),
{
}

/// `nodes` is a parse of the region `b[off .. off + budget]`: the declared
/// lengths exactly fill the budget, each is at least one fixed prefix, and
/// each record decodes from the position where the previous ones end.
pub open spec fn nodes_fill_region(b: Seq<u8>, off: int, budget: int, nodes: Seq<MscNode>) -> bool {
    &&& sum_lengths(nodes) == budget
    &&& forall|i: int|
        0 <= i < nodes.len() ==> NODE_PREFIX_SIZE <= (#[trigger] nodes[i]).length && nodes[i]
            == spec_decode_node(b, off + sum_lengths(nodes.take(i)))
}

/// Law: on a well-formed table — one whose records' lengths exactly fill the
/// region — the walk yields exactly those records and finishes cleanly,
/// with no error.
pub proof fn lemma_walk_of_filled_region(b: Seq<u8>, off: int, budget: int, nodes: Seq<MscNode>)
    requires
        nodes_fill_region(b, off, budget, nodes),
    ensures
        spec_walk(b, off, budget) == Some(nodes),
    decreases nodes.len(),
{
    lemma_sum_lengths_nonneg(nodes);
    if nodes.len() == 0 {
        assert(budget == 0);
        assert(spec_walk(b, off, budget) == Some(Seq::<MscNode>::empty()));
    } else {
        let d = nodes.drop_first();
        let head = nodes[0];
        assert(nodes.take(0) =~= Seq::<MscNode>::empty());
        assert(head == spec_decode_node(b, off));
        lemma_sum_lengths_nonneg(d);
        assert(budget == head.length + sum_lengths(d));
        assert(NODE_PREFIX_SIZE <= head.length <= budget);
        // the tail fills the region that starts after the head record
        assert forall|i: int|
            0 <= i < d.len() implies NODE_PREFIX_SIZE <= (#[trigger] d[i]).length && d[i]
            == spec_decode_node(b, (off + head.length) + sum_lengths(d.take(i))) by {
            assert(d[i] == nodes[i + 1]);
            assert(nodes.take(i + 1).drop_first() =~= d.take(i));
            assert(nodes.take(i + 1)[0] == head);
            lemma_sum_lengths_cons(nodes.take(i + 1));
            assert(sum_lengths(nodes.take(i + 1)) == head.length + sum_lengths(d.take(i)));
        }
        lemma_walk_of_filled_region(b, off + head.length, budget - head.length, d);
        assert(seq![head] + d =~= nodes);
    }
}

/// Law, the converse: whatever sequence a clean walk yields fills the region
/// exactly — lengths sum to the budget, each at least a prefix, each record
/// decoded at the position where the previous ones end.
pub proof fn lemma_walk_fills_region(b: Seq<u8>, off: int, budget: int)
    requires
        budget >= 0,
        spec_walk(b, off, budget) is Some,
    ensures
        nodes_fill_region(b, off, budget, spec_walk(b, off, budget)->Some_0),
    decreases budget,
{
    let nodes = spec_walk(b, off, budget)->Some_0;
    if budget == 0 {
        assert(nodes =~= Seq::<MscNode>::empty());
    } else {
        let head = spec_decode_node(b, off);
        let d = spec_walk(b, off + head.length, budget - head.length)->Some_0;
        lemma_walk_fills_region(b, off + head.length, budget - head.length);
        assert(nodes == seq![head] + d);
        assert(nodes[0] == head);
        assert(nodes.drop_first() =~= d);
        lemma_sum_lengths_cons(nodes);
        assert(sum_lengths(nodes) == budget);
        assert forall|i: int|
            0 <= i < nodes.len() implies NODE_PREFIX_SIZE <= (#[trigger] nodes[i]).length && nodes[i]
            == spec_decode_node(b, off + sum_lengths(nodes.take(i))) by {
            if i == 0 {
                assert(nodes.take(0) =~= Seq::<MscNode>::empty());
            } else {
                assert(nodes[i] == d[i - 1]);
                assert(nodes.take(i).drop_first() =~= d.take(i - 1));
                assert(nodes.take(i)[0] == head);
                lemma_sum_lengths_cons(nodes.take(i));
                assert(sum_lengths(nodes.take(i)) == head.length + sum_lengths(d.take(i - 1)));
                assert(d[i - 1] == spec_decode_node(
                    b,
                    (off + head.length) + sum_lengths(d.take(i - 1)),
                ));
            }
        }
    }
}

/// A walk in progress: a cursor into the table's byte region and the byte
/// budget that remains. Each `next` call advances by one record.
pub struct MscNodeIter<'a> {
    bytes: &'a Vec<u8>,
    offset: usize,
    remaining: usize,
}

impl<'a> MscNodeIter<'a> {
    /// The byte region the walk reads.
    pub closed spec fn region(self) -> Seq<u8> {
        self.bytes@
    }

    /// The cursor: where in the region the next record would start.
    pub closed spec fn cursor(self) -> int {
        self.offset as int
    }

    /// How many bytes of budget are left to walk.
    pub closed spec fn budget(self) -> int {
        self.remaining as int
    }

    /// The cursor and budget stay inside the region.
    pub open spec fn wf(self) -> bool {
        self.cursor() + self.budget() <= self.region().len()
    }

    /// What the rest of this walk yields.
    pub open spec fn remaining_walk(self) -> Option<Seq<MscNode>> {
        spec_walk(self.region(), self.cursor(), self.budget())
    }

    /// Starts a walk over `bytes[offset .. offset + remaining]`.
    pub(crate) fn new(bytes: &'a Vec<u8>, offset: usize, remaining: usize) -> (it: MscNodeIter<'a>)
        requires
            offset + remaining <= bytes@.len(),
        ensures
            it.wf(),
            it.region() == bytes@,
            it.cursor() == offset,
            it.budget() == remaining,
    {
        MscNodeIter { bytes, offset, remaining }
    }

    /// One step of the walk. `Ok(Some(n))` yields the record at the cursor
    /// and advances past it; `Ok(None)` says the budget is exhausted and the
    /// walk is over; `Err` says the record at the cursor is malformed (its
    /// length is zero, shorter than the fixed prefix, or larger than the
    /// remaining budget) and leaves the walk where it stood.
    pub fn next(&mut self) -> (r: Result<Option<MscNode>, MpamError>)
        requires
            old(self).wf(),
        ensures
            final(self).wf(),
            final(self).region() == old(self).region(),
            match r {
                Ok(Some(n)) => {
                    &&& old(self).budget() >= NODE_PREFIX_SIZE
                    &&& n == spec_decode_node(old(self).region(), old(self).cursor())
                    &&& NODE_PREFIX_SIZE <= n.length
                    &&& n.length <= old(self).budget()
                    &&& final(self).cursor() == old(self).cursor() + n.length
                    &&& final(self).budget() == old(self).budget() - n.length
                },
                Ok(None) => {
                    &&& old(self).budget() == 0
                    &&& *final(self) == *old(self)
                },
                Err(e) => {
                    &&& e == MpamError::MalformedTable
                    &&& old(self).remaining_walk() is None
                    &&& *final(self) == *old(self)
                    &&& old(self).budget() > 0
                    &&& (old(self).budget() < NODE_PREFIX_SIZE || {
                        let n = spec_decode_node(old(self).region(), old(self).cursor());
                        n.length < NODE_PREFIX_SIZE || n.length > old(self).budget()
                    })
                },
            },
    {
        if self.remaining == 0 {
            return Ok(None);
        }
        if self.remaining < NODE_PREFIX_SIZE as usize {
            return Err(MpamError::MalformedTable);
        }
        let node = decode_node(self.bytes, self.offset);
        let node_length = node.length as usize;
        if node_length < NODE_PREFIX_SIZE as usize || node_length > self.remaining {
            return Err(MpamError::MalformedTable);
        }
        let _table_len: usize = self.bytes.len();
        self.offset = self.offset + node_length;
        self.remaining = self.remaining - node_length;
        Ok(Some(node))
    }
}

} // verus!
