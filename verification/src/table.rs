//! The table view: owns the table's byte region (header followed by node
//! records) and exposes the walk and the two classified address sequences.

use crate::classify::{
    lemma_spec_bases_concat, lemma_spec_bases_singleton, spec_bases, CACHE_INTERFACE_TYPE,
    MEMORY_INTERFACE_TYPE,
};
use crate::encode::{lemma_encode_round_trip, spec_encode_nodes};
use crate::node::MscNode;
use crate::walk::{spec_walk, MscNodeIter};
use crate::MpamError;
use vstd::prelude::*;

verus! {

/// Size in bytes of the table header that precedes the node records. The
/// header itself (signature, checksum, revision) is decoded and validated by
/// the collaborator that hands the table over; this view only skips it.
pub const HEADER_SIZE: u16 = 36;

/// An MPAM table: the header's bytes followed by the node records' bytes.
/// The region is exactly as long as the header declared; the upstream
/// collaborator that located and validated the table guarantees that much.
pub struct Mpam {
    bytes: Vec<u8>,
}

impl Mpam {
    /// The table holds at least its own header.
    #[verifier::type_invariant]
    spec fn type_wf(self) -> bool {
        self.region().len() >= HEADER_SIZE
    }

    /// The table's raw byte region, header included.
    pub closed spec fn region(self) -> Seq<u8> {
        self.bytes@
    }

    /// What walking the node region yields: `None` when the table is
    /// malformed, otherwise all its node records in table order.
    pub open spec fn nodes_spec(self) -> Option<Seq<MscNode>> {
        spec_walk(self.region(), HEADER_SIZE as int, self.region().len() - HEADER_SIZE)
    }

    /// Wraps a table region. The region must hold at least one header;
    /// anything shorter is reported as truncated.
    pub fn new(bytes: Vec<u8>) -> (r: Result<Mpam, MpamError>)
        ensures
            match r {
                Ok(t) => t.region() == bytes@ && bytes@.len() >= HEADER_SIZE,
                Err(e) => e == MpamError::TruncatedRegion && bytes@.len() < HEADER_SIZE,
            },
    {
        if bytes.len() < HEADER_SIZE as usize {
            return Err(MpamError::TruncatedRegion);
        }
        Ok(Mpam { bytes })
    }

    /// Starts a walk over the node records that follow the header.
    pub fn nodes<'a>(&'a self) -> (it: MscNodeIter<'a>)
        ensures
            it.wf(),
            it.region() == self.region(),
            it.cursor() == HEADER_SIZE,
            it.budget() == self.region().len() - HEADER_SIZE,
            it.remaining_walk() == self.nodes_spec(),
    {
        proof {
            use_type_invariant(self);
        }
        let remaining = self.bytes.len() - HEADER_SIZE as usize;
        MscNodeIter::new(&self.bytes, HEADER_SIZE as usize, remaining)
    }

    /// Walks the whole node region. On a well-formed table this returns every
    /// node record, in table order; on a malformed one, the error.
    pub fn nodes_vec(&self) -> (r: Result<Vec<MscNode>, MpamError>)
        ensures
            match r {
                Ok(v) => self.nodes_spec() == Some(v@),
                Err(e) => self.nodes_spec() is None && e == MpamError::MalformedTable,
            },
    {
        let mut it = self.nodes();
        let mut out: Vec<MscNode> = Vec::new();
        proof {
            if let Some(rest) = it.remaining_walk() {
                assert(out@ + rest =~= rest);
            }
        }
        loop
            invariant
                it.wf(),
                it.region() == self.region(),
                self.nodes_spec() == (match it.remaining_walk() {
                    Some(rest) => Some(out@ + rest),
                    None => None::<Seq<MscNode>>,
                }),
            decreases it.budget(),
        {
            match it.next() {
                Ok(Some(n)) => {
                    proof {
                        if let Some(rest_after) = it.remaining_walk() {
                            assert(out@.push(n) + rest_after =~= out@ + (seq![n] + rest_after));
                        }
                    }
                    out.push(n);
                },
                Ok(None) => {
                    proof {
                        assert(out@ + Seq::<MscNode>::empty() =~= out@);
                    }
                    return Ok(out);
                },
                Err(e) => {
                    return Err(e);
                },
            }
        }
    }

    /// Law: round trip at table level. A table whose node region holds the
    /// encoding of a record sequence, each record at least prefix-sized,
    /// walks back to exactly that sequence — so the classifiers yield
    /// exactly the tagged records' base addresses, in insertion order.
    pub proof fn lemma_table_round_trip(self, nodes: Seq<MscNode>)
        requires
            forall|i: int|
                0 <= i < nodes.len() ==> crate::node::NODE_PREFIX_SIZE <= (
                #[trigger] nodes[i]).length,
            self.region().len() == HEADER_SIZE + spec_encode_nodes(nodes).len(),
            forall|j: int|
                0 <= j < spec_encode_nodes(nodes).len() ==> self.region()[HEADER_SIZE + j]
                    == #[trigger] spec_encode_nodes(nodes)[j],
        ensures
            self.nodes_spec() == Some(nodes),
    {
        lemma_encode_round_trip(self.region(), HEADER_SIZE as int, nodes);
    }

    /// The base addresses of the records with interface type `tag`, in table
    /// order, or the error when the table is malformed.
    fn bases_with_type(&self, tag: u8) -> (r: Result<Vec<u64>, MpamError>)
        ensures
            match r {
                Ok(v) => {
                    &&& self.nodes_spec() is Some
                    &&& v@ == spec_bases(self.nodes_spec()->Some_0, tag)
                },
                Err(e) => self.nodes_spec() is None && e == MpamError::MalformedTable,
            },
    {
        let mut it = self.nodes();
        let mut out: Vec<u64> = Vec::new();
        let ghost mut walked: Seq<MscNode> = Seq::empty();
        proof {
            if let Some(rest) = it.remaining_walk() {
                assert(walked + rest =~= rest);
            }
        }
        loop
            invariant
                it.wf(),
                it.region() == self.region(),
                self.nodes_spec() == (match it.remaining_walk() {
                    Some(rest) => Some(walked + rest),
                    None => None::<Seq<MscNode>>,
                }),
                out@ == spec_bases(walked, tag),
            decreases it.budget(),
        {
            match it.next() {
                Ok(Some(n)) => {
                    proof {
                        if let Some(rest_after) = it.remaining_walk() {
                            assert(walked.push(n) + rest_after =~= walked + (seq![n] + rest_after));
                        }
                        lemma_spec_bases_concat(walked, seq![n], tag);
                        lemma_spec_bases_singleton(n, tag);
                        assert(walked.push(n) =~= walked + seq![n]);
                        if n.if_type == tag {
                            assert(spec_bases(walked, tag) + seq![n.base_address] =~= out@.push(
                                n.base_address,
                            ));
                        } else {
                            assert(spec_bases(walked, tag) + Seq::<u64>::empty() =~= out@);
                        }
                        walked = walked.push(n);
                    }
                    if n.if_type == tag {
                        out.push(n.base_address);
                    }
                },
                Ok(None) => {
                    proof {
                        assert(walked + Seq::<MscNode>::empty() =~= walked);
                    }
                    return Ok(out);
                },
                Err(e) => {
                    return Err(e);
                },
            }
        }
    }

    /// The base addresses of the memory-controller-interface records, in
    /// table order, or the error when the table is malformed.
    pub fn memory_bases(&self) -> (r: Result<Vec<u64>, MpamError>)
        ensures
            match r {
                Ok(v) => {
                    &&& self.nodes_spec() is Some
                    &&& v@ == spec_bases(self.nodes_spec()->Some_0, MEMORY_INTERFACE_TYPE)
                },
                Err(e) => self.nodes_spec() is None && e == MpamError::MalformedTable,
            },
    {
        self.bases_with_type(MEMORY_INTERFACE_TYPE)
    }

    /// The base addresses of the cache-interface records, in table order, or
    /// the error when the table is malformed.
    pub fn cache_bases(&self) -> (r: Result<Vec<u64>, MpamError>)
        ensures
            match r {
                Ok(v) => {
                    &&& self.nodes_spec() is Some
                    &&& v@ == spec_bases(self.nodes_spec()->Some_0, CACHE_INTERFACE_TYPE)
                },
                Err(e) => self.nodes_spec() is None && e == MpamError::MalformedTable,
            },
    {
        self.bases_with_type(CACHE_INTERFACE_TYPE)
    }
}

} // verus!
