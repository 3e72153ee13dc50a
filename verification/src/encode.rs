//! Encoding node records back into table bytes: the inverse of the walk,
//! used to build synthetic tables and to state the round-trip law. A record
//! encodes as its 36-byte prefix followed by zero padding up to its declared
//! length, standing for the type-specific tail the walk skips over.

use crate::bytes::{
    le_bytes, lemma_le_bytes_len, lemma_le_bytes_value, lemma_le_value_agree, pow256,
};
use crate::node::{spec_decode_node, MscNode, NODE_PREFIX_SIZE};
use crate::walk::spec_walk;
use crate::MpamError;
use vstd::prelude::*;

verus! {

broadcast use lemma_le_bytes_len;

/// The 36 bytes of a record's fixed prefix.
pub open spec fn spec_encode_prefix(n: MscNode) -> Seq<u8> {
    seq![n.if_type] + le_bytes(n.length as int, 2) + seq![n.reserved] + le_bytes(
        n.base_address as int,
        8,
    ) + le_bytes(n.overflow_interrupt as int, 4) + le_bytes(n.overflow_interrupt_flags as int, 4)
        + le_bytes(n.error_interrupt as int, 4) + le_bytes(n.error_interrupt_flags as int, 4)
        + le_bytes(n.max_nrdy_usec as int, 4) + le_bytes(n.offset as int, 4)
}

/// The byte image of one whole record: prefix plus zero padding up to the
/// declared length.
pub open spec fn spec_encode_node(n: MscNode) -> Seq<u8> {
    spec_encode_prefix(n) + Seq::new((n.length - NODE_PREFIX_SIZE) as nat, |i: int| 0u8)
}

/// The byte image of a record sequence, in order.
pub open spec fn spec_encode_nodes(nodes: Seq<MscNode>) -> Seq<u8>
    decreases nodes.len(),
{
    if nodes.len() == 0 {
        Seq::empty()
    } else {
        spec_encode_node(nodes[0]) + spec_encode_nodes(nodes.drop_first())
    }
}

pub proof fn lemma_encode_prefix_len(n: MscNode)
    ensures
        spec_encode_prefix(n).len() == NODE_PREFIX_SIZE,
{
}

pub proof fn lemma_encode_node_len(n: MscNode)
    requires
        NODE_PREFIX_SIZE <= n.length,
    ensures
        spec_encode_node(n).len() == n.length,
{
    lemma_encode_prefix_len(n);
}

/// Encoding works piecewise.
pub proof fn lemma_encode_nodes_concat(s: Seq<MscNode>, t: Seq<MscNode>)
    ensures
        spec_encode_nodes(s + t) == spec_encode_nodes(s) + spec_encode_nodes(t),
    decreases s.len(),
{
    if s.len() == 0 {
        assert(s + t =~= t);
        assert(spec_encode_nodes(s) + spec_encode_nodes(t) =~= spec_encode_nodes(t));
    } else {
        assert((s + t).drop_first() =~= s.drop_first() + t);
        lemma_encode_nodes_concat(s.drop_first(), t);
        assert((s + t)[0] == s[0]);
        assert(spec_encode_node(s[0]) + (spec_encode_nodes(s.drop_first()) + spec_encode_nodes(t))
            =~= (spec_encode_node(s[0]) + spec_encode_nodes(s.drop_first())) + spec_encode_nodes(
            t,
        ));
    }
}

/// Decoding undoes encoding: a region that holds a record's encoded prefix
/// decodes back to the record.
pub proof fn lemma_decode_encoded_prefix(b: Seq<u8>, off: int, n: MscNode)
    requires
        0 <= off,
        off + NODE_PREFIX_SIZE <= b.len(),
        forall|j: int|
            0 <= j < NODE_PREFIX_SIZE ==> b[off + j] == #[trigger] spec_encode_prefix(n)[j],
    ensures
        spec_decode_node(b, off) == n,
{
    let p = spec_encode_prefix(n);
    reveal_with_fuel(pow256, 9);
    assert(b[off + 0] == p[0]);
    assert(b[off + 3] == p[3]);
    assert(p[0] == n.if_type);
    assert(p[3] == n.reserved);
    lemma_field_round_trip(b, off, p, 1, n.length as int, 2);
    lemma_field_round_trip(b, off, p, 4, n.base_address as int, 8);
    lemma_field_round_trip(b, off, p, 12, n.overflow_interrupt as int, 4);
    lemma_field_round_trip(b, off, p, 16, n.overflow_interrupt_flags as int, 4);
    lemma_field_round_trip(b, off, p, 20, n.error_interrupt as int, 4);
    lemma_field_round_trip(b, off, p, 24, n.error_interrupt_flags as int, 4);
    lemma_field_round_trip(b, off, p, 28, n.max_nrdy_usec as int, 4);
    lemma_field_round_trip(b, off, p, 32, n.offset as int, 4);
}

/// One field of the prefix reads back as the value it was encoded from:
/// `p[k .. k + w]` are the bytes of `v`, and `b` holds `p` at `off`.
proof fn lemma_field_round_trip(b: Seq<u8>, off: int, p: Seq<u8>, k: int, v: int, w: nat)
    requires
        0 <= off,
        0 <= k,
        k + w <= NODE_PREFIX_SIZE,
        p.len() == NODE_PREFIX_SIZE,
        0 <= v < pow256(w),
        forall|j: int| 0 <= j < NODE_PREFIX_SIZE ==> b[off + j] == #[trigger] p[j],
        forall|j: int| 0 <= j < w ==> p[k + j] == #[trigger] le_bytes(v, w)[j],
    ensures
        crate::bytes::le_value(b, off + k, w) == v,
{
    assert forall|j: int| 0 <= j < w implies #[trigger] b[(off + k) + j] == le_bytes(v, w)[j] by {
        assert(b[off + (k + j)] == p[k + j]);
    }
    lemma_le_value_agree(b, off + k, le_bytes(v, w), 0, w);
    lemma_le_bytes_value(v, w);
}

/// Law: round trip. A region that holds the encoding of any sequence of
/// records, each at least prefix-sized, walks back to exactly that sequence,
/// cleanly and with no error.
pub proof fn lemma_encode_round_trip(b: Seq<u8>, off: int, nodes: Seq<MscNode>)
    requires
        forall|i: int| 0 <= i < nodes.len() ==> NODE_PREFIX_SIZE <= (#[trigger] nodes[i]).length,
        0 <= off,
        off + spec_encode_nodes(nodes).len() <= b.len(),
        forall|j: int|
            0 <= j < spec_encode_nodes(nodes).len() ==> b[off + j] == #[trigger] spec_encode_nodes(
                nodes,
            )[j],
    ensures
        spec_walk(b, off, spec_encode_nodes(nodes).len() as int) == Some(nodes),
    decreases nodes.len(),
{
    let enc = spec_encode_nodes(nodes);
    if nodes.len() == 0 {
        assert(enc.len() == 0);
        assert(nodes =~= Seq::<MscNode>::empty());
    } else {
        let head = nodes[0];
        let d = nodes.drop_first();
        let enc_head = spec_encode_node(head);
        let enc_d = spec_encode_nodes(d);
        lemma_encode_node_len(head);
        assert(enc == enc_head + enc_d);
        lemma_encode_prefix_len(head);
        // the head record decodes at the cursor
        assert forall|j: int| 0 <= j < NODE_PREFIX_SIZE implies b[off + j]
            == #[trigger] spec_encode_prefix(head)[j] by {
            assert(enc[j] == enc_head[j]);
            assert(enc_head[j] == spec_encode_prefix(head)[j]);
            assert(b[off + j] == enc[j]);
        }
        lemma_decode_encoded_prefix(b, off, head);
        // the rest of the region is the encoding of the rest of the records
        assert forall|j: int| 0 <= j < enc_d.len() implies b[(off + head.length) + j]
            == #[trigger] enc_d[j] by {
            assert(enc[head.length + j] == enc_d[j]);
            assert(b[off + (head.length + j)] == enc[head.length + j]);
        }
        lemma_encode_round_trip(b, off + head.length, d);
        let budget = enc.len() as int;
        assert(spec_walk(b, off + head.length, budget - head.length) == Some(d));
        assert(seq![head] + d =~= nodes);
    }
}

/// Appends the two little-endian bytes of `v`.
fn push_le2(out: &mut Vec<u8>, v: u16)
    ensures
        final(out)@ == old(out)@ + le_bytes(v as int, 2),
{
    let b0 = (v % 0x100) as u8;
    let b1 = ((v / 0x100) % 0x100) as u8;
    out.push(b0);
    out.push(b1);
    proof {
        reveal_with_fuel(le_bytes, 3);
        assert(out@ =~= old(out)@ + le_bytes(v as int, 2));
    }
}

/// Appends the four little-endian bytes of `v`.
fn push_le4(out: &mut Vec<u8>, v: u32)
    ensures
        final(out)@ == old(out)@ + le_bytes(v as int, 4),
{
    let b0 = (v % 0x100) as u8;
    let x1 = v / 0x100;
    let b1 = (x1 % 0x100) as u8;
    let x2 = x1 / 0x100;
    let b2 = (x2 % 0x100) as u8;
    let x3 = x2 / 0x100;
    let b3 = (x3 % 0x100) as u8;
    out.push(b0);
    out.push(b1);
    out.push(b2);
    out.push(b3);
    proof {
        reveal_with_fuel(le_bytes, 5);
        assert(out@ =~= old(out)@ + le_bytes(v as int, 4));
    }
}

/// Appends the eight little-endian bytes of `v`.
fn push_le8(out: &mut Vec<u8>, v: u64)
    ensures
        final(out)@ == old(out)@ + le_bytes(v as int, 8),
{
    let b0 = (v % 0x100) as u8;
    let x1 = v / 0x100;
    let b1 = (x1 % 0x100) as u8;
    let x2 = x1 / 0x100;
    let b2 = (x2 % 0x100) as u8;
    let x3 = x2 / 0x100;
    let b3 = (x3 % 0x100) as u8;
    let x4 = x3 / 0x100;
    let b4 = (x4 % 0x100) as u8;
    let x5 = x4 / 0x100;
    let b5 = (x5 % 0x100) as u8;
    let x6 = x5 / 0x100;
    let b6 = (x6 % 0x100) as u8;
    let x7 = x6 / 0x100;
    let b7 = (x7 % 0x100) as u8;
    out.push(b0);
    out.push(b1);
    out.push(b2);
    out.push(b3);
    out.push(b4);
    out.push(b5);
    out.push(b6);
    out.push(b7);
    proof {
        reveal_with_fuel(le_bytes, 9);
        assert(out@ =~= old(out)@ + le_bytes(v as int, 8));
    }
}

/// Appends the byte image of one record: its prefix, then zero padding up to
/// its declared length.
fn encode_node_into(out: &mut Vec<u8>, n: &MscNode)
    requires
        NODE_PREFIX_SIZE <= n.length,
    ensures
        final(out)@ == old(out)@ + spec_encode_node(*n),
{
    out.push(n.if_type);
    push_le2(out, n.length);
    out.push(n.reserved);
    push_le8(out, n.base_address);
    push_le4(out, n.overflow_interrupt);
    push_le4(out, n.overflow_interrupt_flags);
    push_le4(out, n.error_interrupt);
    push_le4(out, n.error_interrupt_flags);
    push_le4(out, n.max_nrdy_usec);
    push_le4(out, n.offset);
    proof {
        assert(out@ =~= old(out)@ + spec_encode_prefix(*n));
    }
    let mut k: u16 = NODE_PREFIX_SIZE;
    while k < n.length
        invariant
            NODE_PREFIX_SIZE <= k <= n.length,
            out@ == old(out)@ + spec_encode_prefix(*n) + Seq::new(
                (k - NODE_PREFIX_SIZE) as nat,
                |i: int| 0u8,
            ),
        decreases n.length - k,
    {
        out.push(0u8);
        k = k + 1;
        proof {
            assert(out@ =~= old(out)@ + spec_encode_prefix(*n) + Seq::new(
                (k - NODE_PREFIX_SIZE) as nat,
                |i: int| 0u8,
            ));
        }
    }
    proof {
        assert(out@ =~= old(out)@ + spec_encode_node(*n));
    }
}

/// Encodes the records as the byte region a well-formed table would hold
/// after its header. A record whose declared length is shorter than the
/// fixed prefix cannot be encoded: that is exactly a malformed table.
pub fn encode_nodes(nodes: &Vec<MscNode>) -> (r: Result<Vec<u8>, MpamError>)
    ensures
        match r {
            Ok(v) => {
                &&& forall|i: int|
                    0 <= i < nodes@.len() ==> NODE_PREFIX_SIZE <= (#[trigger] nodes@[i]).length
                &&& v@ == spec_encode_nodes(nodes@)
            },
            Err(e) => {
                &&& e == MpamError::MalformedTable
                &&& exists|i: int|
                    0 <= i < nodes@.len() && (#[trigger] nodes@[i]).length < NODE_PREFIX_SIZE
            },
        },
{
    let mut out: Vec<u8> = Vec::new();
    let mut i: usize = 0;
    proof {
        assert(nodes@.take(0) =~= Seq::<MscNode>::empty());
    }
    while i < nodes.len()
        invariant
            i <= nodes@.len(),
            forall|j: int| 0 <= j < i ==> NODE_PREFIX_SIZE <= (#[trigger] nodes@[j]).length,
            out@ == spec_encode_nodes(nodes@.take(i as int)),
        decreases nodes@.len() - i,
    {
        let n = nodes[i];
        if n.length < NODE_PREFIX_SIZE {
            return Err(MpamError::MalformedTable);
        }
        proof {
            assert(nodes@.take(i + 1) =~= nodes@.take(i as int) + seq![n]);
            lemma_encode_nodes_concat(nodes@.take(i as int), seq![n]);
            reveal_with_fuel(spec_encode_nodes, 2);
            assert(seq![n].drop_first() =~= Seq::<MscNode>::empty());
            assert(spec_encode_nodes(seq![n].drop_first()) == spec_encode_nodes(
                Seq::<MscNode>::empty(),
            ));
            assert(seq![n][0] == n);
            assert(spec_encode_node(n) + Seq::<u8>::empty() =~= spec_encode_node(n));
        }
        encode_node_into(&mut out, &n);
        i = i + 1;
    }
    proof {
        assert(nodes@.take(nodes@.len() as int) =~= nodes@);
    }
    Ok(out)
}

} // verus!
