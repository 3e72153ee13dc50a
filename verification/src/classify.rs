//! Classification of walked node records: selecting the records whose
//! interface-type tag matches one kind and projecting out their base
//! addresses, in table order.

use crate::node::MscNode;
use vstd::prelude::*;

verus! {

/// Interface-type tag of a cache-interface MSC node.
pub const CACHE_INTERFACE_TYPE: u8 = 1;

/// Interface-type tag of a memory-controller-interface MSC node.
pub const MEMORY_INTERFACE_TYPE: u8 = 2;

/// The base addresses of the records in `nodes` whose interface type is
/// `tag`, in the order the records stand in `nodes`.
pub open spec fn spec_bases(nodes: Seq<MscNode>, tag: u8) -> Seq<u64>
    decreases nodes.len(),
{
    if nodes.len() == 0 {
        Seq::empty()
    } else if nodes[0].if_type == tag {
        seq![nodes[0].base_address] + spec_bases(nodes.drop_first(), tag)
    } else {
        spec_bases(nodes.drop_first(), tag)
    }
}

/// Classification works piecewise: the bases of a concatenation are the
/// concatenated bases.
pub proof fn lemma_spec_bases_concat(s: Seq<MscNode>, t: Seq<MscNode>, tag: u8)
    ensures
        spec_bases(s + t, tag) == spec_bases(s, tag) + spec_bases(t, tag),
    decreases s.len(),
{
    if s.len() == 0 {
        assert(s + t =~= t);
        assert(spec_bases(s, tag) + spec_bases(t, tag) =~= spec_bases(t, tag));
    } else {
        assert((s + t).drop_first() =~= s.drop_first() + t);
        lemma_spec_bases_concat(s.drop_first(), t, tag);
        assert((s + t)[0] == s[0]);
        if s[0].if_type == tag {
            assert(seq![s[0].base_address] + (spec_bases(s.drop_first(), tag) + spec_bases(t, tag))
                =~= (seq![s[0].base_address] + spec_bases(s.drop_first(), tag)) + spec_bases(
                t,
                tag,
            ));
        }
    }
}

/// The base addresses of all records in `nodes`, whatever their kind.
pub open spec fn spec_all_bases(nodes: Seq<MscNode>) -> Set<u64> {
    Set::new(|a: u64| exists|i: int| 0 <= i < nodes.len() && #[trigger] nodes[i].base_address == a)
}

/// A classified address is exactly an address of a record with the tag.
pub proof fn lemma_spec_bases_membership(nodes: Seq<MscNode>, tag: u8, a: u64)
    ensures
        spec_bases(nodes, tag).contains(a) <==> (exists|i: int|
            0 <= i < nodes.len() && (#[trigger] nodes[i]).if_type == tag
                && nodes[i].base_address == a),
    decreases nodes.len(),
{
    if nodes.len() == 0 {
    } else {
        let d = nodes.drop_first();
        let rest = spec_bases(d, tag);
        lemma_spec_bases_membership(d, tag, a);
        if nodes[0].if_type == tag {
            let whole = seq![nodes[0].base_address] + rest;
            assert(spec_bases(nodes, tag) == whole);
            if whole.contains(a) {
                let k = choose|k: int| 0 <= k < whole.len() && whole[k] == a;
                if k == 0 {
                    assert(nodes[0].if_type == tag && nodes[0].base_address == a);
                } else {
                    assert(rest[k - 1] == a);
                    assert(rest.contains(a));
                    let i = choose|i: int|
                        0 <= i < d.len() && (#[trigger] d[i]).if_type == tag
                            && d[i].base_address == a;
                    assert(d[i] == nodes[i + 1]);
                    assert((#[trigger] nodes[i + 1]).if_type == tag && nodes[i + 1].base_address
                        == a);
                }
            }
            if exists|i: int|
                0 <= i < nodes.len() && (#[trigger] nodes[i]).if_type == tag
                    && nodes[i].base_address == a {
                let i = choose|i: int|
                    0 <= i < nodes.len() && (#[trigger] nodes[i]).if_type == tag
                        && nodes[i].base_address == a;
                if i == 0 {
                    assert(whole[0] == a);
                } else {
                    assert(d[i - 1] == nodes[i]);
                    assert(rest.contains(a));
                    let k = choose|k: int| 0 <= k < rest.len() && rest[k] == a;
                    assert(whole[k + 1] == a);
                }
            }
        } else {
            assert(spec_bases(nodes, tag) == rest);
            if rest.contains(a) {
                let i = choose|i: int|
                    0 <= i < d.len() && (#[trigger] d[i]).if_type == tag && d[i].base_address == a;
                assert(d[i] == nodes[i + 1]);
                assert((#[trigger] nodes[i + 1]).if_type == tag && nodes[i + 1].base_address == a);
            }
            if exists|i: int|
                0 <= i < nodes.len() && (#[trigger] nodes[i]).if_type == tag
                    && nodes[i].base_address == a {
                let i = choose|i: int|
                    0 <= i < nodes.len() && (#[trigger] nodes[i]).if_type == tag
                        && nodes[i].base_address == a;
                assert(i != 0);
                assert(d[i - 1] == nodes[i]);
                assert(rest.contains(a));
            }
        }
    }
}

/// Law: every address either classifier yields is the base address of some
/// walked record — the union of the cache and memory views is contained in
/// the addresses of all records.
pub proof fn lemma_classified_bases_cover(nodes: Seq<MscNode>)
    ensures
        spec_bases(nodes, CACHE_INTERFACE_TYPE).to_set().union(
            spec_bases(nodes, MEMORY_INTERFACE_TYPE).to_set(),
        ).subset_of(spec_all_bases(nodes)),
{
    let un = spec_bases(nodes, CACHE_INTERFACE_TYPE).to_set().union(
        spec_bases(nodes, MEMORY_INTERFACE_TYPE).to_set(),
    );
    assert forall|a: u64| un.contains(a) implies spec_all_bases(nodes).contains(a) by {
        lemma_spec_bases_membership(nodes, CACHE_INTERFACE_TYPE, a);
        lemma_spec_bases_membership(nodes, MEMORY_INTERFACE_TYPE, a);
    }
}

/// Law: the cache and memory address sets are disjoint, as long as no
/// cache-kind record shares its base address with a memory-kind record (two
/// records of different kinds at one address would land in both views).
pub proof fn lemma_classified_bases_disjoint(nodes: Seq<MscNode>)
    requires
        forall|i: int, j: int|
            0 <= i < nodes.len() && 0 <= j < nodes.len() && (#[trigger] nodes[i]).if_type
                == CACHE_INTERFACE_TYPE && (#[trigger] nodes[j]).if_type == MEMORY_INTERFACE_TYPE
                ==> nodes[i].base_address != nodes[j].base_address,
    ensures
        spec_bases(nodes, CACHE_INTERFACE_TYPE).to_set().disjoint(
            spec_bases(nodes, MEMORY_INTERFACE_TYPE).to_set(),
        ),
{
    let cache = spec_bases(nodes, CACHE_INTERFACE_TYPE).to_set();
    let memory = spec_bases(nodes, MEMORY_INTERFACE_TYPE).to_set();
    assert forall|a: u64| cache.contains(a) implies !memory.contains(a) by {
        lemma_spec_bases_membership(nodes, CACHE_INTERFACE_TYPE, a);
        lemma_spec_bases_membership(nodes, MEMORY_INTERFACE_TYPE, a);
    }
}

/// The indices, in ascending order, of the records in `nodes` whose
/// interface type is `tag`: the source positions of the classified bases.
pub open spec fn tag_positions(nodes: Seq<MscNode>, tag: u8) -> Seq<int>
    decreases nodes.len(),
{
    if nodes.len() == 0 {
        Seq::empty()
    } else {
        let rest = tag_positions(nodes.drop_first(), tag).map_values(|p: int| p + 1);
        if nodes[0].if_type == tag {
            seq![0int] + rest
        } else {
            rest
        }
    }
}

/// Law: order preservation. The classified bases are exactly the base
/// addresses of the tagged records, read off at strictly increasing source
/// positions — so they appear in the same relative order as their source
/// records do in the walk.
pub proof fn lemma_bases_order_preserving(nodes: Seq<MscNode>, tag: u8)
    ensures
        ({
            let pos = tag_positions(nodes, tag);
            let bases = spec_bases(nodes, tag);
            &&& pos.len() == bases.len()
            &&& forall|k: int| 0 <= k < pos.len() ==> 0 <= #[trigger] pos[k] < nodes.len()
            &&& forall|k: int|
                0 <= k < pos.len() ==> nodes[#[trigger] pos[k]].if_type == tag && bases[k]
                    == nodes[pos[k]].base_address
            &&& forall|k1: int, k2: int|
                0 <= k1 < k2 < pos.len() ==> #[trigger] pos[k1] < #[trigger] pos[k2]
        }),
    decreases nodes.len(),
{
    if nodes.len() == 0 {
    } else {
        let d = nodes.drop_first();
        lemma_bases_order_preserving(d, tag);
        let dpos = tag_positions(d, tag);
        let dbases = spec_bases(d, tag);
        let rest = dpos.map_values(|p: int| p + 1);
        let pos = tag_positions(nodes, tag);
        let bases = spec_bases(nodes, tag);
        assert(rest.len() == dpos.len());
        assert forall|k: int| 0 <= k < rest.len() implies #[trigger] rest[k] == dpos[k] + 1 by {}
        assert forall|i: int| 0 <= i < d.len() implies #[trigger] d[i] == nodes[i + 1] by {}
        if nodes[0].if_type == tag {
            assert(pos == seq![0int] + rest);
            assert(bases == seq![nodes[0].base_address] + dbases);
            assert(pos[0] == 0);
            assert(bases[0] == nodes[0].base_address);
            assert forall|k: int| 1 <= k < pos.len() implies #[trigger] pos[k] == dpos[k - 1]
                + 1 by {
                assert(pos[k] == rest[k - 1]);
            }
            assert forall|k: int| 1 <= k < pos.len() implies nodes[#[trigger] pos[k]].if_type
                == tag && bases[k] == nodes[pos[k]].base_address by {
                assert(pos[k] == dpos[k - 1] + 1);
                assert(bases[k] == dbases[k - 1]);
                assert(nodes[dpos[k - 1] + 1] == d[dpos[k - 1]]);
            }
        } else {
            assert(pos == rest);
            assert(bases == dbases);
            assert forall|k: int| 0 <= k < pos.len() implies nodes[#[trigger] pos[k]].if_type
                == tag && bases[k] == nodes[pos[k]].base_address by {
                assert(pos[k] == dpos[k] + 1);
                assert(nodes[dpos[k] + 1] == d[dpos[k]]);
            }
        }
    }
}

/// The bases of one record alone.
pub proof fn lemma_spec_bases_singleton(n: MscNode, tag: u8)
    ensures
        n.if_type == tag ==> spec_bases(seq![n], tag) == seq![n.base_address],
        n.if_type != tag ==> spec_bases(seq![n], tag) == Seq::<u64>::empty(),
{
    reveal_with_fuel(spec_bases, 2);
    assert(seq![n].len() == 1);
    assert(seq![n][0] == n);
    assert(seq![n].drop_first() =~= Seq::<MscNode>::empty());
    assert(spec_bases(seq![n].drop_first(), tag) == spec_bases(Seq::<MscNode>::empty(), tag));
    if n.if_type == tag {
        assert(seq![n.base_address] + Seq::<u64>::empty() =~= seq![n.base_address]);
    }
}

} // verus!
