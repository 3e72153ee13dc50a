//! The MSC node record: its fixed 36-byte little-endian prefix and decoding a
//! record from a byte region.

use crate::bytes::{le_value, lemma_le_value_bound, pow256};
use vstd::prelude::*;

verus! {

/// Size in bytes of the fixed prefix of an MSC node record. A record's
/// declared `length` covers this prefix and all type-specific trailing data.
pub const NODE_PREFIX_SIZE: u16 = 36;

/// The fixed-layout prefix of one MSC node record, as plain values. The
/// type-specific tail that may follow these fields in the table is not
/// interpreted; a record's `length` is only used to skip past it.
#[derive(Clone, Copy, Debug, PartialEq, Eq, Structural)]
pub struct MscNode {
    /// Interface kind tag: 1 = cache interface, 2 = memory-controller
    /// interface, other values = reserved kinds that are walked but ignored.
    pub if_type: u8,
    /// Total byte size of this record, prefix and trailing data included.
    pub length: u16,
    pub reserved: u8,
    /// Physical base address of the MSC's memory-mapped control interface.
    pub base_address: u64,
    pub overflow_interrupt: u32,
    pub overflow_interrupt_flags: u32,
    pub error_interrupt: u32,
    pub error_interrupt_flags: u32,
    pub max_nrdy_usec: u32,
    /// Byte offset of the trailing resource-node list, relative to the record.
    pub offset: u32,
}

/// The record whose fixed prefix lies at `b[off .. off + 36]`.
pub open spec fn spec_decode_node(b: Seq<u8>, off: int) -> MscNode {
    MscNode {
        if_type: b[off],
        length: le_value(b, off + 1, 2) as u16,
        reserved: b[off + 3],
        base_address: le_value(b, off + 4, 8) as u64,
        overflow_interrupt: le_value(b, off + 12, 4) as u32,
        overflow_interrupt_flags: le_value(b, off + 16, 4) as u32,
        error_interrupt: le_value(b, off + 20, 4) as u32,
        error_interrupt_flags: le_value(b, off + 24, 4) as u32,
        max_nrdy_usec: le_value(b, off + 28, 4) as u32,
        offset: le_value(b, off + 32, 4) as u32,
    }
}

/// Reads the little-endian `u16` at `bytes[off .. off + 2]`.
fn read_u16(bytes: &Vec<u8>, off: usize) -> (v: u16)
    requires
        off + 2 <= bytes@.len(),
    ensures
        v == le_value(bytes@, off as int, 2),
{
    let _table_len: usize = bytes.len();
    let v = bytes[off] as u16 + bytes[off + 1] as u16 * 0x100;
    proof {
        reveal_with_fuel(le_value, 3);
    }
    v
}

/// Reads the little-endian `u32` at `bytes[off .. off + 4]`.
fn read_u32(bytes: &Vec<u8>, off: usize) -> (v: u32)
    requires
        off + 4 <= bytes@.len(),
    ensures
        v == le_value(bytes@, off as int, 4),
{
    let _table_len: usize = bytes.len();
    let v = bytes[off] as u32 + bytes[off + 1] as u32 * 0x100 + bytes[off + 2] as u32 * 0x1_0000
        + bytes[off + 3] as u32 * 0x100_0000;
    proof {
        reveal_with_fuel(le_value, 5);
    }
    v
}

/// Reads the little-endian `u64` at `bytes[off .. off + 8]`.
fn read_u64(bytes: &Vec<u8>, off: usize) -> (v: u64)
    requires
        off + 8 <= bytes@.len(),
    ensures
        v == le_value(bytes@, off as int, 8),
{
    let _table_len: usize = bytes.len();
    let v = bytes[off] as u64 + bytes[off + 1] as u64 * 0x100 + bytes[off + 2] as u64 * 0x1_0000
        + bytes[off + 3] as u64 * 0x100_0000 + bytes[off + 4] as u64 * 0x1_0000_0000 + bytes[off
        + 5] as u64 * 0x100_0000_0000 + bytes[off + 6] as u64 * 0x1_0000_0000_0000 + bytes[off
        + 7] as u64 * 0x100_0000_0000_0000;
    proof {
        reveal_with_fuel(le_value, 9);
    }
    v
}

/// Decodes the node record whose fixed prefix starts at `bytes[off]`.
pub fn decode_node(bytes: &Vec<u8>, off: usize) -> (n: MscNode)
    requires
        off + NODE_PREFIX_SIZE <= bytes@.len(),
    ensures
        n == spec_decode_node(bytes@, off as int),
{
    let _table_len: usize = bytes.len();
    proof {
        reveal_with_fuel(pow256, 9);
        lemma_le_value_bound(bytes@, off + 1, 2);
        lemma_le_value_bound(bytes@, off + 4, 8);
        lemma_le_value_bound(bytes@, off + 12, 4);
        lemma_le_value_bound(bytes@, off + 16, 4);
        lemma_le_value_bound(bytes@, off + 20, 4);
        lemma_le_value_bound(bytes@, off + 24, 4);
        lemma_le_value_bound(bytes@, off + 28, 4);
        lemma_le_value_bound(bytes@, off + 32, 4);
    }
    MscNode {
        if_type: bytes[off],
        length: read_u16(bytes, off + 1),
        reserved: bytes[off + 3],
        base_address: read_u64(bytes, off + 4),
        overflow_interrupt: read_u32(bytes, off + 12),
        overflow_interrupt_flags: read_u32(bytes, off + 16),
        error_interrupt: read_u32(bytes, off + 20),
        error_interrupt_flags: read_u32(bytes, off + 24),
        max_nrdy_usec: read_u32(bytes, off + 28),
        offset: read_u32(bytes, off + 32),
    }
}

} // verus!
