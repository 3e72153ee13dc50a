//! Tests for the MPAM table parser: building raw tables byte by byte (and
//! through the encoder) and checking the walk and both classifiers.

use mpam::encode::encode_nodes;
use mpam::node::MscNode;
use mpam::table::Mpam;
use mpam::MpamError;

/// A node record's raw bytes: prefix fields at their fixed offsets, zero
/// padding up to `length` (clamped up to the prefix size so malformed
/// declared lengths can be built too).
fn raw_node(if_type: u8, length: u16, base_address: u64) -> Vec<u8> {
    let size = std::cmp::max(36, length as usize);
    let mut b = vec![0u8; size];
    b[0] = if_type;
    b[1..3].copy_from_slice(&length.to_le_bytes());
    b[4..12].copy_from_slice(&base_address.to_le_bytes());
    b
}

/// A table region: 36 header bytes (content irrelevant to the walk) followed
/// by the given node bytes.
fn table_bytes(node_region: &[u8]) -> Vec<u8> {
    let mut t = vec![0u8; 36];
    t.extend_from_slice(node_region);
    t
}

fn node(if_type: u8, length: u16, base_address: u64) -> MscNode {
    MscNode {
        if_type,
        length,
        reserved: 0,
        base_address,
        overflow_interrupt: 0,
        overflow_interrupt_flags: 0,
        error_interrupt: 0,
        error_interrupt_flags: 0,
        max_nrdy_usec: 0,
        offset: 0,
    }
}

#[test]
fn single_memory_node() {
    // header length = 36 (prefix) + 36: one node, type 2, length 36
    let region = raw_node(2, 36, 0x1000_0000);
    let t = Mpam::new(table_bytes(&region)).unwrap();
    assert_eq!(t.memory_bases().unwrap(), vec![0x1000_0000u64]);
    assert_eq!(t.cache_bases().unwrap(), Vec::<u64>::new());
}

#[test]
fn empty_node_region() {
    let t = Mpam::new(vec![0u8; 36]).unwrap();
    assert_eq!(t.nodes_vec().unwrap(), Vec::<MscNode>::new());
    assert_eq!(t.cache_bases().unwrap(), Vec::<u64>::new());
    assert_eq!(t.memory_bases().unwrap(), Vec::<u64>::new());
}

#[test]
fn truncated_region_is_rejected() {
    assert!(matches!(Mpam::new(vec![0u8; 10]), Err(MpamError::TruncatedRegion)));
    assert!(matches!(Mpam::new(Vec::new()), Err(MpamError::TruncatedRegion)));
}

#[test]
fn zero_length_record_is_malformed() {
    // a length of 0 must be an error, not a stalled walk
    let mut region = raw_node(2, 36, 0x1234);
    region[1] = 0;
    region[2] = 0;
    let t = Mpam::new(table_bytes(&region)).unwrap();
    assert_eq!(t.nodes_vec(), Err(MpamError::MalformedTable));
    assert_eq!(t.memory_bases(), Err(MpamError::MalformedTable));
    assert_eq!(t.cache_bases(), Err(MpamError::MalformedTable));
}

#[test]
fn record_shorter_than_prefix_is_malformed() {
    let mut region = raw_node(1, 36, 0x1234);
    region[1] = 20;
    region[2] = 0;
    let t = Mpam::new(table_bytes(&region)).unwrap();
    assert_eq!(t.nodes_vec(), Err(MpamError::MalformedTable));
}

#[test]
fn record_past_region_end_is_malformed() {
    // declared length 0x100 with only 36 bytes of region left
    let mut region = raw_node(2, 36, 0x1234);
    region[1] = 0x00;
    region[2] = 0x01;
    let t = Mpam::new(table_bytes(&region)).unwrap();
    assert_eq!(t.nodes_vec(), Err(MpamError::MalformedTable));
    assert_eq!(t.memory_bases(), Err(MpamError::MalformedTable));
}

#[test]
fn trailing_partial_record_is_malformed() {
    // a valid record followed by 4 stray bytes: too short for another prefix
    let mut region = raw_node(1, 36, 0xABCD);
    region.extend_from_slice(&[0u8; 4]);
    let t = Mpam::new(table_bytes(&region)).unwrap();
    assert_eq!(t.nodes_vec(), Err(MpamError::MalformedTable));
}

#[test]
fn walk_decodes_all_fields() {
    let mut region = raw_node(1, 40, 0x1122_3344_5566_7788);
    region[3] = 0x7F; // reserved
    region[12..16].copy_from_slice(&0xAABB_CCDDu32.to_le_bytes());
    region[16..20].copy_from_slice(&0x0102_0304u32.to_le_bytes());
    region[20..24].copy_from_slice(&0x0506_0708u32.to_le_bytes());
    region[24..28].copy_from_slice(&0x090A_0B0Cu32.to_le_bytes());
    region[28..32].copy_from_slice(&0x0D0E_0F10u32.to_le_bytes());
    region[32..36].copy_from_slice(&36u32.to_le_bytes());
    let t = Mpam::new(table_bytes(&region)).unwrap();
    let nodes = t.nodes_vec().unwrap();
    assert_eq!(nodes.len(), 1);
    let n = nodes[0];
    assert_eq!(n.if_type, 1);
    assert_eq!(n.length, 40);
    assert_eq!(n.reserved, 0x7F);
    assert_eq!(n.base_address, 0x1122_3344_5566_7788);
    assert_eq!(n.overflow_interrupt, 0xAABB_CCDD);
    assert_eq!(n.overflow_interrupt_flags, 0x0102_0304);
    assert_eq!(n.error_interrupt, 0x0506_0708);
    assert_eq!(n.error_interrupt_flags, 0x090A_0B0C);
    assert_eq!(n.max_nrdy_usec, 0x0D0E_0F10);
    assert_eq!(n.offset, 36);
}

#[test]
fn well_formed_walk_yields_every_record() {
    // three records of different sizes exactly fill the region
    let mut region = raw_node(1, 36, 0x100);
    region.extend_from_slice(&raw_node(2, 48, 0x200));
    region.extend_from_slice(&raw_node(9, 44, 0x300));
    let t = Mpam::new(table_bytes(&region)).unwrap();
    let nodes = t.nodes_vec().unwrap();
    assert_eq!(nodes.len(), 3);
    assert_eq!(nodes[0].base_address, 0x100);
    assert_eq!(nodes[1].base_address, 0x200);
    assert_eq!(nodes[2].base_address, 0x300);
}

#[test]
fn iterator_steps_and_stops() {
    let mut region = raw_node(1, 36, 0x100);
    region.extend_from_slice(&raw_node(2, 36, 0x200));
    let t = Mpam::new(table_bytes(&region)).unwrap();
    let mut it = t.nodes();
    let first = it.next().unwrap().unwrap();
    assert_eq!(first.base_address, 0x100);
    let second = it.next().unwrap().unwrap();
    assert_eq!(second.base_address, 0x200);
    assert_eq!(it.next(), Ok(None));
    // the walk stays finished
    assert_eq!(it.next(), Ok(None));
}

#[test]
fn iterator_error_leaves_walk_in_place() {
    let region = raw_node(1, 0, 0x100);
    let t = Mpam::new(table_bytes(&region)).unwrap();
    let mut it = t.nodes();
    assert_eq!(it.next(), Err(MpamError::MalformedTable));
    assert_eq!(it.next(), Err(MpamError::MalformedTable));
}

#[test]
fn round_trip_classified_addresses() {
    // 2 cache records, 3 memory records, 1 unrecognized kind
    let nodes = vec![
        node(1, 36, 0x1000),
        node(2, 40, 0x2000),
        node(7, 36, 0x3000),
        node(2, 36, 0x4000),
        node(1, 52, 0x5000),
        node(2, 36, 0x6000),
    ];
    let region = encode_nodes(&nodes).unwrap();
    let t = Mpam::new(table_bytes(&region)).unwrap();
    assert_eq!(t.nodes_vec().unwrap(), nodes);
    assert_eq!(t.cache_bases().unwrap(), vec![0x1000u64, 0x5000]);
    assert_eq!(t.memory_bases().unwrap(), vec![0x2000u64, 0x4000, 0x6000]);
}

#[test]
fn round_trip_keeps_every_field() {
    let full = MscNode {
        if_type: 2,
        length: 44,
        reserved: 9,
        base_address: 0xFFEE_DDCC_BBAA_9988,
        overflow_interrupt: 0x1111_2222,
        overflow_interrupt_flags: 0x3333_4444,
        error_interrupt: 0x5555_6666,
        error_interrupt_flags: 0x7777_8888,
        max_nrdy_usec: 0x9999_AAAA,
        offset: 0xBBBB_CCCC,
    };
    let region = encode_nodes(&vec![full]).unwrap();
    assert_eq!(region.len(), 44);
    let t = Mpam::new(table_bytes(&region)).unwrap();
    assert_eq!(t.nodes_vec().unwrap(), vec![full]);
    assert_eq!(t.memory_bases().unwrap(), vec![0xFFEE_DDCC_BBAA_9988u64]);
}

#[test]
fn encoder_rejects_short_declared_length() {
    let bad = node(1, 10, 0x1000);
    assert_eq!(encode_nodes(&vec![bad]), Err(MpamError::MalformedTable));
}

#[test]
fn classified_addresses_come_from_records_and_stay_apart() {
    let nodes = vec![
        node(1, 36, 0x10),
        node(2, 36, 0x20),
        node(3, 36, 0x30),
        node(1, 36, 0x40),
    ];
    let region = encode_nodes(&nodes).unwrap();
    let t = Mpam::new(table_bytes(&region)).unwrap();
    let all: Vec<u64> = t.nodes_vec().unwrap().iter().map(|n| n.base_address).collect();
    let cache = t.cache_bases().unwrap();
    let memory = t.memory_bases().unwrap();
    for a in cache.iter().chain(memory.iter()) {
        assert!(all.contains(a));
    }
    for a in cache.iter() {
        assert!(!memory.contains(a));
    }
}

#[test]
fn each_walk_starts_from_the_beginning() {
    let mut region = raw_node(1, 36, 0x100);
    region.extend_from_slice(&raw_node(2, 36, 0x200));
    let t = Mpam::new(table_bytes(&region)).unwrap();
    let mut first_walk = t.nodes();
    let mut second_walk = t.nodes();
    assert_eq!(first_walk.next().unwrap().unwrap().base_address, 0x100);
    assert_eq!(first_walk.next().unwrap().unwrap().base_address, 0x200);
    // a fresh walk is independent of the consumed one
    assert_eq!(second_walk.next().unwrap().unwrap().base_address, 0x100);
}

#[test]
fn classified_addresses_keep_table_order() {
    let nodes = vec![
        node(2, 36, 0x9), // memory
        node(1, 36, 0x7), // cache
        node(5, 36, 0x1), // ignored kind
        node(1, 36, 0x3), // cache
        node(1, 36, 0x2), // cache
        node(2, 36, 0x8), // memory
    ];
    let region = encode_nodes(&nodes).unwrap();
    let t = Mpam::new(table_bytes(&region)).unwrap();
    assert_eq!(t.cache_bases().unwrap(), vec![0x7u64, 0x3, 0x2]);
    assert_eq!(t.memory_bases().unwrap(), vec![0x9u64, 0x8]);
}
