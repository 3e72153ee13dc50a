//! Parser for the ACPI MPAM table: a firmware-supplied header followed by a
//! packed sequence of variable-sized MSC (Memory System Component) node
//! records. The table carries no record count; the only boundary is the
//! header's total byte length, so the records are found by a linear walk that
//! validates each record's self-reported length before trusting it. The walk
//! and the two classifiers (cache-interface and memory-interface base
//! addresses) are verified: they never read outside the table region, never
//! loop forever, and report a malformed table as a typed error.

use vstd::prelude::*;

pub mod bytes;
pub mod classify;
pub mod encode;
pub mod node;
pub mod table;
pub mod walk;

verus! {

/// Why a table could not be parsed.
#[derive(Clone, Copy, Debug, PartialEq, Eq, Structural)]
pub enum MpamError {
    /// A node record's length is zero, shorter than the fixed prefix, or
    /// larger than the bytes left in the table region.
    MalformedTable,
    /// The backing byte region is shorter than one table header.
    TruncatedRegion,
}

} // verus!
