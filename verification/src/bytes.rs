//! Little-endian byte-level codec: the value of a run of bytes read as an
//! unsigned integer, the bytes of a value, and the facts tying the two
//! together. All multi-byte fields of an MSC node record are little-endian.

use vstd::arithmetic::div_mod::{
    lemma_fundamental_div_mod, lemma_mod_bound, lemma_multiply_divide_lt,
};
use vstd::prelude::*;

verus! {

/// The value of the `n` bytes `b[off .. off + n]` read as a little-endian
/// unsigned integer.
pub open spec fn le_value(b: Seq<u8>, off: int, n: nat) -> int
    decreases n,
{
    if n == 0 {
        0
    } else {
        b[off] + 0x100 * le_value(b, off + 1, (n - 1) as nat)
    }
}

/// 256 raised to the power `n`: one above the largest value `n` bytes hold.
pub open spec fn pow256(n: nat) -> int
    decreases n,
{
    if n == 0 {
        1
    } else {
        0x100 * pow256((n - 1) as nat)
    }
}

/// The `n` little-endian bytes of `v`.
pub open spec fn le_bytes(v: int, n: nat) -> Seq<u8>
    decreases n,
{
    if n == 0 {
        Seq::empty()
    } else {
        seq![(v % 0x100) as u8] + le_bytes(v / 0x100, (n - 1) as nat)
    }
}

pub broadcast proof fn lemma_le_bytes_len(v: int, n: nat)
    ensures
        #[trigger] le_bytes(v, n).len() == n,
    decreases n,
{
    if n > 0 {
        lemma_le_bytes_len(v / 0x100, (n - 1) as nat);
    }
}

/// `n` bytes hold a value in `[0, 256^n)`.
pub proof fn lemma_le_value_bound(b: Seq<u8>, off: int, n: nat)
    ensures
        0 <= le_value(b, off, n) < pow256(n),
    decreases n,
{
    if n > 0 {
        lemma_le_value_bound(b, off + 1, (n - 1) as nat);
    }
}

/// Reading bytes is local: two regions that agree on the `n` bytes read give
/// the same value.
pub proof fn lemma_le_value_agree(b1: Seq<u8>, off1: int, b2: Seq<u8>, off2: int, n: nat)
    requires
        forall|i: int| 0 <= i < n ==> #[trigger] b1[off1 + i] == b2[off2 + i],
    ensures
        le_value(b1, off1, n) == le_value(b2, off2, n),
    decreases n,
{
    if n > 0 {
        assert(b1[off1 + 0] == b2[off2 + 0]);
        assert forall|i: int| 0 <= i < (n - 1) as nat implies #[trigger] b1[(off1 + 1) + i] == b2[(
        off2 + 1) + i] by {
            assert(b1[off1 + (i + 1)] == b2[off2 + (i + 1)]);
        }
        lemma_le_value_agree(b1, off1 + 1, b2, off2 + 1, (n - 1) as nat);
    }
}

/// Round trip: reading back the bytes of a value in range gives the value.
pub proof fn lemma_le_bytes_value(v: int, n: nat)
    requires
        0 <= v < pow256(n),
    ensures
        le_value(le_bytes(v, n), 0, n) == v,
    decreases n,
{
    if n > 0 {
        let tail = le_bytes(v / 0x100, (n - 1) as nat);
        broadcast use lemma_le_bytes_len;

        lemma_mod_bound(v, 0x100);
        lemma_fundamental_div_mod(v, 0x100);
        lemma_multiply_divide_lt(v, 0x100, pow256((n - 1) as nat));
        lemma_le_bytes_value(v / 0x100, (n - 1) as nat);
        assert forall|i: int| 0 <= i < (n - 1) as nat implies #[trigger] le_bytes(v, n)[1 + i]
            == tail[0 + i] by {
        }
        lemma_le_value_agree(le_bytes(v, n), 1, tail, 0, (n - 1) as nat);
        assert(le_bytes(v, n)[0] == (v % 0x100) as u8);
    }
}

} // verus!
