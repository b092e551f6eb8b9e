//! Identifier types and the constants shared by every module.

use vstd::prelude::*;

verus! {

/// Dense index of a node, in `[0, |V|)`.
pub type NodeT = u32;

/// Dense index of an edge, in `[0, |E|)`.
pub type EdgeT = u64;

/// Identifier of a node type.
pub type NodeTypeT = u16;

/// Identifier of an edge type.
pub type EdgeTypeT = u16;

/// An edge weight, held as the IEEE-754 bit pattern of a 32-bit float.
pub type WeightT = u32;

/// Mask mixed into every random state before it is used, so that small seeds
/// still carry a balanced number of set bits.
pub const SEED_XOR: u64 = 0xbad5eedbad5eed11;

/// Marker for a node that no component or parent has been assigned to yet.
pub const NOT_PRESENT: u32 = 0xffff_ffff;

/// Bit pattern of positive infinity; every finite positive weight lies below it.
pub const WEIGHT_INFINITY: u32 = 0x7f80_0000;

/// Whether `bits` is the pattern of a strictly positive, finite weight.
pub open spec fn valid_weight(bits: WeightT) -> bool {
    0 < bits < WEIGHT_INFINITY
}

/// Decides whether `bits` encodes a strictly positive, finite weight.
pub fn is_valid_weight(bits: WeightT) -> (ok: bool)
    ensures
        ok == valid_weight(bits),
{
    0 < bits && bits < WEIGHT_INFINITY
}

} // verus!
