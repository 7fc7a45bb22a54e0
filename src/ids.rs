//! Allocation handles: a 32-bit value made of a 16-bit record index (the low
//! half) and a 16-bit generation counter (the high half).

use vstd::prelude::*;

verus! {

/// Handle to a value stored in a `PackedFreelist`.
pub type AllocationID = u32;

/// Number of distinct record indices (and of distinct generations).
pub const SLOT_SPAN: u32 = 0x10000;

/// Index of the allocation record that an id refers to.
pub open spec fn slot_of(id: AllocationID) -> nat {
    (id % 0x10000) as nat
}

/// How many times the record had been reused when the id was issued, modulo 2^16.
pub open spec fn generation_of(id: AllocationID) -> nat {
    (id / 0x10000) as nat
}

/// The id that a record hands out next after `id`: same record, generation
/// one higher, wrapping from 0xFFFF back to 0.
pub open spec fn next_id(id: AllocationID) -> AllocationID {
    ((id as nat + 0x10000) % 0x1_0000_0000) as u32
}

/// Reissuing from a record keeps the record and advances the generation.
pub proof fn lemma_next_id(id: AllocationID)
    ensures
        slot_of(next_id(id)) == slot_of(id),
        generation_of(next_id(id)) == (generation_of(id) + 1) % 0x10000,
        generation_of(next_id(id)) != generation_of(id),
{
    let g = id / 0x10000;
    let s = id % 0x10000;
    assert(id == 0x10000 * (id / 0x10000) + id % 0x10000) by (nonlinear_arith);
    let n = next_id(id);
    if g < 0xFFFF {
        assert(id as nat + 0x10000 < 0x1_0000_0000);
        assert(n == 0x10000 * (g + 1) + s);
        assert(n / 0x10000 == g + 1 && n % 0x10000 == s) by (nonlinear_arith)
            requires
                n == 0x10000 * (g + 1) + s,
                s < 0x10000,
        ;
    } else {
        assert(n == s);
    }
}

/// Computes `next_id`.
pub fn bump_generation(id: AllocationID) -> (r: AllocationID)
    ensures
        r == next_id(id),
{
    id.wrapping_add(SLOT_SPAN)
}

} // verus!
