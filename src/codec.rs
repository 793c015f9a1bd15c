//! Packing of a slot index and a version tag into one machine word.
use vstd::prelude::*;

verus! {

/// Number of distinct values of the index field (and of the tag field).
pub const FIELD_RANGE: u64 = 0x1_0000_0000;

/// The index field of a packed word.
pub open spec fn index_of(word: u64) -> int {
    word as int % FIELD_RANGE as int
}

/// The tag field of a packed word.
pub open spec fn tag_of(word: u64) -> int {
    word as int / FIELD_RANGE as int
}

/// The word holding `index` in its low half and `tag`, reduced modulo the
/// field range, in its high half.
pub open spec fn packed(index: int, tag: int) -> int {
    index + (tag % FIELD_RANGE as int) * FIELD_RANGE as int
}

/// Packs `index` into the low 32 bits and `tag` into the high 32 bits; the
/// tag wraps silently.
pub fn pack(index: usize, tag: u64) -> (r: u64)
    requires
        index < FIELD_RANGE,
    ensures
        r as int == packed(index as int, tag as int),
        index_of(r) == index,
        tag_of(r) == tag as int % FIELD_RANGE as int,
{
    let low = index as u64;
    let r = (tag << 32u64) | low;
    assert(r == low + (tag % 0x1_0000_0000) * 0x1_0000_0000) by (bit_vector)
        requires
            low < 0x1_0000_0000u64,
            r == (tag << 32u64) | low,
    ;
    assert(r % 0x1_0000_0000 == low && r / 0x1_0000_0000 == tag % 0x1_0000_0000) by (bit_vector)
        requires
            low < 0x1_0000_0000u64,
            r == (tag << 32u64) | low,
    ;
    r
}

/// Splits a word into its index field and its tag field.
pub fn unpack(value: u64) -> (r: (usize, u64))
    ensures
        r.0 as int == index_of(value),
        r.1 as int == tag_of(value),
{
    let low = value & 0xFFFF_FFFF;
    let tag = value >> 32u64;
    assert(low == value % 0x1_0000_0000 && tag == value / 0x1_0000_0000) by (bit_vector)
        requires
            low == value & 0xFFFF_FFFF,
            tag == value >> 32u64,
    ;
    (low as usize, tag)
}

} // verus!
