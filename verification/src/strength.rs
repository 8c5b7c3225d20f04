//! Mapping from quantizer index to deblocking filter strength.

use vstd::prelude::*;

verus! {

/// Filter strength for each quantizer index; entry 0 is a placeholder and is
/// never to be used for filtering.
pub const QUANT_TO_STRENGTH: [u8; 32] = [
    0, 1, 1, 2, 2, 3, 3, 4, 4, 4, 5, 5, 6, 6, 7, 7, 7, 8, 8, 8, 9, 9, 9, 10, 10, 10, 11, 11, 11,
    12, 12, 12,
];

/// The strength table as a mathematical sequence.
pub open spec fn strength_table() -> Seq<u8> {
    seq![
        0u8, 1, 1, 2, 2, 3, 3, 4, 4, 4, 5, 5, 6, 6, 7, 7, 7, 8, 8, 8, 9, 9, 9, 10, 10, 10, 11, 11,
        11, 12, 12, 12,
    ]
}

/// The constant holds the table, entry for entry.
pub proof fn lemma_quant_to_strength_is_the_table()
    ensures
        QUANT_TO_STRENGTH@ == strength_table(),
{
    assert(QUANT_TO_STRENGTH@ =~= strength_table());
}

/// Strength for a quantizer index in `1..=31`.
pub fn strength_for_quant(quant: u8) -> (strength: u8)
    requires
        1 <= quant <= 31,
    ensures
        strength == strength_table()[quant as int],
        1 <= strength <= 12,
{
    QUANT_TO_STRENGTH[quant as usize]
}

} // verus!
