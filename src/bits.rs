use bit_field::BitField;
use vstd::prelude::*;

verus! {

/// Whether bit `i` (0 being the least significant) of `v` is set.
pub open spec fn bit_is_set(v: u16, i: u16) -> bool {
    (v >> i) & 1u16 == 1u16
}

/// Relies on `bit_field::BitField::get_bit` for `u16`: it returns whether bit `bit`
/// is set, counting from the least significant bit, and panics for `bit >= 16`.
#[verifier::external_body]
pub(crate) fn row_bit(v: u16, bit: usize) -> (r: bool)
    requires
        bit < 16,
    ensures
        r == bit_is_set(v, bit as u16),
{
    v.get_bit(bit)
}

} // verus!
