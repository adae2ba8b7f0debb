use vstd::prelude::*;

verus! {

/// An 8-bit flag set; bit `i` is addressed by its position, 0 being the least
/// significant bit.
#[derive(Debug, Clone, Copy, PartialEq, Eq, Structural)]
pub struct Flags {
    pub value: u8,
}

/// Whether bit `index` of `value` is set.
pub open spec fn bit_is_set(value: u8, index: usize) -> bool {
    value & (1u8 << index) != 0
}

/// `value` with bit `index` set and every other bit as it was.
pub open spec fn with_bit(value: u8, index: usize) -> u8 {
    value | (1u8 << index)
}

impl Flags {
    /// The flag set whose bits are those of `value`.
    pub fn new(value: u8) -> (flags: Self)
        ensures
            flags.value == value,
    {
        Self { value }
    }

    /// The flag set with no bit set.
    pub fn zero() -> (flags: Self)
        ensures
            flags.value == 0,
    {
        Self { value: 0 }
    }

    /// Whether bit `index` is set.
    pub fn get(&self, index: usize) -> (set: bool)
        requires
            index < 8,
        ensures
            set == bit_is_set(self.value, index),
    {
        (self.value & (1 << index)) != 0
    }

    /// Sets bit `index` and hands the flag set back, so that calls can be
    /// chained.
    pub fn set(&mut self, index: usize) -> (chained: &mut Self)
        requires
            index < 8,
        ensures
            chained.value == with_bit(old(self).value, index),
            *final(self) == *final(chained),
    {
        self.value |= 1 << index;
        self
    }
}

/// Setting a bit makes it read as set and leaves every other bit as it was.
pub proof fn lemma_set_then_get(value: u8, index: usize, other: usize)
    requires
        index < 8,
        other < 8,
    ensures
        bit_is_set(with_bit(value, index), index),
        other != index ==> bit_is_set(with_bit(value, index), other) == bit_is_set(value, other),
{
    assert(index < 8 ==> (value | (1u8 << index)) & (1u8 << index) != 0) by (bit_vector);
    assert(index < 8 && other < 8 && other != index ==> (((value | (1u8 << index)) & (1u8 << other)
        != 0) == (value & (1u8 << other) != 0))) by (bit_vector);
}

/// Setting a bit that is already set changes nothing.
pub proof fn lemma_set_is_idempotent(value: u8, index: usize)
    requires
        index < 8,
    ensures
        with_bit(with_bit(value, index), index) == with_bit(value, index),
{
    assert((value | (1u8 << index)) | (1u8 << index) == value | (1u8 << index)) by (bit_vector);
}

} // verus!
