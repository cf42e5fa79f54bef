//! Block flags: a 32-bit word of independent bits.
use vstd::prelude::*;

verus! {

/// Block flags.
///
/// Every bit of the word is kept, also bits that have no name here.
#[derive(Debug, Clone, Copy, PartialEq, Eq, Structural)]
pub struct Flags(u32);

impl View for Flags {
    type V = u32;

    closed spec fn view(&self) -> u32 {
        self.0
    }
}

/// `true` when every bit of `other` is set in `bits`.
pub open spec fn bits_contain(bits: u32, other: u32) -> bool {
    bits & other == other
}

/// Bit: the block is not the main flash image.
pub const NOT_MAIN_FLASH: u32 = 0x00000001;

/// Bit: the block contains a file container.
pub const FILE_CONTAINER: u32 = 0x00001000;

/// Bit: the block contains a family ID.
pub const FAMILY_ID: u32 = 0x00002000;

/// Bit: the block contains a checksum.
pub const CHECKSUM: u32 = 0x00004000;

/// Bit: the block contains extension tags.
pub const EXTENSION_TAGS: u32 = 0x00008000;

impl Flags {
    /// The flags with no bit set.
    pub fn empty() -> (f: Flags)
        ensures
            f@ == 0,
    {
        Flags(0)
    }

    /// The flags made of exactly these bits.
    pub fn from_bits_retain(bits: u32) -> (f: Flags)
        ensures
            f@ == bits,
    {
        Flags(bits)
    }

    /// The raw bits.
    pub fn bits(&self) -> (b: u32)
        ensures
            b == self@,
    {
        self.0
    }

    /// Whether every bit of `other` is set.
    pub fn contains(&self, other: Flags) -> (b: bool)
        ensures
            b == bits_contain(self@, other@),
    {
        self.0 & other.0 == other.0
    }

    /// Set the bits of `other`.
    pub fn insert(&mut self, other: Flags)
        ensures
            final(self)@ == old(self)@ | other@,
    {
        self.0 = self.0 | other.0;
    }

    /// Clear the bits of `other`.
    pub fn remove(&mut self, other: Flags)
        ensures
            final(self)@ == old(self)@ & !other@,
    {
        self.0 = self.0 & !other.0;
    }
}

/// Setting or clearing one of the named bits changes that bit alone.
pub proof fn lemma_named_bits(b: u32)
    by (bit_vector)
    ensures
        bits_contain(b | 0x2000u32, 0x2000u32),
        bits_contain(b | 0x4000u32, 0x4000u32),
        bits_contain(b | 0x8000u32, 0x8000u32),
        !bits_contain(b & !0x2000u32, 0x2000u32),
        !bits_contain(b & !0x4000u32, 0x4000u32),
        !bits_contain(b & !0x8000u32, 0x8000u32),
        bits_contain(b | 0x2000u32, 0x4000u32) == bits_contain(b, 0x4000u32),
        bits_contain(b | 0x2000u32, 0x8000u32) == bits_contain(b, 0x8000u32),
        bits_contain(b & !0x2000u32, 0x4000u32) == bits_contain(b, 0x4000u32),
        bits_contain(b & !0x2000u32, 0x8000u32) == bits_contain(b, 0x8000u32),
        bits_contain(b | 0x4000u32, 0x2000u32) == bits_contain(b, 0x2000u32),
        bits_contain(b | 0x4000u32, 0x8000u32) == bits_contain(b, 0x8000u32),
        bits_contain(b & !0x4000u32, 0x2000u32) == bits_contain(b, 0x2000u32),
        bits_contain(b & !0x4000u32, 0x8000u32) == bits_contain(b, 0x8000u32),
        bits_contain(b | 0x8000u32, 0x2000u32) == bits_contain(b, 0x2000u32),
        bits_contain(b | 0x8000u32, 0x4000u32) == bits_contain(b, 0x4000u32),
        bits_contain(b & !0x8000u32, 0x2000u32) == bits_contain(b, 0x2000u32),
        bits_contain(b & !0x8000u32, 0x4000u32) == bits_contain(b, 0x4000u32),
        !bits_contain(b, 0x4000u32) ==> (b | 0x4000u32) & !0x4000u32 == b,
        !bits_contain(0, 0x2000u32),
        !bits_contain(0, 0x4000u32),
        !bits_contain(0, 0x8000u32),
{
}

} // verus!
