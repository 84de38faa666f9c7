use vstd::prelude::*;

verus! {

/// The width of a length prefix: the number of bits of the unsigned
/// integer that precedes a variable-length field on the wire.
#[derive(Clone, Copy, Debug, PartialEq, Eq, Structural)]
pub enum PrefixWidth {
    /// An 8-bit prefix: one byte, values up to 255.
    W8,
    /// A 16-bit prefix: two bytes.
    W16,
    /// A 32-bit prefix: four bytes.
    W32,
    /// A 64-bit prefix: eight bytes.
    W64,
}

impl PrefixWidth {
    /// The number of bytes the prefix itself occupies on the wire.
    pub open spec fn nbytes(self) -> nat {
        match self {
            PrefixWidth::W8 => 1,
            PrefixWidth::W16 => 2,
            PrefixWidth::W32 => 4,
            PrefixWidth::W64 => 8,
        }
    }

    /// The largest count or byte size the prefix can record.
    pub open spec fn max(self) -> nat {
        match self {
            PrefixWidth::W8 => 0xff,
            PrefixWidth::W16 => 0xffff,
            PrefixWidth::W32 => 0xffff_ffff,
            PrefixWidth::W64 => 0xffff_ffff_ffff_ffff,
        }
    }

    /// The number of bytes the prefix itself occupies on the wire.
    pub fn byte_count(self) -> (n: usize)
        ensures
            n == self.nbytes(),
    {
        match self {
            PrefixWidth::W8 => 1,
            PrefixWidth::W16 => 2,
            PrefixWidth::W32 => 4,
            PrefixWidth::W64 => 8,
        }
    }

    /// The largest count or byte size the prefix can record.
    pub fn max_value(self) -> (n: u64)
        ensures
            n == self.max(),
    {
        match self {
            PrefixWidth::W8 => 0xff,
            PrefixWidth::W16 => 0xffff,
            PrefixWidth::W32 => 0xffff_ffff,
            PrefixWidth::W64 => 0xffff_ffff_ffff_ffff,
        }
    }
}

} // verus!
