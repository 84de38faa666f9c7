use vstd::prelude::*;

verus! {

/// The byte ordering used for every multi-byte field of one encode or
/// decode pass. An ordering is chosen per call and never mixed within a
/// call tree.
#[derive(Clone, Copy, Debug, PartialEq, Eq, Structural)]
pub enum ByteOrder {
    /// Most significant byte first ("network" order); the default.
    BigEndian,
    /// Least significant byte first.
    LittleEndian,
}

/// Marker for the little-endian wire layout, for callers that select the
/// ordering by a type rather than by a [`ByteOrder`] value.
pub struct LittleEndian {}

impl LittleEndian {
    /// The [`ByteOrder`] this marker stands for.
    pub fn order() -> (o: ByteOrder)
        ensures
            o == ByteOrder::LittleEndian,
    {
        ByteOrder::LittleEndian
    }
}

} // verus!
