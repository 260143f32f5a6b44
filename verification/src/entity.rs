use vstd::prelude::*;

verus! {

/// A live entity in the world, named by the number the world gave it: its
/// slot index in the high half, the slot's generation in the low half, so
/// that entities order by index, then generation.
#[derive(Clone, Copy, PartialEq, Eq, Debug, Hash, Structural)]
pub struct Entity(pub u64);

impl Entity {
    /// The entity from its slot index and the slot's generation.
    pub fn from_parts(index: u32, generation: u32) -> (entity: Entity)
        ensures
            entity.0 == index * 0x1_0000_0000 + generation,
    {
        let high = (index as u64) << 32u64;
        assert(high == index * 0x1_0000_0000) by (bit_vector)
            requires
                high == (index as u64) << 32u64,
        ;
        Entity(high + generation as u64)
    }

    /// The slot index the world stores the entity in.
    pub fn index(self) -> (index: u32)
        ensures
            index == self.0 / 0x1_0000_0000,
    {
        let v = self.0;
        let index = v >> 32u64;
        assert(index == v / 0x1_0000_0000 && index < 0x1_0000_0000) by (bit_vector)
            requires
                index == v >> 32u64,
        ;
        index as u32
    }
}

/// The identity of an asset in the project catalogue.
#[derive(Clone, Copy, PartialEq, Eq, Debug, Hash, Structural)]
pub struct AssetId(pub u128);

} // verus!
