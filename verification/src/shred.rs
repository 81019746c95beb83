//! What identifies a shred.

use vstd::prelude::*;

verus! {

/// The two kinds of shreds of a slot.
#[derive(Clone, Copy, Debug, PartialEq, Eq, Structural)]
pub enum ShredType {
    Data,
    Code,
}

/// The identity of a shred: its slot, its index in the slot, and its kind.
#[derive(Clone, Copy, Debug, PartialEq, Eq, Structural)]
pub struct ShredId {
    pub slot: u64,
    pub index: u32,
    pub shred_type: ShredType,
}

/// The parts of a received shred that the comparison reads.
#[derive(Clone, Copy, Debug, PartialEq, Eq, Structural)]
pub struct ParsedShred {
    pub id: ShredId,
    pub slot: u64,
    pub version: u16,
}

impl ShredId {
    /// A number that stands for this identity alone.
    pub open spec fn key_of(self) -> u128 {
        (self.slot * 0x2_0000_0000 + self.index * 2 + (if self.shred_type is Data {
            0int
        } else {
            1int
        })) as u128
    }

    /// A number that stands for this identity alone.
    pub fn key(&self) -> (k: u128)
        ensures
            k == self.key_of(),
    {
        let t: u128 = match self.shred_type {
            ShredType::Data => 0,
            ShredType::Code => 1,
        };
        (self.slot as u128) * 0x2_0000_0000 + (self.index as u128) * 2 + t
    }
}

/// Different shreds have different numbers.
pub proof fn law_key_identifies(a: ShredId, b: ShredId)
    ensures
        a.key_of() == b.key_of() <==> a == b,
{
}

} // verus!
