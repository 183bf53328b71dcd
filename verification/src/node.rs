//! The records of the node arena and the handles that name them.

use vstd::prelude::*;
use crate::geometry::Rectangle;

verus! {

/// The link value that names no node.
pub const NONE_INDEX: u32 = 0xFFFF_FFFF;

/// The low bits of an `AllocId`, which hold the slot.
pub const IDX_MASK: u32 = 0x00FF_FFFF;

/// The high bits of an `AllocId`, which hold the slot's generation.
pub const GEN_MASK: u32 = 0xFF00_0000;

/// The number of slots that a 24-bit index can name.
pub const MAX_NODES: usize = 0x0100_0000;

/// The position of a node in the arena, or the sentinel that names none.
#[derive(Copy, Clone, Debug, PartialEq, Eq, Hash, Structural)]
pub struct AllocIndex(pub u32);

impl AllocIndex {
    pub open spec fn none_spec() -> AllocIndex {
        AllocIndex(NONE_INDEX)
    }

    pub open spec fn index_spec(self) -> usize {
        self.0 as usize
    }

    pub open spec fn is_none_spec(self) -> bool {
        self.0 == NONE_INDEX
    }

    pub open spec fn is_some_spec(self) -> bool {
        self.0 != NONE_INDEX
    }

    /// The sentinel.
    #[verifier::when_used_as_spec(none_spec)]
    pub fn none() -> (i: AllocIndex)
        ensures
            i == Self::none_spec(),
    {
        AllocIndex(NONE_INDEX)
    }

    #[verifier::when_used_as_spec(index_spec)]
    pub fn index(self) -> (i: usize)
        ensures
            i == self.0,
    {
        self.0 as usize
    }

    #[verifier::when_used_as_spec(is_none_spec)]
    pub fn is_none(self) -> (b: bool)
        ensures
            b == (self.0 == NONE_INDEX),
    {
        self.0 == NONE_INDEX
    }

    #[verifier::when_used_as_spec(is_some_spec)]
    pub fn is_some(self) -> (b: bool)
        ensures
            b == (self.0 != NONE_INDEX),
    {
        self.0 != NONE_INDEX
    }
}

/// An opaque handle to an allocated rectangle: a slot and the generation that
/// the slot had when the rectangle was handed out.
#[derive(Copy, Clone, Debug, PartialEq, Eq, Hash, Structural)]
pub struct AllocId(pub u32);

impl AllocId {
    /// The slot that the handle names.
    pub open spec fn slot(self) -> int {
        self.0 as int % 0x0100_0000
    }

    /// The generation that the handle carries.
    pub open spec fn generation(self) -> int {
        self.0 as int / 0x0100_0000
    }

    /// The handle for `slot` at `generation`.
    pub open spec fn pack(slot: int, generation: int) -> AllocId {
        AllocId((generation * 0x0100_0000 + slot) as u32)
    }

    /// The slot part of the handle: its low 24 bits.
    pub fn to_index(self) -> (idx: AllocIndex)
        ensures
            idx.0 == self.slot(),
            idx.0 == self.0 & IDX_MASK,
            idx.0 < 0x0100_0000,
    {
        let n = self.0;
        proof {
            assert(n & 0x00FF_FFFF == n % 0x0100_0000) by (bit_vector);
        }
        AllocIndex(n & IDX_MASK)
    }

    /// The generation part of the handle: its high 8 bits.
    pub fn to_generation(self) -> (g: u8)
        ensures
            g == self.generation(),
            g == self.0 >> 24,
    {
        let n = self.0;
        proof {
            assert(n >> 24 == n / 0x0100_0000 && n >> 24 < 256) by (bit_vector);
        }
        (n >> 24) as u8
    }

    /// The handle as a plain number.
    pub fn serialize(&self) -> (n: u32)
        ensures
            n == self.0,
    {
        self.0
    }

    /// The handle that `serialize` gave `n` for.
    pub fn deserialize(n: u32) -> (id: AllocId)
        ensures
            id == AllocId(n),
    {
        AllocId(n)
    }
}

/// Packing a slot with a generation and taking the handle apart again gives
/// both back, and every handle is the packing of its two parts.
pub proof fn lemma_pack_unpack(slot: int, generation: int)
    requires
        0 <= slot < 0x0100_0000,
        0 <= generation < 256,
    ensures
        AllocId::pack(slot, generation).slot() == slot,
        AllocId::pack(slot, generation).generation() == generation,
{
    let n = generation * 0x0100_0000 + slot;
    assert(0 <= n <= 0xFFFF_FFFF);
    assert(n % 0x0100_0000 == slot && n / 0x0100_0000 == generation) by (nonlinear_arith)
        requires
            n == generation * 0x0100_0000 + slot,
            0 <= slot < 0x0100_0000,
    ;
}

/// An allocated rectangle and the handle that releases it.
#[derive(Copy, Clone, Debug, PartialEq, Eq, Structural)]
pub struct Allocation {
    pub id: AllocId,
    pub rectangle: Rectangle,
}

/// An allocation that a rearrangement moved: what it was and what it is now.
#[derive(Copy, Clone, Debug, PartialEq, Eq, Structural)]
pub struct Change {
    pub old: Allocation,
    pub new: Allocation,
}

/// The outcome of a rearrangement.
#[derive(Clone, Debug)]
pub struct ChangeList {
    /// The allocations that were placed again, largest first.
    pub changes: Vec<Change>,
    /// The allocations that found no place, largest first.
    pub failures: Vec<Allocation>,
}

/// The axis along which a node and its siblings are laid out.
#[derive(Copy, Clone, Debug, PartialEq, Eq, Hash, Structural)]
pub enum Orientation {
    Vertical,
    Horizontal,
}

impl Orientation {
    pub open spec fn flipped_spec(self) -> Orientation {
        match self {
            Orientation::Vertical => Orientation::Horizontal,
            Orientation::Horizontal => Orientation::Vertical,
        }
    }

    /// The other axis.
    #[verifier::when_used_as_spec(flipped_spec)]
    pub fn flipped(self) -> (o: Orientation)
        ensures
            o == self.flipped_spec(),
    {
        match self {
            Orientation::Vertical => Orientation::Horizontal,
            Orientation::Horizontal => Orientation::Vertical,
        }
    }
}

/// What a slot of the arena currently is.
#[derive(Copy, Clone, Debug, PartialEq, Eq, Hash, Structural)]
pub enum NodeKind {
    Container,
    Alloc,
    Free,
    Unused,
}

/// One slot of the arena.
///
/// While the slot is `Unused`, `next_sibling` links the chain of reusable
/// slots and the other fields mean nothing.
#[derive(Copy, Clone, Debug, PartialEq, Eq, Hash, Structural)]
pub struct Node {
    pub parent: AllocIndex,
    pub next_sibling: AllocIndex,
    pub prev_sibling: AllocIndex,
    pub kind: NodeKind,
    pub orientation: Orientation,
    pub rect: Rectangle,
}

} // verus!
