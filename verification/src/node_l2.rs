use vstd::prelude::*;
use crate::vec3::{UVec3, uvec3};
use crate::node::{Node, spec_child_index};

verus! {

/// The word (0 or 1) of a [NodeL2] that holds the voxel at local position `p`.
pub open spec fn l2_word(p: UVec3) -> int {
    spec_child_index(p, 1) / 4
}

/// The bit, inside its word, of the voxel at local position `p` of a [NodeL2]:
/// each byte holds one 2x2x2 octant, the first octant in the highest byte.
pub open spec fn l2_bit(p: UVec3) -> int {
    spec_child_index(uvec3_spec(p.x % 2, p.y % 2, p.z % 2), 0) + 8 * (3 - spec_child_index(p, 1) % 4)
}

/// A [UVec3] from three coordinates, in specifications.
pub open spec fn uvec3_spec(x: u32, y: u32, z: u32) -> UVec3 {
    UVec3 { x, y, z }
}

/// `p` lies inside a 4x4x4 grid.
pub open spec fn in_grid4(p: UVec3) -> bool {
    p.x < 4 && p.y < 4 && p.z < 4
}

/// Bit `b` of `w` is set.
pub open spec fn bit_set(w: u32, b: int) -> bool {
    0 <= b < 32 && ((w >> (b as u32)) & 1u32) == 1u32
}

/// Nodes on level 2: each one is a 4x4x4 grid of voxels, one bit per voxel.
///
/// It takes 4.5 times less memory than a [Node]. While it is free, its first
/// word links the next free [NodeL2].
#[derive(Clone, Copy, Debug, PartialEq, Eq, Hash)]
pub struct NodeL2 {
    pub packed_children: [u32; 2],
}

impl NodeL2 {
    /// There is a voxel at the local position `p`.
    pub open spec fn has(&self, p: UVec3) -> bool {
        bit_set(self.packed_children[l2_word(p)], l2_bit(p))
    }

    /// Both words are zero.
    pub open spec fn is_zero(&self) -> bool {
        self.packed_children[0] == 0 && self.packed_children[1] == 0
    }

    /// The empty grid.
    pub fn new() -> (n: NodeL2)
        ensures
            n.is_zero(),
    {
        NodeL2 { packed_children: [0u32; 2] }
    }

    /// Which word, which bit of it: `(8 * (3 - octant % 4), index in the octant, octant / 4)`
    /// as `(outer offset, inner offset, word)`.
    fn get_offsets(position: UVec3) -> (r: (usize, usize, usize))
        requires
            in_grid4(position),
        ensures
            r.2 == l2_word(position),
            r.1 + r.0 * 8 == l2_bit(position),
            r.0 < 4,
            r.1 < 8,
            r.2 < 2,
    {
        let mut outer_offset = Node::get_child_index(position, 1);
        let idx = outer_offset / 4;
        outer_offset %= 4;
        outer_offset = 3 - outer_offset;
        let size: u32 = 2;
        let local = uvec3(position.x % size, position.y % size, position.z % size);
        let inner_offset = Node::get_child_index(local, 0);
        proof {
            vstd::arithmetic::power2::lemma2_to64();
        }
        (outer_offset, inner_offset, idx)
    }

    /// Sets the voxel at `position` within the 4x4x4 grid.
    pub fn set(&mut self, position: UVec3)
        requires
            in_grid4(position),
        ensures
            forall|q: UVec3| in_grid4(q) ==> (#[trigger] final(self).has(q) <==> (old(self).has(q) || q == position)),
            final(self).packed_children[l2_word(position)]
                == old(self).packed_children[l2_word(position)] | (1u32 << (l2_bit(position) as u32)),
            final(self).packed_children[1 - l2_word(position)] == old(self).packed_children[1 - l2_word(position)],
    {
        let (outer_offset, inner_offset, idx) = Self::get_offsets(position);
        let o = outer_offset as u32;
        let i = inner_offset as u32;
        let w = self.packed_children[idx];
        assert((1u32 << i) << (o * 8) == 1u32 << (i + o * 8)) by (bit_vector)
            requires i < 8, o < 4;
        self.packed_children[idx] = w | ((1u32 << i) << (o * 8));
        proof {
            let b = (i + o * 8) as u32;
            assert forall|q: UVec3| in_grid4(q) implies (#[trigger] self.has(q) <==> (old(self).has(q) || q == position)) by {
                lemma_l2_slot_injective(q, position);
                let c = l2_bit(q) as u32;
                let w2 = old(self).packed_children[l2_word(q)];
                if l2_word(q) == idx {
                    assert(((w2 | (1u32 << b)) >> c) & 1u32 == (if c == b { 1u32 } else { (w2 >> c) & 1u32 })) by (bit_vector)
                        requires b < 32, c < 32;
                }
            }
        }
    }

    /// There is a voxel at `position` within the 4x4x4 grid.
    pub fn is_at(&self, position: UVec3) -> (b: bool)
        requires
            in_grid4(position),
        ensures
            b == self.has(position),
    {
        let (outer_offset, inner_offset, idx) = Self::get_offsets(position);
        let o = outer_offset as u32;
        let i = inner_offset as u32;
        let w = self.packed_children[idx];
        assert((w & ((1u32 << i) << (o * 8)) != 0) == (((w >> (i + o * 8)) & 1u32) == 1u32)) by (bit_vector)
            requires i < 8, o < 4;
        self.packed_children[idx] & ((1u32 << i) << (o * 8)) != 0
    }

    /// The octant `index` (0 to 7) on level 1, as eight bits, one per voxel.
    pub fn index_l1(&self, index: usize) -> (r: u32)
        requires
            index < 8,
        ensures
            r == (self.packed_children[(index / 4) as int] >> (((3 - index % 4) * 8) as u32)) & 0xFFu32,
            r < 256,
    {
        let mut offset = index;
        let idx = offset / 4;
        offset %= 4;
        let s = ((3 - offset) * 8) as u32;
        let w = self.packed_children[idx];
        assert((w >> s) & 0xFFu32 < 256) by (bit_vector);
        (self.packed_children[idx] >> s) & 0b11_11_11_11
    }

    /// A single voxel on level 0: `index` (0 to 63) is eight times the octant's
    /// index plus the voxel's index inside the octant.
    pub fn index_l0(&self, index: usize) -> (b: bool)
        requires
            index < 64,
        ensures
            b == ((((self.packed_children[((index / 8) / 4) as int] >> (((3 - (index / 8) % 4) * 8) as u32)) & 0xFFu32)
                >> ((index % 8) as u32)) & 1u32 == 1u32),
    {
        let octant = self.index_l1(index / 8);
        (octant >> ((index % 8) as u32)) & 1 == 1
    }

    /// Clears the voxel at `position` within the 4x4x4 grid.
    pub fn unset(&mut self, position: UVec3)
        requires
            in_grid4(position),
        ensures
            forall|q: UVec3| in_grid4(q) ==> (#[trigger] final(self).has(q) <==> (old(self).has(q) && q != position)),
            final(self).packed_children[l2_word(position)]
                == old(self).packed_children[l2_word(position)] & !(1u32 << (l2_bit(position) as u32)),
            final(self).packed_children[1 - l2_word(position)] == old(self).packed_children[1 - l2_word(position)],
    {
        let (outer_offset, inner_offset, idx) = Self::get_offsets(position);
        let o = outer_offset as u32;
        let i = inner_offset as u32;
        let w = self.packed_children[idx];
        assert((1u32 << i) << (o * 8) == 1u32 << (i + o * 8)) by (bit_vector)
            requires i < 8, o < 4;
        self.packed_children[idx] = w & !((1u32 << i) << (o * 8));
        proof {
            let b = (i + o * 8) as u32;
            assert forall|q: UVec3| in_grid4(q) implies (#[trigger] self.has(q) <==> (old(self).has(q) && q != position)) by {
                lemma_l2_slot_injective(q, position);
                let c = l2_bit(q) as u32;
                let w2 = old(self).packed_children[l2_word(q)];
                if l2_word(q) == idx {
                    assert(((w2 & !(1u32 << b)) >> c) & 1u32 == (if c == b { 0u32 } else { (w2 >> c) & 1u32 })) by (bit_vector)
                        requires b < 32, c < 32;
                }
            }
        }
    }

    /// The first word, which links the next free node while this one is free.
    pub fn get_child(&self, index: usize) -> (r: u32)
        requires
            index < 2,
        ensures
            r == self.packed_children[index as int],
    {
        self.packed_children[index]
    }

    /// Sets one word.
    pub fn set_child(&mut self, index: usize, child: u32)
        requires
            index < 2,
        ensures
            final(self).packed_children[index as int] == child,
            final(self).packed_children[1 - index] == old(self).packed_children[1 - index],
    {
        self.packed_children[index] = child;
    }
}

impl Default for NodeL2 {
    fn default() -> (n: NodeL2)
        ensures
            n.is_zero(),
    {
        NodeL2 { packed_children: [0u32; 2] }
    }
}

/// An empty grid holds no voxel.
pub proof fn lemma_zero_has_nothing(n: NodeL2, q: UVec3)
    requires
        n.is_zero(),
    ensures
        !n.has(q),
{
    let w = n.packed_children[l2_word(q)];
    if 0 <= l2_word(q) < 2 && 0 <= l2_bit(q) < 32 {
        let b = l2_bit(q) as u32;
        assert(w == 0);
        assert((0u32 >> b) & 1u32 == 0u32) by (bit_vector);
    }
}

/// Distinct positions of the 4x4x4 grid have distinct bits, and every bit lies
/// inside its 32-bit word.
pub proof fn lemma_l2_slot_injective(p: UVec3, q: UVec3)
    requires
        in_grid4(p),
        in_grid4(q),
    ensures
        0 <= l2_word(p) < 2,
        0 <= l2_bit(p) < 32,
        (l2_word(p) == l2_word(q) && l2_bit(p) == l2_bit(q)) ==> p == q,
{
    vstd::arithmetic::power2::lemma2_to64();
}

/// The octant byte that [NodeL2::index_l1] returns for the octant of `p` holds
/// the voxel at `p` in bit [`spec_child_index`] of `p`'s place inside the octant.
pub proof fn law_index_l1_has(n: NodeL2, p: UVec3)
    requires
        in_grid4(p),
    ensures
        n.has(p) == (((((n.packed_children[spec_child_index(p, 1) / 4] >> (((3 - spec_child_index(p, 1) % 4) * 8) as u32)) & 0xFFu32)
            >> (spec_child_index(uvec3_spec(p.x % 2, p.y % 2, p.z % 2), 0) as u32)) & 1u32) == 1u32),
{
    vstd::arithmetic::power2::lemma2_to64();
    let w = n.packed_children[spec_child_index(p, 1) / 4];
    let k = (3 - spec_child_index(p, 1) % 4) as u32;
    let j = spec_child_index(uvec3_spec(p.x % 2, p.y % 2, p.z % 2), 0) as u32;
    assert(k < 4 && j < 8);
    assert((((w >> (k * 8)) & 0xFFu32) >> j) & 1u32 == (w >> (j + 8 * k)) & 1u32) by (bit_vector)
        requires k < 4, j < 8;
}

} // verus!
