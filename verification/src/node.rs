use vstd::prelude::*;
use vstd::arithmetic::power2::pow2;
use crate::vec3::{UVec3, uvec3};
use crate::utils::l2s;

verus! {

/// `1` where the coordinate lies in the upper half of a cube whose halves are
/// `2^level` wide, else `0`.
pub open spec fn half_bit(c: int, level: nat) -> int {
    if c >= pow2(level) { 1 } else { 0 }
}

/// Index (0 to 7) of the child of a cube on level `level + 1` that holds
/// the local position `p`: bit 0 for x, bit 1 for y, bit 2 for z.
pub open spec fn spec_child_index(p: UVec3, level: nat) -> int {
    half_bit(p.x as int, level) + 2 * half_bit(p.y as int, level) + 4 * half_bit(p.z as int, level)
}

/// The x offset (0 or 1) of child `i` inside its parent.
pub open spec fn child_dx(i: int) -> int { i % 2 }
/// The y offset (0 or 1) of child `i` inside its parent.
pub open spec fn child_dy(i: int) -> int { (i / 2) % 2 }
/// The z offset (0 or 1) of child `i` inside its parent.
pub open spec fn child_dz(i: int) -> int { (i / 4) % 2 }

/// A node of the voxel graph.
///
/// `flag` says what the node is: `0` a branch, `-1` a free node (its first child
/// links the next free node), `-3` the last fork of a chain, `n > 0` a fork whose
/// chain goes on at node `n`. A fork keeps up to four pairs
/// `(voxel_id, branch)` in its children.
#[derive(Clone, Copy, Debug, PartialEq)]
pub struct Node {
    pub flag: i32,
    pub children: [u32; 8],
}

impl Node {
    /// Every child is `0`.
    pub open spec fn no_children(&self) -> bool {
        forall|i: int| 0 <= i < 8 ==> #[trigger] self.children[i] == 0
    }

    /// Internal index of a child converted to its offset inside the parent.
    pub fn get_child_position(i: u32) -> (p: UVec3)
        ensures
            p.x == i % 2,
            p.y == (i / 2) % 2,
            p.z == (i / 4) % 2,
    {
        assert((i & 1) == i % 2) by (bit_vector);
        assert(((i >> 1) & 1) == (i / 2) % 2) by (bit_vector);
        assert(((i >> 2) & 1) == (i / 4) % 2) by (bit_vector);
        uvec3(i & 1, (i >> 1) & 1, (i >> 2) & 1)
    }

    /// Converts a position inside a node to the index of the child that holds it;
    /// the children of the node are `2^level` wide.
    pub fn get_child_index(pos: UVec3, level: usize) -> (i: usize)
        requires
            level < 32,
        ensures
            i == spec_child_index(pos, level as nat),
            i < 8,
    {
        let child_size = l2s(level);
        let x: usize = if pos.x < child_size { 0 } else { 1 };
        let y: usize = if pos.y < child_size { 0 } else { 1 };
        let z: usize = if pos.z < child_size { 0 } else { 1 };
        x + y * 2 + z * 4
    }

    /// A node with the given flag and no children.
    pub fn new(level: usize, flag: i32) -> (n: Node)
        ensures
            n.flag == flag,
            n.no_children(),
    {
        let _ = level;
        Node { flag, children: [0u32; 8] }
    }

    /// A fork: the last one of a chain, or one whose chain goes on.
    pub fn is_fork(&self) -> (b: bool)
        ensures
            b == (self.flag == -3 || self.flag > 0),
    {
        self.flag == -3 || self.flag > 0
    }
}

impl Default for Node {
    fn default() -> (n: Node)
        ensures
            n.flag == 0,
            n.no_children(),
    {
        Node { flag: 0, children: [0u32; 8] }
    }
}

/// The path from the root to a voxel, three bits per level: bits `3l .. 3l + 3`
/// hold the index of the child taken on level `l`.
#[derive(Clone, Copy, Debug, PartialEq, Eq, Structural)]
pub struct NodeAddr(pub u64);

/// The three bits for `level` in an address.
pub open spec fn spec_addr_idx(a: u64, level: nat) -> u64 {
    ((a >> ((level * 3) as u64)) & 7u64)
}

/// `p` modulo `2^level` on every axis.
pub open spec fn mod_pos(p: UVec3, level: nat) -> UVec3 {
    UVec3 {
        x: (p.x as int % pow2(level) as int) as u32,
        y: (p.y as int % pow2(level) as int) as u32,
        z: (p.z as int % pow2(level) as int) as u32,
    }
}

/// What [NodeAddr::from_position] stores for `level`: the index of the child,
/// `2^(level - 1)` wide, that holds the position inside its node on `level`.
pub open spec fn addr_spec(position: UVec3, depth: nat, level: nat) -> u64 {
    if 1 <= level <= depth {
        let p = if level == depth { position } else { mod_pos(position, level) };
        spec_child_index(p, (level - 1) as nat) as u64
    } else {
        0
    }
}

impl NodeAddr {
    /// The path to `position` in a graph of the given depth: for each level from
    /// `depth` down to 1, the index of the child that holds the position.
    pub fn from_position(position: UVec3, depth: usize) -> (a: NodeAddr)
        requires
            depth <= 20,
        ensures
            forall|level: nat| level <= 21 ==> #[trigger] spec_addr_idx(a.0, level) == addr_spec(position, depth as nat, level),
    {
        let mut pos = position;
        let mut addr = Self::new();
        let mut level = depth;
        let mut size = l2s(depth);
        proof {
            assert forall|lv: nat| lv <= 21 implies #[trigger] spec_addr_idx(addr.0, lv) == 0 by {
                let s: u64 = (lv * 3) as u64;
                assert((0u64 >> s) & 7u64 == 0u64) by (bit_vector);
            }
        }
        while level > 0
            invariant
                depth <= 20,
                level <= depth,
                size == pow2(level as nat),
                pos == (if level == depth { position } else { mod_pos(position, level as nat) }),
                forall|lv: nat| lv <= 21 ==> #[trigger] spec_addr_idx(addr.0, lv)
                    == (if lv > level { addr_spec(position, depth as nat, lv) } else { 0 }),
            decreases level,
        {
            let child_index = Node::get_child_index(pos, level - 1);
            let ghost a0 = addr.0;
            addr.set_idx(level, child_index);
            proof {
                assert forall|lv: nat| lv <= 21 implies #[trigger] spec_addr_idx(addr.0, lv)
                    == (if lv >= level { addr_spec(position, depth as nat, lv) } else { 0 }) by {
                    lemma_addr_set_get(a0, level as nat, child_index as u64, lv);
                }
                vstd::arithmetic::power2::lemma_pow2_unfold(level as nat);
                vstd::arithmetic::power2::lemma_pow2_pos((level - 1) as nat);
            }
            size /= 2;
            level -= 1;
            pos.x %= size;
            pos.y %= size;
            pos.z %= size;
            proof {
                let h = pow2(level as nat) as int;
                assert(pow2((level + 1) as nat) as int == h * 2);
                if level + 1 < depth {
                    vstd::arithmetic::div_mod::lemma_mod_mod(position.x as int, h, 2);
                    vstd::arithmetic::div_mod::lemma_mod_mod(position.y as int, h, 2);
                    vstd::arithmetic::div_mod::lemma_mod_mod(position.z as int, h, 2);
                }
                vstd::arithmetic::div_mod::lemma_mod_pos_bound(position.x as int, h);
                vstd::arithmetic::div_mod::lemma_mod_pos_bound(position.y as int, h);
                vstd::arithmetic::div_mod::lemma_mod_pos_bound(position.z as int, h);
                assert(pos == mod_pos(position, level as nat));
            }
        }
        addr
    }

    /// The empty path.
    pub fn new() -> (a: NodeAddr)
        ensures
            a.0 == 0,
    {
        NodeAddr(0)
    }

    /// Child index stored for the given level.
    pub fn get_idx(&self, level: usize) -> (i: usize)
        requires
            level <= 21,
        ensures
            i == spec_addr_idx(self.0, level as nat),
            i < 8,
    {
        let s: u64 = (level * 3) as u64;
        let a = self.0;
        assert((a >> s) & 7u64 <= 7u64) by (bit_vector);
        ((self.0 >> s) & 7u64) as usize
    }

    /// Stores a child index (0 to 7) for the given level (0 to 20), in place of
    /// the one stored there before; every other level keeps its index.
    pub fn set_idx(&mut self, level: usize, idx: usize)
        requires
            level <= 20,
            idx < 8,
        ensures
            forall|other: nat| other <= 21 ==> #[trigger] spec_addr_idx(final(self).0, other)
                == (if other == level { idx as u64 } else { spec_addr_idx(old(self).0, other) }),
    {
        let s: u64 = (level * 3) as u64;
        let a = self.0;
        let i = idx as u64;
        let b = (a & !(7u64 << s)) | (i << s);
        proof {
            assert forall|other: nat| other <= 21 implies #[trigger] spec_addr_idx(b, other)
                == (if other == level { idx as u64 } else { spec_addr_idx(a, other) }) by {
                lemma_addr_set_get(a, level as nat, i, other);
            }
        }
        self.0 = b;
    }
}

/// After storing index `i` for a level, the level reads `i` back and every
/// other level reads what it read before.
pub proof fn lemma_addr_set_get(a: u64, level: nat, i: u64, other: nat)
    requires
        level <= 20,
        other <= 21,
        i < 8,
    ensures
        ({
            let s: u64 = (level * 3) as u64;
            let b = (a & !(7u64 << s)) | (i << s);
            &&& spec_addr_idx(b, level) == i
            &&& other != level ==> spec_addr_idx(b, other) == spec_addr_idx(a, other)
        }),
{
    let s: u64 = (level * 3) as u64;
    let t: u64 = (other * 3) as u64;
    assert(s <= 60 && t <= 63);
    assert((((a & !(7u64 << s)) | (i << s)) >> s) & 7u64 == i) by (bit_vector)
        requires i < 8u64, s <= 60u64;
    if other != level {
        assert(t != s);
        assert(s % 3 == 0 && t % 3 == 0);
        assert(t + 3 <= s || s + 3 <= t);
        assert(((t + 3 <= s) || (s + 3 <= t)) ==> (((((a & !(7u64 << s)) | (i << s)) >> t) & 7u64) == ((a >> t) & 7u64))) by (bit_vector)
            requires i < 8u64, s <= 60u64, t <= 63u64;
    }
}

} // verus!
