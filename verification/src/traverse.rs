use vstd::prelude::*;
use core::ops::RangeInclusive;
use crate::layer::{Layer, Cell, BKey, child_cell, cell_of};
use crate::node::{Node, child_dx, child_dy, child_dz};
use crate::node_l2::NodeL2;
use crate::stack::EStack;
use crate::utils::{pw, l2s};
use crate::vec3::{UVec3, uvec3};
use crate::get::{eff, lemma_slot, lemma_fork_flag};
use crate::set::path_key;

verus! {

/// What a traversal reports of each node that it passes.
#[derive(Clone, Copy, Debug, PartialEq, Eq, Structural)]
pub struct Props {
    /// Position of the node in global 3d coordinates.
    pub position: UVec3,
    /// Positions are always tracked.
    pub positioned: bool,
    /// Index of the node's parent: of the fork that names it, for a node on level 4.
    pub parent_idx: usize,
    /// Index of the node: in `nodes` on levels 3 and up, in `level_2` on level 2,
    /// the eight bits of the octant on level 1, and `1` on level 0.
    pub node_idx: usize,
    /// Level of the node.
    pub level: usize,
    /// Voxel id of the subtree the node belongs to, `0` above level 4.
    pub voxel_id: u32,
}

/// A position in specifications.
pub type Pos = (int, int, int);

/// Position of child `i` of a node on `level` that lies at `p`.
pub open spec fn child_pos(p: Pos, i: int, level: int) -> Pos {
    let h = pw((level - 1) as nat);
    (p.0 + child_dx(i) * h, p.1 + child_dy(i) * h, p.2 + child_dz(i) * h)
}

/// What a traversal reports of a node.
pub open spec fn event(level: int, p: Pos, node: int, parent: int, vid: int) -> Props {
    Props {
        position: UVec3 { x: p.0 as u32, y: p.1 as u32, z: p.2 as u32 },
        positioned: true,
        parent_idx: parent as usize,
        node_idx: node as usize,
        level: level as usize,
        voxel_id: vid as u32,
    }
}

/// The eight bits of octant `o` of a level-2 node, as [NodeL2::index_l1] reads them.
pub open spec fn l1_byte(n: NodeL2, o: int) -> int {
    ((n.packed_children[o / 4] >> (((3 - o % 4) * 8) as u32)) & 0xFFu32) as int
}

/// Bit `i` of the octant `b` is set.
pub open spec fn l0_bit(b: int, i: int) -> bool {
    (((b as u32) >> (i as u32)) & 1u32) == 1u32
}

impl Layer {
    /// What a traversal reports below child `i` of the node `n` on `level`, whose
    /// cell is `c`, which belongs to the subtree of `v` and lies at `p`.
    pub open spec fn child_events(&self, level: int, c: Cell, v: int, n: int, p: Pos, i: int) -> Seq<Props>
        decreases level, 8 - i, 0int,
    {
        if !(0 <= i < 8) || level < 1 {
            Seq::empty()
        } else {
            let cc = child_cell(c, i);
            let cp = child_pos(p, i, level);
            if level >= 6 {
                let ck = (level - 1, cc.0, cc.1, cc.2, 0int);
                if self.branch@.contains_key(ck) {
                    seq![event(level - 1, cp, self.branch@[ck], n, v)]
                        + self.node_events(level - 1, cc, v, self.branch@[ck], cp, 0)
                } else {
                    Seq::empty()
                }
            } else if level == 5 {
                if self.chains@.contains_key(cc) {
                    self.entry_events(cc, cp, 0)
                } else {
                    Seq::empty()
                }
            } else if level == 4 {
                let ck = (3int, cc.0, cc.1, cc.2, v);
                if self.branch@.contains_key(ck) {
                    seq![event(3, cp, self.branch@[ck], n, v)] + self.node_events(3, cc, v, self.branch@[ck], cp, 0)
                } else {
                    Seq::empty()
                }
            } else if level == 3 {
                let lk = (cc.0, cc.1, cc.2, v);
                if self.leaf@.contains_key(lk) {
                    seq![event(2, cp, self.leaf@[lk], n, v)] + self.node_events(2, cc, v, self.leaf@[lk], cp, 0)
                } else {
                    Seq::empty()
                }
            } else if level == 2 {
                let b = l1_byte(self.level_2@[n], i);
                if b != 0 {
                    seq![event(1, cp, b, n, v)] + self.node_events(1, cc, v, b, cp, 0)
                } else {
                    Seq::empty()
                }
            } else if l0_bit(n, i) {
                seq![event(0, cp, 1, n, v)]
            } else {
                Seq::empty()
            }
        }
    }

    /// What a traversal reports below the children `i..8` of the node `n` on `level`.
    pub open spec fn node_events(&self, level: int, c: Cell, v: int, n: int, p: Pos, i: int) -> Seq<Props>
        decreases level, 8 - i, 1int,
    {
        if 0 <= i < 8 {
            self.child_events(level, c, v, n, p, i) + self.node_events(level, c, v, n, p, i + 1)
        } else {
            Seq::empty()
        }
    }

    /// What a traversal reports of the entries `t..` of the chain of forks of the
    /// level-4 cell `c`, which lies at `p`: each level-4 node, then what lies below it.
    pub open spec fn entry_events(&self, c: Cell, p: Pos, t: int) -> Seq<Props>
        decreases 5int, 0int, self.entries@[c].len() - t,
    {
        if 0 <= t < self.entries@[c].len() {
            let e = self.entries@[c][t];
            seq![event(4, p, e.1, self.chains@[c][t / 4], e.0)] + self.node_events(4, c, e.0, e.1, p, 0)
                + self.entry_events(c, p, t + 1)
        } else {
            Seq::empty()
        }
    }

    /// Steps a traversal takes below child `i` of a node on `level`.
    pub open spec fn child_work(&self, level: int, c: Cell, v: int, n: int, i: int) -> nat
        decreases level, 8 - i, 0int,
    {
        if !(0 <= i < 8) || level < 2 {
            0
        } else {
            let cc = child_cell(c, i);
            if level >= 6 {
                let ck = (level - 1, cc.0, cc.1, cc.2, 0int);
                if self.branch@.contains_key(ck) { self.node_work(level - 1, cc, v, self.branch@[ck], 0) } else { 0 }
            } else if level == 5 {
                if self.chains@.contains_key(cc) { self.entry_work(cc, 0) } else { 0 }
            } else if level == 4 {
                let ck = (3int, cc.0, cc.1, cc.2, v);
                if self.branch@.contains_key(ck) { self.node_work(3, cc, v, self.branch@[ck], 0) } else { 0 }
            } else if level == 3 {
                let lk = (cc.0, cc.1, cc.2, v);
                if self.leaf@.contains_key(lk) { self.node_work(2, cc, v, self.leaf@[lk], 0) } else { 0 }
            } else {
                let b = l1_byte(self.level_2@[n], i);
                if b != 0 { self.node_work(1, cc, v, b, 0) } else { 0 }
            }
        }
    }

    /// Steps a traversal takes over the children `i..8` of a node on `level`, and
    /// to leave it.
    pub open spec fn node_work(&self, level: int, c: Cell, v: int, n: int, i: int) -> nat
        decreases level, 8 - i, 1int,
    {
        if 0 <= i < 8 {
            1 + self.child_work(level, c, v, n, i) + self.node_work(level, c, v, n, i + 1)
        } else {
            1
        }
    }

    /// Steps a traversal takes over the entries `t..` of the chain of cell `c`.
    pub open spec fn entry_work(&self, c: Cell, t: int) -> nat
        decreases 5int, 0int, self.entries@[c].len() - t,
    {
        if 0 <= t < self.entries@[c].len() {
            let e = self.entries@[c][t];
            1 + self.node_work(4, c, e.0, e.1, 0) + self.entry_work(c, t + 1)
        } else {
            1
        }
    }

    /// The cell of the node a traversal starts from, on `level`, for the position `p`.
    pub open spec fn start_cell(&self, p: UVec3, level: int) -> Cell {
        if level >= self.depth {
            (0, 0, 0)
        } else {
            cell_of(path_key(eff(p, self.depth as nat), 0, level))
        }
    }

    /// What [Layer::traverse] returns: the reports of everything below the node on
    /// `level` whose cell is `from_node_position`, in depth-first order.
    pub open spec fn traverse_spec(&self, from_node_position: UVec3, level: int) -> Seq<Props> {
        let w = pw(level as nat);
        let p = UVec3 {
            x: (from_node_position.x * w) as u32,
            y: (from_node_position.y * w) as u32,
            z: (from_node_position.z * w) as u32,
        };
        let found = self.get_spec(p, level, Option::None);
        if found.spec_is_some() {
            self.node_events(level, self.start_cell(p, level), 0, found.node_idx as int, (p.x as int, p.y as int, p.z as int), 0)
        } else {
            Seq::empty()
        }
    }
}

/// A node a traversal is in the middle of: the index of its next child, or, for a
/// fork, twice the next slot.
#[derive(Clone, Copy)]
struct Frame {
    node_idx: usize,
    parent_idx: usize,
    position: UVec3,
    level: usize,
    voxel_id: usize,
    index: usize,
}

spec fn fpos(f: Frame) -> Pos {
    (f.position.x as int, f.position.y as int, f.position.z as int)
}

spec fn is_fork_frame(f: Frame) -> bool {
    f.level == 4 && f.voxel_id == 0
}

/// Frames on the stack have strictly decreasing ranks from the bottom up.
spec fn rank(f: Frame) -> int {
    if f.level >= 5 { f.level + 1 } else if is_fork_frame(f) { 5 } else { f.level as int }
}

spec fn fits(f: Frame) -> bool {
    let w = pw(f.level as nat);
    f.position.x + w <= 0x1_0000_0000 && f.position.y + w <= 0x1_0000_0000 && f.position.z + w <= 0x1_0000_0000
}

impl Layer {
    spec fn frame_ok(&self, f: Frame, g: (Cell, int)) -> bool {
        let c = g.0;
        let j = g.1;
        let l = f.level as int;
        let v = f.voxel_id as int;
        let n = f.node_idx as int;
        &&& 1 <= l <= 20
        &&& fits(f)
        &&& if is_fork_frame(f) {
            &&& self.chains@.contains_key(c)
            &&& 0 <= j < self.chains@[c].len()
            &&& n == self.chains@[c][j]
            &&& f.index < 8
            &&& f.index % 2 == 0
        } else {
            &&& f.index <= 8
            &&& l >= 5 ==> v == 0 && self.branch@.contains_key((l, c.0, c.1, c.2, 0int))
                && n == self.branch@[(l, c.0, c.1, c.2, 0int)]
            &&& (l == 4 || l == 3) ==> self.branch@.contains_key((l, c.0, c.1, c.2, v))
                && n == self.branch@[(l, c.0, c.1, c.2, v)]
            &&& l == 2 ==> self.leaf@.contains_key((c.0, c.1, c.2, v)) && n == self.leaf@[(c.0, c.1, c.2, v)]
            &&& l == 1 ==> n < 256
        }
    }

    spec fn frame_events(&self, f: Frame, g: (Cell, int)) -> Seq<Props> {
        if is_fork_frame(f) {
            self.entry_events(g.0, fpos(f), 4 * g.1 + f.index / 2)
        } else {
            self.node_events(f.level as int, g.0, f.voxel_id as int, f.node_idx as int, fpos(f), f.index as int)
        }
    }

    spec fn frame_work(&self, f: Frame, g: (Cell, int)) -> nat {
        if is_fork_frame(f) {
            self.entry_work(g.0, 4 * g.1 + f.index / 2)
        } else {
            self.node_work(f.level as int, g.0, f.voxel_id as int, f.node_idx as int, f.index as int)
        }
    }

    spec fn stack_events(&self, s: Seq<Frame>, g: Seq<(Cell, int)>) -> Seq<Props>
        decreases s.len(),
    {
        if s.len() == 0 {
            Seq::empty()
        } else {
            self.frame_events(s.last(), g.last()) + self.stack_events(s.drop_last(), g.drop_last())
        }
    }

    spec fn stack_work(&self, s: Seq<Frame>, g: Seq<(Cell, int)>) -> nat
        decreases s.len(),
    {
        if s.len() == 0 {
            0
        } else {
            self.frame_work(s.last(), g.last()) + self.stack_work(s.drop_last(), g.drop_last())
        }
    }

    spec fn stack_ok(&self, s: Seq<Frame>, g: Seq<(Cell, int)>, l0: int) -> bool {
        &&& s.len() == g.len()
        &&& 1 <= s.len()
        &&& s[0].level == l0
        &&& forall|k: int| 0 <= k < s.len() ==> self.frame_ok(#[trigger] s[k], g[k])
        &&& forall|k: int| 0 <= k < s.len() ==> rank(#[trigger] s[k]) + k <= l0 + 1
    }
}

/// Pushing a frame puts its reports and steps in front of the others.
proof fn lemma_stack_push(l: &Layer, s: Seq<Frame>, g: Seq<(Cell, int)>, f: Frame, x: (Cell, int))
    ensures
        l.stack_events(s.push(f), g.push(x)) == l.frame_events(f, x) + l.stack_events(s, g),
        l.stack_work(s.push(f), g.push(x)) == l.frame_work(f, x) + l.stack_work(s, g),
{
    assert(s.push(f).drop_last() =~= s);
    assert(g.push(x).drop_last() =~= g);
}

/// The child `i` of the node stored under `k`, and what the child's index says.
proof fn lemma_branch_node(l: &Layer, k: BKey, i: int)
    requires
        l.inv(),
        l.branch@.contains_key(k),
        0 <= i < 8,
    ensures
        1 <= l.branch@[k] < l.nlen(),
        l.nodes@[l.branch@[k]].flag == 0,
        l.nodes@[l.branch@[k]].children[i] as int == l.key_child(k, i),
        l.key_ok(k),
        ({
            let cc = child_cell(cell_of(k), i);
            &&& (k.0 >= 6 && l.branch@.contains_key((k.0 - 1, cc.0, cc.1, cc.2, 0int)))
                ==> 1 <= l.branch@[(k.0 - 1, cc.0, cc.1, cc.2, 0int)] < l.nlen()
            &&& (k.0 == 5 && l.chains@.contains_key(cc)) ==> l.chains@[cc].len() >= 1
                && 1 <= l.chains@[cc][0] < l.nlen()
            &&& (k.0 == 4 && l.branch@.contains_key((3int, cc.0, cc.1, cc.2, k.4)))
                ==> 1 <= l.branch@[(3int, cc.0, cc.1, cc.2, k.4)] < l.nlen()
            &&& (k.0 == 3 && l.leaf@.contains_key((cc.0, cc.1, cc.2, k.4)))
                ==> 1 <= l.leaf@[(cc.0, cc.1, cc.2, k.4)] < l.l2len()
        }),
{
    reveal(Layer::inv);
    let cc = child_cell(cell_of(k), i);
    if k.0 == 5 && l.chains@.contains_key(cc) {
        assert(l.chains@[cc][0] >= 1);
    }
    if k.0 >= 6 && l.branch@.contains_key((k.0 - 1, cc.0, cc.1, cc.2, 0int)) {
        assert(l.branch@[(k.0 - 1, cc.0, cc.1, cc.2, 0int)] >= 1);
    }
    if k.0 == 4 && l.branch@.contains_key((3int, cc.0, cc.1, cc.2, k.4)) {
        assert(l.branch@[(3int, cc.0, cc.1, cc.2, k.4)] >= 1);
    }
    if k.0 == 3 && l.leaf@.contains_key((cc.0, cc.1, cc.2, k.4)) {
        assert(l.leaf@[(cc.0, cc.1, cc.2, k.4)] >= 1);
    }
}

/// A stored level-2 node lies inside `level_2`.
proof fn lemma_leaf_node(l: &Layer, lk: (int, int, int, int))
    requires
        l.inv(),
        l.leaf@.contains_key(lk),
    ensures
        1 <= l.leaf@[lk] < l.l2len(),
{
    reveal(Layer::inv);
}

/// The fork `j` of the chain of cell `c` is a fork.
proof fn lemma_fork_node(l: &Layer, c: Cell, j: int)
    requires
        l.inv(),
        l.chains@.contains_key(c),
        0 <= j < l.chains@[c].len(),
    ensures
        1 <= l.chains@[c][j] < l.nlen(),
        l.nodes@[l.chains@[c][j]].flag == -3 || l.nodes@[l.chains@[c][j]].flag > 0,
{
    lemma_fork_flag(l, c, j);
}

/// The bit test of the traversal on level 1, on a byte.
proof fn lemma_l0_bit(n: usize, i: usize)
    requires
        n < 256,
        i < 8,
    ensures
        ((n & (1usize << i)) >> i) <= 1,
        (((n & (1usize << i)) >> i) == 1) == ((((n as u32) >> (i as u32)) & 1u32) == 1u32),
{
    assert(((n & (1usize << i)) >> i) <= 1) by (bit_vector)
        requires i < 8;
    assert((((n & (1usize << i)) >> i) == 1) == ((((n as u32) >> (i as u32)) & 1u32) == 1u32)) by (bit_vector)
        requires n < 256, i < 8;
}

/// The upper bound of `levels`: a call of `RangeInclusive::end` of std, which
/// returns the bound the range was made with.
#[verifier::external_body]
fn range_end(levels: &RangeInclusive<usize>) -> (e: usize)
    ensures
        e == levels@.end,
{
    *levels.end()
}

/// `q` lies in the cube `2^level` wide at `p`.
pub open spec fn in_region(q: UVec3, p: Pos, level: int) -> bool {
    let w = pw(level as nat);
    &&& p.0 <= q.x < p.0 + w
    &&& p.1 <= q.y < p.1 + w
    &&& p.2 <= q.z < p.2 + w
}

/// A cube at `p`, `2^level` wide, inside the range of `u32`.
pub open spec fn region_fits(p: Pos, level: int) -> bool {
    let w = pw(level as nat);
    &&& level >= 0
    &&& 0 <= p.0 && p.0 + w <= 0x1_0000_0000
    &&& 0 <= p.1 && p.1 + w <= 0x1_0000_0000
    &&& 0 <= p.2 && p.2 + w <= 0x1_0000_0000
}

/// Every report in `s` lies in the cube `2^level` wide at `p`, below `level`.
pub open spec fn all_in(s: Seq<Props>, p: Pos, level: int) -> bool {
    forall|t: int| 0 <= t < s.len() ==> in_region(#[trigger] s[t].position, p, level) && s[t].level < level
}

proof fn lemma_all_in_add(a: Seq<Props>, b: Seq<Props>, p: Pos, level: int)
    requires
        all_in(a, p, level),
        all_in(b, p, level),
    ensures
        all_in(a + b, p, level),
{
    assert forall|t: int| 0 <= t < (a + b).len() implies in_region(#[trigger] (a + b)[t].position, p, level)
        && (a + b)[t].level < level by {
        if t < a.len() {
            assert((a + b)[t] == a[t]);
            assert(in_region(a[t].position, p, level));
        } else {
            assert((a + b)[t] == b[t - a.len()]);
            assert(in_region(b[t - a.len()].position, p, level));
        }
    }
}

/// The cube of a child lies inside the cube of its parent.
proof fn lemma_child_region(p: Pos, i: int, level: int)
    requires
        region_fits(p, level),
        level >= 1,
        0 <= i < 8,
    ensures
        region_fits(child_pos(p, i, level), level - 1),
        forall|q: UVec3| in_region(q, child_pos(p, i, level), level - 1) ==> in_region(q, p, level),
        in_region(UVec3 { x: child_pos(p, i, level).0 as u32, y: child_pos(p, i, level).1 as u32, z: child_pos(p, i, level).2 as u32 }, p, level),
{
    vstd::arithmetic::power2::lemma_pow2_unfold(level as nat);
    vstd::arithmetic::power2::lemma_pow2_pos((level - 1) as nat);
    let h = pw((level - 1) as nat);
    assert(pw(level as nat) == 2 * h);
    let cp = child_pos(p, i, level);
    lemma_half_offset(child_dx(i), h);
    lemma_half_offset(child_dy(i), h);
    lemma_half_offset(child_dz(i), h);
    assert(cp.0 == p.0 || cp.0 == p.0 + h);
    assert(cp.1 == p.1 || cp.1 == p.1 + h);
    assert(cp.2 == p.2 || cp.2 == p.2 + h);
}

/// An offset of 0 or 1 half-widths is 0 or one half-width.
proof fn lemma_half_offset(d: int, h: int)
    requires
        d == 0 || d == 1,
    ensures
        d == 0 ==> d * h == 0,
        d == 1 ==> d * h == h,
{
    if d == 0 {
        assert(d * h == 0) by (nonlinear_arith) requires d == 0;
    } else {
        assert(d * h == h) by (nonlinear_arith) requires d == 1;
    }
}

/// Reports inside a child's cube lie in the parent's cube.
proof fn lemma_all_in_child(s: Seq<Props>, p: Pos, i: int, level: int)
    requires
        region_fits(p, level),
        level >= 1,
        0 <= i < 8,
        all_in(s, child_pos(p, i, level), level - 1),
    ensures
        all_in(s, p, level),
{
    lemma_child_region(p, i, level);
    assert forall|t: int| 0 <= t < s.len() implies in_region(#[trigger] s[t].position, p, level) && s[t].level < level by {
        assert(in_region(s[t].position, child_pos(p, i, level), level - 1));
    }
}

/// What lies below child `i` of a node lies in the node's cube, below its level.
proof fn lemma_child_events_region(l: &Layer, level: int, c: Cell, v: int, n: int, p: Pos, i: int)
    requires
        region_fits(p, level),
    ensures
        all_in(l.child_events(level, c, v, n, p, i), p, level),
    decreases level, 8 - i, 0int,
{
    if 0 <= i < 8 && level >= 1 {
        let cc = child_cell(c, i);
        let cp = child_pos(p, i, level);
        lemma_child_region(p, i, level);
        let cpu = UVec3 { x: cp.0 as u32, y: cp.1 as u32, z: cp.2 as u32 };
        if level >= 6 {
            let ck = (level - 1, cc.0, cc.1, cc.2, 0int);
            if l.branch@.contains_key(ck) {
                let a = seq![event(level - 1, cp, l.branch@[ck], n, v)];
                let b = l.node_events(level - 1, cc, v, l.branch@[ck], cp, 0);
                lemma_node_events_region(l, level - 1, cc, v, l.branch@[ck], cp, 0);
                lemma_all_in_child(b, p, i, level);
                assert(a[0].position == cpu);
                lemma_all_in_add(a, b, p, level);
            }
        } else if level == 5 {
            if l.chains@.contains_key(cc) {
                let es = l.entry_events(cc, cp, 0);
                lemma_entry_events_region(l, cc, cp, 0);
                assert forall|t: int| 0 <= t < es.len() implies in_region(#[trigger] es[t].position, p, level)
                    && es[t].level < level by {
                    assert(in_region(es[t].position, cp, 4));
                }
            }
        } else if level == 4 {
            let ck = (3int, cc.0, cc.1, cc.2, v);
            if l.branch@.contains_key(ck) {
                let a = seq![event(3, cp, l.branch@[ck], n, v)];
                let b = l.node_events(3, cc, v, l.branch@[ck], cp, 0);
                lemma_node_events_region(l, 3, cc, v, l.branch@[ck], cp, 0);
                lemma_all_in_child(b, p, i, level);
                assert(a[0].position == cpu);
                lemma_all_in_add(a, b, p, level);
            }
        } else if level == 3 {
            let lk = (cc.0, cc.1, cc.2, v);
            if l.leaf@.contains_key(lk) {
                let a = seq![event(2, cp, l.leaf@[lk], n, v)];
                let b = l.node_events(2, cc, v, l.leaf@[lk], cp, 0);
                lemma_node_events_region(l, 2, cc, v, l.leaf@[lk], cp, 0);
                lemma_all_in_child(b, p, i, level);
                assert(a[0].position == cpu);
                lemma_all_in_add(a, b, p, level);
            }
        } else if level == 2 {
            let bb = l1_byte(l.level_2@[n], i);
            if bb != 0 {
                let a = seq![event(1, cp, bb, n, v)];
                let b = l.node_events(1, cc, v, bb, cp, 0);
                lemma_node_events_region(l, 1, cc, v, bb, cp, 0);
                lemma_all_in_child(b, p, i, level);
                assert(a[0].position == cpu);
                lemma_all_in_add(a, b, p, level);
            }
        } else if l0_bit(n, i) {
            let a = seq![event(0, cp, 1, n, v)];
            assert(a[0].position == cpu);
        }
    }
}

/// What a traversal reports below the children `i..8` of a node lies in the
/// node's cube, below its level.
proof fn lemma_node_events_region(l: &Layer, level: int, c: Cell, v: int, n: int, p: Pos, i: int)
    requires
        region_fits(p, level),
    ensures
        all_in(l.node_events(level, c, v, n, p, i), p, level),
    decreases level, 8 - i, 1int,
{
    if 0 <= i < 8 {
        lemma_child_events_region(l, level, c, v, n, p, i);
        lemma_node_events_region(l, level, c, v, n, p, i + 1);
        lemma_all_in_add(l.child_events(level, c, v, n, p, i), l.node_events(level, c, v, n, p, i + 1), p, level);
    }
}

/// What a traversal reports of the entries `t..` of a chain lies in the cube of
/// the chain's cell, on level 4 or below.
proof fn lemma_entry_events_region(l: &Layer, c: Cell, p: Pos, t: int)
    requires
        region_fits(p, 4),
    ensures
        forall|u: int| 0 <= u < l.entry_events(c, p, t).len() ==> in_region(#[trigger] l.entry_events(c, p, t)[u].position, p, 4)
            && l.entry_events(c, p, t)[u].level <= 4,
    decreases 5int, 0int, l.entries@[c].len() - t,
{
    vstd::arithmetic::power2::lemma2_to64();
    if 0 <= t < l.entries@[c].len() {
        let en = l.entries@[c][t];
        let a = seq![event(4, p, en.1, l.chains@[c][t / 4], en.0)];
        let b = l.node_events(4, c, en.0, en.1, p, 0);
        let d = l.entry_events(c, p, t + 1);
        lemma_node_events_region(l, 4, c, en.0, en.1, p, 0);
        lemma_entry_events_region(l, c, p, t + 1);
        assert forall|u: int| 0 <= u < (a + b + d).len() implies in_region(#[trigger] (a + b + d)[u].position, p, 4)
            && (a + b + d)[u].level <= 4 by {
            if u < a.len() {
                assert((a + b + d)[u] == a[u]);
            } else if u < a.len() + b.len() {
                assert((a + b + d)[u] == b[u - a.len()]);
                assert(in_region(b[u - a.len()].position, p, 4));
            } else {
                assert((a + b + d)[u] == d[u - a.len() - b.len()]);
                assert(in_region(d[u - a.len() - b.len()].position, p, 4));
            }
        }
        assert(l.entry_events(c, p, t) == a + b + d);
    }
}

/// Everything [Layer::traverse] reports lies in the cube of the node it starts
/// from, `2^level` wide at `from_node_position * 2^level`, below that level.
pub proof fn law_traverse_region(l: &Layer, from_node_position: UVec3, level: int, t: int)
    requires
        0 <= level <= 31,
        (from_node_position.x + 1) * pw(level as nat) <= 0x1_0000_0000,
        (from_node_position.y + 1) * pw(level as nat) <= 0x1_0000_0000,
        (from_node_position.z + 1) * pw(level as nat) <= 0x1_0000_0000,
        0 <= t < l.traverse_spec(from_node_position, level).len(),
    ensures
        ({
            let w = pw(level as nat);
            let e = l.traverse_spec(from_node_position, level)[t];
            &&& in_region(e.position, (from_node_position.x * w, from_node_position.y * w, from_node_position.z * w), level)
            &&& e.level < level
        }),
{
    let w = pw(level as nat);
    let (x, y, z) = (from_node_position.x as int, from_node_position.y as int, from_node_position.z as int);
    vstd::arithmetic::power2::lemma_pow2_pos(level as nat);
    assert((x + 1) * w == x * w + w && (y + 1) * w == y * w + w && (z + 1) * w == z * w + w) by (nonlinear_arith);
    assert(x * w >= 0 && y * w >= 0 && z * w >= 0) by (nonlinear_arith)
        requires x >= 0, y >= 0, z >= 0, w >= 1;
    let p = UVec3 { x: (x * w) as u32, y: (y * w) as u32, z: (z * w) as u32 };
    let found = l.get_spec(p, level, Option::None);
    lemma_node_events_region(l, level, l.start_cell(p, level), 0, found.node_idx as int, (p.x as int, p.y as int, p.z as int), 0);
}

/// Index of the child of the node on `level` at `p` whose cube holds `q`.
pub open spec fn child_index_at(q: UVec3, p: Pos, level: int) -> int {
    let h = pw((level - 1) as nat);
    (if q.x >= p.0 + h { 1int } else { 0int }) + 2 * (if q.y >= p.1 + h { 1int } else { 0int })
        + 4 * (if q.z >= p.2 + h { 1int } else { 0int })
}

/// No voxel is reported twice in `s`: reports on level 0 differ in position or id.
pub open spec fn unique_voxels(s: Seq<Props>) -> bool {
    forall|t1: int, t2: int| 0 <= t1 < s.len() && 0 <= t2 < s.len() && t1 != t2
        && (#[trigger] s[t1]).level == 0 && (#[trigger] s[t2]).level == 0
        ==> s[t1].position != s[t2].position || s[t1].voxel_id != s[t2].voxel_id
}

proof fn lemma_unique_add(a: Seq<Props>, b: Seq<Props>)
    requires
        unique_voxels(a),
        unique_voxels(b),
        forall|t1: int, t2: int| 0 <= t1 < a.len() && 0 <= t2 < b.len()
            && (#[trigger] a[t1]).level == 0 && (#[trigger] b[t2]).level == 0
            ==> a[t1].position != b[t2].position || a[t1].voxel_id != b[t2].voxel_id,
    ensures
        unique_voxels(a + b),
{
    assert forall|t1: int, t2: int| 0 <= t1 < (a + b).len() && 0 <= t2 < (a + b).len() && t1 != t2
        && (#[trigger] (a + b)[t1]).level == 0 && (#[trigger] (a + b)[t2]).level == 0
        implies (a + b)[t1].position != (a + b)[t2].position || (a + b)[t1].voxel_id != (a + b)[t2].voxel_id by {
        if t1 < a.len() && t2 < a.len() {
            assert((a + b)[t1] == a[t1] && (a + b)[t2] == a[t2]);
        } else if t1 >= a.len() && t2 >= a.len() {
            assert((a + b)[t1] == b[t1 - a.len()] && (a + b)[t2] == b[t2 - a.len()]);
        } else if t1 < a.len() {
            assert((a + b)[t1] == a[t1] && (a + b)[t2] == b[t2 - a.len()]);
        } else {
            assert((a + b)[t2] == a[t2] && (a + b)[t1] == b[t1 - a.len()]);
        }
    }
}

proof fn lemma_unique_cons(e: Props, b: Seq<Props>)
    requires
        e.level != 0,
        unique_voxels(b),
    ensures
        unique_voxels(seq![e] + b),
{
    let a = seq![e];
    assert forall|t1: int, t2: int| 0 <= t1 < a.len() && 0 <= t2 < b.len()
        && (#[trigger] a[t1]).level == 0 && (#[trigger] b[t2]).level == 0
        implies a[t1].position != b[t2].position || a[t1].voxel_id != b[t2].voxel_id by {
        assert(a[t1] == e);
    }
    lemma_unique_add(a, b);
}

/// A position in the cube of child `i` lies in child `i`.
proof fn lemma_child_cube_index(q: UVec3, p: Pos, i: int, level: int)
    requires
        region_fits(p, level),
        level >= 1,
        0 <= i < 8,
        in_region(q, child_pos(p, i, level), level - 1),
    ensures
        child_index_at(q, p, level) == i,
{
    vstd::arithmetic::power2::lemma_pow2_unfold(level as nat);
    vstd::arithmetic::power2::lemma_pow2_pos((level - 1) as nat);
    let h = pw((level - 1) as nat);
    let cp = child_pos(p, i, level);
    assert(cp.0 == p.0 + child_dx(i) * h && cp.1 == p.1 + child_dy(i) * h && cp.2 == p.2 + child_dz(i) * h);
    lemma_half_offset(child_dx(i), h);
    lemma_half_offset(child_dy(i), h);
    lemma_half_offset(child_dz(i), h);
    assert(child_dx(i) + 2 * child_dy(i) + 4 * child_dz(i) == i);
}

/// Every report in `s` lies in the cube `2^level` wide at `p`.
pub open spec fn all_pos_in(s: Seq<Props>, p: Pos, level: int) -> bool {
    forall|t: int| 0 <= t < s.len() ==> in_region(#[trigger] s[t].position, p, level)
}

proof fn lemma_pos_in_cons(e: Props, b: Seq<Props>, p: Pos, level: int)
    requires
        in_region(e.position, p, level),
        all_in(b, p, level),
    ensures
        all_pos_in(seq![e] + b, p, level),
{
    let s = seq![e] + b;
    assert forall|t: int| 0 <= t < s.len() implies in_region(#[trigger] s[t].position, p, level) by {
        if t == 0 {
            assert(s[t] == e);
        } else {
            assert(s[t] == b[t - 1]);
            assert(in_region(b[t - 1].position, p, level));
        }
    }
}

/// What a traversal reports below child `i` of a node lies in the child's cube.
proof fn lemma_child_events_cube(l: &Layer, level: int, c: Cell, v: int, n: int, p: Pos, i: int)
    requires
        region_fits(p, level),
        level >= 1,
        0 <= i < 8,
    ensures
        all_pos_in(l.child_events(level, c, v, n, p, i), child_pos(p, i, level), level - 1),
{
    let cc = child_cell(c, i);
    let cp = child_pos(p, i, level);
    lemma_child_region(p, i, level);
    vstd::arithmetic::power2::lemma_pow2_pos((level - 1) as nat);
    let cpu = UVec3 { x: cp.0 as u32, y: cp.1 as u32, z: cp.2 as u32 };
    assert(in_region(cpu, cp, level - 1));
    if level >= 6 {
        let ck = (level - 1, cc.0, cc.1, cc.2, 0int);
        if l.branch@.contains_key(ck) {
            let e = event(level - 1, cp, l.branch@[ck], n, v);
            lemma_node_events_region(l, level - 1, cc, v, l.branch@[ck], cp, 0);
            assert(e.position == cpu);
            lemma_pos_in_cons(e, l.node_events(level - 1, cc, v, l.branch@[ck], cp, 0), cp, level - 1);
        }
    } else if level == 5 {
        if l.chains@.contains_key(cc) {
            let es = l.entry_events(cc, cp, 0);
            lemma_entry_events_region(l, cc, cp, 0);
            assert forall|t: int| 0 <= t < es.len() implies in_region(#[trigger] es[t].position, cp, level - 1) by {
                assert(in_region(es[t].position, cp, 4));
            }
        }
    } else if level == 4 {
        let ck = (3int, cc.0, cc.1, cc.2, v);
        if l.branch@.contains_key(ck) {
            let e = event(3, cp, l.branch@[ck], n, v);
            lemma_node_events_region(l, 3, cc, v, l.branch@[ck], cp, 0);
            assert(e.position == cpu);
            lemma_pos_in_cons(e, l.node_events(3, cc, v, l.branch@[ck], cp, 0), cp, 3);
        }
    } else if level == 3 {
        let lk = (cc.0, cc.1, cc.2, v);
        if l.leaf@.contains_key(lk) {
            let e = event(2, cp, l.leaf@[lk], n, v);
            lemma_node_events_region(l, 2, cc, v, l.leaf@[lk], cp, 0);
            assert(e.position == cpu);
            lemma_pos_in_cons(e, l.node_events(2, cc, v, l.leaf@[lk], cp, 0), cp, 2);
        }
    } else if level == 2 {
        let b = l1_byte(l.level_2@[n], i);
        if b != 0 {
            let e = event(1, cp, b, n, v);
            lemma_node_events_region(l, 1, cc, v, b, cp, 0);
            assert(e.position == cpu);
            lemma_pos_in_cons(e, l.node_events(1, cc, v, b, cp, 0), cp, 1);
        }
    } else if l0_bit(n, i) {
        let e = event(0, cp, 1, n, v);
        assert(e.position == cpu);
        assert(seq![e][0] == e);
    }
}

/// What a traversal reports below the children `i..8` of a node lies in the
/// cubes of those children.
proof fn lemma_node_events_cubes(l: &Layer, level: int, c: Cell, v: int, n: int, p: Pos, i: int)
    requires
        region_fits(p, level),
        level >= 1,
        0 <= i,
    ensures
        forall|t: int| 0 <= t < l.node_events(level, c, v, n, p, i).len()
            ==> child_index_at(#[trigger] l.node_events(level, c, v, n, p, i)[t].position, p, level) >= i,
    decreases 8 - i,
{
    if i < 8 {
        let a = l.child_events(level, c, v, n, p, i);
        let b = l.node_events(level, c, v, n, p, i + 1);
        lemma_child_events_cube(l, level, c, v, n, p, i);
        lemma_node_events_cubes(l, level, c, v, n, p, i + 1);
        assert forall|t: int| 0 <= t < (a + b).len() implies child_index_at(#[trigger] (a + b)[t].position, p, level) >= i by {
            if t < a.len() {
                assert((a + b)[t] == a[t]);
                lemma_child_cube_index(a[t].position, p, i, level);
            } else {
                assert((a + b)[t] == b[t - a.len()]);
            }
        }
    }
}

/// Every voxel reported in `s` carries the voxel id `v`.
pub open spec fn vids_are(s: Seq<Props>, v: int) -> bool {
    forall|t: int| 0 <= t < s.len() && (#[trigger] s[t]).level == 0 ==> s[t].voxel_id == v as u32
}

proof fn lemma_vids_cons(e: Props, b: Seq<Props>, v: int)
    requires
        e.level != 0,
        vids_are(b, v),
    ensures
        vids_are(seq![e] + b, v),
{
    let s = seq![e] + b;
    assert forall|t: int| 0 <= t < s.len() && (#[trigger] s[t]).level == 0 implies s[t].voxel_id == v as u32 by {
        if t == 0 {
            assert(s[t] == e);
        } else {
            assert(s[t] == b[t - 1]);
        }
    }
}

/// Below a node on level 4 or lower, every voxel is reported with the node's voxel id.
proof fn lemma_child_vids(l: &Layer, level: int, c: Cell, v: int, n: int, p: Pos, i: int)
    requires
        level <= 4,
    ensures
        vids_are(l.child_events(level, c, v, n, p, i), v),
    decreases level, 8 - i, 0int,
{
    if 0 <= i < 8 && level >= 1 {
        let cc = child_cell(c, i);
        let cp = child_pos(p, i, level);
        if level == 4 {
            let ck = (3int, cc.0, cc.1, cc.2, v);
            if l.branch@.contains_key(ck) {
                lemma_node_vids(l, 3, cc, v, l.branch@[ck], cp, 0);
                lemma_vids_cons(event(3, cp, l.branch@[ck], n, v), l.node_events(3, cc, v, l.branch@[ck], cp, 0), v);
            }
        } else if level == 3 {
            let lk = (cc.0, cc.1, cc.2, v);
            if l.leaf@.contains_key(lk) {
                lemma_node_vids(l, 2, cc, v, l.leaf@[lk], cp, 0);
                lemma_vids_cons(event(2, cp, l.leaf@[lk], n, v), l.node_events(2, cc, v, l.leaf@[lk], cp, 0), v);
            }
        } else if level == 2 {
            let b = l1_byte(l.level_2@[n], i);
            if b != 0 {
                lemma_node_vids(l, 1, cc, v, b, cp, 0);
                lemma_vids_cons(event(1, cp, b, n, v), l.node_events(1, cc, v, b, cp, 0), v);
            }
        } else if l0_bit(n, i) {
            let e = event(0, cp, 1, n, v);
            assert(seq![e][0] == e);
        }
    }
}

proof fn lemma_node_vids(l: &Layer, level: int, c: Cell, v: int, n: int, p: Pos, i: int)
    requires
        level <= 4,
    ensures
        vids_are(l.node_events(level, c, v, n, p, i), v),
    decreases level, 8 - i, 1int,
{
    if 0 <= i < 8 {
        let a = l.child_events(level, c, v, n, p, i);
        let b = l.node_events(level, c, v, n, p, i + 1);
        lemma_child_vids(l, level, c, v, n, p, i);
        lemma_node_vids(l, level, c, v, n, p, i + 1);
        assert forall|t: int| 0 <= t < (a + b).len() && (#[trigger] (a + b)[t]).level == 0
            implies (a + b)[t].voxel_id == v as u32 by {
            if t < a.len() {
                assert((a + b)[t] == a[t]);
            } else {
                assert((a + b)[t] == b[t - a.len()]);
            }
        }
    }
}

/// The voxel ids of the entries of a chain lie in `1..=u32::MAX` and differ.
proof fn lemma_entry_ids(l: &Layer, c: Cell)
    requires
        l.inv(),
        l.entries@.contains_key(c),
    ensures
        forall|t: int| 0 <= t < l.entries@[c].len() ==> 1 <= #[trigger] l.entries@[c][t].0 <= u32::MAX,
        forall|t1: int, t2: int| 0 <= t1 < l.entries@[c].len() && 0 <= t2 < l.entries@[c].len() && t1 != t2
            ==> #[trigger] l.entries@[c][t1].0 != #[trigger] l.entries@[c][t2].0,
{
    reveal(Layer::inv);
    assert forall|t: int| 0 <= t < l.entries@[c].len() implies 1 <= #[trigger] l.entries@[c][t].0 <= u32::MAX by {
        let e = l.entries@[c][t];
        assert(l.branch@.contains_key((4int, c.0, c.1, c.2, e.0)));
    }
}

/// Every voxel reported for the entries `t..` of a chain has the voxel id of one of them.
proof fn lemma_entry_vids(l: &Layer, c: Cell, p: Pos, t: int)
    requires
        0 <= t,
    ensures
        forall|u: int| 0 <= u < l.entry_events(c, p, t).len() && (#[trigger] l.entry_events(c, p, t)[u]).level == 0
            ==> exists|t2: int| t <= t2 < l.entries@[c].len() && l.entry_events(c, p, t)[u].voxel_id == #[trigger] l.entries@[c][t2].0 as u32,
    decreases l.entries@[c].len() - t,
{
    if t < l.entries@[c].len() {
        let e = l.entries@[c][t];
        let a = seq![event(4, p, e.1, l.chains@[c][t / 4], e.0)];
        let b = l.node_events(4, c, e.0, e.1, p, 0);
        let d = l.entry_events(c, p, t + 1);
        lemma_node_vids(l, 4, c, e.0, e.1, p, 0);
        lemma_entry_vids(l, c, p, t + 1);
        assert(l.entry_events(c, p, t) == a + b + d);
        assert forall|u: int| 0 <= u < (a + b + d).len() && (#[trigger] (a + b + d)[u]).level == 0
            implies exists|t2: int| t <= t2 < l.entries@[c].len() && (a + b + d)[u].voxel_id == #[trigger] l.entries@[c][t2].0 as u32 by {
            if u < a.len() {
                assert((a + b + d)[u] == a[u]);
            } else if u < a.len() + b.len() {
                assert((a + b + d)[u] == b[u - a.len()]);
                assert(l.entries@[c][t].0 == e.0);
            } else {
                assert((a + b + d)[u] == d[u - a.len() - b.len()]);
                let t2 = choose|t2: int| t + 1 <= t2 < l.entries@[c].len() && d[u - a.len() - b.len()].voxel_id == #[trigger] l.entries@[c][t2].0 as u32;
                assert(l.entries@[c][t2].0 as u32 == (a + b + d)[u].voxel_id);
            }
        }
    }
}

/// Below child `i` of a node, no voxel is reported twice.
proof fn lemma_child_unique(l: &Layer, level: int, c: Cell, v: int, n: int, p: Pos, i: int)
    requires
        l.inv(),
        region_fits(p, level),
        level <= 32,
    ensures
        unique_voxels(l.child_events(level, c, v, n, p, i)),
    decreases level, 8 - i, 0int,
{
    if 0 <= i < 8 && level >= 1 {
        let cc = child_cell(c, i);
        let cp = child_pos(p, i, level);
        lemma_child_region(p, i, level);
        if level >= 6 {
            let ck = (level - 1, cc.0, cc.1, cc.2, 0int);
            if l.branch@.contains_key(ck) {
                lemma_node_unique(l, level - 1, cc, v, l.branch@[ck], cp, 0);
                lemma_unique_cons(event(level - 1, cp, l.branch@[ck], n, v), l.node_events(level - 1, cc, v, l.branch@[ck], cp, 0));
            }
        } else if level == 5 {
            if l.chains@.contains_key(cc) {
                lemma_entry_unique(l, cc, cp, 0);
            }
        } else if level == 4 {
            let ck = (3int, cc.0, cc.1, cc.2, v);
            if l.branch@.contains_key(ck) {
                lemma_node_unique(l, 3, cc, v, l.branch@[ck], cp, 0);
                lemma_unique_cons(event(3, cp, l.branch@[ck], n, v), l.node_events(3, cc, v, l.branch@[ck], cp, 0));
            }
        } else if level == 3 {
            let lk = (cc.0, cc.1, cc.2, v);
            if l.leaf@.contains_key(lk) {
                lemma_node_unique(l, 2, cc, v, l.leaf@[lk], cp, 0);
                lemma_unique_cons(event(2, cp, l.leaf@[lk], n, v), l.node_events(2, cc, v, l.leaf@[lk], cp, 0));
            }
        } else if level == 2 {
            let b = l1_byte(l.level_2@[n], i);
            if b != 0 {
                lemma_node_unique(l, 1, cc, v, b, cp, 0);
                lemma_unique_cons(event(1, cp, b, n, v), l.node_events(1, cc, v, b, cp, 0));
            }
        }
    }
}

/// Below the children `i..8` of a node, no voxel is reported twice.
proof fn lemma_node_unique(l: &Layer, level: int, c: Cell, v: int, n: int, p: Pos, i: int)
    requires
        l.inv(),
        region_fits(p, level),
        level <= 32,
    ensures
        unique_voxels(l.node_events(level, c, v, n, p, i)),
    decreases level, 8 - i, 1int,
{
    if 0 <= i < 8 {
        let a = l.child_events(level, c, v, n, p, i);
        let b = l.node_events(level, c, v, n, p, i + 1);
        lemma_child_unique(l, level, c, v, n, p, i);
        lemma_node_unique(l, level, c, v, n, p, i + 1);
        if level >= 1 {
            lemma_child_events_cube(l, level, c, v, n, p, i);
            lemma_node_events_cubes(l, level, c, v, n, p, i + 1);
            assert forall|t1: int, t2: int| 0 <= t1 < a.len() && 0 <= t2 < b.len()
                && (#[trigger] a[t1]).level == 0 && (#[trigger] b[t2]).level == 0
                implies a[t1].position != b[t2].position || a[t1].voxel_id != b[t2].voxel_id by {
                lemma_child_cube_index(a[t1].position, p, i, level);
                assert(child_index_at(b[t2].position, p, level) >= i + 1);
            }
        }
        lemma_unique_add(a, b);
    }
}

/// Over the entries `t..` of a chain, no voxel is reported twice.
proof fn lemma_entry_unique(l: &Layer, c: Cell, p: Pos, t: int)
    requires
        l.inv(),
        region_fits(p, 4),
        l.chains@.contains_key(c),
    ensures
        unique_voxels(l.entry_events(c, p, t)),
    decreases 5int, 0int, l.entries@[c].len() - t,
{
    if 0 <= t < l.entries@[c].len() {
        let e = l.entries@[c][t];
        let a = seq![event(4, p, e.1, l.chains@[c][t / 4], e.0)];
        let b = l.node_events(4, c, e.0, e.1, p, 0);
        let d = l.entry_events(c, p, t + 1);
        assert(l.entries@.contains_key(c)) by {
            reveal(Layer::inv);
        }
        lemma_entry_ids(l, c);
        lemma_node_unique(l, 4, c, e.0, e.1, p, 0);
        lemma_entry_unique(l, c, p, t + 1);
        lemma_node_vids(l, 4, c, e.0, e.1, p, 0);
        lemma_entry_vids(l, c, p, t + 1);
        lemma_unique_add(a, b);
        assert forall|t1: int, t2: int| 0 <= t1 < (a + b).len() && 0 <= t2 < d.len()
            && (#[trigger] (a + b)[t1]).level == 0 && (#[trigger] d[t2]).level == 0
            implies (a + b)[t1].position != d[t2].position || (a + b)[t1].voxel_id != d[t2].voxel_id by {
            assert((a + b)[t1] == b[t1 - 1]);
            let t3 = choose|t3: int| t + 1 <= t3 < l.entries@[c].len() && d[t2].voxel_id == #[trigger] l.entries@[c][t3].0 as u32;
            assert(l.entries@[c][t].0 != l.entries@[c][t3].0);
        }
        lemma_unique_add(a + b, d);
        assert(l.entry_events(c, p, t) == a + b + d);
    }
}

/// [Layer::traverse] reports no voxel twice: together with what it reports being
/// voxels of the layer, and every voxel of its region being reported, its reports
/// on level 0 are the voxels of the region, each once.
pub proof fn law_traverse_reports_once(l: &Layer, from_node_position: UVec3, level: int)
    requires
        l.wf(),
        0 <= level <= 31,
        (from_node_position.x + 1) * pw(level as nat) <= 0x1_0000_0000,
        (from_node_position.y + 1) * pw(level as nat) <= 0x1_0000_0000,
        (from_node_position.z + 1) * pw(level as nat) <= 0x1_0000_0000,
    ensures
        unique_voxels(l.traverse_spec(from_node_position, level)),
{
    let w = pw(level as nat);
    let (x, y, z) = (from_node_position.x as int, from_node_position.y as int, from_node_position.z as int);
    vstd::arithmetic::power2::lemma_pow2_pos(level as nat);
    assert((x + 1) * w == x * w + w && (y + 1) * w == y * w + w && (z + 1) * w == z * w + w) by (nonlinear_arith);
    assert(x * w >= 0 && y * w >= 0 && z * w >= 0) by (nonlinear_arith)
        requires x >= 0, y >= 0, z >= 0, w >= 1;
    let p = UVec3 { x: (x * w) as u32, y: (y * w) as u32, z: (z * w) as u32 };
    let found = l.get_spec(p, level, Option::None);
    assert(l.inv()) by {
        reveal(Layer::inv);
    }
    lemma_node_unique(l, level, l.start_cell(p, level), 0, found.node_idx as int, (p.x as int, p.y as int, p.z as int), 0);
}

impl Layer {
    /// Depth-first traversal of the region below the node on level `levels.end()`
    /// whose cell is `from_node_position`, in one loop over a stack of at most 21
    /// frames. Every node below is reported once, in the order of its children,
    /// before what lies below it; a chain of forks is passed through, and each of
    /// its level-4 nodes is reported with the fork that names it as its parent.
    /// The start of `levels` is not used.
    #[verifier::spinoff_prover]
    #[verifier::rlimit(60)]
    pub fn traverse(&self, from_node_position: UVec3, levels: RangeInclusive<usize>) -> (r: Vec<Props>)
        requires
            self.wf(),
            5 <= levels@.end <= 20,
            (from_node_position.x + 1) * pw(levels@.end as nat) <= 0x1_0000_0000,
            (from_node_position.y + 1) * pw(levels@.end as nat) <= 0x1_0000_0000,
            (from_node_position.z + 1) * pw(levels@.end as nat) <= 0x1_0000_0000,
        ensures
            r@ == self.traverse_spec(from_node_position, levels@.end as int),
    {
        let from_level = range_end(&levels);
        let fork_level: usize = 4;
        let scale = l2s(from_level);
        proof {
            let w = scale as int;
            assert(w >= 1) by { vstd::arithmetic::power2::lemma_pow2_pos(from_level as nat); }
            let (x, y, z) = (from_node_position.x as int, from_node_position.y as int, from_node_position.z as int);
            assert((x + 1) * w == x * w + w && (y + 1) * w == y * w + w && (z + 1) * w == z * w + w) by (nonlinear_arith);
            assert(x * w >= 0 && y * w >= 0 && z * w >= 0) by (nonlinear_arith)
                requires x >= 0, y >= 0, z >= 0, w >= 1;
        }
        let from_pos = uvec3(from_node_position.x * scale, from_node_position.y * scale, from_node_position.z * scale);
        let found = self.get_node(from_pos, from_level, Option::None);
        let mut out: Vec<Props> = Vec::new();
        if found.is_none() {
            return out;
        }
        let ghost c0 = self.start_cell(from_pos, from_level as int);
        let ghost p0 = (from_pos.x as int, from_pos.y as int, from_pos.z as int);
        let ghost full = self.node_events(from_level as int, c0, 0, found.node_idx as int, p0, 0);
        let first = Frame { node_idx: found.node_idx, parent_idx: 0, position: from_pos, level: from_level, voxel_id: 0, index: 0 };
        let mut stack = EStack::new(first);
        let ghost mut g: Seq<(Cell, int)> = seq![(c0, 0int)];
        proof {
            reveal(Layer::inv);
            assert(stack@[0] == first);
            crate::get::lemma_eff(from_pos, self.depth as nat);
            if from_level == self.depth {
                assert(found.node_idx == 1);
                assert(self.branch@.contains_key(self.root_key()));
            } else {
                let k = path_key(eff(from_pos, self.depth as nat), 0, from_level as int);
                assert(self.branch@.contains_key(k));
                assert(k == (from_level as int, c0.0, c0.1, c0.2, 0int));
            }
            assert(self.frame_ok(stack@[0], g[0]));
            assert(self.stack_events(stack@.drop_last(), g.drop_last()) == Seq::<Props>::empty());
            assert(out@ + self.stack_events(stack@, g) =~= full);
        }
        loop
            invariant
                self.inv(),
                5 <= from_level <= 20,
                fork_level == 4,
                stack.wf(),
                self.stack_ok(stack@, g, from_level as int),
                out@ + self.stack_events(stack@, g) == full,
            ensures
                out@ == full,
            decreases self.stack_work(stack@, g),
        {
            let ghost s = stack@;
            let f: Frame = *stack.read();
            let ghost k = s.len() - 1;
            let ghost s0 = s.drop_last();
            let ghost g0 = g.drop_last();
            let ghost gt = g.last();
            proof {
                assert(stack@ =~= s);
                assert(f == s[k]);
                assert(self.frame_ok(s[k], g[k]));
                assert(rank(s[k]) + k <= from_level + 1);
                assert(s0.push(f) =~= s);
                assert(g0.push(gt) =~= g);
                lemma_stack_push(self, s0, g0, f, gt);
            }
            if f.index > 7 && f.level == from_level {
                proof {
                    assert(k == 0);
                    assert(s0.len() == 0);
                    assert(self.frame_events(f, gt) =~= Seq::<Props>::empty());
                    assert(out@ =~= full);
                }
                break;
            }
            if f.index > 7 {
                stack.pop();
                proof {
                    g = g0;
                    assert(self.frame_events(f, gt) =~= Seq::<Props>::empty());
                    assert(self.frame_work(f, gt) == 1);
                    assert(out@ + self.stack_events(stack@, g) =~= full);
                    assert forall|q: int| 0 <= q < stack@.len() implies self.frame_ok(#[trigger] stack@[q], g[q])
                        && rank(stack@[q]) + q <= from_level + 1 by {
                        assert(stack@[q] == s[q]);
                    }
                }
                continue;
            }
            let level = f.level;
            let n = f.node_idx;
            let index = f.index;
            let ghost c = gt.0;
            let ghost j = gt.1;
            let ghost p = fpos(f);
            let ghost lv = level as int;
            let ghost v = f.voxel_id as int;
            let ghost key = (lv, c.0, c.1, c.2, v);
            proof {
                if is_fork_frame(f) {
                    lemma_fork_node(self, c, j);
                    lemma_fork_flag(self, c, j);
                    lemma_slot(self, c, j, (index / 2) as int);
                } else if lv >= 3 {
                    lemma_branch_node(self, key, index as int);
                } else if lv == 2 {
                    lemma_leaf_node(self, (c.0, c.1, c.2, v));
                }
            }
            let child: u32 = if level == 2 {
                self.level_2[n].index_l1(index)
            } else if level == 1 {
                proof { lemma_l0_bit(n, index); }
                ((n & (1usize << index)) >> index) as u32
            } else {
                self.nodes[n].children[index]
            };
            if child != 0 && level > 0 {
                if level == fork_level && self.nodes[n].is_fork() {
                    let node = self.nodes[n];
                    let vid = node.children[index];
                    let below = node.children[index + 1];
                    out.push(Props {
                        position: f.position,
                        positioned: true,
                        parent_idx: n,
                        node_idx: below as usize,
                        level: level,
                        voxel_id: vid,
                    });
                    let mut top = f;
                    top.index = index + 2;
                    let mut done = false;
                    if top.index > 7 {
                        if node.flag > 0 {
                            top.node_idx = node.flag as usize;
                            top.index = 0;
                        } else {
                            done = true;
                        }
                    }
                    let ghost gtop = if done { gt } else if index == 6 { (c, j + 1) } else { gt };
                    let ghost t = 4 * j + index / 2;
                    let ghost en = self.entries@[c][t];
                    let nf = Frame { node_idx: below as usize, parent_idx: n, position: f.position, level: level, voxel_id: vid as usize, index: 0 };
                    proof {
                        assert(is_fork_frame(f));
                        assert(t < self.entries@[c].len());
                        assert(t / 4 == j);
                        assert(vid == en.0 && below == en.1);
                        assert(self.frame_events(f, gt) =~= seq![event(4, p, en.1, n as int, en.0)]
                            + self.node_events(4, c, en.0, en.1, p, 0) + self.entry_events(c, p, t + 1));
                        assert(self.frame_events(nf, (c, 0int)) == self.node_events(4, c, en.0, en.1, p, 0));
                        assert(self.frame_work(f, gt) == 1 + self.frame_work(nf, (c, 0int)) + self.entry_work(c, t + 1));
                        if !done {
                            assert(self.frame_events(top, gtop) == self.entry_events(c, p, t + 1));
                            assert(self.frame_work(top, gtop) == self.entry_work(c, t + 1));
                        } else {
                            assert(self.entry_events(c, p, t + 1) =~= Seq::<Props>::empty());
                        }
                    }
                    if done {
                        stack.pop();
                    } else {
                        *stack.read() = top;
                    }
                    stack.push(nf);
                    proof {
                        let gn = (c, 0int);
                        if done {
                            assert(stack@ =~= s0.push(nf));
                            lemma_stack_push(self, s0, g0, nf, gn);
                            g = g0.push(gn);
                        } else {
                            assert(stack@ =~= s0.push(top).push(nf));
                            lemma_stack_push(self, s0, g0, top, gtop);
                            lemma_stack_push(self, s0.push(top), g0.push(gtop), nf, gn);
                            g = g0.push(gtop).push(gn);
                            assert(self.frame_ok(top, gtop));
                        }
                        assert(self.frame_ok(nf, gn));
                        assert(out@ + self.stack_events(stack@, g) =~= full);
                        assert forall|q: int| 0 <= q < stack@.len() implies self.frame_ok(#[trigger] stack@[q], g[q])
                            && rank(stack@[q]) + q <= from_level + 1 by {
                            if q < k {
                                assert(stack@[q] == s[q]);
                            }
                        }
                    }
                } else {
                    let size = l2s(level) / 2;
                    let cpos = Node::get_child_position(index as u32);
                    proof {
                        vstd::arithmetic::power2::lemma_pow2_unfold(level as nat);
                        assert(size as int == pw((level - 1) as nat));
                        vstd::arithmetic::power2::lemma_pow2_pos((level - 1) as nat);
                        assert(cpos.x * size <= size && cpos.y * size <= size && cpos.z * size <= size) by (nonlinear_arith)
                            requires cpos.x <= 1, cpos.y <= 1, cpos.z <= 1;
                        assert(cpos.x * size == child_dx(index as int) * size && cpos.y * size == child_dy(index as int) * size
                            && cpos.z * size == child_dz(index as int) * size);
                    }
                    let push_position = uvec3(f.position.x + cpos.x * size, f.position.y + cpos.y * size, f.position.z + cpos.z * size);
                    let mut top = f;
                    top.index = index + 1;
                    let ghost cc = child_cell(c, index as int);
                    let ghost cp = child_pos(p, index as int, lv);
                    proof {
                        assert(push_position.x as int == cp.0 && push_position.y as int == cp.1 && push_position.z as int == cp.2);
                        assert(self.frame_events(f, gt) == self.child_events(lv, c, v, n as int, p, index as int)
                            + self.frame_events(top, gt));
                        assert(self.frame_work(f, gt) == 1 + self.child_work(lv, c, v, n as int, index as int)
                            + self.frame_work(top, gt));
                    }
                    *stack.read() = top;
                    let ghost before = out@;
                    if level != 5 {
                        out.push(Props {
                            position: push_position,
                            positioned: true,
                            parent_idx: n,
                            node_idx: child as usize,
                            level: level - 1,
                            voxel_id: f.voxel_id as u32,
                        });
                    }
                    let nf = Frame { node_idx: child as usize, parent_idx: n, position: push_position, level: level - 1, voxel_id: f.voxel_id, index: 0 };
                    if level > 1 {
                        stack.push(nf);
                    }
                    proof {
                        let gn = (cc, 0int);
                        if level > 1 {
                            assert(stack@ =~= s0.push(top).push(nf));
                            lemma_stack_push(self, s0, g0, top, gt);
                            lemma_stack_push(self, s0.push(top), g0.push(gt), nf, gn);
                            g = g0.push(gt).push(gn);
                            assert(self.frame_ok(nf, gn));
                            if level == 5 {
                                assert(self.child_events(lv, c, v, n as int, p, index as int) == self.frame_events(nf, gn));
                                assert(out@ == before);
                            } else {
                                assert(self.child_events(lv, c, v, n as int, p, index as int)
                                    =~= seq![event(lv - 1, cp, child as int, n as int, v)] + self.frame_events(nf, gn));
                            }
                            assert(self.child_work(lv, c, v, n as int, index as int) == self.frame_work(nf, gn));
                        } else {
                            assert(stack@ =~= s0.push(top));
                            lemma_stack_push(self, s0, g0, top, gt);
                            g = g0.push(gt);
                            assert(child == 1);
                            assert(self.child_events(lv, c, v, n as int, p, index as int)
                                =~= seq![event(0, cp, 1, n as int, v)]);
                        }
                        assert(out@ + self.stack_events(stack@, g) =~= full);
                        assert forall|q: int| 0 <= q < stack@.len() implies self.frame_ok(#[trigger] stack@[q], g[q])
                            && rank(stack@[q]) + q <= from_level + 1 by {
                            if q < k {
                                assert(stack@[q] == s[q]);
                            }
                        }
                    }
                }
            } else if level == fork_level && self.nodes[n].is_fork() {
                stack.pop();
                proof {
                    assert(is_fork_frame(f));
                    assert(self.frame_events(f, gt) =~= Seq::<Props>::empty());
                    g = g0;
                    assert(out@ + self.stack_events(stack@, g) =~= full);
                    assert forall|q: int| 0 <= q < stack@.len() implies self.frame_ok(#[trigger] stack@[q], g[q])
                        && rank(stack@[q]) + q <= from_level + 1 by {
                        assert(stack@[q] == s[q]);
                    }
                }
            } else {
                let mut top = f;
                top.index = index + 1;
                *stack.read() = top;
                proof {
                    assert(!is_fork_frame(f));
                    assert(self.child_events(lv, c, v, n as int, p, index as int) =~= Seq::<Props>::empty());
                    assert(self.child_work(lv, c, v, n as int, index as int) == 0);
                    assert(stack@ =~= s0.push(top));
                    lemma_stack_push(self, s0, g0, top, gt);
                    g = g0.push(gt);
                    assert(out@ + self.stack_events(stack@, g) =~= full);
                    assert forall|q: int| 0 <= q < stack@.len() implies self.frame_ok(#[trigger] stack@[q], g[q])
                        && rank(stack@[q]) + q <= from_level + 1 by {
                        if q < k {
                            assert(stack@[q] == s[q]);
                        }
                    }
                }
            }
        }
        out
    }
}

} // verus!
