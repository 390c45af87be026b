use vstd::prelude::*;
use crate::layer::{Layer, BKey, Cell, LKey, cell_of, child_cell, entry_index, lemma_child_cell};
use crate::node::{Node, spec_child_index, half_bit};
use crate::node_l2::{NodeL2, in_grid4};
use crate::set::{path_key, local, path_child, path_leaf, lemma_path_step, lemma_voxel_cell};
use crate::utils::{pw, l2s, lemma_halve};
use crate::vec3::{UVec3, uvec3};

verus! {

/// What a lookup found. A `voxel_id` of `0` and a `node_idx` of `0` together
/// mean that nothing was found.
#[derive(PartialEq, Eq, Hash, Debug, Clone, Copy, Structural)]
pub struct GetNodeResult {
    /// If 0 its none
    pub voxel_id: usize,
    pub layer_id: usize,
    pub node_idx: usize,
}

/// The result that names `node` for voxel id `vid`.
pub open spec fn found(vid: int, node: int) -> GetNodeResult {
    GetNodeResult { voxel_id: vid as usize, layer_id: 0, node_idx: node as usize }
}

/// The result that names nothing.
pub open spec fn nothing() -> GetNodeResult {
    GetNodeResult { voxel_id: 0, layer_id: 0, node_idx: 0 }
}

impl GetNodeResult {
    /// Something was found.
    pub open spec fn spec_is_some(&self) -> bool {
        self.node_idx != 0 || self.voxel_id != 0
    }

    /// Something was found.
    pub fn is_some(&self) -> (b: bool)
        ensures
            b == self.spec_is_some(),
    {
        self.node_idx != 0 || self.voxel_id != 0
    }

    /// Nothing was found.
    pub fn is_none(&self) -> (b: bool)
        ensures
            b == !self.spec_is_some(),
    {
        !self.is_some()
    }

    /// A result with the given fields.
    pub fn some(voxel_id: usize, layer_id: usize, node_idx: usize) -> (r: Self)
        ensures
            r == (GetNodeResult { voxel_id, layer_id, node_idx }),
    {
        Self { voxel_id, layer_id, node_idx }
    }

    /// The result that names nothing.
    pub fn none() -> (r: Self)
        ensures
            r == nothing(),
    {
        Self { voxel_id: 0, layer_id: 0, node_idx: 0 }
    }
}

/// Where a lookup on a layer `2^depth` wide goes for coordinate `x`: its top bit
/// decides the first child, and the rest of the way goes by `x` modulo `2^(depth - 1)`.
/// Below `2^depth` this is `x` itself.
pub open spec fn eff_coord(x: int, depth: nat) -> int {
    half_bit(x, (depth - 1) as nat) * pw((depth - 1) as nat) + x % pw((depth - 1) as nat)
}

/// The position a lookup for `p` on a layer `2^depth` wide goes to.
pub open spec fn eff(p: UVec3, depth: nat) -> UVec3 {
    UVec3 {
        x: eff_coord(p.x as int, depth) as u32,
        y: eff_coord(p.y as int, depth) as u32,
        z: eff_coord(p.z as int, depth) as u32,
    }
}

impl Layer {
    /// What one entry `(v, _)` of the chain on the way to `e` gives a lookup of
    /// `level` for `opt`: whether the lookup stops after it, and what it finds there.
    pub open spec fn entry_step(&self, e: UVec3, v: int, level: int, opt: Option<usize>) -> (bool, Option<GetNodeResult>) {
        let stops = opt is Some;
        if opt is Some && opt->0 as int != v {
            (false, Option::None)
        } else if level >= 4 {
            (true, Option::None)
        } else if level == 3 {
            let k3 = path_key(e, v, 3);
            if self.branch@.contains_key(k3) { (true, Option::Some(found(v, self.branch@[k3]))) } else { (stops, Option::None) }
        } else {
            let lk = path_leaf(e, v);
            if self.has_voxel(e.x as int, e.y as int, e.z as int, v) {
                (stops, Option::Some(found(v, self.leaf@[lk])))
            } else {
                (stops, Option::None)
            }
        }
    }

    /// A lookup going through the entries `es` from the `t`-th on, having found `acc` so far.
    pub open spec fn scan_entries(&self, es: Seq<(int, int)>, t: int, e: UVec3, level: int, opt: Option<usize>, acc: GetNodeResult) -> GetNodeResult
        decreases es.len() - t,
    {
        if t < 0 || t >= es.len() {
            acc
        } else {
            let (stop, hit) = self.entry_step(e, es[t].0, level, opt);
            let acc2 = if hit is Some { hit->0 } else { acc };
            if stop { acc2 } else { self.scan_entries(es, t + 1, e, level, opt, acc2) }
        }
    }

    /// What [Layer::get_node] returns.
    pub open spec fn get_spec(&self, p: UVec3, level: int, opt: Option<usize>) -> GetNodeResult {
        let d = self.depth as int;
        let e = eff(p, self.depth as nat);
        let c4 = cell_of(path_key(e, 0, 4));
        if level == d {
            found(0, 1)
        } else if level > d {
            nothing()
        } else if level >= 5 {
            let k = path_key(e, 0, level);
            if self.branch@.contains_key(k) { found(0, self.branch@[k]) } else { nothing() }
        } else if !self.chains@.contains_key(c4) {
            nothing()
        } else if level == 4 {
            found(0, self.chains@[c4][0])
        } else {
            self.scan_entries(self.entries@[c4], 0, e, level, opt, nothing())
        }
    }
}


/// The first step of a lookup on a layer `2^depth` wide: the child taken from
/// the root and the position below it are those of [eff].
pub proof fn lemma_eff(p: UVec3, depth: nat)
    requires
        1 <= depth <= 31,
    ensures
        eff(p, depth).x < pw(depth),
        eff(p, depth).y < pw(depth),
        eff(p, depth).z < pw(depth),
        spec_child_index(p, (depth - 1) as nat) == path_child(eff(p, depth), depth as int),
        local(eff(p, depth), (depth - 1) as int) == (UVec3 {
            x: (p.x as int % pw((depth - 1) as nat)) as u32,
            y: (p.y as int % pw((depth - 1) as nat)) as u32,
            z: (p.z as int % pw((depth - 1) as nat)) as u32,
        }),
        eff(p, depth).x as int / pw(depth) == 0,
        eff(p, depth).y as int / pw(depth) == 0,
        eff(p, depth).z as int / pw(depth) == 0,
        p.x < pw(depth) && p.y < pw(depth) && p.z < pw(depth) ==> eff(p, depth) == p,
{
    let h = pw((depth - 1) as nat);
    vstd::arithmetic::power2::lemma_pow2_unfold(depth);
    vstd::arithmetic::power2::lemma_pow2_pos((depth - 1) as nat);
    vstd::arithmetic::power2::lemma_pow2_strictly_increases(depth, 32);
    vstd::arithmetic::power2::lemma2_to64();
    lemma_eff_coord(p.x as int, h);
    lemma_eff_coord(p.y as int, h);
    lemma_eff_coord(p.z as int, h);
    let e = eff(p, depth);
    assert(e.x as int == eff_coord(p.x as int, depth));
    assert(e.y as int == eff_coord(p.y as int, depth));
    assert(e.z as int == eff_coord(p.z as int, depth));
    assert(local(e, depth as int) == e) by {
        vstd::arithmetic::div_mod::lemma_small_mod(e.x as nat, pw(depth) as nat);
        vstd::arithmetic::div_mod::lemma_small_mod(e.y as nat, pw(depth) as nat);
        vstd::arithmetic::div_mod::lemma_small_mod(e.z as nat, pw(depth) as nat);
    }
    vstd::arithmetic::div_mod::lemma_basic_div(e.x as int, pw(depth));
    vstd::arithmetic::div_mod::lemma_basic_div(e.y as int, pw(depth));
    vstd::arithmetic::div_mod::lemma_basic_div(e.z as int, pw(depth));
    vstd::arithmetic::div_mod::lemma_mod_decreases(p.x as nat, h as nat);
    vstd::arithmetic::div_mod::lemma_mod_decreases(p.y as nat, h as nat);
    vstd::arithmetic::div_mod::lemma_mod_decreases(p.z as nat, h as nat);
    if p.x < pw(depth) && p.y < pw(depth) && p.z < pw(depth) {
        lemma_eff_small(p.x as int, h);
        lemma_eff_small(p.y as int, h);
        lemma_eff_small(p.z as int, h);
    }
}

/// A coordinate and where a lookup for it goes lie in the same half, and agree
/// below that half.
pub proof fn lemma_eff_coord(x: int, h: int)
    requires
        x >= 0,
        h > 0,
    ensures
        ({
            let b = if x >= h { 1int } else { 0int };
            let e = b * h + x % h;
            &&& 0 <= e < 2 * h
            &&& (e >= h) == (x >= h)
            &&& e % h == x % h
        }),
{
    let b = if x >= h { 1int } else { 0int };
    vstd::arithmetic::div_mod::lemma_mod_pos_bound(x, h);
    let r = x % h;
    vstd::arithmetic::div_mod::lemma_fundamental_div_mod_converse(b * h + r, h, b, r);
}

/// Below `2 * h`, going by the half and then modulo `h` gives the coordinate back.
pub proof fn lemma_eff_small(x: int, h: int)
    requires
        0 <= x < 2 * h,
        h > 0,
    ensures
        (if x >= h { 1int } else { 0int }) * h + x % h == x,
{
    if x >= h {
        vstd::arithmetic::div_mod::lemma_fundamental_div_mod_converse(x, h, 1, x - h);
    } else {
        vstd::arithmetic::div_mod::lemma_small_mod(x as nat, h as nat);
    }
}

impl Layer {
    /// What one entry `(vid, node)` of a chain of forks gives a lookup of `level`:
    /// whether the lookup stops after it, and what it finds there.
    #[verifier::spinoff_prover]
    #[verifier::rlimit(40)]
    fn fork_entry(&self, vid: u32, node: usize, position: UVec3, level: usize, voxel_id_opt: Option<usize>,
        Ghost(e): Ghost<UVec3>) -> (r: (bool, Option<GetNodeResult>))
        requires
            self.inv(),
            vid != 0,
            self.branch@.contains_key(path_key(e, vid as int, 4)),
            node == self.branch@[path_key(e, vid as int, 4)],
            position == local(e, 4),
            e.x < pw(self.depth as nat) && e.y < pw(self.depth as nat) && e.z < pw(self.depth as nat),
        ensures
            r == self.entry_step(e, vid as int, level as int, voxel_id_opt),
    {
        proof {
            reveal(Layer::inv);
        }
        if let Option::Some(needed) = voxel_id_opt {
            if vid as usize != needed {
                return (false, Option::None);
            }
        }
        let drop = voxel_id_opt.is_some();
        if 4 > level {
            let ci = Node::get_child_index(position, 3);
            let below = self.nodes[node].children[ci];
            proof {
                lemma_path_step(e, vid as int, 4);
                lemma_path_step(e, vid as int, 3);
                assert(ci == path_child(e, 4));
                assert(below == self.key_child(path_key(e, vid as int, 4), ci as int));
                let k3 = path_key(e, vid as int, 3);
                if self.branch@.contains_key(k3) {
                    assert(self.branch@[k3] >= 1);
                }
            }
            if below == 0 {
                return (drop, Option::None);
            }
            if level == 3 {
                return (true, Option::Some(GetNodeResult::some(vid as usize, 0, below as usize)));
            }
            let idx = below as usize;
            let s8: u32 = 8;
            let pos = uvec3(position.x % s8, position.y % s8, position.z % s8);
            let ci2 = Node::get_child_index(pos, 2);
            let below2 = self.nodes[idx].children[ci2];
            proof {
                vstd::arithmetic::power2::lemma2_to64();
                assert(pos == local(e, 3));
                assert(ci2 == path_child(e, 3));
                let lk = path_leaf(e, vid as int);
                assert(below2 == self.key_child(path_key(e, vid as int, 3), ci2 as int));
                if self.leaf@.contains_key(lk) {
                    assert(self.leaf@[lk] >= 1);
                }
            }
            if below2 == 0 {
                return (drop, Option::None);
            }
            let s4: u32 = 4;
            let pos4 = uvec3(pos.x % s4, pos.y % s4, pos.z % s4);
            proof {
                lemma_path_step(e, vid as int, 3);
                assert(pos4 == local(e, 2));
                lemma_voxel_cell(e.x as int);
                lemma_voxel_cell(e.y as int);
                lemma_voxel_cell(e.z as int);
                assert(pos4 == (UVec3 { x: (e.x as int % 4) as u32, y: (e.y as int % 4) as u32, z: (e.z as int % 4) as u32 }));
            }
            if self.level_2[below2 as usize].is_at(pos4) {
                return (drop, Option::Some(GetNodeResult::some(vid as usize, 0, below2 as usize)));
            } else {
                return (drop, Option::None);
            }
        }
        (true, Option::None)
    }
}


/// Below a node that is missing on the way to `e`, no node on the way exists,
/// nor does the chain of forks on the way.
pub proof fn lemma_missing_below(l: &Layer, e: UVec3, lv: int)
    requires
        l.wf(),
        4 <= lv < l.depth,
        e.x < pw(l.depth as nat) && e.y < pw(l.depth as nat) && e.z < pw(l.depth as nat),
        lv >= 5 ==> !l.branch@.contains_key(path_key(e, 0, lv)),
        lv == 4 ==> !l.chains@.contains_key(cell_of(path_key(e, 0, 4))),
    ensures
        forall|m: int| 5 <= m <= lv ==> !#[trigger] l.branch@.contains_key(path_key(e, 0, m)),
        !l.chains@.contains_key(cell_of(path_key(e, 0, 4))),
    decreases lv,
{
    if lv >= 5 {
        lemma_path_step(e, 0, lv);
        lemma_halve(e.x as int, lv as nat);
        lemma_halve(e.y as int, lv as nat);
        lemma_halve(e.z as int, lv as nat);
        let k = path_key(e, 0, lv - 1);
        if lv - 1 >= 5 {
            if l.branch@.contains_key(k) {
                assert(l.branch@.contains_key((k.0 + 1, k.1 / 2, k.2 / 2, k.3 / 2, 0int)));
            }
        } else {
            let c4 = cell_of(path_key(e, 0, 4));
            if l.chains@.contains_key(c4) {
                assert(l.branch@.contains_key((5int, c4.0 / 2, c4.1 / 2, c4.2 / 2, 0int)));
            }
        }
        lemma_missing_below(l, e, lv - 1);
    }
}

/// A scan that asks for a level of 4 or more finds nothing new.
pub proof fn lemma_scan_high(l: &Layer, es: Seq<(int, int)>, t: int, e: UVec3, level: int, opt: Option<usize>, acc: GetNodeResult)
    requires
        level >= 4,
    ensures
        l.scan_entries(es, t, e, level, opt, acc) == acc,
    decreases es.len() - t,
{
    if 0 <= t < es.len() {
        lemma_scan_high(l, es, t + 1, e, level, opt, acc);
    }
}

/// One step down from the node on `lv` on the way to `e`: the child taken is
/// the node on the way one level down (or the first fork on level 4), `0` when
/// there is none.
pub proof fn lemma_step_down(l: &Layer, e: UVec3, lv: int, ci: int)
    requires
        l.inv(),
        5 <= lv <= l.depth,
        l.branch@.contains_key(path_key(e, 0, lv)),
        lv >= 6 ==> crate::set::child_key(path_key(e, 0, lv), ci) == path_key(e, 0, lv - 1),
        lv == 5 ==> child_cell(cell_of(path_key(e, 0, lv)), ci) == cell_of(path_key(e, 0, 4)),
        0 <= ci < 8,
    ensures
        lv >= 6 ==> l.nodes@[l.branch@[path_key(e, 0, lv)]].children[ci] as int
            == (if l.branch@.contains_key(path_key(e, 0, lv - 1)) { l.branch@[path_key(e, 0, lv - 1)] } else { 0 }),
        lv >= 6 && l.branch@.contains_key(path_key(e, 0, lv - 1)) ==> 1 <= l.branch@[path_key(e, 0, lv - 1)] < l.nlen(),
        lv == 5 ==> l.nodes@[l.branch@[path_key(e, 0, lv)]].children[ci] as int
            == (if l.chains@.contains_key(cell_of(path_key(e, 0, 4))) { l.chains@[cell_of(path_key(e, 0, 4))][0] } else { 0 }),
        lv == 5 && l.chains@.contains_key(cell_of(path_key(e, 0, 4))) ==> 1 <= l.chains@[cell_of(path_key(e, 0, 4))][0] < l.nlen(),
{
    reveal(Layer::inv);
    assert(l.nodes@[l.branch@[path_key(e, 0, lv)]].children[ci] == l.key_child(path_key(e, 0, lv), ci));
}

/// Slot `s` of fork `j` of the chain of cell `c`: the entry it holds, or `0` past the last entry.
pub proof fn lemma_slot(l: &Layer, c: Cell, j: int, s: int)
    requires
        l.inv(),
        l.chains@.contains_key(c),
        0 <= j < l.chains@[c].len(),
        0 <= s < 4,
    ensures
        l.nodes@[l.chains@[c][j]].children[2 * s] as int
            == (if entry_index(j, s) < l.entries@[c].len() { l.entries@[c][entry_index(j, s)].0 } else { 0 }),
        entry_index(j, s) < l.entries@[c].len() ==> l.nodes@[l.chains@[c][j]].children[2 * s + 1] as int == l.entries@[c][entry_index(j, s)].1,
        entry_index(j, s) < l.entries@[c].len() ==> {
            let en = l.entries@[c][entry_index(j, s)];
            &&& en.0 >= 1
            &&& l.branch@.contains_key((4int, c.0, c.1, c.2, en.0))
            &&& l.branch@[(4int, c.0, c.1, c.2, en.0)] == en.1
        },
{
    reveal(Layer::inv);
    assert(l.nodes@[l.chains@[c][j]].children[2 * s] == l.slot_vid(c, j, s));
    assert(l.nodes@[l.chains@[c][j]].children[2 * s + 1] == l.slot_node(c, j, s));
    if entry_index(j, s) < l.entries@[c].len() {
        let en = l.entries@[c][entry_index(j, s)];
        assert(l.branch@.contains_key((4int, c.0, c.1, c.2, en.0)));
    }
}

/// The flag of fork `j` of the chain of cell `c` links the next fork, or is `-3`
/// on the last one; every fork but the last is full.
pub proof fn lemma_fork_flag(l: &Layer, c: Cell, j: int)
    requires
        l.inv(),
        l.chains@.contains_key(c),
        0 <= j < l.chains@[c].len(),
    ensures
        l.nodes@[l.chains@[c][j]].flag == (if j + 1 < l.chains@[c].len() { l.chains@[c][j + 1] } else { -3 }),
        j + 1 < l.chains@[c].len() ==> 1 <= l.chains@[c][j + 1] < l.nlen() && 4 * (j + 1) < l.entries@[c].len(),
        1 <= l.chains@[c][j] < l.nlen(),
        l.entries@[c].len() <= 4 * l.chains@[c].len(),
        4 * (l.chains@[c].len() - 1) < l.entries@[c].len(),
{
    reveal(Layer::inv);
}

impl Layer {
    /// Looks up the node on `level` that holds `position`.
    ///
    /// Above the forks (levels 5 and up) it returns the node on the way, if
    /// there is one, with voxel id `0`; on level 4 the first fork of the chain.
    /// Below, it goes through the entries of the chain: with `voxel_id_opt` set,
    /// only the entry of that voxel id counts. On level 3 the first entry whose
    /// subtree has the node wins; on levels 0 to 2 the last entry whose subtree
    /// holds the voxel, and the index returned is that of the level-2 node.
    #[verifier::spinoff_prover]
    #[verifier::rlimit(40)]
    pub fn get_node(&self, position: UVec3, level: usize, voxel_id_opt: Option<usize>) -> (r: GetNodeResult)
        requires
            self.wf(),
            level < usize::MAX,
        ensures
            r == self.get_spec(position, level as int, voxel_id_opt),
    {
        let ghost d = self.depth as int;
        let ghost p0 = position;
        let ghost e = eff(position, self.depth as nat);
        let ghost target = self.get_spec(position, level as int, voxel_id_opt);
        let mut pos = position;
        let mut current_level = self.depth;
        let mut size = l2s(self.depth);
        let fork_level: usize = 4;
        let mut idx: usize = 1;

        if level == self.depth {
            return GetNodeResult::some(0, 0, 1);
        }
        proof {
            lemma_eff(p0, self.depth as nat);
            assert(path_key(e, 0, d) == self.root_key());
            reveal(Layer::inv);
        }
        while current_level > fork_level
            invariant
                self.inv(),
                self.wf_sizes(),
                idx < self.nlen(),
                fork_level == 4,
                d == self.depth,
                e == eff(p0, self.depth as nat),
                target == self.get_spec(p0, level as int, voxel_id_opt),
                4 <= current_level <= d,
                level != d,
                !(current_level <= level < d),
                size == pw(current_level as nat),
                current_level == d ==> pos == p0,
                p0 == position,
                level < usize::MAX,
                current_level < d ==> pos == local(e, current_level as int),
                e.x < pw(d as nat) && e.y < pw(d as nat) && e.z < pw(d as nat),
                current_level >= 5 ==> self.branch@.contains_key(path_key(e, 0, current_level as int))
                    && idx == self.branch@[path_key(e, 0, current_level as int)],
                current_level == 4 ==> self.chains@.contains_key(cell_of(path_key(e, 0, 4)))
                    && idx == self.chains@[cell_of(path_key(e, 0, 4))][0],
            decreases current_level,
        {
            let child_index = Node::get_child_index(pos, current_level - 1);
            let below_node_idx = self.nodes[idx].children[child_index];
            let ghost k = path_key(e, 0, current_level as int);
            proof {
                lemma_eff(p0, self.depth as nat);
                lemma_path_step(e, 0, current_level as int);
                assert(child_index == path_child(e, current_level as int));
                vstd::arithmetic::power2::lemma_pow2_pos(current_level as nat);
                lemma_child_cell(cell_of(k), child_index as int, 0);
                assert(current_level >= 6 ==> crate::set::child_key(k, child_index as int) == path_key(e, 0, current_level - 1));
                assert(current_level == 5 ==> child_cell(cell_of(k), child_index as int) == cell_of(path_key(e, 0, 4)));
                lemma_step_down(self, e, current_level as int, child_index as int);
            }
            if below_node_idx != 0 {
                idx = below_node_idx as usize;
                if current_level == level + 1 {
                    proof {
                        assert(level < d);
                        if level >= 5 {
                            assert(self.branch@.contains_key(path_key(e, 0, level as int)));
                            assert(below_node_idx == self.branch@[path_key(e, 0, level as int)]);
                            assert(target == found(0, below_node_idx as int));
                        } else {
                            assert(level == 4);
                            assert(target == found(0, below_node_idx as int));
                        }
                    }
                    return GetNodeResult::some(0, 0, below_node_idx as usize);
                }
            } else {
                proof {
                    reveal(Layer::inv);
                    lemma_missing_below(self, e, current_level - 1);
                }
                return GetNodeResult::none();
            }
            proof {
                vstd::arithmetic::power2::lemma_pow2_unfold(current_level as nat);
                vstd::arithmetic::power2::lemma_pow2_pos((current_level - 1) as nat);
            }
            size /= 2;
            pos = uvec3(pos.x % size, pos.y % size, pos.z % size);
            current_level -= 1;
        }
        let ghost c4 = cell_of(path_key(e, 0, 4));
        let ghost es = self.entries@[c4];
        let ghost n = self.chains@[c4].len() as int;
        proof {
            reveal(Layer::inv);
            if level as int > d {
                lemma_scan_high(self, es, 0, e, level as int, voxel_id_opt, nothing());
            }
            assert(target == self.scan_entries(es, 0, e, level as int, voxel_id_opt, nothing()));
        }
        let mut found = GetNodeResult::none();
        let mut fork_idx = idx;
        let ghost mut j: int = 0;
        loop
            invariant
                self.inv(),
                self.wf_sizes(),
                fork_idx < self.nlen(),
                0 <= j < n,
                n == self.chains@[c4].len(),
                es == self.entries@[c4],
                self.chains@.contains_key(c4),
                c4 == cell_of(path_key(e, 0, 4)),
                fork_idx == self.chains@[c4][j],
                pos == local(e, 4),
                p0 == position,
                e.x < pw(self.depth as nat) && e.y < pw(self.depth as nat) && e.z < pw(self.depth as nat),
                4 * j <= es.len(),
                target == self.get_spec(p0, level as int, voxel_id_opt),
                target == self.scan_entries(es, 4 * j, e, level as int, voxel_id_opt, found),
            decreases n - j,
        {
            let fork = self.nodes[fork_idx];
            let mut s: usize = 0;
            while s < 4
                invariant
                    self.inv(),
                    self.wf_sizes(),
                    0 <= j < n,
                    n == self.chains@[c4].len(),
                    es == self.entries@[c4],
                    self.chains@.contains_key(c4),
                    c4 == cell_of(path_key(e, 0, 4)),
                    fork_idx == self.chains@[c4][j],
                    fork == self.nodes@[fork_idx as int],
                    pos == local(e, 4),
                p0 == position,
                    e.x < pw(self.depth as nat) && e.y < pw(self.depth as nat) && e.z < pw(self.depth as nat),
                    s <= 4,
                    4 * j + s <= es.len(),
                    target == self.get_spec(p0, level as int, voxel_id_opt),
                    target == self.scan_entries(es, 4 * j + s, e, level as int, voxel_id_opt, found),
                decreases 4 - s,
            {
                let found_voxel_id = fork.children[2 * s];
                let found_node_idx = fork.children[2 * s + 1];
                let ghost t = entry_index(j, s as int);
                proof {
                    lemma_slot(self, c4, j, s as int);
                }
                if found_voxel_id == 0 {
                    proof {
                        assert(t >= es.len());
                        assert(self.scan_entries(es, t, e, level as int, voxel_id_opt, found) == found);
                    }
                    return found;
                }
                proof {
                    assert(path_key(e, found_voxel_id as int, 4) == (4int, c4.0, c4.1, c4.2, found_voxel_id as int));
                }
                let (stop, hit) = self.fork_entry(found_voxel_id, found_node_idx as usize, pos, level, voxel_id_opt, Ghost(e));
                if let Option::Some(h) = hit {
                    found = h;
                }
                if stop {
                    return found;
                }
                s += 1;
            }
            let next_opt = fork.flag;
            proof {
                lemma_fork_flag(self, c4, j);
            }
            if next_opt > 0 {
                fork_idx = next_opt as usize;
                proof {
                    j = j + 1;
                }
            } else {
                proof {
                    assert(es.len() <= 4 * n);
                }
                return found;
            }
        }
    }
}


/// An entry of a chain of forks, as [Layer::iter_fork] hands it out.
#[derive(Clone, Copy, PartialEq, Eq, Debug, Structural)]
pub struct ForkIterProps {
    pub drop: bool,
    pub voxel_id: usize,
    pub node_idx: usize,
}

impl Layer {
    /// The entries `(voxel_id, node)` of the chain of forks from fork `fork_idx`
    /// on, in order.
    pub fn iter_fork(&self, fork_idx: usize) -> (r: Vec<ForkIterProps>)
        requires
            self.wf(),
            exists|c: Cell, j: int| self.chains@.contains_key(c) && 0 <= j < self.chains@[c].len()
                && #[trigger] self.chains@[c][j] == fork_idx,
        ensures
            forall|c: Cell, j: int| self.chains@.contains_key(c) && 0 <= j < self.chains@[c].len()
                && #[trigger] self.chains@[c][j] == fork_idx ==> {
                &&& r@.len() == self.entries@[c].len() - 4 * j
                &&& forall|t: int| 0 <= t < r@.len() ==> #[trigger] r@[t] == (ForkIterProps {
                    drop: false,
                    voxel_id: self.entries@[c][4 * j + t].0 as usize,
                    node_idx: self.entries@[c][4 * j + t].1 as usize,
                })
            },
    {
        let ghost (c, j0) = choose|c: Cell, j: int| self.chains@.contains_key(c) && 0 <= j < self.chains@[c].len()
            && #[trigger] self.chains@[c][j] == fork_idx;
        proof {
            assert forall|c2: Cell, j2: int| self.chains@.contains_key(c2) && 0 <= j2 < self.chains@[c2].len()
                && #[trigger] self.chains@[c2][j2] == fork_idx implies c2 == c && j2 == j0 by {
                if c2 != c || j2 != j0 {
                    assert(self.chains@[c2][j2] != self.chains@[c][j0]);
                }
            }
            assert(self.inv()) by {
                reveal(Layer::inv);
            }
            lemma_fork_flag(self, c, j0);
        }
        let ghost es = self.entries@[c];
        let ghost n = self.chains@[c].len() as int;
        let mut out: Vec<ForkIterProps> = Vec::new();
        let mut cur = fork_idx;
        let ghost mut j: int = j0;
        loop
            invariant
                self.inv(),
                self.wf_sizes(),
                j0 <= j < n,
                n == self.chains@[c].len(),
                es == self.entries@[c],
                self.chains@.contains_key(c),
                cur == self.chains@[c][j],
                cur < self.nlen(),
                0 <= j0,
                self.chains@[c][j0] == fork_idx,
                forall|c2: Cell, j2: int| self.chains@.contains_key(c2) && 0 <= j2 < self.chains@[c2].len()
                    && #[trigger] self.chains@[c2][j2] == fork_idx ==> c2 == c && j2 == j0,
                4 * j <= es.len(),
                out@.len() == 4 * (j - j0),
                forall|t: int| 0 <= t < out@.len() ==> #[trigger] out@[t] == (ForkIterProps {
                    drop: false, voxel_id: es[4 * j0 + t].0 as usize, node_idx: es[4 * j0 + t].1 as usize }),
            decreases n - j,
        {
            let fork = self.nodes[cur];
            let mut s: usize = 0;
            while s < 4
                invariant
                    self.inv(),
                    self.wf_sizes(),
                    j0 <= j < n,
                    n == self.chains@[c].len(),
                    es == self.entries@[c],
                    self.chains@.contains_key(c),
                    cur == self.chains@[c][j],
                    fork == self.nodes@[cur as int],
                    0 <= j0,
                    self.chains@[c][j0] == fork_idx,
                    forall|c2: Cell, j2: int| self.chains@.contains_key(c2) && 0 <= j2 < self.chains@[c2].len()
                        && #[trigger] self.chains@[c2][j2] == fork_idx ==> c2 == c && j2 == j0,
                    s <= 4,
                    4 * j + s <= es.len(),
                    out@.len() == 4 * (j - j0) + s,
                    forall|t: int| 0 <= t < out@.len() ==> #[trigger] out@[t] == (ForkIterProps {
                        drop: false, voxel_id: es[4 * j0 + t].0 as usize, node_idx: es[4 * j0 + t].1 as usize }),
                decreases 4 - s,
            {
                let found_voxel_id = fork.children[2 * s];
                let found_node_idx = fork.children[2 * s + 1];
                proof {
                    lemma_slot(self, c, j, s as int);
                }
                if found_voxel_id == 0 {
                    return out;
                }
                out.push(ForkIterProps { drop: false, voxel_id: found_voxel_id as usize, node_idx: found_node_idx as usize });
                s += 1;
            }
            let next_opt = fork.flag;
            proof {
                lemma_fork_flag(self, c, j);
            }
            if next_opt > 0 {
                cur = next_opt as usize;
                proof {
                    j = j + 1;
                }
            } else {
                return out;
            }
        }
    }
}

} // verus!
