use vstd::prelude::*;
use crate::layer::{Layer, Cell, LKey, child_cell, parent_cell, cell_in, lemma_child_cell};
use crate::node::{spec_child_index, child_dx, child_dy, child_dz};
use crate::node_l2::{uvec3_spec, law_index_l1_has};
use crate::traverse::{Props, Pos, child_pos, event, l1_byte, l0_bit};
use crate::get::{eff, lemma_eff};
use crate::set::{path_key, lemma_leaf_grid};
use crate::utils::pw;
use crate::vec3::UVec3;

verus! {

/// Index (0 to 7) of cell `c` inside its parent cell.
pub open spec fn octant(c: Cell) -> int {
    c.0 % 2 + 2 * (c.1 % 2) + 4 * (c.2 % 2)
}

/// The cube of cell `c` on `level` lies at `p`.
pub open spec fn at_cell(p: Pos, c: Cell, level: int) -> bool {
    let w = pw(level as nat);
    p == (c.0 * w, c.1 * w, c.2 * w)
}

/// Every report of a voxel in `s` names a voxel of the layer, with node index `1`.
pub open spec fn reports_voxels(l: &Layer, s: Seq<Props>) -> bool {
    forall|t: int| 0 <= t < s.len() && (#[trigger] s[t]).level == 0 ==> {
        &&& l.has_voxel(s[t].position.x as int, s[t].position.y as int, s[t].position.z as int, s[t].voxel_id as int)
        &&& s[t].node_idx == 1
    }
}

/// A node that a traversal passes, as the layer holds it: the node `n` of cell
/// `c` on `level` in the subtree of `v`, at `p`.
pub open spec fn node_ctx(l: &Layer, level: int, c: Cell, v: int, n: int, p: Pos) -> bool {
    &&& 1 <= level <= l.depth
    &&& at_cell(p, c, level)
    &&& level >= 5 ==> v == 0 && l.branch@.contains_key((level, c.0, c.1, c.2, 0int))
        && n == l.branch@[(level, c.0, c.1, c.2, 0int)]
    &&& (level == 4 || level == 3) ==> l.branch@.contains_key((level, c.0, c.1, c.2, v))
        && n == l.branch@[(level, c.0, c.1, c.2, v)]
    &&& level == 2 ==> l.leaf@.contains_key((c.0, c.1, c.2, v)) && n == l.leaf@[(c.0, c.1, c.2, v)]
    &&& level == 1 ==> {
        let pc = parent_cell(c);
        &&& c.0 >= 0 && c.1 >= 0 && c.2 >= 0
        &&& l.leaf@.contains_key((pc.0, pc.1, pc.2, v))
        &&& n == l1_byte(l.level_2@[l.leaf@[(pc.0, pc.1, pc.2, v)]], octant(c))
    }
}

proof fn lemma_reports_add(l: &Layer, a: Seq<Props>, b: Seq<Props>)
    requires
        reports_voxels(l, a),
        reports_voxels(l, b),
    ensures
        reports_voxels(l, a + b),
{
    assert forall|t: int| 0 <= t < (a + b).len() && (#[trigger] (a + b)[t]).level == 0 implies {
        &&& l.has_voxel((a + b)[t].position.x as int, (a + b)[t].position.y as int, (a + b)[t].position.z as int, (a + b)[t].voxel_id as int)
        &&& (a + b)[t].node_idx == 1
    } by {
        if t < a.len() {
            assert((a + b)[t] == a[t]);
        } else {
            assert((a + b)[t] == b[t - a.len()]);
        }
    }
}

/// The cube of child `i` lies at the child's cell.
proof fn lemma_child_at_cell(p: Pos, c: Cell, i: int, level: int)
    requires
        at_cell(p, c, level),
        level >= 1,
        0 <= i < 8,
    ensures
        at_cell(child_pos(p, i, level), child_cell(c, i), level - 1),
{
    let h = pw((level - 1) as nat);
    vstd::arithmetic::power2::lemma_pow2_unfold(level as nat);
    assert(pw(level as nat) == 2 * h);
    assert(c.0 * (2 * h) + child_dx(i) * h == (2 * c.0 + child_dx(i)) * h) by (nonlinear_arith);
    assert(c.1 * (2 * h) + child_dy(i) * h == (2 * c.1 + child_dy(i)) * h) by (nonlinear_arith);
    assert(c.2 * (2 * h) + child_dz(i) * h == (2 * c.2 + child_dz(i)) * h) by (nonlinear_arith);
}

/// The voxel below bit `i` of the octant byte of a level-1 node is a voxel of the layer.
proof fn lemma_l1_voxel(l: &Layer, c: Cell, v: int, i: int)
    requires
        l.wf_sizes(),
        c.0 >= 0 && c.1 >= 0 && c.2 >= 0,
        l.leaf@.contains_key((parent_cell(c).0, parent_cell(c).1, parent_cell(c).2, v)),
        cell_in(parent_cell(c), l.cells(2)),
        0 <= i < 8,
        l0_bit(l1_byte(l.level_2@[l.leaf@[(parent_cell(c).0, parent_cell(c).1, parent_cell(c).2, v)]], octant(c)), i),
    ensures
        ({
            let q = child_cell(c, i);
            &&& 0 <= q.0 < 0x8000_0000 && 0 <= q.1 < 0x8000_0000 && 0 <= q.2 < 0x8000_0000
            &&& l.has_voxel(q.0, q.1, q.2, v)
        }),
{
    let pc = parent_cell(c);
    let lk = (pc.0, pc.1, pc.2, v);
    let q = child_cell(c, i);
    let node = l.level_2@[l.leaf@[lk]];
    lemma_leaf_grid(l, lk);
    if l.depth < 31 {
        vstd::arithmetic::power2::lemma_pow2_strictly_increases(l.depth as nat, 31);
    }
    vstd::arithmetic::power2::lemma2_to64();
    let loc = UVec3 { x: (q.0 % 4) as u32, y: (q.1 % 4) as u32, z: (q.2 % 4) as u32 };
    vstd::arithmetic::div_mod::lemma_fundamental_div_mod_converse(q.0, 4, pc.0, 2 * (c.0 % 2) + child_dx(i));
    vstd::arithmetic::div_mod::lemma_fundamental_div_mod_converse(q.1, 4, pc.1, 2 * (c.1 % 2) + child_dy(i));
    vstd::arithmetic::div_mod::lemma_fundamental_div_mod_converse(q.2, 4, pc.2, 2 * (c.2 % 2) + child_dz(i));
    assert(q.0 / 4 == pc.0 && q.1 / 4 == pc.1 && q.2 / 4 == pc.2);
    assert(loc.x == 2 * (c.0 % 2) + child_dx(i) && loc.y == 2 * (c.1 % 2) + child_dy(i) && loc.z == 2 * (c.2 % 2) + child_dz(i));
    law_index_l1_has(node, loc);
    assert(spec_child_index(loc, 1) == octant(c));
    assert(spec_child_index(uvec3_spec(loc.x % 2, loc.y % 2, loc.z % 2), 0) == i);
}

/// What a traversal reports of voxels below child `i` of a node of the layer are
/// voxels of the layer.
proof fn lemma_child_reports(l: &Layer, level: int, c: Cell, v: int, n: int, p: Pos, i: int)
    requires
        l.wf(),
        node_ctx(l, level, c, v, n, p),
    ensures
        reports_voxels(l, l.child_events(level, c, v, n, p, i)),
    decreases level, 8 - i, 0int,
{
    if 0 <= i < 8 && level >= 1 {
        let cc = child_cell(c, i);
        let cp = child_pos(p, i, level);
        lemma_child_at_cell(p, c, i, level);
        if level >= 6 {
            let ck = (level - 1, cc.0, cc.1, cc.2, 0int);
            if l.branch@.contains_key(ck) {
                lemma_node_reports(l, level - 1, cc, v, l.branch@[ck], cp, 0);
                lemma_reports_add(l, seq![event(level - 1, cp, l.branch@[ck], n, v)],
                    l.node_events(level - 1, cc, v, l.branch@[ck], cp, 0));
            }
        } else if level == 5 {
            if l.chains@.contains_key(cc) {
                lemma_entry_reports(l, cc, cp, 0);
            }
        } else if level == 4 {
            let ck = (3int, cc.0, cc.1, cc.2, v);
            if l.branch@.contains_key(ck) {
                lemma_node_reports(l, 3, cc, v, l.branch@[ck], cp, 0);
                lemma_reports_add(l, seq![event(3, cp, l.branch@[ck], n, v)], l.node_events(3, cc, v, l.branch@[ck], cp, 0));
            }
        } else if level == 3 {
            let lk = (cc.0, cc.1, cc.2, v);
            if l.leaf@.contains_key(lk) {
                lemma_node_reports(l, 2, cc, v, l.leaf@[lk], cp, 0);
                lemma_reports_add(l, seq![event(2, cp, l.leaf@[lk], n, v)], l.node_events(2, cc, v, l.leaf@[lk], cp, 0));
            }
        } else if level == 2 {
            let b = l1_byte(l.level_2@[n], i);
            if b != 0 {
                assert(cell_in(c, l.cells(2)));
                lemma_child_cell(c, i, l.cells(2));
                assert(octant(cc) == i);
                lemma_node_reports(l, 1, cc, v, b, cp, 0);
                lemma_reports_add(l, seq![event(1, cp, b, n, v)], l.node_events(1, cc, v, b, cp, 0));
            }
        } else if l0_bit(n, i) {
            let pc = parent_cell(c);
            assert(cell_in(pc, l.cells(2)));
            lemma_l1_voxel(l, c, v, i);
            vstd::arithmetic::power2::lemma2_to64();
            assert(pw(0nat) == 1);
            assert(at_cell(cp, cc, 0));
            assert(cp.0 == cc.0 * 1 && cp.1 == cc.1 * 1 && cp.2 == cc.2 * 1);
            let e = event(0, cp, 1, n, v);
            assert(e.position.x as int == cc.0 && e.position.y as int == cc.1 && e.position.z as int == cc.2);
            assert(1 <= v <= u32::MAX);
        }
    }
}

/// What a traversal reports of voxels below the children `i..8` of a node of
/// the layer are voxels of the layer.
proof fn lemma_node_reports(l: &Layer, level: int, c: Cell, v: int, n: int, p: Pos, i: int)
    requires
        l.wf(),
        node_ctx(l, level, c, v, n, p),
    ensures
        reports_voxels(l, l.node_events(level, c, v, n, p, i)),
    decreases level, 8 - i, 1int,
{
    if 0 <= i < 8 {
        lemma_child_reports(l, level, c, v, n, p, i);
        lemma_node_reports(l, level, c, v, n, p, i + 1);
        lemma_reports_add(l, l.child_events(level, c, v, n, p, i), l.node_events(level, c, v, n, p, i + 1));
    }
}

/// What a traversal reports of voxels below the entries `t..` of the chain of
/// cell `c` are voxels of the layer.
proof fn lemma_entry_reports(l: &Layer, c: Cell, p: Pos, t: int)
    requires
        l.wf(),
        l.chains@.contains_key(c),
        at_cell(p, c, 4),
    ensures
        reports_voxels(l, l.entry_events(c, p, t)),
    decreases 5int, 0int, l.entries@[c].len() - t,
{
    if 0 <= t < l.entries@[c].len() {
        let e = l.entries@[c][t];
        assert(l.branch@.contains_key((4int, c.0, c.1, c.2, e.0)));
        lemma_node_reports(l, 4, c, e.0, e.1, p, 0);
        lemma_entry_reports(l, c, p, t + 1);
        let a = seq![event(4, p, e.1, l.chains@[c][t / 4], e.0)];
        lemma_reports_add(l, a, l.node_events(4, c, e.0, e.1, p, 0));
        lemma_reports_add(l, a + l.node_events(4, c, e.0, e.1, p, 0), l.entry_events(c, p, t + 1));
    }
}

/// The position a traversal starts from: the cell `f` of a level, scaled to
/// voxels, lies inside the cube, and its lookup goes to the cell itself.
proof fn lemma_start(l: &Layer, f: UVec3, level: int)
    requires
        l.wf_sizes(),
        5 <= level <= l.depth,
        f.x < l.cells(level),
        f.y < l.cells(level),
        f.z < l.cells(level),
    ensures
        ({
            let w = pw(level as nat);
            let p = UVec3 { x: (f.x * w) as u32, y: (f.y * w) as u32, z: (f.z * w) as u32 };
            &&& p.x as int == f.x * w && p.y as int == f.y * w && p.z as int == f.z * w
            &&& at_cell((p.x as int, p.y as int, p.z as int), (f.x as int, f.y as int, f.z as int), level)
            &&& level == l.depth ==> f.x == 0 && f.y == 0 && f.z == 0
            &&& level < l.depth ==> l.start_cell(p, level) == (f.x as int, f.y as int, f.z as int)
                && path_key(eff(p, l.depth as nat), 0, level) == (level, f.x as int, f.y as int, f.z as int, 0int)
        }),
{
    let w = pw(level as nat);
    vstd::arithmetic::power2::lemma_pow2_adds((l.depth - level) as nat, level as nat);
    vstd::arithmetic::power2::lemma_pow2_pos(level as nat);
    vstd::arithmetic::power2::lemma_pow2_strictly_increases(l.depth as nat, 32);
    vstd::arithmetic::power2::lemma2_to64();
    let cl = l.cells(level);
    assert(pw(l.depth as nat) == cl * w);
    assert(f.x * w < cl * w && f.y * w < cl * w && f.z * w < cl * w) by (nonlinear_arith)
        requires f.x < cl, f.y < cl, f.z < cl, w > 0;
    assert(f.x * w >= 0 && f.y * w >= 0 && f.z * w >= 0) by (nonlinear_arith)
        requires w > 0;
    let p = UVec3 { x: (f.x * w) as u32, y: (f.y * w) as u32, z: (f.z * w) as u32 };
    if level == l.depth {
        assert(cl == 1) by {
            assert(pw(0nat) == 1);
        }
    } else {
        lemma_eff(p, l.depth as nat);
        assert(eff(p, l.depth as nat) == p);
        vstd::arithmetic::div_mod::lemma_div_multiples_vanish(f.x as int, w);
        vstd::arithmetic::div_mod::lemma_div_multiples_vanish(f.y as int, w);
        vstd::arithmetic::div_mod::lemma_div_multiples_vanish(f.z as int, w);
    }
}

/// Every voxel that [Layer::traverse] reports, from a node whose cell lies in
/// the cube, is a voxel of the layer at the reported position with the reported
/// voxel id, and is reported with node index `1`.
#[verifier::spinoff_prover]
pub proof fn law_traverse_reports_voxels(l: &Layer, from_node_position: UVec3, level: int)
    requires
        l.wf(),
        5 <= level <= l.depth,
        from_node_position.x < l.cells(level),
        from_node_position.y < l.cells(level),
        from_node_position.z < l.cells(level),
    ensures
        reports_voxels(l, l.traverse_spec(from_node_position, level)),
{
    let w = pw(level as nat);
    let f = from_node_position;
    lemma_start(l, f, level);
    let p = UVec3 { x: (f.x * w) as u32, y: (f.y * w) as u32, z: (f.z * w) as u32 };
    let found = l.get_spec(p, level, Option::None);
    if found.spec_is_some() {
        let c = l.start_cell(p, level);
        let pp = (p.x as int, p.y as int, p.z as int);
        if level == l.depth {
            assert(l.branch@.contains_key(l.root_key()));
            assert(c == (f.x as int, f.y as int, f.z as int));
        }
        assert(node_ctx(l, level, c, 0, found.node_idx as int, pp));
        lemma_node_reports(l, level, c, 0, found.node_idx as int, pp, 0);
    }
}

/// The cell on `level` that holds the voxel at `q`.
pub open spec fn cell_at(q: Pos, level: int) -> Cell {
    let w = pw(level as nat);
    (q.0 / w, q.1 / w, q.2 / w)
}

/// `s` reports the voxel at `q` with id `vid`.
pub open spec fn reports(s: Seq<Props>, q: Pos, vid: int) -> bool {
    exists|t: int| 0 <= t < s.len() && (#[trigger] s[t]).level == 0
        && s[t].position == (UVec3 { x: q.0 as u32, y: q.1 as u32, z: q.2 as u32 })
        && s[t].voxel_id == vid as u32
}

proof fn lemma_reports_left(a: Seq<Props>, b: Seq<Props>, q: Pos, vid: int)
    requires
        reports(a, q, vid),
    ensures
        reports(a + b, q, vid),
{
    let t = choose|t: int| 0 <= t < a.len() && (#[trigger] a[t]).level == 0
        && a[t].position == (UVec3 { x: q.0 as u32, y: q.1 as u32, z: q.2 as u32 }) && a[t].voxel_id == vid as u32;
    assert((a + b)[t] == a[t]);
}

proof fn lemma_reports_right(a: Seq<Props>, b: Seq<Props>, q: Pos, vid: int)
    requires
        reports(b, q, vid),
    ensures
        reports(a + b, q, vid),
{
    let t = choose|t: int| 0 <= t < b.len() && (#[trigger] b[t]).level == 0
        && b[t].position == (UVec3 { x: q.0 as u32, y: q.1 as u32, z: q.2 as u32 }) && b[t].voxel_id == vid as u32;
    assert((a + b)[t + a.len()] == b[t]);
}

/// One level down, the cell of `q` is the child of its cell whose index is the
/// octant of the cell below.
proof fn lemma_cell_step(q: Pos, level: int)
    requires
        level >= 1,
        q.0 >= 0 && q.1 >= 0 && q.2 >= 0,
    ensures
        0 <= octant(cell_at(q, level - 1)) < 8,
        child_cell(cell_at(q, level), octant(cell_at(q, level - 1))) == cell_at(q, level - 1),
        parent_cell(cell_at(q, level - 1)) == cell_at(q, level),
        cell_at(q, level - 1).0 >= 0 && cell_at(q, level - 1).1 >= 0 && cell_at(q, level - 1).2 >= 0,
{
    let h = pw((level - 1) as nat);
    vstd::arithmetic::power2::lemma_pow2_unfold(level as nat);
    vstd::arithmetic::power2::lemma_pow2_pos((level - 1) as nat);
    assert(pw(level as nat) == h * 2);
    vstd::arithmetic::div_mod::lemma_div_denominator(q.0, h, 2);
    vstd::arithmetic::div_mod::lemma_div_denominator(q.1, h, 2);
    vstd::arithmetic::div_mod::lemma_div_denominator(q.2, h, 2);
    vstd::arithmetic::div_mod::lemma_div_pos_is_pos(q.0, h);
    vstd::arithmetic::div_mod::lemma_div_pos_is_pos(q.1, h);
    vstd::arithmetic::div_mod::lemma_div_pos_is_pos(q.2, h);
}

/// A stored node lies inside `nodes`.
proof fn lemma_stored(l: &Layer, k: (int, int, int, int, int))
    requires
        l.inv(),
        l.branch@.contains_key(k),
    ensures
        1 <= l.branch@[k] < l.nlen(),
{
    reveal(Layer::inv);
}

/// A stored level-2 node's cell lies inside the cube.
proof fn lemma_leaf_cell(l: &Layer, lk: (int, int, int, int))
    requires
        l.inv(),
        l.leaf@.contains_key(lk),
    ensures
        cell_in((lk.0, lk.1, lk.2), l.cells(2)),
{
    reveal(Layer::inv);
}

/// The node named by an entry of a chain is stored under its key on level 4.
proof fn lemma_entry_stored(l: &Layer, c: Cell, t: int)
    requires
        l.inv(),
        l.entries@.contains_key(c),
        0 <= t < l.entries@[c].len(),
    ensures
        l.depth >= 5,
        l.branch@.contains_key((4int, c.0, c.1, c.2, l.entries@[c][t].0)),
        l.branch@[(4int, c.0, c.1, c.2, l.entries@[c][t].0)] == l.entries@[c][t].1,
{
    reveal(Layer::inv);
}

/// On level 0 the cell of a voxel is its position.
proof fn lemma_cell_at_zero(q: Pos)
    ensures
        cell_at(q, 0) == q,
{
    vstd::arithmetic::power2::lemma2_to64();
    let w = pw((0int) as nat);
    assert(w == 1);
    assert(q.0 / w == q.0 && q.1 / w == q.1 && q.2 / w == q.2);
}

/// The cells above a stored node on level 5 or up are stored too.
proof fn lemma_ancestors_up(l: &Layer, q: Pos, m: int)
    requires
        l.inv(),
        5 <= m <= l.depth,
        q.0 >= 0 && q.1 >= 0 && q.2 >= 0,
        l.branch@.contains_key((m, cell_at(q, m).0, cell_at(q, m).1, cell_at(q, m).2, 0int)),
    ensures
        forall|m2: int| m <= m2 <= l.depth
            ==> #[trigger] l.branch@.contains_key((m2, cell_at(q, m2).0, cell_at(q, m2).1, cell_at(q, m2).2, 0int)),
    decreases l.depth - m,
{
    reveal(Layer::inv);
    if m < l.depth {
        lemma_cell_step(q, m + 1);
        lemma_ancestors_up(l, q, m + 1);
    }
}

/// The nodes above a voxel of the layer are stored: its level-2 node, its nodes
/// on levels 3 and 4, an entry of the chain of its level-4 cell, and its nodes
/// from level 5 up.
pub proof fn lemma_voxel_ancestors(l: &Layer, q: Pos, vid: int)
    requires
        l.inv(),
        l.has_voxel(q.0, q.1, q.2, vid),
    ensures
        1 <= vid <= u32::MAX,
        q.0 >= 0 && q.1 >= 0 && q.2 >= 0,
        l.leaf@.contains_key((cell_at(q, 2).0, cell_at(q, 2).1, cell_at(q, 2).2, vid)),
        l.branch@.contains_key((3int, cell_at(q, 3).0, cell_at(q, 3).1, cell_at(q, 3).2, vid)),
        l.branch@.contains_key((4int, cell_at(q, 4).0, cell_at(q, 4).1, cell_at(q, 4).2, vid)),
        l.chains@.contains_key(cell_at(q, 4)),
        l.entries@.contains_key(cell_at(q, 4)),
        exists|t: int| 0 <= t < l.entries@[cell_at(q, 4)].len() && #[trigger] l.entries@[cell_at(q, 4)][t].0 == vid,
        forall|m: int| 5 <= m <= l.depth
            ==> #[trigger] l.branch@.contains_key((m, cell_at(q, m).0, cell_at(q, m).1, cell_at(q, m).2, 0int)),
{
    reveal(Layer::inv);
    vstd::arithmetic::power2::lemma2_to64();
    lemma_cell_step(q, 3);
    lemma_cell_step(q, 4);
    lemma_cell_step(q, 5);
    let c2 = cell_at(q, 2);
    assert(c2 == (q.0 / 4, q.1 / 4, q.2 / 4));
    let k3 = (3int, c2.0 / 2, c2.1 / 2, c2.2 / 2, vid);
    assert(l.branch@.contains_key(k3));
    let k4 = (4int, k3.1 / 2, k3.2 / 2, k3.3 / 2, vid);
    assert(l.branch@.contains_key(k4));
    assert(l.entries@.contains_key(cell_at(q, 4)));
    let c4 = cell_at(q, 4);
    assert(l.branch@.contains_key((5int, c4.0 / 2, c4.1 / 2, c4.2 / 2, 0int)));
    lemma_ancestors_up(l, q, 5);
}

/// A voxel of the layer below child `i` of a node, on the way to it, is reported
/// below that child.
#[verifier::spinoff_prover]
#[verifier::rlimit(60)]
proof fn lemma_child_finds(l: &Layer, level: int, c: Cell, v: int, n: int, p: Pos, i: int, q: Pos, vid: int)
    requires
        l.inv(),
        node_ctx(l, level, c, v, n, p),
        l.has_voxel(q.0, q.1, q.2, vid),
        cell_at(q, level) == c,
        i == octant(cell_at(q, level - 1)),
        v == (if level >= 5 { 0 } else { vid }),
    ensures
        reports(l.child_events(level, c, v, n, p, i), q, vid),
    decreases level, 8 - i, 0int,
{
    lemma_voxel_ancestors(l, q, vid);
    lemma_cell_step(q, level);
    let cc = child_cell(c, i);
    let cp = child_pos(p, i, level);
    lemma_child_at_cell(p, c, i, level);
    if level >= 6 {
        let ck = (level - 1, cc.0, cc.1, cc.2, 0int);
        assert(l.branch@.contains_key(ck));
        lemma_stored(l, ck);
        lemma_cell_step(q, level - 1);
        lemma_node_finds(l, level - 1, cc, v, l.branch@[ck], cp, 0, q, vid);
        lemma_reports_right(seq![event(level - 1, cp, l.branch@[ck], n, v)],
            l.node_events(level - 1, cc, v, l.branch@[ck], cp, 0), q, vid);
    } else if level == 5 {
        lemma_entry_finds(l, cc, cp, 0, q, vid);
    } else if level == 4 {
        let ck = (3int, cc.0, cc.1, cc.2, v);
        lemma_stored(l, ck);
        lemma_cell_step(q, 3);
        lemma_node_finds(l, 3, cc, v, l.branch@[ck], cp, 0, q, vid);
        lemma_reports_right(seq![event(3, cp, l.branch@[ck], n, v)], l.node_events(3, cc, v, l.branch@[ck], cp, 0), q, vid);
    } else if level == 3 {
        let lk = (cc.0, cc.1, cc.2, v);
        lemma_cell_step(q, 2);
        lemma_node_finds(l, 2, cc, v, l.leaf@[lk], cp, 0, q, vid);
        lemma_reports_right(seq![event(2, cp, l.leaf@[lk], n, v)], l.node_events(2, cc, v, l.leaf@[lk], cp, 0), q, vid);
    } else if level == 2 {
        lemma_cell_step(q, 1);
        lemma_voxel_bit(l, q, vid);
        let b = l1_byte(l.level_2@[n], i);
        assert(b != 0);
        lemma_leaf_cell(l, (c.0, c.1, c.2, v));
        lemma_child_cell(c, i, l.cells(2));
        lemma_node_finds(l, 1, cc, v, b, cp, 0, q, vid);
        lemma_reports_right(seq![event(1, cp, b, n, v)], l.node_events(1, cc, v, b, cp, 0), q, vid);
    } else {
        lemma_voxel_bit(l, q, vid);
        lemma_cell_step(q, 2);
        vstd::arithmetic::power2::lemma2_to64();
        assert(pw(0nat) == 1);
        assert(l0_bit(n, i));
        assert(cp.0 == cc.0 * 1 && cp.1 == cc.1 * 1 && cp.2 == cc.2 * 1);
        lemma_cell_at_zero(q);
        let e = event(0, cp, 1, n, v);
        assert(seq![e][0] == e);
    }
}

/// The bits of a voxel of the layer: its octant byte is not zero, and the bit of
/// the voxel in it is set.
proof fn lemma_voxel_bit(l: &Layer, q: Pos, vid: int)
    requires
        l.inv(),
        l.has_voxel(q.0, q.1, q.2, vid),
    ensures
        ({
            let c1 = cell_at(q, 1);
            let c2 = cell_at(q, 2);
            let b = l1_byte(l.level_2@[l.leaf@[(c2.0, c2.1, c2.2, vid)]], octant(c1));
            &&& b != 0
            &&& l0_bit(b, octant(cell_at(q, 0)))
        }),
{
    vstd::arithmetic::power2::lemma2_to64();
    lemma_cell_step(q, 1);
    lemma_cell_step(q, 2);
    let c1 = cell_at(q, 1);
    let c2 = cell_at(q, 2);
    let node = l.level_2@[l.leaf@[(c2.0, c2.1, c2.2, vid)]];
    let loc = UVec3 { x: (q.0 % 4) as u32, y: (q.1 % 4) as u32, z: (q.2 % 4) as u32 };
    lemma_cell_at_zero(q);
    assert(c2 == (q.0 / 4, q.1 / 4, q.2 / 4));
    assert(c1 == (q.0 / 2, q.1 / 2, q.2 / 2));
    vstd::arithmetic::div_mod::lemma_fundamental_div_mod(q.0, 4);
    vstd::arithmetic::div_mod::lemma_fundamental_div_mod(q.1, 4);
    vstd::arithmetic::div_mod::lemma_fundamental_div_mod(q.2, 4);
    law_index_l1_has(node, loc);
    assert(spec_child_index(loc, 1) == octant(c1));
    assert(spec_child_index(uvec3_spec(loc.x % 2, loc.y % 2, loc.z % 2), 0) == octant(q));
    let b = l1_byte(node, octant(c1));
    let bu = b as u32;
    let j = octant(q) as u32;
    assert(j < 8);
    assert(((bu >> j) & 1u32) == 1u32 ==> bu != 0) by (bit_vector);
}

/// A voxel of the layer below a child `i0..8` of a node, on the way to it, is
/// reported below those children.
proof fn lemma_node_finds(l: &Layer, level: int, c: Cell, v: int, n: int, p: Pos, i0: int, q: Pos, vid: int)
    requires
        l.inv(),
        node_ctx(l, level, c, v, n, p),
        l.has_voxel(q.0, q.1, q.2, vid),
        cell_at(q, level) == c,
        0 <= i0 <= octant(cell_at(q, level - 1)),
        v == (if level >= 5 { 0 } else { vid }),
    ensures
        reports(l.node_events(level, c, v, n, p, i0), q, vid),
    decreases level, 8 - i0, 1int,
{
    lemma_voxel_ancestors(l, q, vid);
    lemma_cell_step(q, level);
    if i0 == octant(cell_at(q, level - 1)) {
        lemma_child_finds(l, level, c, v, n, p, i0, q, vid);
        lemma_reports_left(l.child_events(level, c, v, n, p, i0), l.node_events(level, c, v, n, p, i0 + 1), q, vid);
    } else {
        lemma_node_finds(l, level, c, v, n, p, i0 + 1, q, vid);
        lemma_reports_right(l.child_events(level, c, v, n, p, i0), l.node_events(level, c, v, n, p, i0 + 1), q, vid);
    }
}

/// A voxel of the layer in the level-4 cell `c`, whose entry comes at or after
/// entry `t0`, is reported from there on.
proof fn lemma_entry_finds(l: &Layer, c: Cell, p: Pos, t0: int, q: Pos, vid: int)
    requires
        l.inv(),
        l.has_voxel(q.0, q.1, q.2, vid),
        cell_at(q, 4) == c,
        at_cell(p, c, 4),
        0 <= t0,
        exists|t: int| t0 <= t < l.entries@[c].len() && #[trigger] l.entries@[c][t].0 == vid,
    ensures
        reports(l.entry_events(c, p, t0), q, vid),
    decreases 5int, 0int, l.entries@[c].len() - t0,
{
    lemma_voxel_ancestors(l, q, vid);
    let e = l.entries@[c][t0];
    let a = seq![event(4, p, e.1, l.chains@[c][t0 / 4], e.0)];
    let b = l.node_events(4, c, e.0, e.1, p, 0);
    let d = l.entry_events(c, p, t0 + 1);
    assert(l.entry_events(c, p, t0) == a + b + d);
    if e.0 == vid {
        lemma_entry_stored(l, c, t0);
        lemma_cell_step(q, 4);
        lemma_node_finds(l, 4, c, vid, e.1, p, 0, q, vid);
        lemma_reports_right(a, b, q, vid);
        lemma_reports_left(a + b, d, q, vid);
    } else {
        let t = choose|t: int| t0 <= t < l.entries@[c].len() && #[trigger] l.entries@[c][t].0 == vid;
        assert(t != t0);
        lemma_entry_finds(l, c, p, t0 + 1, q, vid);
        lemma_reports_right(a + b, d, q, vid);
    }
}

/// Every voxel of the layer in the region of a traversal, from a node whose cell
/// lies in the cube, is reported by [Layer::traverse], at its position with its
/// voxel id.
#[verifier::spinoff_prover]
pub proof fn law_traverse_reports_all(l: &Layer, from_node_position: UVec3, level: int, q: Pos, vid: int)
    requires
        l.wf(),
        5 <= level <= l.depth,
        from_node_position.x < l.cells(level),
        from_node_position.y < l.cells(level),
        from_node_position.z < l.cells(level),
        l.has_voxel(q.0, q.1, q.2, vid),
        cell_at(q, level) == (from_node_position.x as int, from_node_position.y as int, from_node_position.z as int),
    ensures
        reports(l.traverse_spec(from_node_position, level), q, vid),
{
    let w = pw(level as nat);
    let f = from_node_position;
    lemma_start(l, f, level);
    reveal(Layer::inv);
    lemma_voxel_ancestors(l, q, vid);
    let p = UVec3 { x: (f.x * w) as u32, y: (f.y * w) as u32, z: (f.z * w) as u32 };
    let found = l.get_spec(p, level, Option::None);
    let c = l.start_cell(p, level);
    let pp = (p.x as int, p.y as int, p.z as int);
    assert(l.branch@.contains_key((level, cell_at(q, level).0, cell_at(q, level).1, cell_at(q, level).2, 0int)));
    if level == l.depth {
        assert(l.branch@.contains_key(l.root_key()));
        assert(c == (f.x as int, f.y as int, f.z as int));
    }
    assert(found.spec_is_some());
    assert(node_ctx(l, level, c, 0, found.node_idx as int, pp));
    lemma_cell_step(q, level);
    lemma_node_finds(l, level, c, 0, found.node_idx as int, pp, 0, q, vid);
}


/// `e` reports the level-2 node stored under `lk`, with its parent on level 3
/// and the corner of its cube.
pub open spec fn leaf_report_of(l: &Layer, e: Props, lk: LKey) -> bool {
    let k3 = (3int, lk.0 / 2, lk.1 / 2, lk.2 / 2, lk.3);
    &&& l.leaf@.contains_key(lk)
    &&& e.level == 2
    &&& e.node_idx == l.leaf@[lk]
    &&& l.branch@.contains_key(k3)
    &&& e.parent_idx == l.branch@[k3]
    &&& e.position.x == 4 * lk.0 && e.position.y == 4 * lk.1 && e.position.z == 4 * lk.2
}

/// Every report of a level-2 node in `s` is of a stored one.
pub open spec fn leaf_reports_sound(l: &Layer, s: Seq<Props>) -> bool {
    forall|t: int| 0 <= t < s.len() && (#[trigger] s[t]).level == 2
        ==> exists|lk: LKey| #[trigger] leaf_report_of(l, s[t], lk)
}

/// `s` reports the level-2 node stored under `lk`.
pub open spec fn leaf_reported(l: &Layer, s: Seq<Props>, lk: LKey) -> bool {
    exists|t: int| 0 <= t < s.len() && #[trigger] leaf_report_of(l, s[t], lk)
}

proof fn lemma_leaf_sound_add(l: &Layer, a: Seq<Props>, b: Seq<Props>)
    requires
        leaf_reports_sound(l, a),
        leaf_reports_sound(l, b),
    ensures
        leaf_reports_sound(l, a + b),
{
    assert forall|t: int| 0 <= t < (a + b).len() && (#[trigger] (a + b)[t]).level == 2
        implies exists|lk: LKey| #[trigger] leaf_report_of(l, (a + b)[t], lk) by {
        if t < a.len() {
            assert((a + b)[t] == a[t]);
        } else {
            assert((a + b)[t] == b[t - a.len()]);
        }
    }
}

proof fn lemma_leaf_reported_left(l: &Layer, a: Seq<Props>, b: Seq<Props>, lk: LKey)
    requires
        leaf_reported(l, a, lk),
    ensures
        leaf_reported(l, a + b, lk),
{
    let t = choose|t: int| 0 <= t < a.len() && #[trigger] leaf_report_of(l, a[t], lk);
    assert((a + b)[t] == a[t]);
}

proof fn lemma_leaf_reported_right(l: &Layer, a: Seq<Props>, b: Seq<Props>, lk: LKey)
    requires
        leaf_reported(l, b, lk),
    ensures
        leaf_reported(l, a + b, lk),
{
    let t = choose|t: int| 0 <= t < b.len() && #[trigger] leaf_report_of(l, b[t], lk);
    assert((a + b)[t + a.len()] == b[t]);
}

/// Below a node on level 2 or lower nothing is reported on level 2.
proof fn lemma_child_below_two(l: &Layer, level: int, c: Cell, v: int, n: int, p: Pos, i: int)
    requires
        level <= 2,
    ensures
        forall|t: int| 0 <= t < l.child_events(level, c, v, n, p, i).len()
            ==> (#[trigger] l.child_events(level, c, v, n, p, i)[t]).level != 2,
    decreases level, 8 - i, 0int,
{
    if 0 <= i < 8 && level >= 1 {
        let cc = child_cell(c, i);
        let cp = child_pos(p, i, level);
        if level == 2 {
            let b = l1_byte(l.level_2@[n], i);
            if b != 0 {
                let a = seq![event(1, cp, b, n, v)];
                let d = l.node_events(1, cc, v, b, cp, 0);
                lemma_node_below_two(l, 1, cc, v, b, cp, 0);
                assert forall|t: int| 0 <= t < (a + d).len() implies (#[trigger] (a + d)[t]).level != 2 by {
                    if t == 0 {
                        assert((a + d)[t] == a[0]);
                    } else {
                        assert((a + d)[t] == d[t - 1]);
                    }
                }
            }
        } else if l0_bit(n, i) {
            let e = event(0, cp, 1, n, v);
            assert(seq![e][0] == e);
        }
    }
}

proof fn lemma_node_below_two(l: &Layer, level: int, c: Cell, v: int, n: int, p: Pos, i: int)
    requires
        level <= 2,
    ensures
        forall|t: int| 0 <= t < l.node_events(level, c, v, n, p, i).len()
            ==> (#[trigger] l.node_events(level, c, v, n, p, i)[t]).level != 2,
    decreases level, 8 - i, 1int,
{
    if 0 <= i < 8 {
        let a = l.child_events(level, c, v, n, p, i);
        let b = l.node_events(level, c, v, n, p, i + 1);
        lemma_child_below_two(l, level, c, v, n, p, i);
        lemma_node_below_two(l, level, c, v, n, p, i + 1);
        assert forall|t: int| 0 <= t < (a + b).len() implies (#[trigger] (a + b)[t]).level != 2 by {
            if t < a.len() {
                assert((a + b)[t] == a[t]);
            } else {
                assert((a + b)[t] == b[t - a.len()]);
            }
        }
    }
}

proof fn lemma_low_sound(l: &Layer, s: Seq<Props>)
    requires
        forall|t: int| 0 <= t < s.len() ==> (#[trigger] s[t]).level != 2,
    ensures
        leaf_reports_sound(l, s),
{
}

/// The report of a stored level-2 node below child `i` of a level-3 node, and
/// nothing on level 2 after it.
proof fn lemma_leaf_head(l: &Layer, c: Cell, v: int, n: int, p: Pos, i: int)
    requires
        l.inv(),
        node_ctx(l, 3, c, v, n, p),
        0 <= i < 8,
        l.leaf@.contains_key((child_cell(c, i).0, child_cell(c, i).1, child_cell(c, i).2, v)),
    ensures
        leaf_reports_sound(l, l.child_events(3, c, v, n, p, i)),
{
    reveal(Layer::inv);
    let cc = child_cell(c, i);
    let cp = child_pos(p, i, 3);
    let lk = (cc.0, cc.1, cc.2, v);
    lemma_child_at_cell(p, c, i, 3);
    let e = event(2, cp, l.leaf@[lk], n, v);
    let d = l.node_events(2, cc, v, l.leaf@[lk], cp, 0);
    lemma_node_below_two(l, 2, cc, v, l.leaf@[lk], cp, 0);
    lemma_low_sound(l, d);
    lemma_child_cell(c, i, 0);
    assert(cell_in((lk.0, lk.1, lk.2), l.cells(2)));
    lemma_leaf_grid(l, lk);
    vstd::arithmetic::power2::lemma2_to64();
    if l.depth < 31 {
        vstd::arithmetic::power2::lemma_pow2_strictly_increases(l.depth as nat, 31);
    }
    assert(pw(2nat) == 4);
    assert(cp == (cc.0 * 4, cc.1 * 4, cc.2 * 4));
    assert(leaf_report_of(l, e, lk));
    assert(leaf_reports_sound(l, seq![e]));
    lemma_leaf_sound_add(l, seq![e], d);
}

/// What a traversal reports of level-2 nodes below child `i` of a node of the
/// layer are stored ones.
proof fn lemma_child_leaves(l: &Layer, level: int, c: Cell, v: int, n: int, p: Pos, i: int)
    requires
        l.inv(),
        node_ctx(l, level, c, v, n, p),
    ensures
        leaf_reports_sound(l, l.child_events(level, c, v, n, p, i)),
    decreases level, 8 - i, 0int,
{
    if 0 <= i < 8 && level >= 1 {
        let cc = child_cell(c, i);
        let cp = child_pos(p, i, level);
        lemma_child_at_cell(p, c, i, level);
        if level >= 6 {
            let ck = (level - 1, cc.0, cc.1, cc.2, 0int);
            if l.branch@.contains_key(ck) {
                lemma_node_leaves(l, level - 1, cc, v, l.branch@[ck], cp, 0);
                lemma_leaf_sound_add(l, seq![event(level - 1, cp, l.branch@[ck], n, v)],
                    l.node_events(level - 1, cc, v, l.branch@[ck], cp, 0));
            }
        } else if level == 5 {
            if l.chains@.contains_key(cc) {
                lemma_entry_leaves(l, cc, cp, 0);
            }
        } else if level == 4 {
            let ck = (3int, cc.0, cc.1, cc.2, v);
            if l.branch@.contains_key(ck) {
                lemma_node_leaves(l, 3, cc, v, l.branch@[ck], cp, 0);
                lemma_leaf_sound_add(l, seq![event(3, cp, l.branch@[ck], n, v)], l.node_events(3, cc, v, l.branch@[ck], cp, 0));
            }
        } else if level == 3 {
            let lk = (cc.0, cc.1, cc.2, v);
            if l.leaf@.contains_key(lk) {
                lemma_leaf_head(l, c, v, n, p, i);
            }
        } else {
            lemma_child_below_two(l, level, c, v, n, p, i);
        }
    }
}

proof fn lemma_node_leaves(l: &Layer, level: int, c: Cell, v: int, n: int, p: Pos, i: int)
    requires
        l.inv(),
        node_ctx(l, level, c, v, n, p),
    ensures
        leaf_reports_sound(l, l.node_events(level, c, v, n, p, i)),
    decreases level, 8 - i, 1int,
{
    if 0 <= i < 8 {
        lemma_child_leaves(l, level, c, v, n, p, i);
        lemma_node_leaves(l, level, c, v, n, p, i + 1);
        lemma_leaf_sound_add(l, l.child_events(level, c, v, n, p, i), l.node_events(level, c, v, n, p, i + 1));
    }
}

proof fn lemma_entry_leaves(l: &Layer, c: Cell, p: Pos, t: int)
    requires
        l.inv(),
        l.chains@.contains_key(c),
        at_cell(p, c, 4),
    ensures
        leaf_reports_sound(l, l.entry_events(c, p, t)),
    decreases 5int, 0int, l.entries@[c].len() - t,
{
    if 0 <= t < l.entries@[c].len() {
        let e = l.entries@[c][t];
        assert(l.entries@.contains_key(c)) by {
            reveal(Layer::inv);
        }
        lemma_entry_stored(l, c, t);
        lemma_node_leaves(l, 4, c, e.0, e.1, p, 0);
        lemma_entry_leaves(l, c, p, t + 1);
        let a = seq![event(4, p, e.1, l.chains@[c][t / 4], e.0)];
        lemma_leaf_sound_add(l, a, l.node_events(4, c, e.0, e.1, p, 0));
        lemma_leaf_sound_add(l, a + l.node_events(4, c, e.0, e.1, p, 0), l.entry_events(c, p, t + 1));
    }
}

/// The corner of the cube of a level-2 cell, as a position.
pub open spec fn leaf_corner(lk: LKey) -> Pos {
    (4 * lk.0, 4 * lk.1, 4 * lk.2)
}

/// The nodes above a stored level-2 node are stored.
proof fn lemma_leaf_ancestors(l: &Layer, lk: LKey)
    requires
        l.inv(),
        l.leaf@.contains_key(lk),
    ensures
        ({
            let q = leaf_corner(lk);
            &&& q.0 >= 0 && q.1 >= 0 && q.2 >= 0
            &&& cell_at(q, 2) == (lk.0, lk.1, lk.2)
            &&& l.branch@.contains_key((3int, cell_at(q, 3).0, cell_at(q, 3).1, cell_at(q, 3).2, lk.3))
            &&& l.branch@.contains_key((4int, cell_at(q, 4).0, cell_at(q, 4).1, cell_at(q, 4).2, lk.3))
            &&& l.chains@.contains_key(cell_at(q, 4))
            &&& l.entries@.contains_key(cell_at(q, 4))
            &&& exists|t: int| 0 <= t < l.entries@[cell_at(q, 4)].len() && #[trigger] l.entries@[cell_at(q, 4)][t].0 == lk.3
            &&& forall|m: int| 5 <= m <= l.depth
                ==> #[trigger] l.branch@.contains_key((m, cell_at(q, m).0, cell_at(q, m).1, cell_at(q, m).2, 0int))
        }),
{
    reveal(Layer::inv);
    vstd::arithmetic::power2::lemma2_to64();
    let q = leaf_corner(lk);
    assert(cell_in((lk.0, lk.1, lk.2), l.cells(2)));
    assert(pw(2nat) == 4);
    assert(q.0 / 4 == lk.0 && q.1 / 4 == lk.1 && q.2 / 4 == lk.2);
    lemma_cell_step(q, 3);
    lemma_cell_step(q, 4);
    lemma_cell_step(q, 5);
    let c2 = cell_at(q, 2);
    let k3 = (3int, c2.0 / 2, c2.1 / 2, c2.2 / 2, lk.3);
    assert(l.branch@.contains_key(k3));
    let k4 = (4int, k3.1 / 2, k3.2 / 2, k3.3 / 2, lk.3);
    assert(l.branch@.contains_key(k4));
    let c4 = cell_at(q, 4);
    assert(l.entries@.contains_key(c4));
    assert(l.branch@.contains_key((5int, c4.0 / 2, c4.1 / 2, c4.2 / 2, 0int)));
    lemma_ancestors_up(l, q, 5);
}

/// A stored level-2 node below child `i` of a node, on the way to it, is
/// reported below that child.
#[verifier::spinoff_prover]
#[verifier::rlimit(60)]
proof fn lemma_child_finds_leaf(l: &Layer, level: int, c: Cell, v: int, n: int, p: Pos, i: int, lk: LKey)
    requires
        l.inv(),
        level >= 3,
        node_ctx(l, level, c, v, n, p),
        l.leaf@.contains_key(lk),
        cell_at(leaf_corner(lk), level) == c,
        i == octant(cell_at(leaf_corner(lk), level - 1)),
        v == (if level >= 5 { 0 } else { lk.3 }),
    ensures
        leaf_reported(l, l.child_events(level, c, v, n, p, i), lk),
    decreases level, 8 - i, 0int,
{
    let q = leaf_corner(lk);
    lemma_leaf_ancestors(l, lk);
    lemma_cell_step(q, level);
    let cc = child_cell(c, i);
    let cp = child_pos(p, i, level);
    lemma_child_at_cell(p, c, i, level);
    if level >= 6 {
        let ck = (level - 1, cc.0, cc.1, cc.2, 0int);
        assert(l.branch@.contains_key(ck));
        lemma_stored(l, ck);
        lemma_cell_step(q, level - 1);
        lemma_node_finds_leaf(l, level - 1, cc, v, l.branch@[ck], cp, 0, lk);
        lemma_leaf_reported_right(l, seq![event(level - 1, cp, l.branch@[ck], n, v)],
            l.node_events(level - 1, cc, v, l.branch@[ck], cp, 0), lk);
    } else if level == 5 {
        lemma_entry_finds_leaf(l, cc, cp, 0, lk);
    } else if level == 4 {
        let ck = (3int, cc.0, cc.1, cc.2, v);
        lemma_stored(l, ck);
        lemma_cell_step(q, 3);
        lemma_node_finds_leaf(l, 3, cc, v, l.branch@[ck], cp, 0, lk);
        lemma_leaf_reported_right(l, seq![event(3, cp, l.branch@[ck], n, v)], l.node_events(3, cc, v, l.branch@[ck], cp, 0), lk);
    } else {
        reveal(Layer::inv);
        let e = event(2, cp, l.leaf@[lk], n, v);
        assert(cc == (lk.0, lk.1, lk.2));
        lemma_child_cell(c, i, 0);
        lemma_leaf_grid(l, lk);
        vstd::arithmetic::power2::lemma2_to64();
        if l.depth < 31 {
            vstd::arithmetic::power2::lemma_pow2_strictly_increases(l.depth as nat, 31);
        }
        assert(pw(2nat) == 4);
        assert(cp == (cc.0 * 4, cc.1 * 4, cc.2 * 4));
        assert(leaf_report_of(l, e, lk));
        let s = seq![e] + l.node_events(2, cc, v, l.leaf@[lk], cp, 0);
        assert(s[0] == e);
    }
}

proof fn lemma_node_finds_leaf(l: &Layer, level: int, c: Cell, v: int, n: int, p: Pos, i0: int, lk: LKey)
    requires
        l.inv(),
        level >= 3,
        node_ctx(l, level, c, v, n, p),
        l.leaf@.contains_key(lk),
        cell_at(leaf_corner(lk), level) == c,
        0 <= i0 <= octant(cell_at(leaf_corner(lk), level - 1)),
        v == (if level >= 5 { 0 } else { lk.3 }),
    ensures
        leaf_reported(l, l.node_events(level, c, v, n, p, i0), lk),
    decreases level, 8 - i0, 1int,
{
    let q = leaf_corner(lk);
    lemma_leaf_ancestors(l, lk);
    lemma_cell_step(q, level);
    if i0 == octant(cell_at(q, level - 1)) {
        lemma_child_finds_leaf(l, level, c, v, n, p, i0, lk);
        lemma_leaf_reported_left(l, l.child_events(level, c, v, n, p, i0), l.node_events(level, c, v, n, p, i0 + 1), lk);
    } else {
        lemma_node_finds_leaf(l, level, c, v, n, p, i0 + 1, lk);
        lemma_leaf_reported_right(l, l.child_events(level, c, v, n, p, i0), l.node_events(level, c, v, n, p, i0 + 1), lk);
    }
}

proof fn lemma_entry_finds_leaf(l: &Layer, c: Cell, p: Pos, t0: int, lk: LKey)
    requires
        l.inv(),
        l.leaf@.contains_key(lk),
        cell_at(leaf_corner(lk), 4) == c,
        at_cell(p, c, 4),
        0 <= t0,
        exists|t: int| t0 <= t < l.entries@[c].len() && #[trigger] l.entries@[c][t].0 == lk.3,
    ensures
        leaf_reported(l, l.entry_events(c, p, t0), lk),
    decreases 5int, 0int, l.entries@[c].len() - t0,
{
    let q = leaf_corner(lk);
    lemma_leaf_ancestors(l, lk);
    let e = l.entries@[c][t0];
    let a = seq![event(4, p, e.1, l.chains@[c][t0 / 4], e.0)];
    let b = l.node_events(4, c, e.0, e.1, p, 0);
    let d = l.entry_events(c, p, t0 + 1);
    assert(l.entry_events(c, p, t0) == a + b + d);
    if e.0 == lk.3 {
        lemma_entry_stored(l, c, t0);
        lemma_cell_step(q, 4);
        lemma_node_finds_leaf(l, 4, c, lk.3, e.1, p, 0, lk);
        lemma_leaf_reported_right(l, a, b, lk);
        lemma_leaf_reported_left(l, a + b, d, lk);
    } else {
        let t = choose|t: int| t0 <= t < l.entries@[c].len() && #[trigger] l.entries@[c][t].0 == lk.3;
        assert(t != t0);
        lemma_entry_finds_leaf(l, c, p, t0 + 1, lk);
        lemma_leaf_reported_right(l, a + b, d, lk);
    }
}

/// A traversal from the root reports every stored level-2 node, and what it
/// reports on level 2 are stored level-2 nodes, each with its parent on level 3.
pub proof fn law_traverse_leaves(l: &Layer)
    requires
        l.wf(),
    ensures
        leaf_reports_sound(l, l.traverse_spec(UVec3 { x: 0, y: 0, z: 0 }, l.depth as int)),
        forall|lk: LKey| #[trigger] l.leaf@.contains_key(lk)
            ==> leaf_reported(l, l.traverse_spec(UVec3 { x: 0, y: 0, z: 0 }, l.depth as int), lk),
{
    let level = l.depth as int;
    let f = UVec3 { x: 0, y: 0, z: 0 };
    vstd::arithmetic::power2::lemma_pow2_pos(0nat);
    assert(l.cells(level) == pw(0nat));
    vstd::arithmetic::power2::lemma2_to64();
    lemma_start(l, f, level);
    let w = pw(level as nat);
    let p = UVec3 { x: (f.x * w) as u32, y: (f.y * w) as u32, z: (f.z * w) as u32 };
    let found = l.get_spec(p, level, Option::None);
    let c = l.start_cell(p, level);
    let pp = (p.x as int, p.y as int, p.z as int);
    assert(l.branch@.contains_key(l.root_key()));
    assert(c == (0int, 0int, 0int));
    assert(found.spec_is_some());
    assert(node_ctx(l, level, c, 0, found.node_idx as int, pp));
    assert(l.inv()) by {
        reveal(Layer::inv);
    }
    lemma_node_leaves(l, level, c, 0, found.node_idx as int, pp, 0);
    assert forall|lk: LKey| #[trigger] l.leaf@.contains_key(lk)
        implies leaf_reported(l, l.traverse_spec(f, level), lk) by {
        let q = leaf_corner(lk);
        lemma_leaf_ancestors(l, lk);
        assert(l.branch@.contains_key((level, cell_at(q, level).0, cell_at(q, level).1, cell_at(q, level).2, 0int)));
        assert(cell_at(q, level) == c);
        lemma_cell_step(q, level);
        lemma_node_finds_leaf(l, level, c, 0, found.node_idx as int, pp, 0, lk);
    }
}

} // verus!
