use vstd::prelude::*;
use crate::layer::{Layer, cell_of};
use crate::get::{GetNodeResult, found, nothing, eff, lemma_eff};
use crate::set::{path_key, path_leaf, lemma_voxel_cell};
use crate::utils::{pw, lemma_halve};
use crate::vec3::UVec3;
use crate::stack::EStack;
use crate::node_l2::{NodeL2, in_grid4};
use crate::chunk::{Chunk, in_chunk};

verus! {

/// A voxel of the layer is on the way of its own chain of forks: the chain of
/// its level-4 cell exists and holds an entry for its voxel id.
pub proof fn lemma_voxel_in_chain(l: &Layer, e: UVec3, v: int)
    requires
        l.wf(),
        l.has_voxel(e.x as int, e.y as int, e.z as int, v),
    ensures
        l.chains@.contains_key(cell_of(path_key(e, 0, 4))),
        exists|t: int| 0 <= t < l.entries@[cell_of(path_key(e, 0, 4))].len()
            && #[trigger] l.entries@[cell_of(path_key(e, 0, 4))][t].0 == v,
        1 <= v <= u32::MAX,
{
    let lk = path_leaf(e, v);
    assert(l.branch@.contains_key((3int, lk.0 / 2, lk.1 / 2, lk.2 / 2, v)));
    let k3 = (3int, lk.0 / 2, lk.1 / 2, lk.2 / 2, v);
    assert(l.branch@.contains_key((4int, k3.1 / 2, k3.2 / 2, k3.3 / 2, v)));
    vstd::arithmetic::power2::lemma2_to64();
    vstd::arithmetic::div_mod::lemma_div_denominator(e.x as int, 4, 2);
    vstd::arithmetic::div_mod::lemma_div_denominator(e.y as int, 4, 2);
    vstd::arithmetic::div_mod::lemma_div_denominator(e.z as int, 4, 2);
    vstd::arithmetic::div_mod::lemma_div_denominator(e.x as int, 8, 2);
    vstd::arithmetic::div_mod::lemma_div_denominator(e.y as int, 8, 2);
    vstd::arithmetic::div_mod::lemma_div_denominator(e.z as int, 8, 2);
    assert(cell_of(path_key(e, 0, 4)) == (k3.1 / 2, k3.2 / 2, k3.3 / 2));
}

/// A scan for one voxel id, on levels 0 to 2, finds exactly that id's voxel at `e`.
pub proof fn lemma_scan_id(l: &Layer, es: Seq<(int, int)>, t: int, e: UVec3, level: int, n: usize)
    requires
        0 <= t,
        level <= 2,
        1 <= n <= u32::MAX,
        forall|t1: int, t2: int| 0 <= t1 < es.len() && 0 <= t2 < es.len() && t1 != t2
            ==> #[trigger] es[t1].0 != #[trigger] es[t2].0,
    ensures
        l.scan_entries(es, t, e, level, Option::Some(n), nothing()) == (
            if (exists|t2: int| t <= t2 < es.len() && #[trigger] es[t2].0 == n as int)
                && l.has_voxel(e.x as int, e.y as int, e.z as int, n as int) {
                found(n as int, l.leaf@[path_leaf(e, n as int)])
            } else {
                nothing()
            }),
    decreases es.len() - t,
{
    if t < es.len() {
        lemma_scan_id(l, es, t + 1, e, level, n);
        if es[t].0 == n as int {
            assert forall|t2: int| t + 1 <= t2 < es.len() implies #[trigger] es[t2].0 != n as int by {
                assert(es[t].0 != es[t2].0);
            }
        } else {
            if exists|t2: int| t <= t2 < es.len() && #[trigger] es[t2].0 == n as int {
                let t2 = choose|t2: int| t <= t2 < es.len() && #[trigger] es[t2].0 == n as int;
                assert(t + 1 <= t2);
            }
        }
    }
}

/// A scan for any voxel id, on levels 0 to 2, finds a voxel at `e` exactly when
/// one of the entries holds one there, and what it finds is such a voxel.
pub proof fn lemma_scan_any(l: &Layer, es: Seq<(int, int)>, t: int, e: UVec3, level: int, acc: GetNodeResult)
    requires
        0 <= t,
        level <= 2,
        forall|t2: int| 0 <= t2 < es.len() ==> 1 <= #[trigger] es[t2].0 <= u32::MAX,
    ensures
        ({
            let r = l.scan_entries(es, t, e, level, Option::None, acc);
            &&& (exists|t2: int| t <= t2 < es.len() && l.has_voxel(e.x as int, e.y as int, e.z as int, #[trigger] es[t2].0))
                ==> (r.spec_is_some() && l.has_voxel(e.x as int, e.y as int, e.z as int, r.voxel_id as int))
            &&& !(exists|t2: int| t <= t2 < es.len() && l.has_voxel(e.x as int, e.y as int, e.z as int, #[trigger] es[t2].0))
                ==> r == acc
        }),
    decreases es.len() - t,
{
    if t < es.len() {
        let v = es[t].0;
        let acc2 = if l.has_voxel(e.x as int, e.y as int, e.z as int, v) { found(v, l.leaf@[path_leaf(e, v)]) } else { acc };
        lemma_scan_any(l, es, t + 1, e, level, acc2);
        if exists|t2: int| t <= t2 < es.len() && l.has_voxel(e.x as int, e.y as int, e.z as int, #[trigger] es[t2].0) {
            let t2 = choose|t2: int| t <= t2 < es.len() && l.has_voxel(e.x as int, e.y as int, e.z as int, #[trigger] es[t2].0);
            if t2 > t {
                assert(exists|t3: int| t + 1 <= t3 < es.len() && l.has_voxel(e.x as int, e.y as int, e.z as int, #[trigger] es[t3].0));
            } else {
                let r = l.scan_entries(es, t, e, level, Option::None, acc);
                if !(exists|t3: int| t + 1 <= t3 < es.len() && l.has_voxel(e.x as int, e.y as int, e.z as int, #[trigger] es[t3].0)) {
                    assert(r == acc2);
                    assert((v as usize) as int == v);
                }
            }
        } else {
            assert(!l.has_voxel(e.x as int, e.y as int, e.z as int, v));
        }
    }
}

/// Looking up a voxel with a given id (level 0, 1 or 2) finds it exactly when the
/// layer holds the voxel at that position with that id.
pub proof fn law_get_with_id(l: &Layer, p: UVec3, level: int, v: u32)
    requires
        l.wf(),
        0 <= level <= 2,
        v != 0,
        l.in_bounds_spec(p),
    ensures
        l.get_spec(p, level, Option::Some(v as usize)).spec_is_some() == l@.contains((p.x as int, p.y as int, p.z as int, v as int)),
        l.get_spec(p, level, Option::Some(v as usize)).spec_is_some() ==> l.get_spec(p, level, Option::Some(v as usize)).voxel_id == v,
{
    lemma_eff(p, l.depth as nat);
    let e = eff(p, l.depth as nat);
    assert(e == p);
    let c4 = cell_of(path_key(e, 0, 4));
    if l.chains@.contains_key(c4) {
        let es = l.entries@[c4];
        lemma_scan_id(l, es, 0, e, level, v as usize);
        if l.has_voxel(e.x as int, e.y as int, e.z as int, v as int) {
            lemma_voxel_in_chain(l, e, v as int);
        }
    } else {
        if l.has_voxel(e.x as int, e.y as int, e.z as int, v as int) {
            lemma_voxel_in_chain(l, e, v as int);
        }
    }
}

/// Looking up a voxel of any id (level 0, 1 or 2) finds one exactly when the
/// layer holds a voxel at that position, and what it finds is a voxel there.
#[verifier::spinoff_prover]
#[verifier::rlimit(60)]
pub proof fn law_get_any(l: &Layer, p: UVec3, level: int)
    requires
        l.wf(),
        0 <= level <= 2,
        l.in_bounds_spec(p),
    ensures
        l.get_spec(p, level, Option::None).spec_is_some()
            == (exists|v: int| #[trigger] l@.contains((p.x as int, p.y as int, p.z as int, v))),
        l.get_spec(p, level, Option::None).spec_is_some()
            ==> l@.contains((p.x as int, p.y as int, p.z as int, l.get_spec(p, level, Option::None).voxel_id as int)),
{
    lemma_eff(p, l.depth as nat);
    let e = eff(p, l.depth as nat);
    assert(e == p);
    let c4 = cell_of(path_key(e, 0, 4));
    if l.chains@.contains_key(c4) {
        let es = l.entries@[c4];
        assert forall|t2: int| 0 <= t2 < es.len() implies 1 <= #[trigger] es[t2].0 <= u32::MAX by {
            let en = es[t2];
            assert(l.branch@.contains_key((4int, c4.0, c4.1, c4.2, en.0)));
        }
        lemma_scan_any(l, es, 0, e, level, nothing());
        if exists|v: int| #[trigger] l@.contains((p.x as int, p.y as int, p.z as int, v)) {
            let v = choose|v: int| #[trigger] l@.contains((p.x as int, p.y as int, p.z as int, v));
            lemma_voxel_in_chain(l, e, v);
            let t = choose|t: int| 0 <= t < es.len() && #[trigger] es[t].0 == v;
            assert(l.has_voxel(e.x as int, e.y as int, e.z as int, es[t].0));
        } else {
            assert forall|t2: int| 0 <= t2 < es.len() implies !l.has_voxel(e.x as int, e.y as int, e.z as int, #[trigger] es[t2].0) by {
                if l.has_voxel(e.x as int, e.y as int, e.z as int, es[t2].0) {
                    assert(l@.contains((p.x as int, p.y as int, p.z as int, es[t2].0)));
                }
            }
        }
        let r = l.get_spec(p, level, Option::None);
        if r.spec_is_some() {
            assert(l@.contains((p.x as int, p.y as int, p.z as int, r.voxel_id as int)));
        }
    } else {
        if exists|v: int| #[trigger] l@.contains((p.x as int, p.y as int, p.z as int, v)) {
            let v = choose|v: int| #[trigger] l@.contains((p.x as int, p.y as int, p.z as int, v));
            lemma_voxel_in_chain(l, e, v);
        }
    }
}

/// What a write gives a read: once `set(p, v)` has put the voxel in (so the
/// voxels after are those before plus `(p, v)`), looking `p` up with id `v`
/// finds `v`, and looking it up with any id finds a voxel there.
pub proof fn law_set_then_get(before: &Layer, after: &Layer, p: UVec3, v: u32)
    requires
        before.wf(),
        after.wf(),
        after.depth == before.depth,
        v != 0,
        before.in_bounds_spec(p),
        after@ == before@.insert((p.x as int, p.y as int, p.z as int, v as int)),
    ensures
        after.get_spec(p, 0, Option::Some(v as usize)).voxel_id == v,
        after.get_spec(p, 0, Option::Some(v as usize)).spec_is_some(),
        after.get_spec(p, 0, Option::None).spec_is_some(),
{
    law_get_with_id(after, p, 0, v);
    law_get_any(after, p, 0);
    assert(after@.contains((p.x as int, p.y as int, p.z as int, v as int)));
}

/// What a pop gives back of a push: pushing `x` and popping again leaves the
/// stack as it was, and in between its top reads `x`.
pub proof fn law_stack_push_pop<T: Clone>(a: &EStack<T>, b: &EStack<T>, c: &EStack<T>, x: T)
    requires
        b@ == a@.push(x),
        c@ == b@.drop_last(),
    ensures
        b@.last() == x,
        c@ == a@,
{
    assert(c@ =~= a@);
}

/// Clearing a voxel of a level-2 node after setting it leaves every other voxel
/// as it was before the set, and the cleared one empty.
pub proof fn law_l2_set_unset(a: NodeL2, b: NodeL2, c: NodeL2, p: UVec3)
    requires
        in_grid4(p),
        forall|q: UVec3| in_grid4(q) ==> (#[trigger] b.has(q) <==> (a.has(q) || q == p)),
        forall|q: UVec3| in_grid4(q) ==> (#[trigger] c.has(q) <==> (b.has(q) && q != p)),
    ensures
        forall|q: UVec3| in_grid4(q) ==> (#[trigger] c.has(q) <==> (a.has(q) && q != p)),
        !c.has(p),
{
    assert forall|q: UVec3| in_grid4(q) implies (#[trigger] c.has(q) <==> (a.has(q) && q != p)) by {
        assert(b.has(q) <==> (a.has(q) || q == p));
    }
}

/// What a read of a chunk gives back of a write: after setting the voxel at `p`
/// to `block`, getting `p` finds `block` (nothing for `0`), and every other
/// position of the chunk reads as before.
pub proof fn law_chunk_set_get(before: &Chunk, after: &Chunk, p: UVec3, block: u32, q: UVec3)
    requires
        in_chunk(p, before.data[5] as int),
        after.same_meta(before),
        after.voxel(p) == block,
        forall|r: UVec3| #[trigger] in_chunk(r, before.data[5] as int) && r != p
            && crate::chunk::flat(r, before.data[5] as int) < crate::chunk::DATA_LEN ==> after.voxel(r) == before.voxel(r),
        in_chunk(q, before.data[5] as int),
        crate::chunk::flat(q, before.data[5] as int) < crate::chunk::DATA_LEN,
    ensures
        after.data[5] == before.data[5],
        (if in_chunk(p, after.data[5] as int) && after.voxel(p) != 0 { Option::Some(after.voxel(p)) } else { Option::None })
            == (if block != 0 { Option::Some(block) } else { Option::<u32>::None }),
        q != p ==> after.voxel(q) == before.voxel(q),
{
    assert(after.data[5] == before.data[5]);
}

/// Allocating right after a node was given back takes that node again, and
/// leaves the list of free nodes as it was before.
pub proof fn law_dealloc_alloc(a: &Layer, b: &Layer, c: &Layer, i: int, j: int)
    requires
        b.free_list@ == seq![i].add(a.free_list@),
        j == b.free_list@[0],
        c.free_list@ == b.free_list@.drop_first(),
    ensures
        j == i,
        c.free_list@ == a.free_list@,
        c.free_list@.len() + 1 == b.free_list@.len(),
{
    assert(c.free_list@ =~= a.free_list@);
}

/// The same for level-2 nodes.
pub proof fn law_dealloc_alloc_l2(a: &Layer, b: &Layer, c: &Layer, i: int, j: int)
    requires
        b.free_list_l2@ == seq![i].add(a.free_list_l2@),
        j == b.free_list_l2@[0],
        c.free_list_l2@ == b.free_list_l2@.drop_first(),
    ensures
        j == i,
        c.free_list_l2@ == a.free_list_l2@,
        c.free_list_l2@.len() + 1 == b.free_list_l2@.len(),
{
    assert(c.free_list_l2@ =~= a.free_list_l2@);
}


/// Setting a voxel changes no lookup of another voxel: a lookup with an id on
/// levels 0 to 2 finds a node, and names that id, exactly when it did before.
pub proof fn law_set_keeps_other_lookups(before: &Layer, after: &Layer, p: UVec3, v: u32, q: UVec3, w: u32, level: int)
    requires
        before.wf(),
        after.wf(),
        after.depth == before.depth,
        after@ == before@.insert((p.x as int, p.y as int, p.z as int, v as int)),
        0 <= level <= 2,
        w != 0,
        before.in_bounds_spec(q),
        (q.x, q.y, q.z, w) != (p.x, p.y, p.z, v),
    ensures
        after.get_spec(q, level, Option::Some(w as usize)).spec_is_some()
            == before.get_spec(q, level, Option::Some(w as usize)).spec_is_some(),
        after.get_spec(q, level, Option::Some(w as usize)).spec_is_some()
            ==> after.get_spec(q, level, Option::Some(w as usize)).voxel_id == w,
{
    law_get_with_id(before, q, level, w);
    law_get_with_id(after, q, level, w);
    assert(after@.contains((q.x as int, q.y as int, q.z as int, w as int))
        == before@.contains((q.x as int, q.y as int, q.z as int, w as int)));
}

/// Two layers of one depth that hold the same voxels answer every lookup with
/// an id on levels 0 to 2 alike; so do a layer before and after
/// [Layer::freeze_upper] or [Layer::shrink_to_fit_l2].
pub proof fn law_same_voxels_same_lookups(a: &Layer, b: &Layer, q: UVec3, w: u32, level: int)
    requires
        a.wf(),
        b.wf(),
        a.depth == b.depth,
        a@ == b@,
        0 <= level <= 2,
        w != 0,
        a.in_bounds_spec(q),
    ensures
        a.get_spec(q, level, Option::Some(w as usize)).spec_is_some()
            == b.get_spec(q, level, Option::Some(w as usize)).spec_is_some(),
        a.get_spec(q, level, Option::Some(w as usize)).spec_is_some()
            ==> a.get_spec(q, level, Option::Some(w as usize)).voxel_id == b.get_spec(q, level, Option::Some(w as usize)).voxel_id,
{
    law_get_with_id(a, q, level, w);
    law_get_with_id(b, q, level, w);
}


/// The chain of forks of a level-4 cell: each fork holds at most four pairs
/// `(voxel id, node)`, only the last one may hold fewer than four, the ids
/// differ, each fork's flag names the next fork, and the last one's flag is `-3`.
pub proof fn law_chain_shape(l: &Layer, c: (int, int, int))
    requires
        l.wf(),
        l.chains@.contains_key(c),
    ensures
        l.chains@[c].len() >= 1,
        4 * (l.chains@[c].len() - 1) < l.entries@[c].len() <= 4 * l.chains@[c].len(),
        forall|j: int| 0 <= j < l.chains@[c].len() ==> #[trigger] l.nodes@[l.chains@[c][j]].flag
            == (if j + 1 < l.chains@[c].len() { l.chains@[c][j + 1] } else { -3 }),
        forall|t1: int, t2: int| 0 <= t1 < t2 < l.entries@[c].len()
            ==> #[trigger] l.entries@[c][t1].0 != #[trigger] l.entries@[c][t2].0,
{
    assert(l.entries@.contains_key(c));
}

} // verus!
