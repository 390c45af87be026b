use vstd::prelude::*;
use crate::layer::{Layer, LKey, BKey, Cell, child_cell, cell_of, entry_index, lemma_child_cell};
use crate::node::{child_dx, child_dy, child_dz};
use crate::node_l2::NodeL2;
use crate::traverse::Props;
use crate::traverse_laws::law_traverse_leaves;
use crate::vec3::UVec3;
use crate::utils::pw;
use crate::traverse_laws::{leaf_report_of, leaf_reports_sound, leaf_reported};

verus! {

/// The smallest element of `s`, `usize::MAX` for an empty one.
pub open spec fn seq_min(s: Seq<int>) -> int
    decreases s.len(),
{
    if s.len() == 0 {
        usize::MAX as int
    } else {
        let m = seq_min(s.drop_last());
        if s.last() < m { s.last() } else { m }
    }
}

/// The level-2 nodes with the head and every free one zeroed.
pub open spec fn zeroed_free(l2: Seq<NodeL2>, fl: Seq<int>) -> Seq<NodeL2> {
    Seq::new(l2.len(), |i: int| if i == 0 || fl.contains(i) { NodeL2 { packed_children: [0u32, 0u32] } } else { l2[i] })
}

proof fn lemma_seq_min_step(s: Seq<int>, t: int)
    requires
        0 <= t < s.len(),
    ensures
        seq_min(s.subrange(0, t + 1)) == (if s[t] < seq_min(s.subrange(0, t)) { s[t] } else { seq_min(s.subrange(0, t)) }),
{
    assert(s.subrange(0, t + 1).drop_last() =~= s.subrange(0, t));
}

/// `seq_min` is at most each element and is one of them, unless the sequence is empty.
proof fn lemma_seq_min(s: Seq<int>)
    requires
        forall|t: int| 0 <= t < s.len() ==> 0 <= #[trigger] s[t] < usize::MAX,
    ensures
        forall|t: int| 0 <= t < s.len() ==> seq_min(s) <= #[trigger] s[t],
        s.len() > 0 ==> s.contains(seq_min(s)),
        s.len() == 0 ==> seq_min(s) == usize::MAX,
    decreases s.len(),
{
    if s.len() > 0 {
        lemma_seq_min(s.drop_last());
        assert forall|t: int| 0 <= t < s.len() implies seq_min(s) <= #[trigger] s[t] by {
            if t < s.len() - 1 {
                assert(s[t] == s.drop_last()[t]);
            }
        }
        if s.drop_last().len() > 0 {
            let t = choose|t: int| 0 <= t < s.drop_last().len() && #[trigger] s.drop_last()[t] == seq_min(s.drop_last());
            assert(s[t] == s.drop_last()[t]);
        }
        assert(s[s.len() - 1] == s.last());
    }
}

/// The node at `i` was not zero and has been moved away: it is zero now.
pub open spec fn moved_out(z: Seq<NodeL2>, f: Seq<NodeL2>, i: int) -> bool {
    !z[i].is_zero() && f[i].is_zero()
}

/// What [Layer::freeze_upper] did with index `i`: nothing; or moved its node,
/// which was not zero, to the zeroed place `helper[i]` at or after the first
/// free one and at or before `r`; or filled it, a zeroed place at or before `r`,
/// with the node moved there from an index `j` at or after `r`.
pub open spec fn freeze_class(z: Seq<NodeL2>, f: Seq<NodeL2>, h0: Seq<usize>, h: Seq<usize>, s: int, r: int, i: int) -> bool {
    ||| (f[i] == z[i] && h[i] == h0[i])
    ||| (moved_out(z, f, i) && s <= h[i] < i && h[i] <= r && z[h[i] as int].is_zero() && f[h[i] as int] == z[i])
    ||| (z[i].is_zero() && s <= i <= r && h[i] == h0[i] && !f[i].is_zero()
        && exists|j: int| #![trigger h[j]] r <= j < z.len() && moved_out(z, f, j) && h[j] == i)
}

/// [freeze_class] while the places `cur .. cut` are still to be looked at.
spec fn stage_class(z: Seq<NodeL2>, f: Seq<NodeL2>, h0: Seq<usize>, h: Seq<usize>, s: int, cur: int, cut: int, i: int) -> bool {
    ||| (f[i] == z[i] && h[i] == h0[i])
    ||| (moved_out(z, f, i) && cut <= i && s <= h[i] < i && h[i] <= cur && z[h[i] as int].is_zero() && f[h[i] as int] == z[i])
    ||| (z[i].is_zero() && s <= i <= cur && (i == cur ==> cur < cut) && h[i] == h0[i] && !f[i].is_zero()
        && exists|j: int| #![trigger h[j]] cut <= j < z.len() && moved_out(z, f, j) && h[j] == i)
}

impl Layer {
    /// Zeroes the head and every free level-2 node, then moves the level-2 nodes
    /// that are not zero, from the end, into the zeroed places, from the first free
    /// one up, writing into `helper` at each moved node's old index its new one.
    /// Returns the index after which every level-2 node is zero. Only `level_2`
    /// and `helper` change.
    #[verifier::spinoff_prover]
    #[verifier::rlimit(40)]
    fn compact_l2(&mut self, helper: &mut Vec<usize>) -> (r: usize)
        requires
            old(self).wf(),
            old(helper).len() == old(self).level_2@.len(),
        ensures
            ({
                let z = zeroed_free(old(self).level_2@, old(self).free_list_l2@);
                let s = seq_min(old(self).free_list_l2@);
                let n = z.len();
                &&& final(self).nodes@ == old(self).nodes@
                &&& final(self).same_shape(old(self))
                &&& final(self).free_list@ == old(self).free_list@
                &&& final(self).free_list_l2@ == old(self).free_list_l2@
                &&& final(self).level_2@.len() == n
                &&& final(helper)@.len() == n
                &&& r < n
                &&& 1 <= s
                &&& s != usize::MAX ==> s <= r && final(self).level_2@[r as int].is_zero()
                &&& s == usize::MAX ==> r == n - 1 && final(self).level_2@ == z && final(helper)@ == old(helper)@
                &&& forall|i: int| r < i < n ==> (#[trigger] final(self).level_2@[i]).is_zero()
                &&& forall|i: int| s <= i < r ==> !(#[trigger] final(self).level_2@[i]).is_zero()
                &&& forall|i: int| 0 <= i < n ==> #[trigger] freeze_class(z, final(self).level_2@, old(helper)@, final(helper)@, s, r as int, i)
                &&& forall|i: int, k: int| 0 <= i < k < n && moved_out(z, final(self).level_2@, i) && moved_out(z, final(self).level_2@, k)
                    ==> #[trigger] final(helper)@[k] < #[trigger] final(helper)@[i]
            }),
    {
        let ghost fl = self.free_list_l2@;
        let ghost l2_0 = self.level_2@;
        let ghost nodes0 = self.nodes@;
        let ghost h0 = helper@;
        let len = self.level_2.len();
        let mut cidx: usize = 0;
        let mut smallest: usize = usize::MAX;
        let ghost mut t: int = 0;
        proof {
            assert(fl.subrange(0, 0) =~= Seq::<int>::empty());
        }
        // Stage 1: zero the head and the free nodes, and find the first free one.
        loop
            invariant_except_break
                0 <= t <= fl.len(),
                cidx == (if t == 0 { 0 } else { fl[t - 1] }),
                smallest == seq_min(fl.subrange(0, if t == 0 { 0 } else { t - 1 })),
                forall|i: int| 0 <= i < len ==> #[trigger] self.level_2@[i]
                    == (if (t > 0 && i == 0) || fl.subrange(0, if t == 0 { 0 } else { t - 1 }).contains(i) {
                        NodeL2 { packed_children: [0u32, 0u32] } } else { l2_0[i] }),
            invariant
                old(self).wf(),
                self.nodes@ == nodes0,
                self.same_shape(old(self)),
                self.free_list@ == old(self).free_list@,
                self.free_list_l2@ == old(self).free_list_l2@,
                self.depth == old(self).depth,
                fl == old(self).free_list_l2@,
                l2_0 == old(self).level_2@,
                len == l2_0.len(),
                self.level_2@.len() == len,
            ensures
                self.level_2@ == zeroed_free(l2_0, fl),
                smallest == seq_min(fl),
            decreases fl.len() - t,
        {
            proof {
                assert(!(fl.subrange(0, if t == 0 { 0 } else { t - 1 }).contains(cidx as int)) || cidx == 0) by {
                    if t > 0 && fl.subrange(0, t - 1).contains(cidx as int) {
                        let u = choose|u: int| 0 <= u < t - 1 && #[trigger] fl.subrange(0, t - 1)[u] == cidx;
                        assert(fl[u] == fl[t - 1]);
                    }
                }
            }
            let next = self.level_2[cidx].packed_children[0] as usize;
            if cidx < smallest && cidx != 0 {
                smallest = cidx;
            }
            self.level_2.set(cidx, NodeL2 { packed_children: [0u32, 0u32] });
            cidx = next;
            proof {
                if t > 0 {
                    lemma_seq_min_step(fl, t - 1);
                }
                t = t + 1;
                assert forall|i: int| 0 <= i < len implies #[trigger] self.level_2@[i]
                    == (if (t > 0 && i == 0) || fl.subrange(0, t - 1).contains(i) {
                        NodeL2 { packed_children: [0u32, 0u32] } } else { l2_0[i] }) by {
                    if t >= 2 {
                        if fl.subrange(0, t - 1).contains(i) && !fl.subrange(0, t - 2).contains(i) {
                            let u = choose|u: int| 0 <= u < t - 1 && #[trigger] fl.subrange(0, t - 1)[u] == i;
                            if u < t - 2 {
                                assert(fl.subrange(0, t - 2)[u] == i);
                            }
                        }
                        if fl.subrange(0, t - 2).contains(i) {
                            let u = choose|u: int| 0 <= u < t - 2 && #[trigger] fl.subrange(0, t - 2)[u] == i;
                            assert(fl.subrange(0, t - 1)[u] == i);
                        }
                    }
                    if i == fl[t - 2] && t >= 2 {
                        assert(fl.subrange(0, t - 1)[t - 2] == i);
                    }
                }
            }
            if cidx == 0 {
                proof {
                    assert(t == fl.len() + 1 || t <= fl.len());
                    assert(fl.subrange(0, t - 1) =~= fl);
                    assert(self.level_2@ =~= zeroed_free(l2_0, fl));
                }
                break;
            }
        }
        let ghost z = self.level_2@;
        proof {
            lemma_seq_min(fl);
            if fl.len() > 0 {
                let u = choose|u: int| 0 <= u < fl.len() && fl[u] == seq_min(fl);
                assert(fl[u] < len);
                assert(self.level_2@[seq_min(fl)].is_zero());
            }
        }
        let mut cut_idx = len - 1;
        let mut cur_idx = smallest;
        // Stage 2: move nodes that are not zero from the end into zeroed places.
        while cut_idx > cur_idx
            invariant
                len == z.len(),
                self.level_2@.len() == len,
                helper@.len() == len,
                h0.len() == len,
                self.nodes@ == nodes0,
                self.depth == old(self).depth,
                self.same_shape(old(self)),
                self.free_list@ == old(self).free_list@,
                self.free_list_l2@ == old(self).free_list_l2@,
                z == zeroed_free(l2_0, fl),
                smallest == seq_min(fl),
                1 <= smallest,
                cut_idx < len,
                smallest <= cur_idx,
                smallest == usize::MAX || smallest < len,
                smallest < len ==> cur_idx <= cut_idx,
                smallest < len ==> (self.level_2@[cut_idx as int].is_zero() || self.level_2@[cur_idx as int].is_zero()),
                smallest == usize::MAX ==> cut_idx == len - 1 && self.level_2@ == z && helper@ == h0,
                forall|i: int| smallest <= i < cur_idx ==> !(#[trigger] self.level_2@[i]).is_zero(),
                forall|i: int| cut_idx < i < len ==> (#[trigger] self.level_2@[i]).is_zero(),
                forall|i: int| 0 <= i < len ==> #[trigger] stage_class(z, self.level_2@, h0, helper@,
                    smallest as int, cur_idx as int, cut_idx as int, i),
                forall|i: int| cut_idx < i < len && moved_out(z, self.level_2@, i) ==> #[trigger] helper@[i] < cur_idx,
                forall|i: int, k: int| 0 <= i < k < len && moved_out(z, self.level_2@, i) && moved_out(z, self.level_2@, k)
                    ==> #[trigger] helper@[k] < #[trigger] helper@[i],
            decreases 2 * (cut_idx + 1 - cur_idx) + (if self.level_2@[cur_idx as int].is_zero() { 1int } else { 0int }),
        {
            let ghost l2b = self.level_2@;
            let ghost hb = helper@;
            let cur_node = self.level_2[cur_idx];
            let cut_node = self.level_2[cut_idx];
            if cur_node.packed_children[0] == 0 && cur_node.packed_children[1] == 0 {
                if cut_node.packed_children[0] != 0 || cut_node.packed_children[1] != 0 {
                    proof {
                        assert(stage_class(z, l2b, h0, hb, smallest as int, cur_idx as int, cut_idx as int, cur_idx as int));
                        assert(stage_class(z, l2b, h0, hb, smallest as int, cur_idx as int, cut_idx as int, cut_idx as int));
                    }
                    self.level_2.set(cur_idx, cut_node);
                    self.level_2.set(cut_idx, cur_node);
                    helper.set(cut_idx, cur_idx);
                    proof {
                        assert forall|i: int| 0 <= i < len implies #[trigger] stage_class(z, self.level_2@, h0, helper@,
                            smallest as int, cur_idx as int, cut_idx as int, i) by {
                            assert(stage_class(z, l2b, h0, hb, smallest as int, cur_idx as int, cut_idx as int, i));
                            if moved_out(z, l2b, i) && i != cut_idx {
                                assert(hb[i] < cur_idx);
                            }
                            if i == cur_idx {
                                assert(moved_out(z, self.level_2@, cut_idx as int) && helper@[cut_idx as int] == i);
                            } else if z[i].is_zero() && !l2b[i].is_zero() && l2b[i] != z[i] {
                                let j = choose|j: int| #![trigger hb[j]] cut_idx <= j < z.len() && moved_out(z, l2b, j) && hb[j] == i;
                                assert(j != cut_idx);
                                assert(helper@[j] == hb[j]);
                                assert(self.level_2@[j] == l2b[j]);
                                assert(moved_out(z, self.level_2@, j));
                            }
                        }
                        assert forall|i: int, k: int| 0 <= i < k < len && moved_out(z, self.level_2@, i) && moved_out(z, self.level_2@, k)
                            implies #[trigger] helper@[k] < #[trigger] helper@[i] by {
                            assert(stage_class(z, l2b, h0, hb, smallest as int, cur_idx as int, cut_idx as int, i));
                            assert(stage_class(z, l2b, h0, hb, smallest as int, cur_idx as int, cut_idx as int, k));
                            if k == cut_idx {
                                assert(i < cut_idx);
                            }
                            if i == cut_idx {
                                assert(hb[k] < cur_idx);
                            }
                        }
                    }
                } else {
                    proof {
                        assert(stage_class(z, l2b, h0, hb, smallest as int, cur_idx as int, cut_idx as int, cut_idx as int));
                        assert(stage_class(z, l2b, h0, hb, smallest as int, cur_idx as int, cut_idx as int, cur_idx as int));
                    }
                    cut_idx -= 1;
                    proof {
                        assert forall|i: int| 0 <= i < len implies #[trigger] stage_class(z, self.level_2@, h0, helper@,
                            smallest as int, cur_idx as int, cut_idx as int, i) by {
                            assert(stage_class(z, l2b, h0, hb, smallest as int, cur_idx as int, (cut_idx + 1) as int, i));
                        }
                        if moved_out(z, l2b, cut_idx + 1) {
                            assert(stage_class(z, l2b, h0, hb, smallest as int, cur_idx as int, (cut_idx + 1) as int, (cut_idx + 1) as int));
                            assert(hb[cut_idx + 1] != cur_idx);
                        }
                    }
                }
            } else {
                proof {
                    assert(stage_class(z, l2b, h0, hb, smallest as int, cur_idx as int, cut_idx as int, cur_idx as int));
                }
                cur_idx += 1;
                proof {
                    assert forall|i: int| 0 <= i < len implies #[trigger] stage_class(z, self.level_2@, h0, helper@,
                        smallest as int, cur_idx as int, cut_idx as int, i) by {
                        assert(stage_class(z, l2b, h0, hb, smallest as int, (cur_idx - 1) as int, cut_idx as int, i));
                    }
                }
            }
        }
        proof {
            assert forall|i: int| 0 <= i < len implies #[trigger] freeze_class(z, self.level_2@, h0, helper@,
                smallest as int, cut_idx as int, i) by {
                assert(stage_class(z, self.level_2@, h0, helper@, smallest as int, cur_idx as int, cut_idx as int, i));
                if moved_out(z, self.level_2@, i) && i > cut_idx {
                    assert(helper@[i] < cur_idx);
                }
            }
        }
        cut_idx
    }
}


/// The key of the level-3 node that holds the level-2 node stored under `lk`.
pub open spec fn parent_key(lk: LKey) -> (int, int, int, int, int) {
    (3int, lk.0 / 2, lk.1 / 2, lk.2 / 2, lk.3)
}

/// Index (0 to 7) of the level-2 cell of `lk` inside its level-3 cell.
pub open spec fn leaf_octant(lk: LKey) -> int {
    lk.0 % 2 + 2 * (lk.1 % 2) + 4 * (lk.2 % 2)
}

/// Child `c` of node `j` is where the level-3 node of `l` links the level-2
/// node stored under `lk`.
pub open spec fn slot_of(l: &Layer, lk: LKey, j: int, c: int) -> bool {
    &&& l.leaf@.contains_key(lk)
    &&& l.branch@.contains_key(parent_key(lk))
    &&& l.branch@[parent_key(lk)] == j
    &&& leaf_octant(lk) == c
}

/// A child slot belongs to one level-2 node at most.
proof fn lemma_slot_unique(l: &Layer, a: LKey, b: LKey, j: int, c: int)
    requires
        l.inv(),
        slot_of(l, a, j, c),
        slot_of(l, b, j, c),
    ensures
        a == b,
{
    reveal(Layer::inv);
    if parent_key(a) != parent_key(b) {
        assert(l.branch@[parent_key(a)] != l.branch@[parent_key(b)]);
    }
    assert(a.0 >= 0 && a.1 >= 0 && a.2 >= 0 && b.0 >= 0 && b.1 >= 0 && b.2 >= 0);
    assert(a.0 % 2 == b.0 % 2 && a.1 % 2 == b.1 % 2 && a.2 % 2 == b.2 % 2);
}


/// `f` is `l` with its level-2 nodes moved: the one stored under each key now
/// lies at `np[old index]`, the level-3 nodes link the new places, the list of
/// free level-2 nodes is empty, and nothing else has changed.
pub open spec fn moved_leaves(f: &Layer, l: &Layer, np: Seq<usize>) -> bool {
    &&& f.depth == l.depth
    &&& f.nodes@.len() == l.nodes@.len()
    &&& f.level_2@.len() == l.level_2@.len()
    &&& np.len() == l.level_2@.len()
    &&& f.branch@ == l.branch@
    &&& f.chains@ == l.chains@
    &&& f.entries@ == l.entries@
    &&& f.free_list@ == l.free_list@
    &&& f.free_list_l2@ == Seq::<int>::empty()
    &&& f.leaf@ == Map::new(|lk: LKey| l.leaf@.contains_key(lk), |lk: LKey| np[l.leaf@[lk]] as int)
    &&& f.level_2@[0].is_zero()
    &&& forall|lk: LKey| #[trigger] l.leaf@.contains_key(lk) ==> {
        &&& 1 <= np[l.leaf@[lk]] < l.l2len()
        &&& f.level_2@[np[l.leaf@[lk]] as int] == l.level_2@[l.leaf@[lk]]
        &&& f.nodes@[l.branch@[parent_key(lk)]].children[leaf_octant(lk)] == np[l.leaf@[lk]]
    }
    &&& forall|a: LKey, b: LKey| #[trigger] l.leaf@.contains_key(a) && #[trigger] l.leaf@.contains_key(b) && a != b
        ==> np[l.leaf@[a]] != np[l.leaf@[b]]
    &&& forall|j: int| 0 <= j < f.nodes@.len() ==> (#[trigger] f.nodes@[j]).flag == l.nodes@[j].flag
    &&& forall|j: int, c: int| 0 <= j < f.nodes@.len() && 0 <= c < 8
        ==> #[trigger] f.nodes@[j].children[c] == l.nodes@[j].children[c]
            || exists|lk: LKey| #[trigger] slot_of(l, lk, j, c) && f.nodes@[j].children[c] == np[l.leaf@[lk]]
}

/// The slot of a stored level-2 node is the child of its level-3 parent that
/// its cell names.
proof fn lemma_slot_child(l: &Layer, k: BKey, i: int, lk: LKey)
    requires
        l.inv(),
        l.branch@.contains_key(k),
        0 <= i < 8,
        slot_of(l, lk, l.branch@[k], i),
    ensures
        k == parent_key(lk),
        (lk.0, lk.1, lk.2) == child_cell(cell_of(k), i),
{
    reveal(Layer::inv);
    if k != parent_key(lk) {
        assert(l.branch@[k] != l.branch@[parent_key(lk)]);
    }
    assert(lk.0 >= 0 && lk.1 >= 0 && lk.2 >= 0);
    assert(child_dx(i) == i % 2 && child_dy(i) == (i / 2) % 2 && child_dz(i) == (i / 4) % 2);
    assert(lk.0 % 2 + 2 * (lk.1 % 2) + 4 * (lk.2 % 2) == i);
    assert(lk.0 % 2 == i % 2 && lk.1 % 2 == (i / 2) % 2 && lk.2 % 2 == (i / 4) % 2);
}

/// Child `i` of a level-3 node: the level-2 node of that cell, if stored, has
/// its slot there.
proof fn lemma_leaf_slot(l: &Layer, k: BKey, i: int)
    requires
        l.inv(),
        l.branch@.contains_key(k),
        k.0 == 3,
        0 <= i < 8,
    ensures
        ({
            let c = child_cell(cell_of(k), i);
            let lk = (c.0, c.1, c.2, k.4);
            l.leaf@.contains_key(lk) ==> parent_key(lk) == k && leaf_octant(lk) == i
        }),
{
    reveal(Layer::inv);
    let c = child_cell(cell_of(k), i);
    assert(k.1 >= 0 && k.2 >= 0 && k.3 >= 0);
    lemma_child_cell(cell_of(k), i, 0);
    assert(child_dx(i) + 2 * child_dy(i) + 4 * child_dz(i) == i);
}

/// The children of stored nodes are what the moved layer's keys say.
#[verifier::rlimit(40)]
proof fn lemma_moved_children(f: &Layer, l: &Layer, np: Seq<usize>)
    requires
        l.inv(),
        moved_leaves(f, l, np),
    ensures
        forall|k: BKey, i: int| f.branch@.contains_key(k) && 0 <= i < 8
            ==> #[trigger] f.nodes@[f.branch@[k]].children[i] == f.key_child(k, i),
{
    assert forall|k: BKey, i: int| f.branch@.contains_key(k) && 0 <= i < 8
        implies #[trigger] f.nodes@[f.branch@[k]].children[i] == f.key_child(k, i) by {
        assert(l.nodes@[l.branch@[k]].children[i] == l.key_child(k, i)) by {
            reveal(Layer::inv);
        }
        assert(0 <= l.branch@[k] < l.nodes@.len() && k.0 >= 3) by {
            reveal(Layer::inv);
        }
        let j = l.branch@[k];
        assert(f.nodes@[j].children[i] == l.nodes@[j].children[i]
            || exists|lk: LKey| #[trigger] slot_of(l, lk, j, i) && f.nodes@[j].children[i] == np[l.leaf@[lk]]);
        if exists|lk: LKey| #[trigger] slot_of(l, lk, l.branch@[k], i) && f.nodes@[l.branch@[k]].children[i] == np[l.leaf@[lk]] {
            let lk = choose|lk: LKey| #[trigger] slot_of(l, lk, l.branch@[k], i) && f.nodes@[l.branch@[k]].children[i] == np[l.leaf@[lk]];
            lemma_slot_child(l, k, i, lk);
            let c = child_cell(cell_of(k), i);
            assert(lk == (c.0, c.1, c.2, k.4));
            assert(f.leaf@.contains_key(lk));
            assert(f.leaf@[lk] == np[l.leaf@[lk]]);
            assert(f.key_child(k, i) == f.leaf@[lk]);
        } else {
            assert(f.nodes@[l.branch@[k]].children[i] == l.nodes@[l.branch@[k]].children[i]);
            if k.0 != 3 {
                assert(f.key_child(k, i) == l.key_child(k, i));
            } else {
                let c = child_cell(cell_of(k), i);
                let lk = (c.0, c.1, c.2, k.4);
                lemma_leaf_slot(l, k, i);
                if l.leaf@.contains_key(lk) {
                    assert(slot_of(l, lk, l.branch@[k], i));
                    assert(f.nodes@[l.branch@[parent_key(lk)]].children[leaf_octant(lk)] == np[l.leaf@[lk]]);
                } else {
                    assert(!f.leaf@.contains_key(lk));
                    assert(f.key_child(k, i) == 0);
                    assert(l.key_child(k, i) == 0);
                }
            }
        }
    }
}

/// Nodes that are not stored under a key are as they were.
proof fn lemma_moved_unstored(f: &Layer, l: &Layer, np: Seq<usize>, j: int)
    requires
        l.inv(),
        moved_leaves(f, l, np),
        0 <= j < f.nodes@.len(),
        forall|k: BKey| #[trigger] l.branch@.contains_key(k) ==> l.branch@[k] != j,
    ensures
        f.nodes@[j] == l.nodes@[j],
{
    assert forall|c: int| 0 <= c < 8 implies f.nodes@[j].children[c] == l.nodes@[j].children[c] by {
        if exists|lk: LKey| #[trigger] slot_of(l, lk, j, c) && f.nodes@[j].children[c] == np[l.leaf@[lk]] {
            let lk = choose|lk: LKey| #[trigger] slot_of(l, lk, j, c) && f.nodes@[j].children[c] == np[l.leaf@[lk]];
            assert(l.branch@.contains_key(parent_key(lk)));
        }
    }
    assert(f.nodes@[j].children =~= l.nodes@[j].children);
}

/// The free nodes and the forks are as they were.
#[verifier::rlimit(40)]
proof fn lemma_moved_kept(f: &Layer, l: &Layer, np: Seq<usize>)
    requires
        l.inv(),
        moved_leaves(f, l, np),
    ensures
        f.nodes@[0] == l.nodes@[0],
        forall|t: int| 0 <= t < l.free_list@.len() ==> #[trigger] f.nodes@[l.free_list@[t]] == l.nodes@[l.free_list@[t]],
        forall|c: Cell, j: int| l.chains@.contains_key(c) && 0 <= j < l.chains@[c].len()
            ==> #[trigger] f.nodes@[l.chains@[c][j]] == l.nodes@[l.chains@[c][j]],
{
    reveal(Layer::inv);
    assert forall|k: BKey| #[trigger] l.branch@.contains_key(k) implies l.branch@[k] != 0 by {}
    lemma_moved_unstored(f, l, np, 0);
    assert forall|t: int| 0 <= t < l.free_list@.len() implies #[trigger] f.nodes@[l.free_list@[t]] == l.nodes@[l.free_list@[t]] by {
        let x = l.free_list@[t];
        assert forall|k: BKey| #[trigger] l.branch@.contains_key(k) implies l.branch@[k] != x by {
            assert(l.branch@[k] != l.free_list@[t]);
        }
        lemma_moved_unstored(f, l, np, x);
    }
    assert forall|c: Cell, j: int| l.chains@.contains_key(c) && 0 <= j < l.chains@[c].len()
        implies #[trigger] f.nodes@[l.chains@[c][j]] == l.nodes@[l.chains@[c][j]] by {
        let x = l.chains@[c][j];
        assert forall|k: BKey| #[trigger] l.branch@.contains_key(k) implies l.branch@[k] != x by {
            assert(l.branch@[k] != l.chains@[c][j]);
        }
        lemma_moved_unstored(f, l, np, x);
    }
}

/// A layer whose level-2 nodes were moved and relinked is well formed and holds
/// the same voxels.
#[verifier::spinoff_prover]
#[verifier::rlimit(60)]
proof fn lemma_moved_leaves(f: &Layer, l: &Layer, np: Seq<usize>)
    requires
        l.wf(),
        moved_leaves(f, l, np),
    ensures
        f.wf(),
        f@ == l@,
{
    assert(l.inv()) by {
        reveal(Layer::inv);
    }
    lemma_moved_children(f, l, np);
    lemma_moved_kept(f, l, np);
    assert(f.wf_free());
    assert(f.wf_chains()) by {
        assert forall|c: Cell, j: int, s: int|
            f.chains@.contains_key(c) && 0 <= j < f.chains@[c].len() && 0 <= s < 4 implies {
            &&& entry_index(j, s) < f.entries@[c].len() ==> #[trigger] f.slot_vid(c, j, s) == f.entries@[c][entry_index(j, s)].0
            &&& entry_index(j, s) < f.entries@[c].len() ==> f.slot_node(c, j, s) == f.entries@[c][entry_index(j, s)].1
            &&& entry_index(j, s) >= f.entries@[c].len() ==> f.slot_vid(c, j, s) == 0
        } by {
            assert(l.slot_vid(c, j, s) == f.slot_vid(c, j, s));
            assert(l.slot_node(c, j, s) == f.slot_node(c, j, s));
        }
        assert forall|c: Cell, j: int| f.chains@.contains_key(c) && 0 <= j < f.chains@[c].len()
            implies (#[trigger] f.nodes@[f.chains@[c][j]]).flag == l.nodes@[l.chains@[c][j]].flag by {
        }
    }
    assert(f.wf_branch()) by {
        assert forall|k: BKey| #[trigger] f.branch@.contains_key(k) implies f.nodes@[f.branch@[k]].flag == 0 by {
            assert(l.nodes@[l.branch@[k]].flag == 0);
        }
    }
    assert(f.wf_leaf());
    assert(f.wf_free_l2());
    assert(f.wf_distinct()) by {
        assert forall|l1: LKey, l2: LKey| f.leaf@.contains_key(l1) && f.leaf@.contains_key(l2) && l1 != l2
            implies #[trigger] f.leaf@[l1] != #[trigger] f.leaf@[l2] by {
            assert(np[l.leaf@[l1]] != np[l.leaf@[l2]]);
        }
    }
    assert(f@ =~= l@) by {
        assert forall|v: (int, int, int, int)| f@.contains(v) == l@.contains(v) by {
            let lk = (v.0 / 4, v.1 / 4, v.2 / 4, v.3);
            if l.leaf@.contains_key(lk) {
                assert(f.level_2@[f.leaf@[lk]] == l.level_2@[l.leaf@[lk]]);
            }
        }
    }
}

impl Layer {
    /// For each report of a level-2 node in `evs`, points the child of its parent
    /// that links it at `np[node]`, the node's new place.
    #[verifier::spinoff_prover]
    #[verifier::rlimit(40)]
    fn relink_leaves(&mut self, evs: &Vec<Props>, np: &Vec<usize>, Ghost(l0): Ghost<Layer>)
        requires
            l0.wf(),
            old(self).nodes@ == l0.nodes@,
            leaf_reports_sound(&l0, evs@),
            np@.len() == l0.l2len(),
            forall|x: int| 0 <= x < np@.len() ==> #[trigger] np@[x] <= u32::MAX,
        ensures
            final(self).nodes@.len() == old(self).nodes@.len(),
            final(self).level_2@ == old(self).level_2@,
            final(self).same_shape(old(self)),
            final(self).free_list@ == old(self).free_list@,
            final(self).free_list_l2@ == old(self).free_list_l2@,
            forall|j: int| 0 <= j < final(self).nodes@.len() ==> (#[trigger] final(self).nodes@[j]).flag == old(self).nodes@[j].flag,
            forall|j: int, c: int| 0 <= j < final(self).nodes@.len() && 0 <= c < 8
                ==> #[trigger] final(self).nodes@[j].children[c] == old(self).nodes@[j].children[c]
                    || exists|lk: LKey| #[trigger] slot_of(&l0, lk, j, c) && final(self).nodes@[j].children[c] == np@[l0.leaf@[lk]],
            forall|lk: LKey| #[trigger] leaf_reported(&l0, evs@, lk)
                ==> final(self).nodes@[l0.branch@[parent_key(lk)]].children[leaf_octant(lk)] == np@[l0.leaf@[lk]],
    {
        let mut t: usize = 0;
        proof {
            assert(l0.inv()) by {
                reveal(Layer::inv);
            }
        }
        while t < evs.len()
            invariant
                l0.inv(),
                t <= evs@.len(),
                leaf_reports_sound(&l0, evs@),
                np@.len() == l0.l2len(),
                forall|x: int| 0 <= x < np@.len() ==> #[trigger] np@[x] <= u32::MAX,
                self.nodes@.len() == old(self).nodes@.len(),
                old(self).nodes@ == l0.nodes@,
                self.level_2@ == old(self).level_2@,
                self.same_shape(old(self)),
                self.free_list@ == old(self).free_list@,
                self.free_list_l2@ == old(self).free_list_l2@,
                forall|j: int| 0 <= j < self.nodes@.len() ==> (#[trigger] self.nodes@[j]).flag == old(self).nodes@[j].flag,
                forall|j: int, c: int| 0 <= j < self.nodes@.len() && 0 <= c < 8
                    ==> #[trigger] self.nodes@[j].children[c] == old(self).nodes@[j].children[c]
                        || exists|lk: LKey| #[trigger] slot_of(&l0, lk, j, c) && self.nodes@[j].children[c] == np@[l0.leaf@[lk]],
                forall|lk: LKey, u: int| 0 <= u < t && #[trigger] leaf_report_of(&l0, evs@[u], lk)
                    ==> self.nodes@[l0.branch@[parent_key(lk)]].children[leaf_octant(lk)] == np@[l0.leaf@[lk]],
            decreases evs@.len() - t,
        {
            let e = evs[t];
            if e.level == 2 {
                let ghost lk = choose|lk: LKey| #[trigger] leaf_report_of(&l0, evs@[t as int], lk);
                proof {
                    reveal(Layer::inv);
                    assert(evs@[t as int].level == 2);
                    assert(leaf_report_of(&l0, e, lk));
                    assert(l0.branch@[parent_key(lk)] < l0.nlen());
                    assert(l0.leaf@[lk] < l0.l2len());
                    assert(slot_of(&l0, lk, e.parent_idx as int, leaf_octant(lk)));
                }
                let ci: usize = ((e.position.x / 4) % 2 + 2 * ((e.position.y / 4) % 2) + 4 * ((e.position.z / 4) % 2)) as usize;
                let pi = e.parent_idx;
                let ghost before = self.nodes@;
                assert(ci == leaf_octant(lk));
                let mut nd = self.nodes[pi];
                nd.children[ci] = np[e.node_idx] as u32;
                self.nodes.set(pi, nd);
                proof {
                    assert forall|j: int, c: int| 0 <= j < self.nodes@.len() && 0 <= c < 8
                        implies #[trigger] self.nodes@[j].children[c] == old(self).nodes@[j].children[c]
                            || exists|lk2: LKey| #[trigger] slot_of(&l0, lk2, j, c) && self.nodes@[j].children[c] == np@[l0.leaf@[lk2]] by {
                        if j == pi && c == ci {
                            assert(slot_of(&l0, lk, j, c));
                        } else {
                            assert(self.nodes@[j].children[c] == before[j].children[c]);
                        }
                    }
                    assert forall|lk2: LKey, u: int| 0 <= u < t + 1 && #[trigger] leaf_report_of(&l0, evs@[u], lk2)
                        implies self.nodes@[l0.branch@[parent_key(lk2)]].children[leaf_octant(lk2)] == np@[l0.leaf@[lk2]] by {
                        if l0.branch@[parent_key(lk2)] == pi && leaf_octant(lk2) == ci {
                            assert(slot_of(&l0, lk2, pi as int, ci as int));
                            lemma_slot_unique(&l0, lk, lk2, pi as int, ci as int);
                        } else if u < t {
                            assert(self.nodes@[l0.branch@[parent_key(lk2)]].children[leaf_octant(lk2)]
                                == before[l0.branch@[parent_key(lk2)]].children[leaf_octant(lk2)]);
                        } else {
                            assert(evs@[u] == e);
                        }
                    }
                }
            }
            t += 1;
        }
    }
}

impl Layer {
    /// Compacts `level_2`: zeroes the head and every free level-2 node, moves the
    /// level-2 nodes that are not zero, from the end, into the zeroed places, from
    /// the first free one up, writing into `helper` at each moved node's old index
    /// its new one, and relinks the level-3 nodes to the new places. Returns the
    /// index from which every level-2 node is zero. What the layer holds, and
    /// every lookup of a voxel, stays the same; the list of free level-2 nodes is
    /// left empty. The level-2 nodes in use are found by a traversal from the
    /// root, which takes a depth of at most 20, and are told from free ones by not
    /// being zero.
    #[verifier::spinoff_prover]
    #[verifier::rlimit(60)]
    pub fn freeze_upper(&mut self, helper: &mut Vec<usize>) -> (r: usize)
        requires
            old(self).wf(),
            old(self).depth <= 20,
            old(helper).len() == old(self).level_2@.len(),
            forall|lk: LKey| #[trigger] old(self).leaf@.contains_key(lk) ==> !old(self).level_2@[old(self).leaf@[lk]].is_zero(),
        ensures
            ({
                let z = zeroed_free(old(self).level_2@, old(self).free_list_l2@);
                let s = seq_min(old(self).free_list_l2@);
                let n = z.len();
                &&& final(self).level_2@.len() == n
                &&& final(helper)@.len() == n
                &&& r < n
                &&& 1 <= s
                &&& s != usize::MAX ==> s <= r && final(self).level_2@[r as int].is_zero()
                &&& s == usize::MAX ==> r == n - 1 && final(self).level_2@ == z && final(helper)@ == old(helper)@
                &&& forall|i: int| r < i < n ==> (#[trigger] final(self).level_2@[i]).is_zero()
                &&& forall|i: int| s <= i < r ==> !(#[trigger] final(self).level_2@[i]).is_zero()
                &&& forall|i: int| 0 <= i < n ==> #[trigger] freeze_class(z, final(self).level_2@, old(helper)@, final(helper)@, s, r as int, i)
                &&& forall|i: int, k: int| 0 <= i < k < n && moved_out(z, final(self).level_2@, i) && moved_out(z, final(self).level_2@, k)
                    ==> #[trigger] final(helper)@[k] < #[trigger] final(helper)@[i]
                &&& final(self).leaf@.dom() == old(self).leaf@.dom()
                &&& forall|lk: LKey| #[trigger] old(self).leaf@.contains_key(lk) ==> final(self).leaf@[lk]
                    == (if moved_out(z, final(self).level_2@, old(self).leaf@[lk]) { final(helper)@[old(self).leaf@[lk]] as int }
                        else { old(self).leaf@[lk] })
            }),
            forall|lk: LKey| #[trigger] old(self).leaf@.contains_key(lk)
                ==> final(self).level_2@[final(self).leaf@[lk]] == old(self).level_2@[old(self).leaf@[lk]],
            final(self).wf(),
            final(self)@ == old(self)@,
            final(self).depth == old(self).depth,
            final(self).branch@ == old(self).branch@,
            final(self).chains@ == old(self).chains@,
            final(self).entries@ == old(self).entries@,
            final(self).free_list@ == old(self).free_list@,
            final(self).free_list_l2@ == Seq::<int>::empty(),
            final(self).nodes@.len() == old(self).nodes@.len(),
            forall|j: int| 0 <= j < final(self).nodes@.len()
                && (forall|k: BKey| #[trigger] old(self).branch@.contains_key(k) ==> old(self).branch@[k] != j)
                ==> #[trigger] final(self).nodes@[j] == old(self).nodes@[j],
    {
        let ghost l0 = *self;
        let ghost h0 = helper@;
        proof {
            vstd::arithmetic::power2::lemma2_to64();
            if self.depth < 20 {
                vstd::arithmetic::power2::lemma_pow2_strictly_increases(self.depth as nat, 20);
            }
            assert(pw(20nat) == 0x100000);
        }
        let evs = self.traverse(UVec3 { x: 0, y: 0, z: 0 }, 0..=self.depth);
        proof {
            law_traverse_leaves(&l0);
        }
        let r = self.compact_l2(helper);
        let ghost f2 = self.level_2@;
        let len = self.level_2.len();
        let mut np: Vec<usize> = Vec::new();
        let mut x: usize = 0;
        while x < len
            invariant
                x <= len,
                np@.len() == x,
                len == self.level_2@.len(),
                helper@.len() == len,
                len <= u32::MAX,
                forall|y: int| 0 <= y < x ==> #[trigger] np@[y]
                    == (if self.level_2@[y].is_zero() && helper@[y] < len { helper@[y] } else { y as usize }),
            decreases len - x,
        {
            let nd = self.level_2[x];
            if nd.packed_children[0] == 0 && nd.packed_children[1] == 0 && helper[x] < len {
                np.push(helper[x]);
            } else {
                np.push(x);
            }
            x += 1;
        }
        self.relink_leaves(&evs, &np, Ghost(l0));
        self.leaf = Ghost(Map::new(|lk: LKey| l0.leaf@.contains_key(lk), |lk: LKey| np@[l0.leaf@[lk]] as int));
        self.free_list_l2 = Ghost(Seq::<int>::empty());
        proof {
            lemma_freeze_moved(self, &l0, np@, h0, helper@, r as int);
            lemma_moved_leaves(self, &l0, np@);
            assert(self.leaf@.dom() =~= l0.leaf@.dom());
            assert(l0.inv()) by {
                reveal(Layer::inv);
            }
            assert forall|j: int| 0 <= j < self.nodes@.len()
                && (forall|k: BKey| #[trigger] l0.branch@.contains_key(k) ==> l0.branch@[k] != j)
                implies #[trigger] self.nodes@[j] == l0.nodes@[j] by {
                lemma_moved_unstored(self, &l0, np@, j);
            }
        }
        r
    }
}

/// What [Layer::freeze_upper] leaves is the layer with its level-2 nodes moved.
#[verifier::spinoff_prover]
#[verifier::rlimit(60)]
proof fn lemma_freeze_moved(f: &Layer, l: &Layer, np: Seq<usize>, h0: Seq<usize>, h: Seq<usize>, r: int)
    requires
        l.wf(),
        forall|lk: LKey| #[trigger] l.leaf@.contains_key(lk) ==> !l.level_2@[l.leaf@[lk]].is_zero(),
        ({
            let z = zeroed_free(l.level_2@, l.free_list_l2@);
            let s = seq_min(l.free_list_l2@);
            let n = z.len();
            &&& f.level_2@.len() == n
            &&& h.len() == n
            &&& 0 <= r < n
            &&& 1 <= s
            &&& forall|i: int| 0 <= i < n ==> #[trigger] freeze_class(z, f.level_2@, h0, h, s, r, i)
            &&& forall|i: int, k: int| 0 <= i < k < n && moved_out(z, f.level_2@, i) && moved_out(z, f.level_2@, k)
                ==> #[trigger] h[k] < #[trigger] h[i]
        }),
        np.len() == l.level_2@.len(),
        forall|y: int| 0 <= y < np.len() ==> #[trigger] np[y]
            == (if f.level_2@[y].is_zero() && h[y] < np.len() { h[y] } else { y as usize }),
        f.depth == l.depth,
        f.nodes@.len() == l.nodes@.len(),
        f.branch@ == l.branch@,
        f.chains@ == l.chains@,
        f.entries@ == l.entries@,
        f.free_list@ == l.free_list@,
        f.free_list_l2@ == Seq::<int>::empty(),
        f.leaf@ == Map::new(|lk: LKey| l.leaf@.contains_key(lk), |lk: LKey| np[l.leaf@[lk]] as int),
        forall|j: int| 0 <= j < f.nodes@.len() ==> (#[trigger] f.nodes@[j]).flag == l.nodes@[j].flag,
        forall|j: int, c: int| 0 <= j < f.nodes@.len() && 0 <= c < 8
            ==> #[trigger] f.nodes@[j].children[c] == l.nodes@[j].children[c]
                || exists|lk: LKey| #[trigger] slot_of(l, lk, j, c) && f.nodes@[j].children[c] == np[l.leaf@[lk]],
        forall|lk: LKey| #[trigger] leaf_reported(l, l.traverse_spec(UVec3 { x: 0, y: 0, z: 0 }, l.depth as int), lk)
            ==> f.nodes@[l.branch@[parent_key(lk)]].children[leaf_octant(lk)] == np[l.leaf@[lk]],
        forall|lk: LKey| #[trigger] l.leaf@.contains_key(lk)
            ==> leaf_reported(l, l.traverse_spec(UVec3 { x: 0, y: 0, z: 0 }, l.depth as int), lk),
    ensures
        moved_leaves(f, l, np),
        forall|lk: LKey| #[trigger] l.leaf@.contains_key(lk) ==> np[l.leaf@[lk]] as int
            == (if moved_out(zeroed_free(l.level_2@, l.free_list_l2@), f.level_2@, l.leaf@[lk]) { h[l.leaf@[lk]] as int }
                else { l.leaf@[lk] }),
{
    let z = zeroed_free(l.level_2@, l.free_list_l2@);
    let s = seq_min(l.free_list_l2@);
    let n = z.len();
    let fl = l.free_list_l2@;
    assert(freeze_class(z, f.level_2@, h0, h, s, r, 0));
    assert(z[0].is_zero());
    assert forall|lk: LKey| #[trigger] l.leaf@.contains_key(lk) implies {
        &&& 1 <= np[l.leaf@[lk]] < l.l2len()
        &&& f.level_2@[np[l.leaf@[lk]] as int] == l.level_2@[l.leaf@[lk]]
        &&& np[l.leaf@[lk]] as int == (if moved_out(z, f.level_2@, l.leaf@[lk]) { h[l.leaf@[lk]] as int } else { l.leaf@[lk] })
        &&& !z[np[l.leaf@[lk]] as int].is_zero() <==> !moved_out(z, f.level_2@, l.leaf@[lk])
    } by {
        let x = l.leaf@[lk];
        assert(1 <= x < n);
        assert(!fl.contains(x)) by {
            if fl.contains(x) {
                let t = choose|t: int| 0 <= t < fl.len() && fl[t] == x;
                assert(l.leaf@[lk] != l.free_list_l2@[t]);
            }
        }
        assert(z[x] == l.level_2@[x]);
        assert(freeze_class(z, f.level_2@, h0, h, s, r, x));
    }
    assert forall|a: LKey, b: LKey| #[trigger] l.leaf@.contains_key(a) && #[trigger] l.leaf@.contains_key(b) && a != b
        implies np[l.leaf@[a]] != np[l.leaf@[b]] by {
        let xa = l.leaf@[a];
        let xb = l.leaf@[b];
        assert(xa != xb);
        if moved_out(z, f.level_2@, xa) && moved_out(z, f.level_2@, xb) {
            if xa < xb {
                assert(h[xb] < h[xa]);
            } else {
                assert(h[xa] < h[xb]);
            }
        }
    }
    assert forall|lk: LKey| #[trigger] l.leaf@.contains_key(lk)
        implies f.nodes@[l.branch@[parent_key(lk)]].children[leaf_octant(lk)] == np[l.leaf@[lk]] by {
        assert(leaf_reported(l, l.traverse_spec(UVec3 { x: 0, y: 0, z: 0 }, l.depth as int), lk));
    }
}


impl Layer {
    /// Shrinks `level_2` so that its free nodes can be cut off: compacts it as
    /// [Layer::freeze_upper] does (moving the level-2 nodes in use to the front,
    /// recording each move in `helper`, relinking the level-3 nodes), then makes
    /// every level-2 node from the returned cut on a free one, in order. Every
    /// level-2 node in use lies below the cut, and what the layer holds, and
    /// every lookup of a voxel, stays the same.
    #[verifier::spinoff_prover]
    #[verifier::rlimit(60)]
    pub fn shrink_to_fit_l2(&mut self, helper: &mut Vec<usize>) -> (r: usize)
        requires
            old(self).wf(),
            old(self).depth <= 20,
            old(helper).len() == old(self).level_2@.len(),
            forall|lk: LKey| #[trigger] old(self).leaf@.contains_key(lk) ==> !old(self).level_2@[old(self).leaf@[lk]].is_zero(),
        ensures
            final(self).wf(),
            final(self)@ == old(self)@,
            final(self).depth == old(self).depth,
            final(self).branch@ == old(self).branch@,
            final(self).chains@ == old(self).chains@,
            final(self).entries@ == old(self).entries@,
            final(self).free_list@ == old(self).free_list@,
            final(self).nodes@.len() == old(self).nodes@.len(),
            final(self).level_2@.len() == old(self).level_2@.len(),
            final(helper)@.len() == old(helper)@.len(),
            1 <= r <= old(self).level_2@.len(),
            final(self).free_list_l2@ == Seq::new((old(self).level_2@.len() - r) as nat, |t: int| r + t),
            final(self).leaf@.dom() == old(self).leaf@.dom(),
            forall|lk: LKey| #[trigger] old(self).leaf@.contains_key(lk) ==> {
                let z = zeroed_free(old(self).level_2@, old(self).free_list_l2@);
                let x = old(self).leaf@[lk];
                &&& final(self).leaf@[lk] < r
                &&& final(self).level_2@[final(self).leaf@[lk]] == old(self).level_2@[x]
                &&& final(self).leaf@[lk] == x || (x >= r && final(self).leaf@[lk] == final(helper)@[x])
            },
            shrink_places(zeroed_free(old(self).level_2@, old(self).free_list_l2@), seq_min(old(self).free_list_l2@),
                final(self).level_2@, final(helper)@, r as int),
    {
        let ghost l0 = *self;
        let ghost h0 = helper@;
        let len = self.level_2.len();
        let fr = self.freeze_upper(helper);
        let ghost f = *self;
        let cut: usize = if fr >= 1 && self.level_2[fr].packed_children[0] == 0 && self.level_2[fr].packed_children[1] == 0 {
            fr
        } else {
            fr + 1
        };
        proof {
            assert forall|lk: LKey| #[trigger] l0.leaf@.contains_key(lk) implies f.leaf@[lk] < cut by {
                assert(f.leaf@.contains_key(lk));
                assert(f.level_2@[f.leaf@[lk]] == l0.level_2@[l0.leaf@[lk]]);
                assert(f.leaf@[lk] < len) by {
                    reveal(Layer::inv);
                    assert(f.inv()) by { reveal(Layer::inv); }
                }
            }
        }
        let mut hd = self.level_2[0];
        hd.packed_children[0] = if cut < len { cut as u32 } else { 0 };
        self.level_2.set(0, hd);
        let mut i = cut;
        while i < len
            invariant
                cut <= i <= len,
                1 <= cut,
                self.nodes@ == f.nodes@,
                self.same_shape(&f),
                self.free_list@ == f.free_list@,
                len == self.level_2@.len(),
                len == f.level_2@.len(),
                len <= u32::MAX,
                self.level_2@[0].packed_children[0] == (if cut < len { cut as u32 } else { 0u32 }),
                forall|j: int| 1 <= j < cut ==> #[trigger] self.level_2@[j] == f.level_2@[j],
                forall|j: int| cut <= j < i ==> (#[trigger] self.level_2@[j]).packed_children[0]
                    == (if j + 1 < len { (j + 1) as u32 } else { 0u32 }),
            decreases len - i,
        {
            let mut nd = self.level_2[i];
            nd.packed_children[0] = if i + 1 < len { (i + 1) as u32 } else { 0 };
            self.level_2.set(i, nd);
            i += 1;
        }
        self.free_list_l2 = Ghost(Seq::new((len - cut) as nat, |t: int| cut + t));
        proof {
            lemma_shrink_places(zeroed_free(l0.level_2@, l0.free_list_l2@), seq_min(l0.free_list_l2@),
                f.level_2@, self.level_2@, h0, helper@, fr as int, cut as int);
            lemma_shrink_free(self, &f, cut as int);
            let z = zeroed_free(l0.level_2@, l0.free_list_l2@);
            let sm = seq_min(l0.free_list_l2@);
            assert(f.inv()) by { reveal(Layer::inv); }
            assert forall|lk: LKey| #[trigger] l0.leaf@.contains_key(lk) implies {
                let x = l0.leaf@[lk];
                &&& self.leaf@[lk] < cut
                &&& self.level_2@[self.leaf@[lk]] == l0.level_2@[x]
                &&& self.leaf@[lk] == x || (x >= cut && self.leaf@[lk] == helper@[x])
            } by {
                let x = l0.leaf@[lk];
                assert(f.leaf@.contains_key(lk));
                assert(1 <= f.leaf@[lk]) by { reveal(Layer::inv); }
                assert(f.level_2@[f.leaf@[lk]] == l0.level_2@[x]);
                assert(0 <= x < len) by {
                    assert(l0.inv()) by { reveal(Layer::inv); }
                    reveal(Layer::inv);
                }
                if moved_out(z, f.level_2@, x) {
                    assert(freeze_class(z, f.level_2@, h0, helper@, sm, fr as int, x));
                    assert(f.level_2@[x].is_zero());
                    assert(x >= fr);
                }
            }
        }
        cut
    }
}

/// Making the level-2 nodes from `cut` on free, when none in use lies there,
/// keeps a layer well formed and what it holds.
#[verifier::spinoff_prover]
#[verifier::rlimit(40)]
proof fn lemma_shrink_free(g: &Layer, f: &Layer, cut: int)
    requires
        f.wf(),
        1 <= cut <= f.l2len(),
        forall|lk: LKey| #[trigger] f.leaf@.contains_key(lk) ==> f.leaf@[lk] < cut,
        g.depth == f.depth,
        g.nodes@ == f.nodes@,
        g.branch@ == f.branch@,
        g.chains@ == f.chains@,
        g.entries@ == f.entries@,
        g.leaf@ == f.leaf@,
        g.free_list@ == f.free_list@,
        g.level_2@.len() == f.level_2@.len(),
        g.free_list_l2@ == Seq::new((f.l2len() - cut) as nat, |t: int| cut + t),
        g.level_2@[0].packed_children[0] == (if cut < f.l2len() { cut as u32 } else { 0u32 }),
        forall|j: int| 1 <= j < cut ==> #[trigger] g.level_2@[j] == f.level_2@[j],
        forall|j: int| cut <= j < f.l2len() ==> (#[trigger] g.level_2@[j]).packed_children[0]
            == (if j + 1 < f.l2len() { (j + 1) as u32 } else { 0u32 }),
    ensures
        g.wf(),
        g@ == f@,
{
    let fl = g.free_list_l2@;
    assert(fl.no_duplicates());
    assert(g.wf_free_l2()) by {
        if fl.len() > 0 {
            assert(fl[0] == cut);
        }
        assert forall|t: int| 0 <= t < fl.len() implies (#[trigger] g.level_2@[fl[t]]).packed_children[0]
            == (if t + 1 < fl.len() { fl[t + 1] } else { 0 }) by {
            assert(fl[t] == cut + t);
        }
    }
    assert(g.wf_distinct()) by {
        assert forall|lk: LKey, t: int| g.leaf@.contains_key(lk) && 0 <= t < fl.len()
            implies #[trigger] g.leaf@[lk] != #[trigger] fl[t] by {
            assert(fl[t] == cut + t);
        }
    }
    assert(g.wf_leaf());
    assert(g.wf_branch());
    assert(g.wf_chains()) by {
        assert forall|c: Cell, j: int, s: int|
            g.chains@.contains_key(c) && 0 <= j < g.chains@[c].len() && 0 <= s < 4 implies {
            &&& entry_index(j, s) < g.entries@[c].len() ==> #[trigger] g.slot_vid(c, j, s) == g.entries@[c][entry_index(j, s)].0
            &&& entry_index(j, s) < g.entries@[c].len() ==> g.slot_node(c, j, s) == g.entries@[c][entry_index(j, s)].1
            &&& entry_index(j, s) >= g.entries@[c].len() ==> g.slot_vid(c, j, s) == 0
        } by {
            assert(f.slot_vid(c, j, s) == g.slot_vid(c, j, s));
            assert(f.slot_node(c, j, s) == g.slot_node(c, j, s));
        }
    }
    assert(g@ =~= f@) by {
        assert forall|v: (int, int, int, int)| g@.contains(v) == f@.contains(v) by {
            let lk = (v.0 / 4, v.1 / 4, v.2 / 4, v.3);
            if f.leaf@.contains_key(lk) {
                assert(1 <= f.leaf@[lk]);
                assert(g.level_2@[g.leaf@[lk]] == f.level_2@[f.leaf@[lk]]);
            }
        }
    }
}


/// Where [Layer::shrink_to_fit_l2] leaves the level-2 nodes, against `z`, the
/// level-2 nodes with the head and the free ones zeroed, and `s`, the first free
/// index: from `s` to the cut `r` none is zero; below `r` each is where it was
/// or a node moved there, into a zeroed place, from index `h[j]` at or after
/// `r`; every node that is not zero at or after `r` was moved below `r`, and no
/// two to one place.
pub open spec fn shrink_places(z: Seq<NodeL2>, s: int, g: Seq<NodeL2>, h: Seq<usize>, r: int) -> bool {
    &&& forall|i: int| s <= i < r ==> !(#[trigger] g[i]).is_zero()
    &&& forall|i: int| 1 <= i < r ==> #[trigger] g[i] == z[i]
        || exists|j: int| #![trigger h[j]] r <= j < z.len() && !z[j].is_zero() && z[i].is_zero() && h[j] == i && g[i] == z[j]
    &&& forall|j: int| r <= j < z.len() && !z[j].is_zero() ==> {
        &&& 1 <= #[trigger] h[j] < r
        &&& z[h[j] as int].is_zero()
        &&& g[h[j] as int] == z[j]
    }
    &&& forall|j: int, k: int| r <= j < k < z.len() && !z[j].is_zero() && !z[k].is_zero() ==> #[trigger] h[j] != #[trigger] h[k]
}

/// What [Layer::freeze_upper] leaves, cut at `cut`, is placed as [shrink_places] says.
#[verifier::spinoff_prover]
#[verifier::rlimit(40)]
proof fn lemma_shrink_places(z: Seq<NodeL2>, s: int, f: Seq<NodeL2>, g: Seq<NodeL2>, h0: Seq<usize>, h: Seq<usize>, fr: int, cut: int)
    requires
        f.len() == z.len(),
        g.len() == z.len(),
        h.len() == z.len(),
        1 <= s,
        0 <= fr < z.len(),
        s != usize::MAX ==> s <= fr && f[fr].is_zero(),
        s == usize::MAX ==> fr == z.len() - 1 && f == z,
        forall|i: int| fr < i < z.len() ==> (#[trigger] f[i]).is_zero(),
        forall|i: int| s <= i < fr ==> !(#[trigger] f[i]).is_zero(),
        forall|i: int| 0 <= i < z.len() ==> #[trigger] freeze_class(z, f, h0, h, s, fr, i),
        forall|i: int, k: int| 0 <= i < k < z.len() && moved_out(z, f, i) && moved_out(z, f, k)
            ==> #[trigger] h[k] < #[trigger] h[i],
        cut == (if fr >= 1 && f[fr].is_zero() { fr } else { fr + 1 }),
        forall|j: int| 1 <= j < cut ==> #[trigger] g[j] == f[j],
    ensures
        shrink_places(z, s, g, h, cut),
{
    let n = z.len();
    // a moved node came from at or after the cut
    assert forall|x: int| 0 <= x < n && moved_out(z, f, x) implies x >= cut by {
        assert(freeze_class(z, f, h0, h, s, fr, x));
        if x < fr {
            assert(!f[x].is_zero());
        }
        if x == fr && cut == fr + 1 {
            assert(fr >= 1);
        }
    }
    assert forall|i: int| s <= i < cut implies !(#[trigger] g[i]).is_zero() by {
        assert(g[i] == f[i]);
    }
    assert forall|i: int| 1 <= i < cut implies #[trigger] g[i] == z[i]
        || exists|j: int| #![trigger h[j]] cut <= j < n && !z[j].is_zero() && z[i].is_zero() && h[j] == i && g[i] == z[j] by {
        assert(g[i] == f[i]);
        assert(freeze_class(z, f, h0, h, s, fr, i));
        if f[i] != z[i] {
            if moved_out(z, f, i) {
                assert(i >= cut);
            } else {
                let j = choose|j: int| #![trigger h[j]] fr <= j < n && moved_out(z, f, j) && h[j] == i;
                assert(j >= cut);
                assert(freeze_class(z, f, h0, h, s, fr, j));
            }
        }
    }
    assert forall|j: int| cut <= j < n && !z[j].is_zero() implies {
        &&& 1 <= #[trigger] h[j] < cut
        &&& z[h[j] as int].is_zero()
        &&& g[h[j] as int] == z[j]
    } by {
        assert(freeze_class(z, f, h0, h, s, fr, j));
        assert(f[j].is_zero());
        assert(h[j] != fr || cut == fr + 1);
        assert(g[h[j] as int] == f[h[j] as int]);
    }
    assert forall|j: int, k: int| cut <= j < k < n && !z[j].is_zero() && !z[k].is_zero() implies #[trigger] h[j] != #[trigger] h[k] by {
        assert(freeze_class(z, f, h0, h, s, fr, j));
        assert(freeze_class(z, f, h0, h, s, fr, k));
        assert(f[j].is_zero() && f[k].is_zero());
    }
}

} // verus!
