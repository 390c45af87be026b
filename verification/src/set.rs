use vstd::prelude::*;
use crate::layer::{Layer, BKey, Cell, LKey, cell_of, child_cell, parent_cell, cell_in, entry_index, lemma_child_cell};
use crate::node::{Node, spec_child_index, half_bit};
use crate::node_l2::{NodeL2, in_grid4, l2_word, l2_bit};
use crate::utils::{pw, l2s, lemma_halve};
use crate::vec3::{UVec3, uvec3};
use crate::traverse_laws::{cell_at, lemma_voxel_ancestors};

verus! {

/// The key of child `i` of the node stored under `k`, for a node that is not on
/// level 5: above level 5 the voxel id stays `0`, on level 4 it is kept.
pub open spec fn child_key(k: BKey, i: int) -> BKey {
    let c = child_cell(cell_of(k), i);
    (k.0 - 1, c.0, c.1, c.2, if k.0 >= 6 { 0 } else { k.4 })
}

impl Layer {
    /// Links a new, empty node as child `child_idx` of the node stored under `k`.
    #[verifier::spinoff_prover]
    #[verifier::rlimit(40)]
    fn attach_branch(&mut self, from_idx: usize, child_idx: usize, Ghost(k): Ghost<BKey>) -> (r: usize)
        requires
            old(self).wf(),
            old(self).branch@.contains_key(k),
            old(self).branch@[k] == from_idx,
            k.0 >= 6 || k.0 == 4,
            child_idx < 8,
            !old(self).branch@.contains_key(child_key(k, child_idx as int)),
            old(self).free_list@.len() >= 1,
        ensures
            final(self).nodes_kept_but(old(self), from_idx as int, from_idx as int, old(self).free_list@.take(1)),
            final(self).wf(),
            r == old(self).free_list@[0],
            final(self).branch@ == old(self).branch@.insert(child_key(k, child_idx as int), r as int),
            final(self).chains@ == old(self).chains@,
            final(self).entries@ == old(self).entries@,
            final(self).leaf@ == old(self).leaf@,
            final(self).depth == old(self).depth,
            final(self).free_list@ == old(self).free_list@.drop_first(),
            final(self).free_list_l2@ == old(self).free_list_l2@,
            final(self).level_2@ == old(self).level_2@,
            final(self).nlen() == old(self).nlen(),
            final(self)@ == old(self)@,
    {
        let ghost ck = child_key(k, child_idx as int);
        let new_idx = self.allocate_node();
        let ghost mid = *self;
        let mut n = self.nodes[from_idx];
        n.children[child_idx] = new_idx as u32;
        self.nodes.set(from_idx, n);
        self.branch = Ghost(self.branch@.insert(ck, new_idx as int));
        proof {
            let ci = child_idx as int;
            lemma_child_cell(cell_of(k), ci, self.cells(k.0));
            vstd::arithmetic::power2::lemma_pow2_unfold((self.depth - ck.0) as nat);
            assert(self.cells(ck.0) == 2 * self.cells(k.0));
            assert(from_idx != new_idx);
            // nothing hangs below the new key yet
            assert forall|i: int| 0 <= i < 8 implies #[trigger] self.key_child(ck, i) == 0 by {
                let c2 = child_cell(cell_of(ck), i);
                lemma_child_cell(cell_of(ck), i, 0);
                if ck.0 >= 6 {
                    let gk = (ck.0 - 1, c2.0, c2.1, c2.2, 0int);
                    if mid.branch@.contains_key(gk) {
                        assert(mid.branch@.contains_key((gk.0 + 1, gk.1 / 2, gk.2 / 2, gk.3 / 2, 0int)));
                    }
                } else if ck.0 == 5 {
                    if mid.chains@.contains_key(c2) {
                        assert(mid.branch@.contains_key((5int, c2.0 / 2, c2.1 / 2, c2.2 / 2, 0int)));
                    }
                } else {
                    let lk = (c2.0, c2.1, c2.2, ck.4);
                    if mid.leaf@.contains_key(lk) {
                        assert(mid.branch@.contains_key((3int, lk.0 / 2, lk.1 / 2, lk.2 / 2, lk.3)));
                    }
                }
            }
            assert forall|kk: BKey, i: int| self.branch@.contains_key(kk) && 0 <= i < 8
                implies #[trigger] self.nodes@[self.branch@[kk]].children[i] == self.key_child(kk, i) by {
                if kk == ck {
                    assert(self.nodes@[new_idx as int] == mid.nodes@[new_idx as int]);
                } else {
                    assert(mid.nodes@[mid.branch@[kk]].children[i] == mid.key_child(kk, i));
                    if kk.1 >= 0 && kk.2 >= 0 && kk.3 >= 0 {
                        lemma_child_cell(cell_of(kk), i, 0);
                    }
                    if kk == k {
                        if i != ci {
                            assert(self.key_child(kk, i) == mid.key_child(kk, i));
                        }
                    } else {
                        assert(mid.branch@[kk] != from_idx);
                        assert(self.key_child(kk, i) == mid.key_child(kk, i));
                    }
                }
            }
            assert(self.wf_branch()) by {
                assert forall|kk: BKey| #[trigger] self.branch@.contains_key(kk) implies {
                    &&& self.key_ok(kk)
                    &&& 1 <= self.branch@[kk] < self.nlen()
                    &&& self.nodes@[self.branch@[kk]].flag == 0
                    &&& (kk.0 < self.depth && kk.0 >= 5) ==> self.branch@.contains_key((kk.0 + 1, kk.1 / 2, kk.2 / 2, kk.3 / 2, 0int))
                    &&& kk.0 == 4 ==> self.entries@.contains_key(cell_of(kk))
                    &&& kk.0 == 4 ==> exists|t: int| 0 <= t < self.entries@[cell_of(kk)].len()
                        && #[trigger] self.entries@[cell_of(kk)][t].0 == kk.4
                    &&& kk.0 == 3 ==> self.branch@.contains_key((4int, kk.1 / 2, kk.2 / 2, kk.3 / 2, kk.4))
                } by {
                    if kk == ck {
                        assert(self.nodes@[new_idx as int].flag == 0);
                    } else {
                        assert(mid.branch@.contains_key(kk));
                        if kk.0 == 4 {
                            let t = choose|t: int| 0 <= t < mid.entries@[cell_of(kk)].len()
                                && #[trigger] mid.entries@[cell_of(kk)][t].0 == kk.4;
                            assert(self.entries@[cell_of(kk)][t].0 == kk.4);
                        }
                    }
                }
            }
            assert(self.wf_chains()) by {
                assert forall|c: Cell, j: int| self.chains@.contains_key(c) && 0 <= j < self.chains@[c].len()
                    implies #[trigger] self.chains@[c][j] != from_idx by {
                    assert(mid.branch@[k] != mid.chains@[c][j]);
                }
                assert forall|c: Cell, j: int, s: int|
                    self.chains@.contains_key(c) && 0 <= j < self.chains@[c].len() && 0 <= s < 4 implies {
                    &&& entry_index(j, s) < self.entries@[c].len() ==> #[trigger] self.slot_vid(c, j, s) == self.entries@[c][entry_index(j, s)].0
                    &&& entry_index(j, s) < self.entries@[c].len() ==> self.slot_node(c, j, s) == self.entries@[c][entry_index(j, s)].1
                    &&& entry_index(j, s) >= self.entries@[c].len() ==> self.slot_vid(c, j, s) == 0
                } by {
                    assert(mid.slot_vid(c, j, s) == self.slot_vid(c, j, s));
                    assert(mid.slot_node(c, j, s) == self.slot_node(c, j, s));
                }
                assert forall|c: Cell, t: int| self.entries@.contains_key(c) && 0 <= t < self.entries@[c].len() implies {
                    let e = #[trigger] self.entries@[c][t];
                    &&& self.branch@.contains_key((4int, c.0, c.1, c.2, e.0))
                    &&& self.branch@[(4int, c.0, c.1, c.2, e.0)] == e.1
                } by {
                    let e = self.entries@[c][t];
                    assert(mid.branch@.contains_key((4int, c.0, c.1, c.2, e.0)));
                }
            }
            assert(self.wf_free()) by {
                assert forall|t: int| 0 <= t < self.free_list@.len() implies #[trigger] self.free_list@[t] != from_idx by {
                    assert(mid.branch@[k] != mid.free_list@[t]);
                }
            }
            assert(self.wf_distinct()) by {
                assert forall|k1: BKey, k2: BKey|
                    self.branch@.contains_key(k1) && self.branch@.contains_key(k2) && k1 != k2
                    implies #[trigger] self.branch@[k1] != #[trigger] self.branch@[k2] by {
                    if k1 != ck && k2 != ck {
                        assert(mid.branch@[k1] != mid.branch@[k2]);
                    }
                }
                assert forall|kk: BKey, c: Cell, j: int|
                    self.branch@.contains_key(kk) && self.chains@.contains_key(c) && 0 <= j < self.chains@[c].len()
                    implies #[trigger] self.branch@[kk] != #[trigger] self.chains@[c][j] by {
                    if kk != ck {
                        assert(mid.branch@[kk] != mid.chains@[c][j]);
                    }
                }
                assert forall|kk: BKey, t: int| self.branch@.contains_key(kk) && 0 <= t < self.free_list@.len()
                    implies #[trigger] self.branch@[kk] != #[trigger] self.free_list@[t] by {
                    if kk != ck {
                        assert(mid.branch@[kk] != mid.free_list@[t]);
                    }
                }
            }
            assert(self.wf_leaf()) by {
                assert forall|lk: LKey| #[trigger] self.leaf@.contains_key(lk)
                    implies self.branch@.contains_key((3int, lk.0 / 2, lk.1 / 2, lk.2 / 2, lk.3)) by {
                    assert(mid.branch@.contains_key((3int, lk.0 / 2, lk.1 / 2, lk.2 / 2, lk.3)));
                }
            }
            assert(self@ =~= old(self)@);
        }
        proof {
            let tk = old(self).free_list@.take(1);
            assert(tk[0] == new_idx as int);
            assert forall|j: int| 0 < j < self.nlen() && j != from_idx && j != from_idx && !tk.contains(j)
                implies #[trigger] self.nodes@[j] == old(self).nodes@[j] by {
                assert(j != new_idx);
                assert(mid.nodes@[j] == old(self).nodes@[j]);
            }
        }
        new_idx
    }
}


impl Layer {
    /// Starts the chain of forks of the level-4 cell below child `child_idx` of
    /// the level-5 node stored under `k`, with one entry: a new, empty subtree for `voxel_id`.
    #[verifier::spinoff_prover]
    #[verifier::rlimit(40)]
    fn create_chain(&mut self, from_idx: usize, child_idx: usize, voxel_id: u32, Ghost(k): Ghost<BKey>) -> (r: usize)
        requires
            old(self).wf(),
            old(self).branch@.contains_key(k),
            old(self).branch@[k] == from_idx,
            k.0 == 5,
            child_idx < 8,
            voxel_id != 0,
            !old(self).chains@.contains_key(child_cell(cell_of(k), child_idx as int)),
            old(self).free_list@.len() >= 2,
        ensures
            final(self).nodes_kept_but(old(self), from_idx as int, from_idx as int, old(self).free_list@.take(2)),
            final(self).wf(),
            r == old(self).free_list@[0],
            ({
                let c = child_cell(cell_of(k), child_idx as int);
                &&& final(self).branch@ == old(self).branch@.insert((4int, c.0, c.1, c.2, voxel_id as int), r as int)
                &&& final(self).chains@ == old(self).chains@.insert(c, seq![old(self).free_list@[1]])
                &&& final(self).entries@ == old(self).entries@.insert(c, seq![(voxel_id as int, r as int)])
            }),
            final(self).leaf@ == old(self).leaf@,
            final(self).depth == old(self).depth,
            final(self).free_list@ == old(self).free_list@.skip(2),
            final(self).free_list_l2@ == old(self).free_list_l2@,
            final(self).level_2@ == old(self).level_2@,
            final(self).nlen() == old(self).nlen(),
            final(self)@ == old(self)@,
    {
        let ghost c = child_cell(cell_of(k), child_idx as int);
        let ghost nk: BKey = (4int, c.0, c.1, c.2, voxel_id as int);
        let ghost fl = self.free_list@;
        let new_branch_idx = self.allocate_node();
        let ghost a1 = *self;
        let fork = Node { flag: -3, children: [voxel_id, new_branch_idx as u32, 0, 0, 0, 0, 0, 0] };
        let fork_idx = self.allocate_node_from(fork);
        let ghost mid = *self;
        let mut n = self.nodes[from_idx];
        n.children[child_idx] = fork_idx as u32;
        self.nodes.set(from_idx, n);
        self.branch = Ghost(self.branch@.insert(nk, new_branch_idx as int));
        self.chains = Ghost(self.chains@.insert(c, seq![fork_idx as int]));
        self.entries = Ghost(self.entries@.insert(c, seq![(voxel_id as int, new_branch_idx as int)]));
        proof {
            let ci = child_idx as int;
            assert(fl[1] == fork_idx && fl[0] == new_branch_idx);
            assert(fl.skip(2) =~= mid.free_list@);
            lemma_child_cell(cell_of(k), ci, self.cells(5));
            vstd::arithmetic::power2::lemma_pow2_unfold((self.depth - 4) as nat);
            assert(self.cells(4) == 2 * self.cells(5));
            assert(from_idx != new_branch_idx && from_idx != fork_idx && fork_idx != new_branch_idx);
            assert(!mid.branch@.contains_key(nk)) by {
                if mid.branch@.contains_key(nk) {
                    assert(mid.entries@.contains_key(c));
                }
            }
            assert(self.nodes@[new_branch_idx as int] == mid.nodes@[new_branch_idx as int]);
            assert(self.nodes@[fork_idx as int] == fork);
            // nothing hangs below the new level-4 node yet
            assert forall|i: int| 0 <= i < 8 implies #[trigger] self.key_child(nk, i) == 0 by {
                let c2 = child_cell(c, i);
                lemma_child_cell(c, i, 0);
                let gk = (3int, c2.0, c2.1, c2.2, voxel_id as int);
                if mid.branch@.contains_key(gk) {
                    assert(mid.branch@.contains_key((4int, gk.1 / 2, gk.2 / 2, gk.3 / 2, gk.4)));
                }
            }
            assert forall|kk: BKey, i: int| self.branch@.contains_key(kk) && 0 <= i < 8
                implies #[trigger] self.nodes@[self.branch@[kk]].children[i] == self.key_child(kk, i) by {
                if kk == nk {
                } else {
                    assert(mid.nodes@[mid.branch@[kk]].children[i] == mid.key_child(kk, i));
                    if kk.1 >= 0 && kk.2 >= 0 && kk.3 >= 0 {
                        lemma_child_cell(cell_of(kk), i, 0);
                    }
                    if kk == k {
                        if i != ci {
                            assert(self.key_child(kk, i) == mid.key_child(kk, i));
                        }
                    } else {
                        assert(mid.branch@[kk] != from_idx);
                        assert(self.key_child(kk, i) == mid.key_child(kk, i));
                    }
                }
            }
            assert(self.wf_branch()) by {
                assert forall|kk: BKey| #[trigger] self.branch@.contains_key(kk) implies {
                    &&& self.key_ok(kk)
                    &&& 1 <= self.branch@[kk] < self.nlen()
                    &&& self.nodes@[self.branch@[kk]].flag == 0
                    &&& (kk.0 < self.depth && kk.0 >= 5) ==> self.branch@.contains_key((kk.0 + 1, kk.1 / 2, kk.2 / 2, kk.3 / 2, 0int))
                    &&& kk.0 == 4 ==> self.entries@.contains_key(cell_of(kk))
                    &&& kk.0 == 4 ==> exists|t: int| 0 <= t < self.entries@[cell_of(kk)].len()
                        && #[trigger] self.entries@[cell_of(kk)][t].0 == kk.4
                    &&& kk.0 == 3 ==> self.branch@.contains_key((4int, kk.1 / 2, kk.2 / 2, kk.3 / 2, kk.4))
                } by {
                    if kk == nk {
                        assert(self.entries@[cell_of(kk)][0].0 == kk.4);
                    } else {
                        assert(mid.branch@.contains_key(kk));
                        if kk.0 == 4 {
                            let t = choose|t: int| 0 <= t < mid.entries@[cell_of(kk)].len()
                                && #[trigger] mid.entries@[cell_of(kk)][t].0 == kk.4;
                            assert(cell_of(kk) != c);
                            assert(self.entries@[cell_of(kk)][t].0 == kk.4);
                        }
                    }
                }
            }
            assert(self.wf_chains()) by {
                assert forall|cc: Cell, j: int| self.chains@.contains_key(cc) && 0 <= j < self.chains@[cc].len() implies {
                    let f = #[trigger] self.chains@[cc][j];
                    &&& 1 <= f < self.nlen()
                    &&& self.nodes@[f].flag == (if j + 1 < self.chains@[cc].len() { self.chains@[cc][j + 1] } else { -3 })
                } by {
                    if cc != c {
                        assert(mid.branch@[k] != mid.chains@[cc][j]);
                    }
                }
                assert forall|cc: Cell, j: int, s: int|
                    self.chains@.contains_key(cc) && 0 <= j < self.chains@[cc].len() && 0 <= s < 4 implies {
                    &&& entry_index(j, s) < self.entries@[cc].len() ==> #[trigger] self.slot_vid(cc, j, s) == self.entries@[cc][entry_index(j, s)].0
                    &&& entry_index(j, s) < self.entries@[cc].len() ==> self.slot_node(cc, j, s) == self.entries@[cc][entry_index(j, s)].1
                    &&& entry_index(j, s) >= self.entries@[cc].len() ==> self.slot_vid(cc, j, s) == 0
                } by {
                    if cc != c {
                        assert(mid.branch@[k] != mid.chains@[cc][j]);
                        assert(mid.slot_vid(cc, j, s) == self.slot_vid(cc, j, s));
                        assert(mid.slot_node(cc, j, s) == self.slot_node(cc, j, s));
                    } else {
                        assert(j == 0);
                        assert(self.slot_vid(cc, j, s) == fork.children[2 * s]);
                    }
                }
                assert forall|cc: Cell, t: int| self.entries@.contains_key(cc) && 0 <= t < self.entries@[cc].len() implies {
                    let e = #[trigger] self.entries@[cc][t];
                    &&& self.branch@.contains_key((4int, cc.0, cc.1, cc.2, e.0))
                    &&& self.branch@[(4int, cc.0, cc.1, cc.2, e.0)] == e.1
                } by {
                    if cc != c {
                        let e = self.entries@[cc][t];
                        assert(mid.branch@.contains_key((4int, cc.0, cc.1, cc.2, e.0)));
                    }
                }
                assert forall|cc: Cell| #[trigger] self.chains@.contains_key(cc) implies {
                    let n = self.chains@[cc].len();
                    let m = self.entries@[cc].len();
                    &&& cell_in(cc, self.cells(4))
                    &&& self.branch@.contains_key((5int, cc.0 / 2, cc.1 / 2, cc.2 / 2, 0int))
                    &&& n >= 1
                    &&& 4 * (n - 1) < m <= 4 * n
                } by {
                    if cc == c {
                        assert(parent_cell(c) == cell_of(k));
                    }
                }
                assert(self.chains@.dom() =~= self.entries@.dom());
            }
            assert(self.wf_free()) by {
                assert forall|t: int| 0 <= t < self.free_list@.len() implies #[trigger] self.free_list@[t] != from_idx by {
                    assert(mid.branch@[k] != mid.free_list@[t]);
                }
            }
            assert(self.wf_distinct()) by {
                assert forall|k1: BKey, k2: BKey|
                    self.branch@.contains_key(k1) && self.branch@.contains_key(k2) && k1 != k2
                    implies #[trigger] self.branch@[k1] != #[trigger] self.branch@[k2] by {
                    if k1 != nk && k2 != nk {
                        assert(mid.branch@[k1] != mid.branch@[k2]);
                    }
                }
                assert forall|c1: Cell, j1: int, c2: Cell, j2: int|
                    self.chains@.contains_key(c1) && 0 <= j1 < self.chains@[c1].len()
                    && self.chains@.contains_key(c2) && 0 <= j2 < self.chains@[c2].len()
                    && (c1 != c2 || j1 != j2) implies #[trigger] self.chains@[c1][j1] != #[trigger] self.chains@[c2][j2] by {
                    if c1 != c && c2 != c {
                        assert(mid.chains@[c1][j1] != mid.chains@[c2][j2]);
                    }
                }
                assert forall|kk: BKey, cc: Cell, j: int|
                    self.branch@.contains_key(kk) && self.chains@.contains_key(cc) && 0 <= j < self.chains@[cc].len()
                    implies #[trigger] self.branch@[kk] != #[trigger] self.chains@[cc][j] by {
                    if kk != nk && cc != c {
                        assert(mid.branch@[kk] != mid.chains@[cc][j]);
                    }
                }
                assert forall|kk: BKey, t: int| self.branch@.contains_key(kk) && 0 <= t < self.free_list@.len()
                    implies #[trigger] self.branch@[kk] != #[trigger] self.free_list@[t] by {
                    if kk != nk {
                        assert(mid.branch@[kk] != mid.free_list@[t]);
                    }
                }
                assert forall|cc: Cell, j: int, t: int|
                    self.chains@.contains_key(cc) && 0 <= j < self.chains@[cc].len() && 0 <= t < self.free_list@.len()
                    implies #[trigger] self.chains@[cc][j] != #[trigger] self.free_list@[t] by {
                    if cc != c {
                        assert(mid.chains@[cc][j] != mid.free_list@[t]);
                    }
                }
            }
            assert(self.wf_leaf()) by {
                assert forall|lk: LKey| #[trigger] self.leaf@.contains_key(lk)
                    implies self.branch@.contains_key((3int, lk.0 / 2, lk.1 / 2, lk.2 / 2, lk.3)) by {
                    assert(mid.branch@.contains_key((3int, lk.0 / 2, lk.1 / 2, lk.2 / 2, lk.3)));
                }
            }
            assert(self@ =~= old(self)@);
        }
        proof {
            let tk = fl.take(2);
            assert(tk[0] == new_branch_idx as int && tk[1] == fork_idx as int);
            assert forall|j: int| 0 < j < self.nlen() && j != from_idx && j != from_idx && !tk.contains(j)
                implies #[trigger] self.nodes@[j] == old(self).nodes@[j] by {
                assert(j != new_branch_idx && j != fork_idx);
                assert(mid.nodes@[j] == a1.nodes@[j]);
                assert(a1.nodes@[j] == old(self).nodes@[j]);
            }
        }
        new_branch_idx
    }
}


impl Layer {
    /// Puts `(voxel_id, new empty node)` into the first empty slot, `slot`, of the
    /// last fork of the chain of cell `c`.
    #[verifier::spinoff_prover]
    #[verifier::rlimit(40)]
    fn append_entry(&mut self, fork_idx: usize, slot: usize, voxel_id: u32, Ghost(c): Ghost<Cell>) -> (r: usize)
        requires
            old(self).wf(),
            old(self).chains@.contains_key(c),
            fork_idx == old(self).chains@[c].last(),
            slot == old(self).entries@[c].len() - 4 * (old(self).chains@[c].len() - 1),
            slot < 4,
            voxel_id != 0,
            forall|t: int| 0 <= t < old(self).entries@[c].len() ==> #[trigger] old(self).entries@[c][t].0 != voxel_id,
            old(self).free_list@.len() >= 1,
        ensures
            final(self).nodes_kept_but(old(self), fork_idx as int, fork_idx as int, old(self).free_list@.take(1)),
            final(self).wf(),
            r == old(self).free_list@[0],
            final(self).branch@ == old(self).branch@.insert((4int, c.0, c.1, c.2, voxel_id as int), r as int),
            final(self).chains@ == old(self).chains@,
            final(self).entries@ == old(self).entries@.insert(c, old(self).entries@[c].push((voxel_id as int, r as int))),
            final(self).leaf@ == old(self).leaf@,
            final(self).depth == old(self).depth,
            final(self).free_list@ == old(self).free_list@.drop_first(),
            final(self).free_list_l2@ == old(self).free_list_l2@,
            final(self).level_2@ == old(self).level_2@,
            final(self).nlen() == old(self).nlen(),
            final(self)@ == old(self)@,
    {
        let ghost nk: BKey = (4int, c.0, c.1, c.2, voxel_id as int);
        let ghost n = self.chains@[c].len() as int;
        let ghost m = self.entries@[c].len() as int;
        let new_branch_idx = self.allocate_node();
        let ghost a1 = *self;
        let ghost mid = *self;
        let mut f = self.nodes[fork_idx];
        f.children[2 * slot] = voxel_id;
        f.children[2 * slot + 1] = new_branch_idx as u32;
        self.nodes.set(fork_idx, f);
        self.branch = Ghost(self.branch@.insert(nk, new_branch_idx as int));
        self.entries = Ghost(self.entries@.insert(c, mid.entries@[c].push((voxel_id as int, new_branch_idx as int))));
        proof {
            assert(mid.chains@[c][n - 1] == fork_idx);
            assert(fork_idx != new_branch_idx);
            assert(self.nodes@[new_branch_idx as int] == mid.nodes@[new_branch_idx as int]);

            // nothing hangs below the new level-4 node yet
            assert forall|i: int| 0 <= i < 8 implies #[trigger] self.key_child(nk, i) == 0 by {
                let c2 = child_cell(c, i);
                lemma_child_cell(c, i, 0);
                let gk = (3int, c2.0, c2.1, c2.2, voxel_id as int);
                if mid.branch@.contains_key(gk) {
                    assert(mid.branch@.contains_key((4int, gk.1 / 2, gk.2 / 2, gk.3 / 2, gk.4)));
                }
            }
            assert(!mid.branch@.contains_key(nk)) by {
                if mid.branch@.contains_key(nk) {
                    let t = choose|t: int| 0 <= t < mid.entries@[c].len() && #[trigger] mid.entries@[c][t].0 == voxel_id;
                    assert(old(self).entries@[c][t].0 != voxel_id);
                }
            }

            assert(self.wf_branch()) by {
                assert forall|kk: BKey| #[trigger] self.branch@.contains_key(kk) implies {
                    &&& self.key_ok(kk)
                    &&& 1 <= self.branch@[kk] < self.nlen()
                    &&& self.nodes@[self.branch@[kk]].flag == 0
                    &&& (kk.0 < self.depth && kk.0 >= 5) ==> self.branch@.contains_key((kk.0 + 1, kk.1 / 2, kk.2 / 2, kk.3 / 2, 0int))
                    &&& kk.0 == 4 ==> self.entries@.contains_key(cell_of(kk))
                    &&& kk.0 == 4 ==> exists|t: int| 0 <= t < self.entries@[cell_of(kk)].len()
                        && #[trigger] self.entries@[cell_of(kk)][t].0 == kk.4
                    &&& kk.0 == 3 ==> self.branch@.contains_key((4int, kk.1 / 2, kk.2 / 2, kk.3 / 2, kk.4))
                } by {
                    if kk == nk {
                        assert(self.entries@[c][m].0 == kk.4);
                    } else {
                        assert(mid.branch@.contains_key(kk));
                        assert(mid.branch@[kk] != fork_idx);
                        if kk.0 == 4 {
                            let t = choose|t: int| 0 <= t < mid.entries@[cell_of(kk)].len()
                                && #[trigger] mid.entries@[cell_of(kk)][t].0 == kk.4;
                            assert(self.entries@[cell_of(kk)][t].0 == kk.4);
                        }
                    }
                }
            }
            assert forall|kk: BKey, i: int| self.branch@.contains_key(kk) && 0 <= i < 8
                implies #[trigger] self.nodes@[self.branch@[kk]].children[i] == self.key_child(kk, i) by {
                if kk == nk {
                } else {
                    assert(mid.nodes@[mid.branch@[kk]].children[i] == mid.key_child(kk, i));
                    assert(mid.branch@[kk] != fork_idx);
                    assert(self.key_child(kk, i) == mid.key_child(kk, i));
                }
            }

            assert(self.wf_chains()) by {
                assert forall|cc: Cell, j: int| self.chains@.contains_key(cc) && 0 <= j < self.chains@[cc].len() implies {
                    let ff = #[trigger] self.chains@[cc][j];
                    &&& 1 <= ff < self.nlen()
                    &&& self.nodes@[ff].flag == (if j + 1 < self.chains@[cc].len() { self.chains@[cc][j + 1] } else { -3 })
                } by {
                    assert(mid.nodes@[mid.chains@[cc][j]].flag == (if j + 1 < mid.chains@[cc].len() { mid.chains@[cc][j + 1] } else { -3 }));
                }
                assert forall|cc: Cell, j: int, s: int|
                    self.chains@.contains_key(cc) && 0 <= j < self.chains@[cc].len() && 0 <= s < 4 implies {
                    &&& entry_index(j, s) < self.entries@[cc].len() ==> #[trigger] self.slot_vid(cc, j, s) == self.entries@[cc][entry_index(j, s)].0
                    &&& entry_index(j, s) < self.entries@[cc].len() ==> self.slot_node(cc, j, s) == self.entries@[cc][entry_index(j, s)].1
                    &&& entry_index(j, s) >= self.entries@[cc].len() ==> self.slot_vid(cc, j, s) == 0
                } by {
                    assert(mid.slot_vid(cc, j, s) == mid.nodes@[mid.chains@[cc][j]].children[2 * s]);
                    if cc == c && j == n - 1 {
                        if s != slot {
                            assert(mid.slot_vid(cc, j, s) == self.slot_vid(cc, j, s));
                            assert(mid.slot_node(cc, j, s) == self.slot_node(cc, j, s));
                        }
                    } else {
                        assert(mid.chains@[cc][j] != mid.chains@[c][n - 1]);
                        assert(mid.slot_vid(cc, j, s) == self.slot_vid(cc, j, s));
                        assert(mid.slot_node(cc, j, s) == self.slot_node(cc, j, s));
                    }
                }
                assert forall|cc: Cell, t: int| self.entries@.contains_key(cc) && 0 <= t < self.entries@[cc].len() implies {
                    let e = #[trigger] self.entries@[cc][t];
                    &&& self.branch@.contains_key((4int, cc.0, cc.1, cc.2, e.0))
                    &&& self.branch@[(4int, cc.0, cc.1, cc.2, e.0)] == e.1
                } by {
                    if !(cc == c && t == m) {
                        let e = mid.entries@[cc][t];
                        assert(self.entries@[cc][t] == e);
                        assert(mid.branch@.contains_key((4int, cc.0, cc.1, cc.2, e.0)));
                    }
                }
                assert forall|cc: Cell, t1: int, t2: int|
                    self.entries@.contains_key(cc) && 0 <= t1 < self.entries@[cc].len() && 0 <= t2 < self.entries@[cc].len()
                    && t1 != t2 implies #[trigger] self.entries@[cc][t1].0 != #[trigger] self.entries@[cc][t2].0 by {
                    if cc == c {
                        if t1 < m && t2 < m {
                            assert(mid.entries@[cc][t1].0 != mid.entries@[cc][t2].0);
                        } else if t1 < m {
                            assert(old(self).entries@[c][t1].0 != voxel_id);
                        } else {
                            assert(old(self).entries@[c][t2].0 != voxel_id);
                        }
                    }
                }
                assert(self.chains@.dom() =~= self.entries@.dom());
            }
            assert(self.wf_free()) by {
                assert forall|t: int| 0 <= t < self.free_list@.len() implies #[trigger] self.free_list@[t] != fork_idx by {
                    assert(mid.chains@[c][n - 1] != mid.free_list@[t]);
                }
            }
            assert(self.wf_distinct()) by {
                assert forall|k1: BKey, k2: BKey|
                    self.branch@.contains_key(k1) && self.branch@.contains_key(k2) && k1 != k2
                    implies #[trigger] self.branch@[k1] != #[trigger] self.branch@[k2] by {
                    if k1 != nk && k2 != nk {
                        assert(mid.branch@[k1] != mid.branch@[k2]);
                    }
                }
                assert forall|kk: BKey, cc: Cell, j: int|
                    self.branch@.contains_key(kk) && self.chains@.contains_key(cc) && 0 <= j < self.chains@[cc].len()
                    implies #[trigger] self.branch@[kk] != #[trigger] self.chains@[cc][j] by {
                    if kk != nk {
                        assert(mid.branch@[kk] != mid.chains@[cc][j]);
                    }
                }
                assert forall|kk: BKey, t: int| self.branch@.contains_key(kk) && 0 <= t < self.free_list@.len()
                    implies #[trigger] self.branch@[kk] != #[trigger] self.free_list@[t] by {
                    if kk != nk {
                        assert(mid.branch@[kk] != mid.free_list@[t]);
                    }
                }
            }
            assert(self.wf_leaf()) by {
                assert forall|lk: LKey| #[trigger] self.leaf@.contains_key(lk)
                    implies self.branch@.contains_key((3int, lk.0 / 2, lk.1 / 2, lk.2 / 2, lk.3)) by {
                    assert(mid.branch@.contains_key((3int, lk.0 / 2, lk.1 / 2, lk.2 / 2, lk.3)));
                }
            }
            assert(self@ =~= old(self)@);
        }
        proof {
            let tk = old(self).free_list@.take(1);
            assert(tk[0] == new_branch_idx as int);
            assert forall|j: int| 0 < j < self.nlen() && j != fork_idx && j != fork_idx && !tk.contains(j)
                implies #[trigger] self.nodes@[j] == old(self).nodes@[j] by {
                assert(j != new_branch_idx);
                assert(a1.nodes@[j] == old(self).nodes@[j]);
            }
        }
        new_branch_idx
    }

    /// Adds a fork holding `(voxel_id, new empty node)` after the last fork,
    /// which is full, of the chain of cell `c`.
    #[verifier::spinoff_prover]
    #[verifier::rlimit(40)]
    fn extend_chain(&mut self, fork_idx: usize, voxel_id: u32, Ghost(c): Ghost<Cell>) -> (r: usize)
        requires
            old(self).wf(),
            old(self).chains@.contains_key(c),
            fork_idx == old(self).chains@[c].last(),
            old(self).entries@[c].len() == 4 * old(self).chains@[c].len(),
            voxel_id != 0,
            forall|t: int| 0 <= t < old(self).entries@[c].len() ==> #[trigger] old(self).entries@[c][t].0 != voxel_id,
            old(self).free_list@.len() >= 2,
        ensures
            final(self).nodes_kept_but(old(self), fork_idx as int, fork_idx as int, old(self).free_list@.take(2)),
            final(self).wf(),
            r == old(self).free_list@[0],
            final(self).branch@ == old(self).branch@.insert((4int, c.0, c.1, c.2, voxel_id as int), r as int),
            final(self).chains@ == old(self).chains@.insert(c, old(self).chains@[c].push(old(self).free_list@[1])),
            final(self).entries@ == old(self).entries@.insert(c, old(self).entries@[c].push((voxel_id as int, r as int))),
            final(self).leaf@ == old(self).leaf@,
            final(self).depth == old(self).depth,
            final(self).free_list@ == old(self).free_list@.skip(2),
            final(self).free_list_l2@ == old(self).free_list_l2@,
            final(self).level_2@ == old(self).level_2@,
            final(self).nlen() == old(self).nlen(),
            final(self)@ == old(self)@,
    {
        let ghost nk: BKey = (4int, c.0, c.1, c.2, voxel_id as int);
        let ghost n = self.chains@[c].len() as int;
        let ghost m = self.entries@[c].len() as int;
        let ghost fl = self.free_list@;
        let new_branch_idx = self.allocate_node();
        let ghost a1 = *self;
        let fork = Node { flag: -3, children: [voxel_id, new_branch_idx as u32, 0, 0, 0, 0, 0, 0] };
        let new_fork_idx = self.allocate_node_from(fork);
        let ghost mid = *self;
        let mut last = self.nodes[fork_idx];
        last.flag = new_fork_idx as i32;
        self.nodes.set(fork_idx, last);
        self.branch = Ghost(self.branch@.insert(nk, new_branch_idx as int));
        self.chains = Ghost(self.chains@.insert(c, mid.chains@[c].push(new_fork_idx as int)));
        self.entries = Ghost(self.entries@.insert(c, mid.entries@[c].push((voxel_id as int, new_branch_idx as int))));
        proof {
            assert(fl[1] == new_fork_idx && fl[0] == new_branch_idx);
            assert(fl.skip(2) =~= mid.free_list@);
            assert(mid.chains@[c][n - 1] == fork_idx);
            assert(fork_idx != new_branch_idx && fork_idx != new_fork_idx && new_fork_idx != new_branch_idx);
            assert(self.nodes@[new_branch_idx as int] == mid.nodes@[new_branch_idx as int]);
            assert(self.nodes@[new_fork_idx as int] == fork);

            // nothing hangs below the new level-4 node yet
            assert forall|i: int| 0 <= i < 8 implies #[trigger] self.key_child(nk, i) == 0 by {
                let c2 = child_cell(c, i);
                lemma_child_cell(c, i, 0);
                let gk = (3int, c2.0, c2.1, c2.2, voxel_id as int);
                if mid.branch@.contains_key(gk) {
                    assert(mid.branch@.contains_key((4int, gk.1 / 2, gk.2 / 2, gk.3 / 2, gk.4)));
                }
            }
            assert(!mid.branch@.contains_key(nk)) by {
                if mid.branch@.contains_key(nk) {
                    let t = choose|t: int| 0 <= t < mid.entries@[c].len() && #[trigger] mid.entries@[c][t].0 == voxel_id;
                    assert(old(self).entries@[c][t].0 != voxel_id);
                }
            }

            assert(self.wf_branch()) by {
                assert forall|kk: BKey| #[trigger] self.branch@.contains_key(kk) implies {
                    &&& self.key_ok(kk)
                    &&& 1 <= self.branch@[kk] < self.nlen()
                    &&& self.nodes@[self.branch@[kk]].flag == 0
                    &&& (kk.0 < self.depth && kk.0 >= 5) ==> self.branch@.contains_key((kk.0 + 1, kk.1 / 2, kk.2 / 2, kk.3 / 2, 0int))
                    &&& kk.0 == 4 ==> self.entries@.contains_key(cell_of(kk))
                    &&& kk.0 == 4 ==> exists|t: int| 0 <= t < self.entries@[cell_of(kk)].len()
                        && #[trigger] self.entries@[cell_of(kk)][t].0 == kk.4
                    &&& kk.0 == 3 ==> self.branch@.contains_key((4int, kk.1 / 2, kk.2 / 2, kk.3 / 2, kk.4))
                } by {
                    if kk == nk {
                        assert(self.entries@[c][m].0 == kk.4);
                    } else {
                        assert(mid.branch@.contains_key(kk));
                        assert(mid.branch@[kk] != fork_idx);
                        if kk.0 == 4 {
                            let t = choose|t: int| 0 <= t < mid.entries@[cell_of(kk)].len()
                                && #[trigger] mid.entries@[cell_of(kk)][t].0 == kk.4;
                            assert(self.entries@[cell_of(kk)][t].0 == kk.4);
                        }
                    }
                }
            }
            assert forall|kk: BKey, i: int| self.branch@.contains_key(kk) && 0 <= i < 8
                implies #[trigger] self.nodes@[self.branch@[kk]].children[i] == self.key_child(kk, i) by {
                if kk == nk {
                } else {
                    assert(mid.nodes@[mid.branch@[kk]].children[i] == mid.key_child(kk, i));
                    assert(mid.branch@[kk] != fork_idx);
                    assert(self.key_child(kk, i) == mid.key_child(kk, i));
                }
            }

            assert(self.wf_chains()) by {
                assert forall|cc: Cell, j: int| self.chains@.contains_key(cc) && 0 <= j < self.chains@[cc].len() implies {
                    let ff = #[trigger] self.chains@[cc][j];
                    &&& 1 <= ff < self.nlen()
                    &&& self.nodes@[ff].flag == (if j + 1 < self.chains@[cc].len() { self.chains@[cc][j + 1] } else { -3 })
                } by {
                    if cc == c && j == n {
                    } else {
                        assert(self.chains@[cc][j] == mid.chains@[cc][j]);
                        assert(mid.nodes@[mid.chains@[cc][j]].flag == (if j + 1 < mid.chains@[cc].len() { mid.chains@[cc][j + 1] } else { -3 }));
                        if !(cc == c && j == n - 1) {
                            assert(mid.chains@[cc][j] != mid.chains@[c][n - 1]);
                        }
                    }
                }
                assert forall|cc: Cell, j: int, s: int|
                    self.chains@.contains_key(cc) && 0 <= j < self.chains@[cc].len() && 0 <= s < 4 implies {
                    &&& entry_index(j, s) < self.entries@[cc].len() ==> #[trigger] self.slot_vid(cc, j, s) == self.entries@[cc][entry_index(j, s)].0
                    &&& entry_index(j, s) < self.entries@[cc].len() ==> self.slot_node(cc, j, s) == self.entries@[cc][entry_index(j, s)].1
                    &&& entry_index(j, s) >= self.entries@[cc].len() ==> self.slot_vid(cc, j, s) == 0
                } by {
                    if cc == c && j == n {
                        assert(self.slot_vid(cc, j, s) == fork.children[2 * s]);
                    } else {
                        assert(self.chains@[cc][j] == mid.chains@[cc][j]);
                        assert(mid.slot_vid(cc, j, s) == self.slot_vid(cc, j, s));
                        assert(mid.slot_node(cc, j, s) == self.slot_node(cc, j, s));
                    }
                }
                assert forall|cc: Cell, t: int| self.entries@.contains_key(cc) && 0 <= t < self.entries@[cc].len() implies {
                    let e = #[trigger] self.entries@[cc][t];
                    &&& self.branch@.contains_key((4int, cc.0, cc.1, cc.2, e.0))
                    &&& self.branch@[(4int, cc.0, cc.1, cc.2, e.0)] == e.1
                } by {
                    if !(cc == c && t == m) {
                        let e = mid.entries@[cc][t];
                        assert(self.entries@[cc][t] == e);
                        assert(mid.branch@.contains_key((4int, cc.0, cc.1, cc.2, e.0)));
                    }
                }
                assert forall|cc: Cell, t1: int, t2: int|
                    self.entries@.contains_key(cc) && 0 <= t1 < self.entries@[cc].len() && 0 <= t2 < self.entries@[cc].len()
                    && t1 != t2 implies #[trigger] self.entries@[cc][t1].0 != #[trigger] self.entries@[cc][t2].0 by {
                    if cc == c {
                        if t1 < m && t2 < m {
                            assert(mid.entries@[cc][t1].0 != mid.entries@[cc][t2].0);
                        } else if t1 < m {
                            assert(old(self).entries@[c][t1].0 != voxel_id);
                        } else {
                            assert(old(self).entries@[c][t2].0 != voxel_id);
                        }
                    }
                }
                assert(self.chains@.dom() =~= self.entries@.dom());
            }
            assert(self.wf_free()) by {
                assert forall|t: int| 0 <= t < self.free_list@.len() implies #[trigger] self.free_list@[t] != fork_idx by {
                    assert(mid.chains@[c][n - 1] != mid.free_list@[t]);
                }
            }
            assert(self.wf_distinct()) by {
                assert forall|k1: BKey, k2: BKey|
                    self.branch@.contains_key(k1) && self.branch@.contains_key(k2) && k1 != k2
                    implies #[trigger] self.branch@[k1] != #[trigger] self.branch@[k2] by {
                    if k1 != nk && k2 != nk {
                        assert(mid.branch@[k1] != mid.branch@[k2]);
                    }
                }
                assert forall|c1: Cell, j1: int, c2: Cell, j2: int|
                    self.chains@.contains_key(c1) && 0 <= j1 < self.chains@[c1].len()
                    && self.chains@.contains_key(c2) && 0 <= j2 < self.chains@[c2].len()
                    && (c1 != c2 || j1 != j2) implies #[trigger] self.chains@[c1][j1] != #[trigger] self.chains@[c2][j2] by {
                    if !(c1 == c && j1 == n) && !(c2 == c && j2 == n) {
                        assert(self.chains@[c1][j1] == mid.chains@[c1][j1]);
                        assert(self.chains@[c2][j2] == mid.chains@[c2][j2]);
                        assert(mid.chains@[c1][j1] != mid.chains@[c2][j2]);
                    } else if !(c1 == c && j1 == n) {
                        assert(self.chains@[c1][j1] == mid.chains@[c1][j1]);
                    } else if !(c2 == c && j2 == n) {
                        assert(self.chains@[c2][j2] == mid.chains@[c2][j2]);
                    }
                }
                assert forall|kk: BKey, cc: Cell, j: int|
                    self.branch@.contains_key(kk) && self.chains@.contains_key(cc) && 0 <= j < self.chains@[cc].len()
                    implies #[trigger] self.branch@[kk] != #[trigger] self.chains@[cc][j] by {
                    if kk != nk && !(cc == c && j == n) {
                        assert(self.chains@[cc][j] == mid.chains@[cc][j]);
                        assert(mid.branch@[kk] != mid.chains@[cc][j]);
                    } else if kk != nk {
                        assert(mid.branch@[kk] != fl[1]);
                    } else if !(cc == c && j == n) {
                        assert(self.chains@[cc][j] == mid.chains@[cc][j]);
                    }
                }
                assert forall|kk: BKey, t: int| self.branch@.contains_key(kk) && 0 <= t < self.free_list@.len()
                    implies #[trigger] self.branch@[kk] != #[trigger] self.free_list@[t] by {
                    if kk != nk {
                        assert(mid.branch@[kk] != mid.free_list@[t]);
                    }
                }
                assert forall|cc: Cell, j: int, t: int|
                    self.chains@.contains_key(cc) && 0 <= j < self.chains@[cc].len() && 0 <= t < self.free_list@.len()
                    implies #[trigger] self.chains@[cc][j] != #[trigger] self.free_list@[t] by {
                    if !(cc == c && j == n) {
                        assert(self.chains@[cc][j] == mid.chains@[cc][j]);
                        assert(mid.chains@[cc][j] != mid.free_list@[t]);
                    }
                }
            }
            assert(self.wf_leaf()) by {
                assert forall|lk: LKey| #[trigger] self.leaf@.contains_key(lk)
                    implies self.branch@.contains_key((3int, lk.0 / 2, lk.1 / 2, lk.2 / 2, lk.3)) by {
                    assert(mid.branch@.contains_key((3int, lk.0 / 2, lk.1 / 2, lk.2 / 2, lk.3)));
                }
            }
            assert(self@ =~= old(self)@);
        }
        proof {
            let tk = fl.take(2);
            assert(tk[0] == new_branch_idx as int && tk[1] == new_fork_idx as int);
            assert forall|j: int| 0 < j < self.nlen() && j != fork_idx && j != fork_idx && !tk.contains(j)
                implies #[trigger] self.nodes@[j] == old(self).nodes@[j] by {
                assert(j != new_branch_idx && j != new_fork_idx);
                assert(mid.nodes@[j] == a1.nodes@[j]);
                assert(a1.nodes@[j] == old(self).nodes@[j]);
            }
        }
        new_branch_idx
    }
}


/// The first slot of `fork` that is empty or holds `voxel_id`; `4` when there is none.
fn scan_fork(fork: &Node, voxel_id: u32) -> (s: usize)
    ensures
        s <= 4,
        forall|s2: int| 0 <= s2 < s ==> #[trigger] fork.children[2 * s2] != 0 && fork.children[2 * s2] != voxel_id,
        s < 4 ==> (fork.children[2 * s as int] == 0 || fork.children[2 * s as int] == voxel_id),
{
    let mut s: usize = 0;
    while s < 4
        invariant
            s <= 4,
            forall|s2: int| 0 <= s2 < s ==> #[trigger] fork.children[2 * s2] != 0 && fork.children[2 * s2] != voxel_id,
        decreases 4 - s,
    {
        let found = fork.children[2 * s];
        if found == 0 || found == voxel_id {
            return s;
        }
        s += 1;
    }
    s
}

/// What one scan of fork `j` of the chain of cell `c` tells: `s` is the first slot
/// of the fork that is empty or holds `vid` (4 when there is none), and no entry
/// before the fork holds `vid`.
pub proof fn lemma_chain_scan(l: &Layer, c: Cell, j: int, s: int, vid: int)
    requires
        l.wf(),
        l.chains@.contains_key(c),
        0 <= j < l.chains@[c].len(),
        0 <= s <= 4,
        1 <= vid <= u32::MAX,
        forall|t: int| 0 <= t < 4 * j ==> #[trigger] l.entries@[c][t].0 != vid,
        forall|s2: int| 0 <= s2 < s ==> #[trigger] l.nodes@[l.chains@[c][j]].children[2 * s2] != 0
            && l.nodes@[l.chains@[c][j]].children[2 * s2] != vid,
        s < 4 ==> (l.nodes@[l.chains@[c][j]].children[2 * s] == 0 || l.nodes@[l.chains@[c][j]].children[2 * s] == vid),
    ensures
        forall|t: int| 0 <= t < 4 * j + s ==> #[trigger] l.entries@[c][t].0 != vid,
        4 * j + s <= l.entries@[c].len(),
        s < 4 && l.nodes@[l.chains@[c][j]].children[2 * s] == 0 ==> {
            &&& j == l.chains@[c].len() - 1
            &&& s == l.entries@[c].len() - 4 * (l.chains@[c].len() - 1)
            &&& forall|t: int| 0 <= t < l.entries@[c].len() ==> #[trigger] l.entries@[c][t].0 != vid
            &&& l.chain_needs(c, vid) == 1
        },
        s < 4 && l.nodes@[l.chains@[c][j]].children[2 * s] == vid ==> {
            &&& 4 * j + s < l.entries@[c].len()
            &&& l.entries@[c][4 * j + s] == (vid, l.nodes@[l.chains@[c][j]].children[2 * s + 1] as int)
            &&& l.branch@.contains_key((4int, c.0, c.1, c.2, vid))
            &&& l.branch@[(4int, c.0, c.1, c.2, vid)] == l.nodes@[l.chains@[c][j]].children[2 * s + 1]
            &&& l.chain_needs(c, vid) == 0
        },
        s == 4 && j + 1 < l.chains@[c].len() ==> l.nodes@[l.chains@[c][j]].flag == l.chains@[c][j + 1] > 0,
        s == 4 && j + 1 >= l.chains@[c].len() ==> {
            &&& l.nodes@[l.chains@[c][j]].flag == -3
            &&& l.chains@[c][j] == l.chains@[c].last()
            &&& l.entries@[c].len() == 4 * l.chains@[c].len()
            &&& forall|t: int| 0 <= t < l.entries@[c].len() ==> #[trigger] l.entries@[c][t].0 != vid
            &&& l.chain_needs(c, vid) == 2
        },
{
    let n = l.chains@[c].len() as int;
    let m = l.entries@[c].len() as int;
    assert forall|s2: int| 0 <= s2 < s implies 4 * j + s2 < m && #[trigger] l.entries@[c][4 * j + s2].0 != vid by {
        assert(l.nodes@[l.chains@[c][j]].children[2 * s2] == l.slot_vid(c, j, s2));
    }
    assert forall|t: int| 0 <= t < 4 * j + s implies #[trigger] l.entries@[c][t].0 != vid by {
        if t >= 4 * j {
            assert(l.entries@[c][4 * j + (t - 4 * j)].0 != vid);
        }
    }
    if s > 0 {
        let s2 = s - 1;
        assert(l.nodes@[l.chains@[c][j]].children[2 * s2] != 0);
        assert(l.nodes@[l.chains@[c][j]].children[2 * s2] == l.slot_vid(c, j, s2));
        assert(4 * j + s2 < m);
    }
    if j + 1 < n {
        assert(4 * (n - 1) < m);
        assert(4 * j + 4 <= m);
    }
    if s < 4 {
        assert(l.nodes@[l.chains@[c][j]].children[2 * s] == l.slot_vid(c, j, s));
        assert(l.nodes@[l.chains@[c][j]].children[2 * s + 1] == l.slot_node(c, j, s));
        if l.nodes@[l.chains@[c][j]].children[2 * s] == 0 {
            if entry_index(j, s) < m {
                let e = l.entries@[c][entry_index(j, s)];
                assert(l.branch@.contains_key((4int, c.0, c.1, c.2, e.0)));
            }
            assert(entry_index(j, s) >= m);
            assert(j == n - 1);
            assert forall|t: int| 0 <= t < m implies #[trigger] l.entries@[c][t].0 != vid by {
                assert(t < 4 * j + s);
            }
            assert(!l.chain_has(c, vid));
        } else if l.nodes@[l.chains@[c][j]].children[2 * s] == vid {
            assert(entry_index(j, s) < m);
            let e = l.entries@[c][entry_index(j, s)];
            assert(l.branch@.contains_key((4int, c.0, c.1, c.2, e.0)));
            assert(l.chain_has(c, vid));
        }
    } else {
        let f = l.chains@[c][j];
        assert(l.nodes@[f].flag == (if j + 1 < n { l.chains@[c][j + 1] } else { -3 }));
        if j + 1 < n {
            assert(l.chains@[c][j + 1] >= 1);
        } else {
            assert(4 * j + 3 < m);
            assert forall|t: int| 0 <= t < m implies #[trigger] l.entries@[c][t].0 != vid by {
                assert(t < 4 * j + 4);
            }
            assert(!l.chain_has(c, vid));
        }
    }
}

impl Layer {
    /// The chain of cell `c` holds an entry for `vid`.
    pub open spec fn chain_has(&self, c: Cell, vid: int) -> bool {
        exists|t: int| 0 <= t < self.entries@[c].len() && #[trigger] self.entries@[c][t].0 == vid
    }

    /// How many free nodes it takes to find or make the node for `vid` in the chain of cell `c`.
    pub open spec fn chain_needs(&self, c: Cell, vid: int) -> nat {
        if !self.chains@.contains_key(c) {
            2
        } else if self.chain_has(c, vid) {
            0
        } else if self.entries@[c].len() == 4 * self.chains@[c].len() {
            2
        } else {
            1
        }
    }

    /// How many free nodes [Layer::set_child] takes for child `i` of the node stored under `k`.
    pub open spec fn step_needs(&self, k: BKey, i: int, vid: int) -> nat {
        if k.0 == 5 {
            self.chain_needs(child_cell(cell_of(k), i), vid)
        } else if self.branch@.contains_key(child_key(k, i)) {
            0
        } else {
            1
        }
    }

    /// The key under which [Layer::set_child] finds or puts child `i` of the node
    /// stored under `k`, for voxel id `vid`.
    pub open spec fn step_key(k: BKey, i: int, vid: int) -> BKey {
        if k.0 == 5 {
            let c = child_cell(cell_of(k), i);
            (4int, c.0, c.1, c.2, vid)
        } else {
            child_key(k, i)
        }
    }

    /// Finds the entry for `voxel_id` in the chain of cell `c`, which starts at fork
    /// `head`, or makes one, and returns its node.
    #[verifier::spinoff_prover]
    #[verifier::rlimit(30)]
    fn find_in_chain(&mut self, head: usize, voxel_id: u32, Ghost(c): Ghost<Cell>) -> (r: usize)
        requires
            old(self).wf(),
            old(self).chains@.contains_key(c),
            head == old(self).chains@[c][0],
            voxel_id != 0,
            old(self).free_list@.len() >= old(self).chain_needs(c, voxel_id as int),
        ensures
            final(self).nodes_kept_but(old(self), old(self).chains@[c].last(), old(self).chains@[c].last(),
                old(self).free_list@.take(old(self).chain_needs(c, voxel_id as int) as int)),
            final(self).wf(),
            final(self).branch@ == old(self).branch@.insert((4int, c.0, c.1, c.2, voxel_id as int), r as int),
            final(self).chains@.dom() == old(self).chains@.dom(),
            old(self).chain_has(c, voxel_id as int) ==> *final(self) == *old(self),
            !old(self).chain_has(c, voxel_id as int) ==> {
                &&& r == old(self).free_list@[0]
                &&& final(self).entries@ == old(self).entries@.insert(c, old(self).entries@[c].push((voxel_id as int, r as int)))
            },
            final(self).leaf@ == old(self).leaf@,
            final(self).depth == old(self).depth,
            final(self).free_list@ == old(self).free_list@.skip(old(self).chain_needs(c, voxel_id as int) as int),
            final(self).free_list_l2@ == old(self).free_list_l2@,
            final(self).level_2@ == old(self).level_2@,
            final(self).nlen() == old(self).nlen(),
            final(self)@ == old(self)@,
    {
        let ghost n = self.chains@[c].len() as int;
        let ghost m = self.entries@[c].len() as int;
        let ghost vid = voxel_id as int;
        let mut fork_idx = head;
        let ghost mut j: int = 0;
        loop
            invariant
                self.wf(),
                *self == *old(self),
                voxel_id != 0,
                vid == voxel_id as int,
                self.free_list@.len() >= self.chain_needs(c, vid),
                0 <= j < n,
                n == self.chains@[c].len(),
                m == self.entries@[c].len(),
                self.chains@.contains_key(c),
                fork_idx == self.chains@[c][j],
                forall|t: int| 0 <= t < 4 * j ==> #[trigger] self.entries@[c][t].0 != vid,
            decreases n - j,
        {
            let fork = self.nodes[fork_idx];
            let s = scan_fork(&fork, voxel_id);
            proof {
                lemma_chain_scan(self, c, j, s as int, vid);
            }
            if s < 4 {
                if fork.children[2 * s] == 0 {
                    let ghost before = *self;
                    let r = self.append_entry(fork_idx, s, voxel_id, Ghost(c));
                    proof {
                        assert(before.free_list@.skip(1) =~= before.free_list@.drop_first());
                    }
                    return r;
                } else {
                    proof {
                        let e = self.entries@[c][entry_index(j, s as int)];
                        assert(self.branch@.insert((4int, c.0, c.1, c.2, vid), e.1) =~= self.branch@);
                        assert(self.free_list@.skip(0) =~= self.free_list@);
                    }
                    return fork.children[2 * s + 1] as usize;
                }
            }
            let next = fork.flag;
            if next > 0 {
                fork_idx = next as usize;
                proof {
                    j = j + 1;
                }
            } else {
                let ghost before = *self;
                let r = self.extend_chain(fork_idx, voxel_id, Ghost(c));
                proof {
                    assert(self.chains@.dom() =~= before.chains@.dom());
                }
                return r;
            }
        }
    }

    /// Finds or makes child `child_idx` of node `from_idx`, which lies on `level`,
    /// and returns its index. When the children of the node are forks
    /// (`level == fork_level + 1`), the node returned is the one kept for
    /// `voxel_id` in the chain of forks, made when there is none. A node that
    /// is found is returned with nothing changed; a node that is made is the
    /// head of the list of free nodes, and a new entry of a chain comes after
    /// the entries it had. Lookups and traversals read forks on level 4 only, so
    /// `fork_level` is 4.
    pub fn set_child(&mut self, from_idx: usize, voxel_id: u32, child_idx: usize, level: usize, fork_level: usize) -> (r: usize)
        requires
            old(self).wf(),
            voxel_id != 0,
            fork_level == 4,
            child_idx < 8,
            exists|k: BKey| #[trigger] old(self).branch@.contains_key(k) && old(self).branch@[k] == from_idx
                && k.0 == level && level >= 4 && (level == 4 ==> k.4 == voxel_id),
            forall|k: BKey| #[trigger] old(self).branch@.contains_key(k) && old(self).branch@[k] == from_idx
                ==> old(self).free_list@.len() >= old(self).step_needs(k, child_idx as int, voxel_id as int),
        ensures
            final(self).wf(),
            forall|k: BKey| #[trigger] old(self).branch@.contains_key(k) && old(self).branch@[k] == from_idx ==> {
                &&& final(self).branch@ == old(self).branch@.insert(Layer::step_key(k, child_idx as int, voxel_id as int), r as int)
                &&& final(self).free_list@ == old(self).free_list@.skip(old(self).step_needs(k, child_idx as int, voxel_id as int) as int)
                &&& old(self).branch@.contains_key(Layer::step_key(k, child_idx as int, voxel_id as int)) ==> {
                    &&& r == old(self).branch@[Layer::step_key(k, child_idx as int, voxel_id as int)]
                    &&& *final(self) == *old(self)
                }
                &&& !old(self).branch@.contains_key(Layer::step_key(k, child_idx as int, voxel_id as int))
                    ==> r == old(self).free_list@[0]
                &&& final(self).nodes_kept_but(old(self), from_idx as int,
                    if level == 5 && old(self).chains@.contains_key(child_cell(cell_of(k), child_idx as int)) {
                        old(self).chains@[child_cell(cell_of(k), child_idx as int)].last()
                    } else { from_idx as int },
                    old(self).free_list@.take(old(self).step_needs(k, child_idx as int, voxel_id as int) as int))
                &&& level == 5 && !old(self).branch@.contains_key(Layer::step_key(k, child_idx as int, voxel_id as int)) ==> {
                    let c = child_cell(cell_of(k), child_idx as int);
                    final(self).entries@ == old(self).entries@.insert(c,
                        if old(self).entries@.contains_key(c) { old(self).entries@[c].push((voxel_id as int, r as int)) }
                        else { seq![(voxel_id as int, r as int)] })
                }
            },
            forall|c: Cell| #[trigger] old(self).chains@.contains_key(c) ==> final(self).chains@.contains_key(c),
            level != 5 ==> final(self).chains@ == old(self).chains@ && final(self).entries@ == old(self).entries@,
            final(self).leaf@ == old(self).leaf@,
            final(self).depth == old(self).depth,
            final(self).free_list_l2@ == old(self).free_list_l2@,
            final(self).level_2@ == old(self).level_2@,
            final(self).nlen() == old(self).nlen(),
            final(self)@ == old(self)@,
    {
        let ghost k = choose|k: BKey| #[trigger] self.branch@.contains_key(k) && self.branch@[k] == from_idx
            && k.0 == level && level >= 4 && (level == 4 ==> k.4 == voxel_id);
        proof {
            assert forall|k2: BKey| #[trigger] self.branch@.contains_key(k2) && self.branch@[k2] == from_idx implies k2 == k by {
                if k2 != k {
                    assert(self.branch@[k2] != self.branch@[k]);
                }
            }
        }
        let node = self.nodes[from_idx];
        let ghost ci = child_idx as int;
        let ghost vid = voxel_id as int;
        proof {
            assert(node.children[ci] == self.key_child(k, ci));
            lemma_child_cell(cell_of(k), ci, 0);
        }
        if level == fork_level + 1 {
            let node_below_idx = node.children[child_idx];
            let ghost c = child_cell(cell_of(k), ci);
            if node_below_idx == 0 {
                proof {
                    if self.chains@.contains_key(c) {
                        assert(self.chains@[c][0] >= 1);
                    }
                }
                let r = self.create_chain(from_idx, child_idx, voxel_id, Ghost(k));
                proof {
                    assert(old(self).free_list@.skip(2) == self.free_list@);
                }
                r
            } else {
                proof {
                    assert(self.chains@.contains_key(c));
                }
                self.find_in_chain(node_below_idx as usize, voxel_id, Ghost(c))
            }
        } else {
            let node_below_idx = node.children[child_idx];
            if node_below_idx == 0 {
                proof {
                    let ck = child_key(k, ci);
                    if self.branch@.contains_key(ck) {
                        assert(self.branch@[ck] >= 1);
                    }
                    assert(self.free_list@.skip(1) =~= self.free_list@.drop_first());
                }
                self.attach_branch(from_idx, child_idx, Ghost(k))
            } else {
                proof {
                    let ck = child_key(k, ci);
                    assert(self.branch@.contains_key(ck));
                    assert(self.branch@.insert(ck, node_below_idx as int) =~= self.branch@);
                    assert(self.free_list@.skip(0) =~= self.free_list@);
                }
                node.children[child_idx] as usize
            }
        }
    }
}


/// The key of the node on `level` on the way to the voxel at `p` with id `vid`.
/// The nodes on the way to a voxel of the layer, and its level-2 node, are
/// stored, and the voxel's bit is set there.
proof fn lemma_path_present(l: &Layer, p: UVec3, vid: int)
    requires
        l.wf(),
        l@.contains((p.x as int, p.y as int, p.z as int, vid)),
    ensures
        forall|lv: int| 3 <= lv <= l.depth ==> #[trigger] l.branch@.contains_key(path_key(p, vid, lv)),
        l.leaf@.contains_key(path_leaf(p, vid)),
        l.level_2@[l.leaf@[path_leaf(p, vid)]].has(local(p, 2)),
{
    assert(l.inv()) by {
        reveal(Layer::inv);
    }
    let q = (p.x as int, p.y as int, p.z as int);
    assert(l.has_voxel(q.0, q.1, q.2, vid));
    lemma_voxel_ancestors(l, q, vid);
    vstd::arithmetic::power2::lemma2_to64();
    assert(pw(2nat) == 4);
    assert forall|lv: int| 3 <= lv <= l.depth implies #[trigger] l.branch@.contains_key(path_key(p, vid, lv)) by {
        let c = cell_at(q, lv);
        if lv >= 5 {
            assert(l.branch@.contains_key((lv, c.0, c.1, c.2, 0int)));
        }
    }
}

pub open spec fn path_key(p: UVec3, vid: int, level: int) -> BKey {
    let w = pw(level as nat);
    (level, p.x as int / w, p.y as int / w, p.z as int / w, if level >= 5 { 0 } else { vid })
}

/// Where `p` lies inside its cell on `level`.
pub open spec fn local(p: UVec3, level: int) -> UVec3 {
    let w = pw(level as nat);
    UVec3 { x: (p.x as int % w) as u32, y: (p.y as int % w) as u32, z: (p.z as int % w) as u32 }
}

/// Index of the child, one level below `level`, on the way to `p`.
pub open spec fn path_child(p: UVec3, level: int) -> int {
    spec_child_index(local(p, level), (level - 1) as nat)
}

/// The key of the level-2 node that holds the voxel at `p` with id `vid`.
pub open spec fn path_leaf(p: UVec3, vid: int) -> LKey {
    (p.x as int / 4, p.y as int / 4, p.z as int / 4, vid)
}

/// Going down one level on the way to `p`: the key below is the one that
/// [Layer::set_child] finds for the child on the way.
pub proof fn lemma_path_step(p: UVec3, vid: int, level: int)
    requires
        level >= 1,
    ensures
        level >= 4 ==> Layer::step_key(path_key(p, vid, level), path_child(p, level), vid) == path_key(p, vid, level - 1),
        level == 3 ==> ({
            let c = child_cell(cell_of(path_key(p, vid, 3)), path_child(p, 3));
            (c.0, c.1, c.2, vid) == path_leaf(p, vid)
        }),
        local(p, level - 1) == (UVec3 {
            x: (local(p, level).x as int % pw((level - 1) as nat)) as u32,
            y: (local(p, level).y as int % pw((level - 1) as nat)) as u32,
            z: (local(p, level).z as int % pw((level - 1) as nat)) as u32,
        }),
        0 <= path_child(p, level) < 8,
{
    let l = level as nat;
    lemma_halve(p.x as int, l);
    lemma_halve(p.y as int, l);
    lemma_halve(p.z as int, l);
    vstd::arithmetic::power2::lemma_pow2_pos(l);
    vstd::arithmetic::div_mod::lemma_mod_pos_bound(p.x as int, pw(l));
    vstd::arithmetic::div_mod::lemma_mod_pos_bound(p.y as int, pw(l));
    vstd::arithmetic::div_mod::lemma_mod_pos_bound(p.z as int, pw(l));
    vstd::arithmetic::div_mod::lemma_mod_decreases(p.x as nat, pw(l) as nat);
    vstd::arithmetic::div_mod::lemma_mod_decreases(p.y as nat, pw(l) as nat);
    vstd::arithmetic::div_mod::lemma_mod_decreases(p.z as nat, pw(l) as nat);
    let lp = local(p, level);
    assert(lp.x as int == p.x as int % pw(l));
    assert(lp.y as int == p.y as int % pw(l));
    assert(lp.z as int == p.z as int % pw(l));
    vstd::arithmetic::power2::lemma2_to64();
    if level == 3 {
        assert(pw(2) == 4);
    }
}

impl Layer {
    /// How many free nodes [Layer::set] takes to make the nodes on the way to the
    /// voxel at `p` with id `vid`, from `level` down to level 3.
    pub open spec fn path_needs(&self, p: UVec3, vid: int, level: int) -> nat
        decreases level,
    {
        if level <= 3 {
            0
        } else {
            self.step_needs(path_key(p, vid, level), path_child(p, level), vid) + self.path_needs(p, vid, level - 1)
        }
    }
}

/// [Layer::path_needs] reads only whether the nodes below `level` on the way
/// exist, and what the chain of forks on the way holds.
pub proof fn lemma_path_needs_frame(a: &Layer, b: &Layer, p: UVec3, vid: int, level: int)
    requires
        forall|l: int| 3 <= l < level ==> (#[trigger] b.branch@.contains_key(path_key(p, vid, l))
            == a.branch@.contains_key(path_key(p, vid, l))),
        level >= 5 ==> b.chain_needs(cell_of(path_key(p, vid, 4)), vid) == a.chain_needs(cell_of(path_key(p, vid, 4)), vid),
    ensures
        b.path_needs(p, vid, level) == a.path_needs(p, vid, level),
    decreases level,
{
    if level > 3 {
        lemma_path_step(p, vid, level);
        lemma_path_needs_frame(a, b, p, vid, level - 1);
        if level == 5 {
            assert(child_cell(cell_of(path_key(p, vid, 5)), path_child(p, 5)) == cell_of(path_key(p, vid, 4)));
        } else {
            assert(child_key(path_key(p, vid, level), path_child(p, level)) == path_key(p, vid, level - 1));
        }
    }
}

impl Layer {
    /// Sets the voxel at the local position `pos` of level-2 node `leaf_idx`, stored under `lk`.
    #[verifier::spinoff_prover]
    #[verifier::rlimit(40)]
    fn set_in_leaf(&mut self, leaf_idx: usize, pos: UVec3, Ghost(lk): Ghost<LKey>)
        requires
            old(self).wf(),
            old(self).leaf@.contains_key(lk),
            old(self).leaf@[lk] == leaf_idx,
            in_grid4(pos),
        ensures
            final(self).wf(),
            final(self)@ == old(self)@.insert((4 * lk.0 + pos.x, 4 * lk.1 + pos.y, 4 * lk.2 + pos.z, lk.3)),
            final(self).same_shape(old(self)),
            final(self).nodes@ == old(self).nodes@,
            final(self).free_list@ == old(self).free_list@,
            final(self).free_list_l2@ == old(self).free_list_l2@,
            final(self).l2len() == old(self).l2len(),
            old(self).level_2@[leaf_idx as int].has(pos) ==> final(self).level_2@ == old(self).level_2@,
    {
        let mut n = self.level_2[leaf_idx];
        let ghost n0 = n;
        n.set(pos);
        proof {
            if n0.has(pos) {
                let w = n0.packed_children[l2_word(pos)];
                let b = l2_bit(pos) as u32;
                assert(((w >> b) & 1u32) == 1u32 && b < 32 ==> (w | (1u32 << b)) == w) by (bit_vector);
                assert(n.packed_children[0] == n0.packed_children[0] && n.packed_children[1] == n0.packed_children[1]);
                assert(n.packed_children =~= n0.packed_children);
                assert(n == n0);
            }
        }
        self.level_2.set(leaf_idx, n);
        proof {
            if n0.has(pos) {
                assert(self.level_2@ =~= old(self).level_2@);
            }
        }
        proof {
            lemma_leaf_grid(self, lk);
            assert(self.wf_free_l2()) by {
                assert forall|t: int| 0 <= t < self.free_list_l2@.len() implies
                    (#[trigger] self.level_2@[self.free_list_l2@[t]]).packed_children[0]
                    == (if t + 1 < self.free_list_l2@.len() { self.free_list_l2@[t + 1] } else { 0 }) by {
                    assert(old(self).leaf@[lk] != old(self).free_list_l2@[t]);
                }
                assert(old(self).free_list_l2@.len() > 0 ==> old(self).leaf@[lk] != old(self).free_list_l2@[0]);
            }
            assert forall|kk: BKey, i: int| old(self).branch@.contains_key(kk) && 0 <= i < 8
                implies #[trigger] self.nodes@[self.branch@[kk]].children[i] == self.key_child(kk, i) by {
                assert(old(self).nodes@[old(self).branch@[kk]].children[i] == old(self).key_child(kk, i));
            }
            lemma_branch_keys_frame(old(self), self);
            assert(self.wf_chains()) by {
                assert forall|c: Cell, j: int, s: int|
                    self.chains@.contains_key(c) && 0 <= j < self.chains@[c].len() && 0 <= s < 4 implies {
                    &&& entry_index(j, s) < self.entries@[c].len() ==> #[trigger] self.slot_vid(c, j, s) == self.entries@[c][entry_index(j, s)].0
                    &&& entry_index(j, s) < self.entries@[c].len() ==> self.slot_node(c, j, s) == self.entries@[c][entry_index(j, s)].1
                    &&& entry_index(j, s) >= self.entries@[c].len() ==> self.slot_vid(c, j, s) == 0
                } by {
                    assert(old(self).slot_vid(c, j, s) == self.slot_vid(c, j, s));
                    assert(old(self).slot_node(c, j, s) == self.slot_node(c, j, s));
                }
            }
            let nv = (4 * lk.0 + pos.x, 4 * lk.1 + pos.y, 4 * lk.2 + pos.z, lk.3);
            assert forall|v: (int, int, int, int)| self@.contains(v) == old(self)@.insert(nv).contains(v) by {
                lemma_voxel_cell(v.0);
                lemma_voxel_cell(v.1);
                lemma_voxel_cell(v.2);
                let vk = (v.0 / 4, v.1 / 4, v.2 / 4, v.3);
                let q = UVec3 { x: (v.0 % 4) as u32, y: (v.1 % 4) as u32, z: (v.2 % 4) as u32 };
                if v == nv {
                    assert(vk == lk);
                    assert(q == pos);
                } else if self.leaf@.contains_key(vk) {
                    if vk == lk {
                        assert(q != pos);
                    } else {
                        assert(self.leaf@[vk] != leaf_idx);
                    }
                }
            }
            assert(self@ =~= old(self)@.insert(nv));
        }
    }

    /// Links a new level-2 node, holding just the voxel at `pos`, as child
    /// `child_idx` of the level-3 node stored under `k`.
    #[verifier::spinoff_prover]
    #[verifier::rlimit(40)]
    fn attach_leaf(&mut self, from_idx: usize, child_idx: usize, pos: UVec3, Ghost(k): Ghost<BKey>)
        requires
            old(self).wf(),
            old(self).branch@.contains_key(k),
            old(self).branch@[k] == from_idx,
            k.0 == 3,
            child_idx < 8,
            in_grid4(pos),
            ({
                let c = child_cell(cell_of(k), child_idx as int);
                !old(self).leaf@.contains_key((c.0, c.1, c.2, k.4))
            }),
            old(self).free_list_l2@.len() >= 1,
        ensures
            final(self).wf(),
            ({
                let c = child_cell(cell_of(k), child_idx as int);
                &&& final(self).leaf@ == old(self).leaf@.insert((c.0, c.1, c.2, k.4), old(self).free_list_l2@[0])
                &&& final(self)@ == old(self)@.insert((4 * c.0 + pos.x, 4 * c.1 + pos.y, 4 * c.2 + pos.z, k.4))
            }),
            final(self).branch@ == old(self).branch@,
            final(self).chains@ == old(self).chains@,
            final(self).entries@ == old(self).entries@,
            final(self).depth == old(self).depth,
            final(self).free_list@ == old(self).free_list@,
            final(self).free_list_l2@ == old(self).free_list_l2@.drop_first(),
            final(self).nlen() == old(self).nlen(),
            final(self).l2len() == old(self).l2len(),
    {
        let ghost ci = child_idx as int;
        let ghost c = child_cell(cell_of(k), ci);
        let ghost lk: LKey = (c.0, c.1, c.2, k.4);
        let a = self.allocate_node_l2();
        let ghost zero = self.level_2@[a as int];
        let mut n2 = self.level_2[a];
        n2.set(pos);
        self.level_2.set(a, n2);
        let ghost mid = *self;
        let mut n = self.nodes[from_idx];
        n.children[child_idx] = a as u32;
        self.nodes.set(from_idx, n);
        self.leaf = Ghost(self.leaf@.insert(lk, a as int));
        proof {
            lemma_child_cell(cell_of(k), ci, self.cells(3));
            vstd::arithmetic::power2::lemma_pow2_unfold((self.depth - 2) as nat);
            assert(self.cells(2) == 2 * self.cells(3));
            assert(self.wf_free_l2()) by {
                assert forall|t: int| 0 <= t < self.free_list_l2@.len() implies
                    (#[trigger] self.level_2@[self.free_list_l2@[t]]).packed_children[0]
                    == (if t + 1 < self.free_list_l2@.len() { self.free_list_l2@[t + 1] } else { 0 }) by {
                    assert(self.free_list_l2@[t] != a);
                }
            }
            assert forall|kk: BKey, i: int| self.branch@.contains_key(kk) && 0 <= i < 8
                implies #[trigger] self.nodes@[self.branch@[kk]].children[i] == self.key_child(kk, i) by {
                assert(old(self).nodes@[old(self).branch@[kk]].children[i] == old(self).key_child(kk, i));
                if kk.1 >= 0 && kk.2 >= 0 && kk.3 >= 0 {
                    lemma_child_cell(cell_of(kk), i, 0);
                }
                if kk == k {
                    if i != ci {
                        assert(self.key_child(kk, i) == old(self).key_child(kk, i));
                    }
                } else {
                    assert(old(self).branch@[kk] != from_idx);
                    assert(self.key_child(kk, i) == old(self).key_child(kk, i));
                }
            }
            assert forall|kk: BKey| #[trigger] old(self).branch@.contains_key(kk) implies
                self.nodes@[old(self).branch@[kk]].flag == old(self).nodes@[old(self).branch@[kk]].flag by {
                if kk != k {
                    assert(old(self).branch@[kk] != from_idx);
                }
            }
            lemma_branch_keys_frame(old(self), self);
            assert(self.wf_chains()) by {
                assert forall|cc: Cell, j: int| self.chains@.contains_key(cc) && 0 <= j < self.chains@[cc].len()
                    implies #[trigger] self.chains@[cc][j] != from_idx by {
                    assert(old(self).branch@[k] != old(self).chains@[cc][j]);
                }
                assert forall|cc: Cell, j: int, s: int|
                    self.chains@.contains_key(cc) && 0 <= j < self.chains@[cc].len() && 0 <= s < 4 implies {
                    &&& entry_index(j, s) < self.entries@[cc].len() ==> #[trigger] self.slot_vid(cc, j, s) == self.entries@[cc][entry_index(j, s)].0
                    &&& entry_index(j, s) < self.entries@[cc].len() ==> self.slot_node(cc, j, s) == self.entries@[cc][entry_index(j, s)].1
                    &&& entry_index(j, s) >= self.entries@[cc].len() ==> self.slot_vid(cc, j, s) == 0
                } by {
                    assert(old(self).slot_vid(cc, j, s) == self.slot_vid(cc, j, s));
                    assert(old(self).slot_node(cc, j, s) == self.slot_node(cc, j, s));
                }
            }
            assert(self.wf_free()) by {
                assert forall|t: int| 0 <= t < self.free_list@.len() implies #[trigger] self.free_list@[t] != from_idx by {
                    assert(old(self).branch@[k] != old(self).free_list@[t]);
                }
            }
            assert(self.wf_leaf()) by {
                assert forall|l: LKey| #[trigger] self.leaf@.contains_key(l) implies {
                    &&& 1 <= self.leaf@[l] < self.l2len()
                    &&& cell_in((l.0, l.1, l.2), self.cells(2))
                    &&& self.branch@.contains_key((3int, l.0 / 2, l.1 / 2, l.2 / 2, l.3))
                } by {
                    if l == lk {
                        assert(parent_cell(c) == cell_of(k));
                    }
                }
            }
            assert(self.wf_distinct()) by {
                assert forall|l1: LKey, l2: LKey|
                    self.leaf@.contains_key(l1) && self.leaf@.contains_key(l2) && l1 != l2
                    implies #[trigger] self.leaf@[l1] != #[trigger] self.leaf@[l2] by {
                    if l1 != lk && l2 != lk {
                        assert(old(self).leaf@[l1] != old(self).leaf@[l2]);
                    }
                }
            }
            lemma_leaf_grid(self, lk);
            let nv = (4 * c.0 + pos.x, 4 * c.1 + pos.y, 4 * c.2 + pos.z, k.4);
            assert forall|v: (int, int, int, int)| self@.contains(v) == old(self)@.insert(nv).contains(v) by {
                lemma_voxel_cell(v.0);
                lemma_voxel_cell(v.1);
                lemma_voxel_cell(v.2);
                let vk = (v.0 / 4, v.1 / 4, v.2 / 4, v.3);
                let q = UVec3 { x: (v.0 % 4) as u32, y: (v.1 % 4) as u32, z: (v.2 % 4) as u32 };
                if v == nv {
                    assert(vk == lk);
                    assert(q == pos);
                } else if vk == lk {
                    assert(q != pos);
                    crate::node_l2::lemma_zero_has_nothing(zero, q);
                    assert(!mid.level_2@[a as int].has(q));
                } else if old(self).leaf@.contains_key(vk) {
                    assert(old(self).leaf@[vk] != a);
                }
            }
            assert(self@ =~= old(self)@.insert(nv));
        }
    }
}

/// The clauses of [Layer::wf_branch] that say where each stored node lies and
/// that its parent is there carry over to a layer with the same stored nodes,
/// chains and flags.
pub proof fn lemma_branch_keys_frame(a: &Layer, b: &Layer)
    requires
        a.wf_branch(),
        b.branch@ == a.branch@,
        b.entries@ == a.entries@,
        b.depth == a.depth,
        b.nlen() == a.nlen(),
        forall|k: BKey| #[trigger] a.branch@.contains_key(k) ==> b.nodes@[a.branch@[k]].flag == a.nodes@[a.branch@[k]].flag,
        forall|k: BKey, i: int| a.branch@.contains_key(k) && 0 <= i < 8
            ==> #[trigger] b.nodes@[b.branch@[k]].children[i] == b.key_child(k, i),
    ensures
        b.wf_branch(),
{
    assert forall|kk: BKey| #[trigger] b.branch@.contains_key(kk) implies {
        &&& b.key_ok(kk)
        &&& 1 <= b.branch@[kk] < b.nlen()
        &&& b.nodes@[b.branch@[kk]].flag == 0
        &&& (kk.0 < b.depth && kk.0 >= 5) ==> b.branch@.contains_key((kk.0 + 1, kk.1 / 2, kk.2 / 2, kk.3 / 2, 0int))
        &&& kk.0 == 4 ==> b.entries@.contains_key(cell_of(kk))
        &&& kk.0 == 4 ==> exists|t: int| 0 <= t < b.entries@[cell_of(kk)].len()
            && #[trigger] b.entries@[cell_of(kk)][t].0 == kk.4
        &&& kk.0 == 3 ==> b.branch@.contains_key((4int, kk.1 / 2, kk.2 / 2, kk.3 / 2, kk.4))
    } by {
        if kk.0 == 4 {
            let t = choose|t: int| 0 <= t < a.entries@[cell_of(kk)].len()
                && #[trigger] a.entries@[cell_of(kk)][t].0 == kk.4;
            assert(b.entries@[cell_of(kk)][t].0 == kk.4);
        }
    }
}

/// A coordinate is four times its level-2 cell plus its place inside that cell.
pub proof fn lemma_voxel_cell(x: int)
    ensures
        x == 4 * (x / 4) + x % 4,
        0 <= x % 4 < 4,
{
}

/// The voxels of a stored level-2 node lie inside the whole cube.
pub proof fn lemma_leaf_grid(l: &Layer, lk: LKey)
    requires
        l.wf_sizes(),
        cell_in((lk.0, lk.1, lk.2), l.cells(2)),
    ensures
        pw(l.depth as nat) == 4 * l.cells(2),
        0 <= 4 * lk.0 && 4 * lk.0 + 4 <= pw(l.depth as nat),
        0 <= 4 * lk.1 && 4 * lk.1 + 4 <= pw(l.depth as nat),
        0 <= 4 * lk.2 && 4 * lk.2 + 4 <= pw(l.depth as nat),
{
    vstd::arithmetic::power2::lemma_pow2_adds((l.depth - 2) as nat, 2);
    vstd::arithmetic::power2::lemma2_to64();
}


impl Layer {
    /// `p` lies inside the whole cube of the layer.
    pub open spec fn in_bounds_spec(&self, p: UVec3) -> bool {
        p.x < pw(self.depth as nat) && p.y < pw(self.depth as nat) && p.z < pw(self.depth as nat)
    }

    /// How many free nodes, and free level-2 nodes, [Layer::set] takes for the
    /// voxel at `p` with id `vid`.
    pub open spec fn set_needs(&self, p: UVec3, vid: int) -> (nat, nat) {
        (self.path_needs(p, vid, self.depth as int), if self.leaf@.contains_key(path_leaf(p, vid)) { 0nat } else { 1nat })
    }

    /// Sets the voxel at `position` to `voxel_id`, making the nodes on the way
    /// that do not exist yet. A `voxel_id` of `0` and a position outside the
    /// layer are ignored. A voxel that the position already holds under another
    /// id stays: each id has its own subtree.
    #[verifier::spinoff_prover]
    #[verifier::rlimit(40)]
    pub fn set(&mut self, position: UVec3, voxel_id: u32)
        requires
            old(self).wf(),
            voxel_id != 0 && old(self).in_bounds_spec(position) ==> {
                &&& old(self).free_list@.len() >= old(self).set_needs(position, voxel_id as int).0
                &&& old(self).free_list_l2@.len() >= old(self).set_needs(position, voxel_id as int).1
            },
        ensures
            final(self).wf(),
            final(self).depth == old(self).depth,
            final(self).nlen() == old(self).nlen(),
            final(self).l2len() == old(self).l2len(),
            voxel_id == 0 || !old(self).in_bounds_spec(position) ==> *final(self) == *old(self),
            voxel_id != 0 && old(self).in_bounds_spec(position) ==> {
                &&& final(self)@ == old(self)@.insert((position.x as int, position.y as int, position.z as int, voxel_id as int))
                &&& final(self).free_list@.len() == old(self).free_list@.len() - old(self).set_needs(position, voxel_id as int).0
                &&& final(self).free_list_l2@.len() == old(self).free_list_l2@.len() - old(self).set_needs(position, voxel_id as int).1
            },
            forall|k: BKey| #[trigger] old(self).branch@.contains_key(k)
                ==> final(self).branch@.contains_key(k) && final(self).branch@[k] == old(self).branch@[k],
            forall|lk: LKey| #[trigger] old(self).leaf@.contains_key(lk)
                ==> final(self).leaf@.contains_key(lk) && final(self).leaf@[lk] == old(self).leaf@[lk],
            old(self)@.contains((position.x as int, position.y as int, position.z as int, voxel_id as int))
                ==> final(self).same_layer(old(self)),
            forall|c: Cell| #[trigger] old(self).entries@.contains_key(c) ==> {
                &&& final(self).entries@.contains_key(c)
                &&& old(self).entries@[c].len() <= final(self).entries@[c].len()
                &&& final(self).entries@[c].subrange(0, old(self).entries@[c].len() as int) == old(self).entries@[c]
            },
    {
        if voxel_id == 0 {
            return;
        }
        let ghost vid = voxel_id as int;
        let ghost depth = self.depth as int;
        let mut idx: usize = 1;
        let mut size = l2s(self.depth);
        let mut level = self.depth;
        if position.y >= size || position.x >= size || position.z >= size {
            return;
        }
        let mut pos = position;
        proof {
            vstd::arithmetic::power2::lemma_pow2_pos(level as nat);
            vstd::arithmetic::div_mod::lemma_basic_div(position.x as int, pw(level as nat));
            vstd::arithmetic::div_mod::lemma_basic_div(position.y as int, pw(level as nat));
            vstd::arithmetic::div_mod::lemma_basic_div(position.z as int, pw(level as nat));
            vstd::arithmetic::div_mod::lemma_small_mod(position.x as nat, pw(level as nat) as nat);
            vstd::arithmetic::div_mod::lemma_small_mod(position.y as nat, pw(level as nat) as nat);
            vstd::arithmetic::div_mod::lemma_small_mod(position.z as nat, pw(level as nat) as nat);
            assert(path_key(position, vid, depth) == self.root_key());
            assert(local(position, depth) == position);
            if self@.contains((position.x as int, position.y as int, position.z as int, vid)) {
                lemma_path_present(self, position, vid);
            }
        }
        while level > 3
            invariant
                self.wf(),
                3 <= level <= self.depth,
                self.depth == depth,
                depth == old(self).depth,
                vid == voxel_id as int,
                voxel_id != 0,
                size == pw(level as nat),
                pos == local(position, level as int),
                self.branch@.contains_key(path_key(position, vid, level as int)),
                idx == self.branch@[path_key(position, vid, level as int)],
                self.free_list@.len() >= self.path_needs(position, vid, level as int),
                self.free_list@.len() - self.path_needs(position, vid, level as int)
                    == old(self).free_list@.len() - old(self).path_needs(position, vid, depth),
                self.leaf@ == old(self).leaf@,
                self.level_2@ == old(self).level_2@,
                self.free_list_l2@ == old(self).free_list_l2@,
                self.nlen() == old(self).nlen(),
                self@ == old(self)@,
                forall|k: BKey| #[trigger] old(self).branch@.contains_key(k)
                    ==> self.branch@.contains_key(k) && self.branch@[k] == old(self).branch@[k],
                old(self)@.contains((position.x as int, position.y as int, position.z as int, vid)) ==> {
                    &&& self.same_layer(old(self))
                    &&& forall|lv: int| 3 <= lv <= depth ==> #[trigger] old(self).branch@.contains_key(path_key(position, vid, lv))
                },
                forall|c: Cell| #[trigger] old(self).entries@.contains_key(c) ==> {
                    &&& self.entries@.contains_key(c)
                    &&& old(self).entries@[c].len() <= self.entries@[c].len()
                    &&& self.entries@[c].subrange(0, old(self).entries@[c].len() as int) == old(self).entries@[c]
                },
            decreases level,
        {
            let child_index = Node::get_child_index(pos, level - 1);
            let ghost k = path_key(position, vid, level as int);
            let ghost before = *self;
            proof {
                lemma_path_step(position, vid, level as int);
                assert(child_index == path_child(position, level as int));
                assert(self.free_list@.len() >= self.step_needs(k, child_index as int, vid));
            }
            idx = self.set_child(idx, voxel_id, child_index, level, 4);
            proof {
                let step = before.step_needs(k, child_index as int, vid);
                assert(self.branch@ == before.branch@.insert(path_key(position, vid, level - 1), idx as int));
                assert(self.free_list@ == before.free_list@.skip(step as int));
                assert forall|l: int| 3 <= l < level - 1 implies (#[trigger] self.branch@.contains_key(path_key(position, vid, l))
                    == before.branch@.contains_key(path_key(position, vid, l))) by {
                    assert(path_key(position, vid, l) != path_key(position, vid, level - 1));
                }
                if level - 1 >= 5 {
                    assert(self.chains@ == before.chains@);
                    assert(self.entries@ == before.entries@);
                    assert(self.chain_needs(cell_of(path_key(position, vid, 4)), vid)
                        == before.chain_needs(cell_of(path_key(position, vid, 4)), vid));
                }
                lemma_path_needs_frame(&before, self, position, vid, level - 1);
                let nk = path_key(position, vid, level - 1);
                assert(nk == Layer::step_key(k, child_index as int, vid));
                if old(self)@.contains((position.x as int, position.y as int, position.z as int, vid)) {
                    assert(before.branch@.contains_key(nk));
                    assert(self.same_layer(&before));
                }
                assert forall|k2: BKey| #[trigger] old(self).branch@.contains_key(k2)
                    implies self.branch@.contains_key(k2) && self.branch@[k2] == old(self).branch@[k2] by {
                    assert(before.branch@.contains_key(k2));
                }
                assert forall|c: Cell| #[trigger] old(self).entries@.contains_key(c) implies {
                    &&& self.entries@.contains_key(c)
                    &&& old(self).entries@[c].len() <= self.entries@[c].len()
                    &&& self.entries@[c].subrange(0, old(self).entries@[c].len() as int) == old(self).entries@[c]
                } by {
                    assert(before.entries@.contains_key(c));
                    let m = old(self).entries@[c].len() as int;
                    if level == 5 && !before.branch@.contains_key(nk) {
                        let c5 = child_cell(cell_of(k), child_index as int);
                        if c == c5 {
                            assert(self.entries@[c] == before.entries@[c].push((vid, idx as int)));
                            assert(self.entries@[c].subrange(0, m) =~= before.entries@[c].subrange(0, m));
                        }
                    }
                }
            }
            proof {
                vstd::arithmetic::power2::lemma_pow2_unfold(level as nat);
                vstd::arithmetic::power2::lemma_pow2_pos((level - 1) as nat);
            }
            size = size / 2;
            level = level - 1;
            pos = uvec3(pos.x % size, pos.y % size, pos.z % size);
            proof {
                vstd::arithmetic::power2::lemma_pow2_unfold((level + 1) as nat);
            }
        }
        let ghost k3 = path_key(position, vid, 3);
        let child_index = Node::get_child_index(pos, level - 1);
        let child_node_idx = self.nodes[idx].children[child_index];
        let size4: u32 = 4;
        pos = uvec3(pos.x % size4, pos.y % size4, pos.z % size4);
        proof {
            lemma_path_step(position, vid, 3);
            vstd::arithmetic::power2::lemma2_to64();
            assert(child_index == path_child(position, 3));
            assert(child_node_idx == self.key_child(k3, child_index as int));
            assert(pos == local(position, 2));
            lemma_voxel_cell(position.x as int);
            lemma_voxel_cell(position.y as int);
            lemma_voxel_cell(position.z as int);
            assert(self.path_needs(position, vid, 3) == 0);
        }
        let ghost lk = path_leaf(position, vid);
        if child_node_idx != 0 {
            proof {
                assert(self.leaf@.contains_key(lk));
                if old(self)@.contains((position.x as int, position.y as int, position.z as int, vid)) {
                    lemma_path_present(old(self), position, vid);
                    assert(self.level_2@[child_node_idx as int].has(pos));
                }
            }
            self.set_in_leaf(child_node_idx as usize, pos, Ghost(lk));
        } else {
            proof {
                if self.leaf@.contains_key(lk) {
                    assert(self.leaf@[lk] >= 1);
                }
                if old(self)@.contains((position.x as int, position.y as int, position.z as int, vid)) {
                    lemma_path_present(old(self), position, vid);
                }
            }
            self.attach_leaf(idx, child_index, pos, Ghost(k3));
        }
    }
}


/// Setting a voxel that the layer already holds takes no free node and no free
/// level-2 node; [Layer::set] then leaves the layer as it was.
pub proof fn law_set_again_needs_nothing(l: &Layer, p: UVec3, vid: int)
    requires
        l.wf(),
        l@.contains((p.x as int, p.y as int, p.z as int, vid)),
    ensures
        l.set_needs(p, vid) == (0nat, 0nat),
{
    lemma_path_present(l, p, vid);
    lemma_path_needs_zero(l, p, vid, l.depth as int);
}

proof fn lemma_path_needs_zero(l: &Layer, p: UVec3, vid: int, level: int)
    requires
        l.wf(),
        level <= l.depth,
        forall|lv: int| 3 <= lv <= l.depth ==> #[trigger] l.branch@.contains_key(path_key(p, vid, lv)),
    ensures
        l.path_needs(p, vid, level) == 0,
    decreases level,
{
    if level > 3 {
        lemma_path_needs_zero(l, p, vid, level - 1);
        lemma_path_step(p, vid, level);
        let k = path_key(p, vid, level);
        let i = path_child(p, level);
        let nk = path_key(p, vid, level - 1);
        assert(l.branch@.contains_key(nk));
        if level == 5 {
            let c = child_cell(cell_of(k), i);
            assert(nk == (4int, c.0, c.1, c.2, vid));
            assert(l.entries@.contains_key(c));
            assert(l.chains@.contains_key(c));
            let t = choose|t: int| 0 <= t < l.entries@[cell_of(nk)].len() && #[trigger] l.entries@[cell_of(nk)][t].0 == nk.4;
            assert(l.chain_has(c, vid));
        } else {
            assert(Layer::step_key(k, i, vid) == child_key(k, i));
        }
    }
}

} // verus!
