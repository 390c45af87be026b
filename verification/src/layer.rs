use vstd::prelude::*;
use crate::node::{Node, child_dx, child_dy, child_dz};
use crate::node_l2::NodeL2;
use crate::utils::pw;
use crate::vec3::UVec3;

verus! {

/// A cell of the grid on some level: a cube `2^level` wide at
/// `(x, y, z) * 2^level`, named by `(x, y, z)`.
pub type Cell = (int, int, int);

/// A stored node of the graph: `(level, x, y, z, voxel_id)`. Above level 4 the
/// voxel id is `0`; from level 4 down each voxel id has its own subtree.
pub type BKey = (int, int, int, int, int);

/// A [NodeL2]: the level-2 cell `(x, y, z)` of the subtree of `voxel_id`,
/// as `(x, y, z, voxel_id)`.
pub type LKey = (int, int, int, int);

/// The cell of a key.
pub open spec fn cell_of(k: BKey) -> Cell {
    (k.1, k.2, k.3)
}

/// The cell of child `i` of cell `c`, one level down.
pub open spec fn child_cell(c: Cell, i: int) -> Cell {
    (2 * c.0 + child_dx(i), 2 * c.1 + child_dy(i), 2 * c.2 + child_dz(i))
}

/// The cell, one level up, that holds cell `c`.
pub open spec fn parent_cell(c: Cell) -> Cell {
    (c.0 / 2, c.1 / 2, c.2 / 2)
}

/// All three coordinates lie in `0 .. n`.
pub open spec fn cell_in(c: Cell, n: int) -> bool {
    0 <= c.0 < n && 0 <= c.1 < n && 0 <= c.2 < n
}

/// One layer of a plat: a sparse voxel graph over a cube `2^depth` wide.
///
/// `nodes[0]` heads the list of free nodes and `nodes[1]` is the root.
/// Nodes above level 5 are branches with up to 8 children. A child of a
/// level-5 node is a chain of forks: each fork holds up to four pairs
/// `(voxel_id, node)`, the node being the level-4 root of the subtree that holds
/// the voxels of that id in the child's cell. The children of level-3 nodes are
/// indexes into `level_2`, whose nodes hold 4x4x4 voxels each as bits;
/// `level_2[0]` heads the list of free ones.
pub struct Layer {
    /// Synced depth with [crate::raw_plat::RawPlat].
    pub depth: usize,
    /// Nodes on level 2.
    pub level_2: Vec<NodeL2>,
    /// Nodes on levels 3 and up, and the forks.
    pub nodes: Vec<Node>,
    /// Index in `nodes` of each stored node.
    pub branch: Ghost<Map<BKey, int>>,
    /// For each level-4 cell that has a chain of forks, their indexes in order.
    pub chains: Ghost<Map<Cell, Seq<int>>>,
    /// For each level-4 cell that has a chain, its pairs `(voxel_id, node)` in order.
    pub entries: Ghost<Map<Cell, Seq<(int, int)>>>,
    /// Index in `level_2` of each stored level-2 node.
    pub leaf: Ghost<Map<LKey, int>>,
    /// The free nodes, in the order of their list.
    pub free_list: Ghost<Seq<int>>,
    /// The free level-2 nodes, in the order of their list.
    pub free_list_l2: Ghost<Seq<int>>,
}

/// The fields of a fork chain given by its position `(j, s)`: slot `s` of fork `j`
/// holds entry `4 * j + s`.
pub open spec fn entry_index(j: int, s: int) -> int {
    4 * j + s
}

impl Layer {
    pub open spec fn nlen(&self) -> int {
        self.nodes@.len() as int
    }

    pub open spec fn l2len(&self) -> int {
        self.level_2@.len() as int
    }

    /// Side of the whole cube in cells of the given level.
    pub open spec fn cells(&self, level: int) -> int {
        pw((self.depth - level) as nat)
    }

    /// The key of the root.
    pub open spec fn root_key(&self) -> BKey {
        (self.depth as int, 0, 0, 0, 0)
    }

    /// What child `i` of the node stored under `k` must be.
    pub open spec fn key_child(&self, k: BKey, i: int) -> int {
        let c = child_cell(cell_of(k), i);
        if k.0 >= 6 {
            let ck = (k.0 - 1, c.0, c.1, c.2, 0int);
            if self.branch@.contains_key(ck) { self.branch@[ck] } else { 0 }
        } else if k.0 == 5 {
            if self.chains@.contains_key(c) { self.chains@[c][0] } else { 0 }
        } else if k.0 == 4 {
            let ck = (3int, c.0, c.1, c.2, k.4);
            if self.branch@.contains_key(ck) { self.branch@[ck] } else { 0 }
        } else {
            let lk = (c.0, c.1, c.2, k.4);
            if self.leaf@.contains_key(lk) { self.leaf@[lk] } else { 0 }
        }
    }

    /// Voxel id kept in slot `s` of fork `j` of the chain of cell `c`.
    pub open spec fn slot_vid(&self, c: Cell, j: int, s: int) -> int {
        self.nodes@[self.chains@[c][j]].children[2 * s] as int
    }

    /// Node kept in slot `s` of fork `j` of the chain of cell `c`.
    pub open spec fn slot_node(&self, c: Cell, j: int, s: int) -> int {
        self.nodes@[self.chains@[c][j]].children[2 * s + 1] as int
    }

    /// A key that can name a node of this layer.
    pub open spec fn key_ok(&self, k: BKey) -> bool {
        &&& 3 <= k.0 <= self.depth
        &&& cell_in(cell_of(k), self.cells(k.0))
        &&& k.0 >= 5 ==> k.4 == 0
        &&& k.0 <= 4 ==> 1 <= k.4 <= u32::MAX
    }

    pub open spec fn wf_sizes(&self) -> bool {
        &&& 5 <= self.depth <= 31
        &&& 3 <= self.nlen() < 0x8000_0000
        &&& 1 <= self.l2len() <= u32::MAX
    }

    /// The list of free nodes starts at `nodes[0]` and goes through `free_list`.
    pub open spec fn wf_free(&self) -> bool {
        let fl = self.free_list@;
        &&& fl.no_duplicates()
        &&& self.nodes@[0].children[0] == (if fl.len() > 0 { fl[0] } else { 0 })
        &&& forall|t: int| 0 <= t < fl.len() ==> 1 <= #[trigger] fl[t] < self.nlen()
        &&& forall|t: int| 0 <= t < fl.len() ==> (#[trigger] self.nodes@[fl[t]]).flag == -1
        &&& forall|t: int| 0 <= t < fl.len() ==> (#[trigger] self.nodes@[fl[t]]).children[0]
            == (if t + 1 < fl.len() { fl[t + 1] } else { 0 })
    }

    /// The list of free level-2 nodes starts at `level_2[0]` and goes through `free_list_l2`.
    pub open spec fn wf_free_l2(&self) -> bool {
        let fl = self.free_list_l2@;
        &&& fl.no_duplicates()
        &&& self.level_2@[0].packed_children[0] == (if fl.len() > 0 { fl[0] } else { 0 })
        &&& forall|t: int| 0 <= t < fl.len() ==> 1 <= #[trigger] fl[t] < self.l2len()
        &&& forall|t: int| 0 <= t < fl.len() ==> (#[trigger] self.level_2@[fl[t]]).packed_children[0]
            == (if t + 1 < fl.len() { fl[t + 1] } else { 0 })
    }

    /// Stored nodes: where they are, what they hold, and that each has its parent.
    pub open spec fn wf_branch(&self) -> bool {
        &&& self.branch@.contains_key(self.root_key())
        &&& self.branch@[self.root_key()] == 1
        &&& forall|k: BKey| #[trigger] self.branch@.contains_key(k) ==> {
            &&& self.key_ok(k)
            &&& 1 <= self.branch@[k] < self.nlen()
            &&& self.nodes@[self.branch@[k]].flag == 0
            &&& (k.0 < self.depth && k.0 >= 5) ==> self.branch@.contains_key((k.0 + 1, k.1 / 2, k.2 / 2, k.3 / 2, 0int))
            &&& k.0 == 4 ==> self.entries@.contains_key(cell_of(k))
            &&& k.0 == 4 ==> exists|t: int| 0 <= t < self.entries@[cell_of(k)].len()
                && #[trigger] self.entries@[cell_of(k)][t].0 == k.4
            &&& k.0 == 3 ==> self.branch@.contains_key((4int, k.1 / 2, k.2 / 2, k.3 / 2, k.4))
        }
        &&& forall|k: BKey, i: int| self.branch@.contains_key(k) && 0 <= i < 8
            ==> #[trigger] self.nodes@[self.branch@[k]].children[i] == self.key_child(k, i)
    }

    /// Chains of forks and their entries.
    pub open spec fn wf_chains(&self) -> bool {
        &&& self.chains@.dom() == self.entries@.dom()
        &&& forall|c: Cell| #[trigger] self.chains@.contains_key(c) ==> {
            let n = self.chains@[c].len();
            let m = self.entries@[c].len();
            &&& cell_in(c, self.cells(4))
            &&& self.branch@.contains_key((5int, c.0 / 2, c.1 / 2, c.2 / 2, 0int))
            &&& n >= 1
            &&& 4 * (n - 1) < m <= 4 * n
        }
        &&& forall|c: Cell, j: int| self.chains@.contains_key(c) && 0 <= j < self.chains@[c].len() ==> {
            let f = #[trigger] self.chains@[c][j];
            &&& 1 <= f < self.nlen()
            &&& self.nodes@[f].flag == (if j + 1 < self.chains@[c].len() { self.chains@[c][j + 1] } else { -3 })
        }
        &&& forall|c: Cell, j: int, s: int|
            self.chains@.contains_key(c) && 0 <= j < self.chains@[c].len() && 0 <= s < 4 ==> {
            &&& entry_index(j, s) < self.entries@[c].len() ==> #[trigger] self.slot_vid(c, j, s) == self.entries@[c][entry_index(j, s)].0
            &&& entry_index(j, s) < self.entries@[c].len() ==> self.slot_node(c, j, s) == self.entries@[c][entry_index(j, s)].1
            &&& entry_index(j, s) >= self.entries@[c].len() ==> self.slot_vid(c, j, s) == 0
        }
        &&& forall|c: Cell, t: int| self.entries@.contains_key(c) && 0 <= t < self.entries@[c].len() ==> {
            let e = #[trigger] self.entries@[c][t];
            &&& self.branch@.contains_key((4int, c.0, c.1, c.2, e.0))
            &&& self.branch@[(4int, c.0, c.1, c.2, e.0)] == e.1
        }
        &&& forall|c: Cell, t1: int, t2: int|
            self.entries@.contains_key(c) && 0 <= t1 < self.entries@[c].len() && 0 <= t2 < self.entries@[c].len()
            && t1 != t2 ==> #[trigger] self.entries@[c][t1].0 != #[trigger] self.entries@[c][t2].0
    }

    /// Stored level-2 nodes.
    pub open spec fn wf_leaf(&self) -> bool {
        forall|lk: LKey| #[trigger] self.leaf@.contains_key(lk) ==> {
            &&& 1 <= self.leaf@[lk] < self.l2len()
            &&& cell_in((lk.0, lk.1, lk.2), self.cells(2))
            &&& self.branch@.contains_key((3int, lk.0 / 2, lk.1 / 2, lk.2 / 2, lk.3))
        }
    }

    /// No index is used twice, and no used index is free.
    pub open spec fn wf_distinct(&self) -> bool {
        &&& forall|k1: BKey, k2: BKey|
            self.branch@.contains_key(k1) && self.branch@.contains_key(k2) && k1 != k2
            ==> #[trigger] self.branch@[k1] != #[trigger] self.branch@[k2]
        &&& forall|c1: Cell, j1: int, c2: Cell, j2: int|
            self.chains@.contains_key(c1) && 0 <= j1 < self.chains@[c1].len()
            && self.chains@.contains_key(c2) && 0 <= j2 < self.chains@[c2].len()
            && (c1 != c2 || j1 != j2) ==> #[trigger] self.chains@[c1][j1] != #[trigger] self.chains@[c2][j2]
        &&& forall|k: BKey, c: Cell, j: int|
            self.branch@.contains_key(k) && self.chains@.contains_key(c) && 0 <= j < self.chains@[c].len()
            ==> #[trigger] self.branch@[k] != #[trigger] self.chains@[c][j]
        &&& forall|k: BKey, t: int| self.branch@.contains_key(k) && 0 <= t < self.free_list@.len()
            ==> #[trigger] self.branch@[k] != #[trigger] self.free_list@[t]
        &&& forall|c: Cell, j: int, t: int|
            self.chains@.contains_key(c) && 0 <= j < self.chains@[c].len() && 0 <= t < self.free_list@.len()
            ==> #[trigger] self.chains@[c][j] != #[trigger] self.free_list@[t]
        &&& forall|l1: LKey, l2: LKey|
            self.leaf@.contains_key(l1) && self.leaf@.contains_key(l2) && l1 != l2
            ==> #[trigger] self.leaf@[l1] != #[trigger] self.leaf@[l2]
        &&& forall|lk: LKey, t: int| self.leaf@.contains_key(lk) && 0 <= t < self.free_list_l2@.len()
            ==> #[trigger] self.leaf@[lk] != #[trigger] self.free_list_l2@[t]
    }

    /// The layer is well formed.
    pub open spec fn wf(&self) -> bool {
        &&& self.wf_sizes()
        &&& self.wf_free()
        &&& self.wf_free_l2()
        &&& self.wf_branch()
        &&& self.wf_chains()
        &&& self.wf_leaf()
        &&& self.wf_distinct()
    }

    /// [Layer::wf] behind a name whose definition stays hidden until revealed,
    /// for loops that only need a few of its facts.
    #[verifier::opaque]
    pub open spec fn inv(&self) -> bool {
        self.wf()
    }

    /// What [Layer::new] makes of the pools `nodes` and `l2_nodes`: the head and
    /// the nodes from index 2 on chained into the list of free nodes, node 1 kept,
    /// the level-2 nodes chained from the head on, every other child kept.
    pub open spec fn made_from(&self, depth: usize, nodes: Seq<Node>, l2_nodes: Seq<NodeL2>) -> bool {
        &&& self.depth == depth
        &&& self.nlen() == nodes.len()
        &&& self.l2len() == l2_nodes.len()
        &&& self.nodes@[0].flag == -1
        &&& self.nodes@[0].children[0] == (if nodes.len() >= 2 { 2int } else { 0 })
        &&& forall|i: int| 2 <= i < nodes.len() ==> (#[trigger] self.nodes@[i]).flag == -1
        &&& forall|i: int| 2 <= i < nodes.len() ==> (#[trigger] self.nodes@[i]).children[0]
            == (if i + 1 < nodes.len() { i + 1 } else { 0 })
        &&& nodes.len() >= 2 ==> self.nodes@[1].flag == nodes[1].flag
        &&& nodes.len() >= 3 ==> self.nodes@[1] == nodes[1]
        &&& nodes.len() == 2 ==> self.nodes@[1].children[0] == 0
        &&& forall|i: int, c: int| 0 <= i < nodes.len() && 1 <= c < 8
            ==> #[trigger] self.nodes@[i].children[c] == nodes[i].children[c]
        &&& forall|i: int| 0 <= i < l2_nodes.len() ==> (#[trigger] self.level_2@[i]).packed_children[0]
            == (if i + 1 < l2_nodes.len() { i + 1 } else { 0 })
        &&& forall|i: int| 0 <= i < l2_nodes.len() ==> (#[trigger] self.level_2@[i]).packed_children[1]
            == l2_nodes[i].packed_children[1]
    }

    /// Both layers hold the same nodes, the same description and the same free lists.
    pub open spec fn same_layer(&self, other: &Layer) -> bool {
        &&& self.nodes@ == other.nodes@
        &&& self.level_2@ == other.level_2@
        &&& self.same_shape(other)
        &&& self.free_list@ == other.free_list@
        &&& self.free_list_l2@ == other.free_list_l2@
    }

    /// Every node but the head, `a`, `b` and those in `taken` is as it is in `before`.
    pub open spec fn nodes_kept_but(&self, before: &Layer, a: int, b: int, taken: Seq<int>) -> bool {
        &&& self.nlen() == before.nlen()
        &&& forall|j: int| 0 < j < self.nlen() && j != a && j != b && !taken.contains(j)
            ==> #[trigger] self.nodes@[j] == before.nodes@[j]
    }

    /// Node `i` is neither the head, nor free, nor stored under a key or in a chain.
    pub open spec fn unused(&self, i: int) -> bool {
        &&& 1 <= i < self.nlen()
        &&& forall|k: BKey| #[trigger] self.branch@.contains_key(k) ==> self.branch@[k] != i
        &&& forall|c: Cell, j: int| self.chains@.contains_key(c) && 0 <= j < self.chains@[c].len()
            ==> #[trigger] self.chains@[c][j] != i
        &&& forall|t: int| 0 <= t < self.free_list@.len() ==> #[trigger] self.free_list@[t] != i
    }

    /// Level-2 node `i` is neither the head, nor free, nor stored.
    pub open spec fn unused_l2(&self, i: int) -> bool {
        &&& 1 <= i < self.l2len()
        &&& forall|lk: LKey| #[trigger] self.leaf@.contains_key(lk) ==> self.leaf@[lk] != i
        &&& forall|t: int| 0 <= t < self.free_list_l2@.len() ==> #[trigger] self.free_list_l2@[t] != i
    }

    /// The voxels of the layer: `(x, y, z, voxel_id)`.
    pub open spec fn view(&self) -> Set<(int, int, int, int)> {
        Set::new(|v: (int, int, int, int)| self.has_voxel(v.0, v.1, v.2, v.3))
    }

    /// The layer holds a voxel with id `vid` at `(x, y, z)`.
    pub open spec fn has_voxel(&self, x: int, y: int, z: int, vid: int) -> bool {
        let lk = (x / 4, y / 4, z / 4, vid);
        &&& 0 <= x < pw(self.depth as nat)
        &&& 0 <= y < pw(self.depth as nat)
        &&& 0 <= z < pw(self.depth as nat)
        &&& self.leaf@.contains_key(lk)
        &&& self.level_2@[self.leaf@[lk]].has(UVec3 { x: (x % 4) as u32, y: (y % 4) as u32, z: (z % 4) as u32 })
    }

    /// The ghost description is the same in both layers.
    pub open spec fn same_shape(&self, other: &Layer) -> bool {
        &&& self.branch@ == other.branch@
        &&& self.chains@ == other.chains@
        &&& self.entries@ == other.entries@
        &&& self.leaf@ == other.leaf@
        &&& self.depth == other.depth
    }
}


/// The layer on `(nodes, level-2 nodes, depth)` as they are: no list of free
/// nodes is made, and the description of what it holds is empty.
pub open spec fn layer_from_parts(v: (Vec<Node>, Vec<NodeL2>, usize)) -> Layer {
    Layer {
        depth: v.2,
        level_2: v.1,
        nodes: v.0,
        branch: Ghost(Map::empty()),
        chains: Ghost(Map::empty()),
        entries: Ghost(Map::empty()),
        leaf: Ghost(Map::empty()),
        free_list: Ghost(Seq::empty()),
        free_list_l2: Ghost(Seq::empty()),
    }
}

impl From<(Vec<Node>, Vec<NodeL2>, usize)> for Layer {
    fn from(value: (Vec<Node>, Vec<NodeL2>, usize)) -> (l: Layer) {
        Layer {
            depth: value.2,
            level_2: value.1,
            nodes: value.0,
            branch: Ghost(Map::empty()),
            chains: Ghost(Map::empty()),
            entries: Ghost(Map::empty()),
            leaf: Ghost(Map::empty()),
            free_list: Ghost(Seq::empty()),
            free_list_l2: Ghost(Seq::empty()),
        }
    }
}

impl vstd::std_specs::convert::FromSpecImpl<(Vec<Node>, Vec<NodeL2>, usize)> for Layer {
    open spec fn obeys_from_spec() -> bool {
        true
    }

    open spec fn from_spec(v: (Vec<Node>, Vec<NodeL2>, usize)) -> Layer {
        layer_from_parts(v)
    }
}

/// A sequence without duplicates whose elements lie in `lo .. hi` has at most `hi - lo` elements.
pub proof fn lemma_distinct_in_range(s: Seq<int>, lo: int, hi: int)
    requires
        s.no_duplicates(),
        lo <= hi,
        forall|t: int| 0 <= t < s.len() ==> lo <= #[trigger] s[t] < hi,
    ensures
        s.len() <= hi - lo,
{
    s.unique_seq_to_set();
    vstd::seq_lib::seq_to_set_is_finite(s);
    vstd::set_lib::lemma_int_range(lo, hi);
    assert(s.to_set().subset_of(vstd::set_lib::set_int_range(lo, hi)));
    vstd::set_lib::lemma_len_subset(s.to_set(), vstd::set_lib::set_int_range(lo, hi));
}

impl Layer {
    /// A layer on the given node pools. The nodes from index 2 on, and the
    /// level-2 nodes from index 1 on, are chained into the lists of free nodes.
    pub fn new(depth: usize, nodes: Vec<Node>, l2_nodes: Vec<NodeL2>) -> (layer: Layer)
        requires
            1 <= nodes.len() <= u32::MAX,
            1 <= l2_nodes.len() <= u32::MAX,
        ensures
            layer.made_from(depth, nodes@, l2_nodes@),
            layer.depth == depth,
            layer.nlen() == nodes.len(),
            layer.l2len() == l2_nodes.len(),
            layer.nodes@[0].flag == -1,
            layer.nodes@[0].children[0] == (if nodes.len() >= 2 { 2int } else { 0 }),
            forall|i: int| 2 <= i < nodes.len() ==> (#[trigger] layer.nodes@[i]).flag == -1,
            forall|i: int| 2 <= i < nodes.len() ==> (#[trigger] layer.nodes@[i]).children[0]
                == (if i + 1 < nodes.len() { i + 1 } else { 0 }),
            nodes.len() >= 2 ==> layer.nodes@[1].flag == nodes@[1].flag,
            nodes.len() >= 3 ==> layer.nodes@[1] == nodes@[1],
            nodes.len() == 2 ==> layer.nodes@[1].children[0] == 0,
            forall|i: int, c: int| 0 <= i < nodes.len() && 1 <= c < 8
                ==> #[trigger] layer.nodes@[i].children[c] == nodes@[i].children[c],
            nodes.len() == 2 ==> forall|c: int| 1 <= c < 8 ==> #[trigger] layer.nodes@[1].children[c] == nodes@[1].children[c],
            forall|i: int| 0 <= i < l2_nodes.len() ==> (#[trigger] layer.level_2@[i]).packed_children[0]
                == (if i + 1 < l2_nodes.len() { i + 1 } else { 0 }),
            forall|i: int| 0 <= i < l2_nodes.len() ==> (#[trigger] layer.level_2@[i]).packed_children[1]
                == l2_nodes@[i].packed_children[1],
            (5 <= depth <= 31 && 3 <= nodes.len() < 0x8000_0000 && nodes@[1].flag == 0 && nodes@[1].no_children()) ==> {
                &&& layer.wf()
                &&& layer@ == Set::<(int, int, int, int)>::empty()
                &&& layer.free_list@ == Seq::new((nodes.len() - 2) as nat, |t: int| t + 2)
                &&& layer.free_list_l2@ == Seq::new((l2_nodes.len() - 1) as nat, |t: int| t + 1)
            },
    {
        let mut nodes = nodes;
        let mut l2_nodes = l2_nodes;
        let len = nodes.len();
        let ghost start = nodes@;
        let mut head = nodes[0];
        head.flag = -1;
        head.children[0] = 2;
        nodes.set(0, head);
        let mut i: usize = 2;
        while i < len
            invariant
                2 <= i,
                len >= 2 ==> i <= len,
                len == nodes.len() == start.len(),
                len <= u32::MAX,
                nodes@[0].flag == -1,
                nodes@[0].children[0] == 2,
                forall|c: int| 1 <= c < 8 ==> #[trigger] nodes@[0].children[c] == start[0].children[c],
                len >= 2 ==> nodes@[1] == start[1],
                forall|j: int| 2 <= j < i ==> (#[trigger] nodes@[j]).flag == -1,
                forall|j: int| 2 <= j < i ==> (#[trigger] nodes@[j]).children[0] == j + 1,
                forall|j: int, c: int| 2 <= j < len && 1 <= c < 8 ==> #[trigger] nodes@[j].children[c] == start[j].children[c],
                forall|j: int| i <= j < len ==> #[trigger] nodes@[j] == start[j],
            decreases len - i,
        {
            let mut n = nodes[i];
            n.flag = -1;
            n.children[0] = i as u32 + 1;
            nodes.set(i, n);
            i = i + 1;
        }
        let last = len - 1;
        let mut n = nodes[last];
        n.children[0] = 0;
        nodes.set(last, n);

        let l2len = l2_nodes.len();
        let ghost start2 = l2_nodes@;
        let mut h2 = l2_nodes[0];
        h2.set_child(0, 1);
        l2_nodes.set(0, h2);
        let mut i: usize = 1;
        while i < l2len
            invariant
                1 <= i <= l2len,
                l2len == l2_nodes.len() == start2.len(),
                l2len <= u32::MAX,
                forall|j: int| 0 <= j < i ==> (#[trigger] l2_nodes@[j]).packed_children[0] == j + 1,
                forall|j: int| 0 <= j < l2len ==> (#[trigger] l2_nodes@[j]).packed_children[1] == start2[j].packed_children[1],
                forall|j: int| i <= j < l2len ==> #[trigger] l2_nodes@[j] == start2[j],
            decreases l2len - i,
        {
            let mut n = l2_nodes[i];
            n.set_child(0, i as u32 + 1);
            l2_nodes.set(i, n);
            i = i + 1;
        }
        let last2 = l2len - 1;
        let mut n2 = l2_nodes[last2];
        n2.set_child(0, 0);
        l2_nodes.set(last2, n2);

        let ghost fl = Seq::new((len - 2) as nat, |t: int| t + 2);
        let ghost fl2 = Seq::new((l2len - 1) as nat, |t: int| t + 1);
        let ghost root: BKey = (depth as int, 0, 0, 0, 0);
        let layer = Layer {
            depth,
            level_2: l2_nodes,
            nodes,
            branch: Ghost(Map::empty().insert(root, 1int)),
            chains: Ghost(Map::empty()),
            entries: Ghost(Map::empty()),
            leaf: Ghost(Map::empty()),
            free_list: Ghost(fl),
            free_list_l2: Ghost(fl2),
        };
        proof {
            if 5 <= depth <= 31 && 3 <= len < 0x8000_0000 && start[1].flag == 0 && start[1].no_children() {
                assert(fl.no_duplicates());
                assert(fl2.no_duplicates());
                vstd::arithmetic::power2::lemma_pow2_pos(0);
                assert(layer.wf_branch()) by {
                    assert forall|k: BKey, c: int| layer.branch@.contains_key(k) && 0 <= c < 8
                        implies #[trigger] layer.nodes@[layer.branch@[k]].children[c] == layer.key_child(k, c) by {
                        assert(k == root);
                        assert(layer.nodes@[1] == start[1]);
                    }
                }
                assert(layer@ =~= Set::<(int, int, int, int)>::empty());
            }
        }
        layer
    }
}

impl Layer {
    /// How many nodes can still be handed out: the length of the list of free
    /// nodes, its head not counted.
    pub fn free(&self) -> (n: usize)
        requires
            self.wf(),
        ensures
            n == self.free_list@.len(),
    {
        let ghost fl = self.free_list@;
        proof {
            lemma_distinct_in_range(fl, 1, self.nlen());
        }
        let mut idx: usize = self.nodes[0].children[0] as usize;
        let mut free: usize = 0;
        while idx != 0
            invariant
                self.wf(),
                fl == self.free_list@,
                fl.len() < self.nlen(),
                0 <= free <= fl.len(),
                idx == (if free < fl.len() { fl[free as int] } else { 0 }),
            decreases fl.len() - free,
        {
            free += 1;
            idx = self.nodes[idx].children[0] as usize;
        }
        free
    }

    /// How many level-2 nodes can still be handed out: the length of the list
    /// of free level-2 nodes, its head not counted.
    pub fn free_l2(&self) -> (n: usize)
        requires
            self.wf(),
        ensures
            n == self.free_list_l2@.len(),
    {
        let ghost fl = self.free_list_l2@;
        proof {
            lemma_distinct_in_range(fl, 1, self.l2len());
        }
        let mut idx: usize = self.level_2[0].packed_children[0] as usize;
        let mut free: usize = 0;
        while idx != 0
            invariant
                self.wf(),
                fl == self.free_list_l2@,
                fl.len() < self.l2len(),
                0 <= free <= fl.len(),
                idx == (if free < fl.len() { fl[free as int] } else { 0 }),
            decreases fl.len() - free,
        {
            free += 1;
            idx = self.level_2[idx].packed_children[0] as usize;
        }
        free
    }

    /// Takes the first free node, puts `node` there and returns its index.
    pub fn allocate_node_from(&mut self, node: Node) -> (idx: usize)
        requires
            old(self).wf(),
            old(self).free_list@.len() > 0,
        ensures
            idx == old(self).free_list@[0],
            final(self).free_list@ == old(self).free_list@.drop_first(),
            final(self).free_list_l2@ == old(self).free_list_l2@,
            final(self).same_shape(old(self)),
            final(self).level_2@ == old(self).level_2@,
            final(self).nlen() == old(self).nlen(),
            final(self).nodes@[idx as int] == node,
            final(self).nodes@[0].flag == old(self).nodes@[0].flag,
            final(self).nodes@[0].children[0]
                == (if old(self).free_list@.len() > 1 { old(self).free_list@[1] } else { 0 }),
            forall|c: int| 1 <= c < 8 ==> #[trigger] final(self).nodes@[0].children[c] == old(self).nodes@[0].children[c],
            forall|j: int| 0 < j < final(self).nlen() && j != idx ==> #[trigger] final(self).nodes@[j] == old(self).nodes@[j],
            final(self).wf(),
            final(self).unused(idx as int),
            final(self)@ == old(self)@,
    {
        let ghost fl = self.free_list@;
        let head = self.nodes[0].children[0] as usize;
        let allocated = self.nodes[head];
        let next = allocated.children[0];
        let mut h = self.nodes[0];
        h.children[0] = next;
        self.nodes.set(0, h);
        self.nodes.set(head, node);
        self.free_list = Ghost(fl.drop_first());
        proof {
            assert(fl[0] == head);
            assert forall|t: int| 0 <= t < self.free_list@.len() implies #[trigger] self.free_list@[t] != head by {
                assert(fl[t + 1] != fl[0]);
            }
            assert(self.wf_free()) by {
                assert forall|t: int| 0 <= t < self.free_list@.len() implies
                    (#[trigger] self.nodes@[self.free_list@[t]]).children[0]
                    == (if t + 1 < self.free_list@.len() { self.free_list@[t + 1] } else { 0 }) by {
                    assert(self.free_list@[t] == fl[t + 1]);
                    assert(fl[t + 1] != fl[0]);
                }
                assert forall|t: int| 0 <= t < self.free_list@.len() implies
                    (#[trigger] self.nodes@[self.free_list@[t]]).flag == -1 by {
                    assert(self.free_list@[t] == fl[t + 1]);
                    assert(fl[t + 1] != fl[0]);
                }
            }
            assert(self.wf_branch()) by {
                assert forall|k: BKey| #[trigger] self.branch@.contains_key(k) implies self.branch@[k] != head by {
                    assert(old(self).branch@[k] != fl[0]);
                }
                assert forall|k: BKey, c: int| self.branch@.contains_key(k) && 0 <= c < 8
                    implies #[trigger] self.nodes@[self.branch@[k]].children[c] == self.key_child(k, c) by {
                    assert(old(self).branch@[k] != fl[0]);
                    assert(old(self).nodes@[old(self).branch@[k]].children[c] == old(self).key_child(k, c));
                }
            }
            assert(self.wf_chains()) by {
                assert forall|c: Cell, j: int| self.chains@.contains_key(c) && 0 <= j < self.chains@[c].len()
                    implies #[trigger] self.chains@[c][j] != head by {
                    assert(old(self).chains@[c][j] != fl[0]);
                }
                assert forall|c: Cell, j: int, s: int|
                    self.chains@.contains_key(c) && 0 <= j < self.chains@[c].len() && 0 <= s < 4 implies {
                    &&& entry_index(j, s) < self.entries@[c].len() ==> #[trigger] self.slot_vid(c, j, s) == self.entries@[c][entry_index(j, s)].0
                    &&& entry_index(j, s) < self.entries@[c].len() ==> self.slot_node(c, j, s) == self.entries@[c][entry_index(j, s)].1
                    &&& entry_index(j, s) >= self.entries@[c].len() ==> self.slot_vid(c, j, s) == 0
                } by {
                    assert(old(self).chains@[c][j] != fl[0]);
                    assert(old(self).slot_vid(c, j, s) == self.slot_vid(c, j, s));
                    assert(old(self).slot_node(c, j, s) == self.slot_node(c, j, s));
                }
            }
            assert(self.wf_distinct()) by {
                assert forall|k: BKey, t: int| self.branch@.contains_key(k) && 0 <= t < self.free_list@.len()
                    implies #[trigger] self.branch@[k] != #[trigger] self.free_list@[t] by {
                    assert(self.free_list@[t] == fl[t + 1]);
                }
                assert forall|c: Cell, j: int, t: int|
                    self.chains@.contains_key(c) && 0 <= j < self.chains@[c].len() && 0 <= t < self.free_list@.len()
                    implies #[trigger] self.chains@[c][j] != #[trigger] self.free_list@[t] by {
                    assert(self.free_list@[t] == fl[t + 1]);
                }
            }
            assert(self@ =~= old(self)@);
        }
        head
    }

    /// Takes the first free node, clears it and returns its index.
    pub fn allocate_node(&mut self) -> (idx: usize)
        requires
            old(self).wf(),
            old(self).free_list@.len() > 0,
        ensures
            idx == old(self).free_list@[0],
            final(self).free_list@ == old(self).free_list@.drop_first(),
            final(self).free_list_l2@ == old(self).free_list_l2@,
            final(self).same_shape(old(self)),
            final(self).level_2@ == old(self).level_2@,
            final(self).nlen() == old(self).nlen(),
            final(self).nodes@[idx as int].flag == 0,
            final(self).nodes@[idx as int].no_children(),
            forall|j: int| 0 < j < final(self).nlen() && j != idx ==> #[trigger] final(self).nodes@[j] == old(self).nodes@[j],
            final(self).wf(),
            final(self).unused(idx as int),
            final(self)@ == old(self)@,
    {
        self.allocate_node_from(Node::default())
    }

    /// Puts node `node_idx` back at the head of the list of free nodes.
    pub fn deallocate_node(&mut self, node_idx: usize)
        requires
            old(self).wf(),
            node_idx < old(self).nlen(),
        ensures
            final(self).nlen() == old(self).nlen(),
            final(self).level_2@ == old(self).level_2@,
            final(self).nodes@[0].children[0] == node_idx,
            node_idx != 0 ==> final(self).nodes@[node_idx as int].flag == -1,
            node_idx != 0 ==> final(self).nodes@[node_idx as int].children[0] == old(self).nodes@[0].children[0],
            forall|j: int| 0 < j < final(self).nlen() && j != node_idx ==> #[trigger] final(self).nodes@[j] == old(self).nodes@[j],
            old(self).unused(node_idx as int) ==> {
                &&& final(self).wf()
                &&& final(self).free_list@ == seq![node_idx as int].add(old(self).free_list@)
                &&& final(self).free_list_l2@ == old(self).free_list_l2@
                &&& final(self).same_shape(old(self))
                &&& final(self)@ == old(self)@
            },
    {
        let ghost fl = self.free_list@;
        let first = self.nodes[0].children[0];
        let mut n = self.nodes[node_idx];
        n.flag = -1;
        n.children[0] = first;
        self.nodes.set(node_idx, n);
        let mut h = self.nodes[0];
        h.children[0] = node_idx as u32;
        self.nodes.set(0, h);
        self.free_list = Ghost(seq![node_idx as int].add(fl));
        proof {
            if old(self).unused(node_idx as int) {
                let nf = self.free_list@;
                assert(nf[0] == node_idx);
                assert forall|t: int| 0 < t < nf.len() implies #[trigger] nf[t] == fl[t - 1] by {}
                assert(nf.no_duplicates()) by {
                    assert forall|t1: int, t2: int| 0 <= t1 < nf.len() && 0 <= t2 < nf.len() && t1 != t2
                        implies nf[t1] != nf[t2] by {
                        if t1 > 0 && t2 > 0 {
                            assert(fl[t1 - 1] != fl[t2 - 1]);
                        } else if t1 == 0 {
                            assert(fl[t2 - 1] != node_idx);
                        } else {
                            assert(fl[t1 - 1] != node_idx);
                        }
                    }
                }
                assert(self.wf_free()) by {
                    assert forall|t: int| 0 <= t < nf.len() implies
                        (#[trigger] self.nodes@[nf[t]]).children[0] == (if t + 1 < nf.len() { nf[t + 1] } else { 0 }) by {
                        if t > 0 {
                            assert(fl[t - 1] != node_idx);
                        }
                    }
                    assert forall|t: int| 0 <= t < nf.len() implies (#[trigger] self.nodes@[nf[t]]).flag == -1 by {
                        if t > 0 {
                            assert(fl[t - 1] != node_idx);
                        }
                    }
                    assert forall|t: int| 0 <= t < nf.len() implies 1 <= #[trigger] nf[t] < self.nlen() by {
                        if t > 0 {
                            assert(nf[t] == fl[t - 1]);
                        }
                    }
                }
                assert(self.wf_branch()) by {
                    assert forall|k: BKey, c: int| self.branch@.contains_key(k) && 0 <= c < 8
                        implies #[trigger] self.nodes@[self.branch@[k]].children[c] == self.key_child(k, c) by {
                        assert(old(self).nodes@[old(self).branch@[k]].children[c] == old(self).key_child(k, c));
                    }
                }
                assert(self.wf_chains()) by {
                    assert forall|c: Cell, j: int, s: int|
                        self.chains@.contains_key(c) && 0 <= j < self.chains@[c].len() && 0 <= s < 4 implies {
                        &&& entry_index(j, s) < self.entries@[c].len() ==> #[trigger] self.slot_vid(c, j, s) == self.entries@[c][entry_index(j, s)].0
                        &&& entry_index(j, s) < self.entries@[c].len() ==> self.slot_node(c, j, s) == self.entries@[c][entry_index(j, s)].1
                        &&& entry_index(j, s) >= self.entries@[c].len() ==> self.slot_vid(c, j, s) == 0
                    } by {
                        assert(old(self).slot_vid(c, j, s) == self.slot_vid(c, j, s));
                        assert(old(self).slot_node(c, j, s) == self.slot_node(c, j, s));
                    }
                }
                assert(self.wf_distinct()) by {
                    assert forall|k: BKey, t: int| self.branch@.contains_key(k) && 0 <= t < nf.len()
                        implies #[trigger] self.branch@[k] != #[trigger] nf[t] by {
                        if t > 0 {
                            assert(nf[t] == fl[t - 1]);
                        }
                    }
                    assert forall|c: Cell, j: int, t: int|
                        self.chains@.contains_key(c) && 0 <= j < self.chains@[c].len() && 0 <= t < nf.len()
                        implies #[trigger] self.chains@[c][j] != #[trigger] nf[t] by {
                        if t > 0 {
                            assert(nf[t] == fl[t - 1]);
                        }
                    }
                }
                assert(self@ =~= old(self)@);
            }
        }
    }
}


/// The child cells of a cell are distinct, each lies one level down inside its
/// parent, and they stay inside the grid.
pub proof fn lemma_child_cell(c: Cell, i: int, n: int)
    requires
        0 <= i < 8,
        c.0 >= 0 && c.1 >= 0 && c.2 >= 0,
    ensures
        parent_cell(child_cell(c, i)) == c,
        forall|c2: Cell, i2: int| 0 <= i2 < 8 && #[trigger] child_cell(c2, i2) == child_cell(c, i) ==> c2 == c && i2 == i,
        cell_in(c, n) ==> cell_in(child_cell(c, i), 2 * n),
        child_cell(c, i).0 >= 0 && child_cell(c, i).1 >= 0 && child_cell(c, i).2 >= 0,
{
}

impl Layer {
    /// Takes the first free level-2 node, clears it and returns its index.
    pub fn allocate_node_l2(&mut self) -> (idx: usize)
        requires
            old(self).wf(),
            old(self).free_list_l2@.len() > 0,
        ensures
            idx == old(self).free_list_l2@[0],
            final(self).free_list_l2@ == old(self).free_list_l2@.drop_first(),
            final(self).free_list@ == old(self).free_list@,
            final(self).same_shape(old(self)),
            final(self).nodes@ == old(self).nodes@,
            final(self).l2len() == old(self).l2len(),
            final(self).level_2@[idx as int].is_zero(),
            final(self).level_2@[0].packed_children[0]
                == (if old(self).free_list_l2@.len() > 1 { old(self).free_list_l2@[1] } else { 0 }),
            final(self).level_2@[0].packed_children[1] == old(self).level_2@[0].packed_children[1],
            forall|j: int| 0 < j < final(self).l2len() && j != idx ==> #[trigger] final(self).level_2@[j] == old(self).level_2@[j],
            final(self).wf(),
            final(self).unused_l2(idx as int),
            final(self)@ == old(self)@,
    {
        let ghost fl = self.free_list_l2@;
        let head = self.level_2[0].packed_children[0] as usize;
        let next = self.level_2[head].packed_children[0];
        let mut h = self.level_2[0];
        h.set_child(0, next);
        self.level_2.set(0, h);
        self.level_2.set(head, NodeL2::default());
        self.free_list_l2 = Ghost(fl.drop_first());
        proof {
            assert(fl[0] == head);
            assert forall|t: int| 0 <= t < self.free_list_l2@.len() implies #[trigger] self.free_list_l2@[t] != head by {
                assert(fl[t + 1] != fl[0]);
            }
            assert(self.wf_free_l2()) by {
                assert forall|t: int| 0 <= t < self.free_list_l2@.len() implies
                    (#[trigger] self.level_2@[self.free_list_l2@[t]]).packed_children[0]
                    == (if t + 1 < self.free_list_l2@.len() { self.free_list_l2@[t + 1] } else { 0 }) by {
                    assert(self.free_list_l2@[t] == fl[t + 1]);
                    assert(fl[t + 1] != fl[0]);
                }
            }
            assert(self.wf_branch());
            assert(self.wf_chains()) by {
                assert forall|c: Cell, j: int, s: int|
                    self.chains@.contains_key(c) && 0 <= j < self.chains@[c].len() && 0 <= s < 4 implies {
                    &&& entry_index(j, s) < self.entries@[c].len() ==> #[trigger] self.slot_vid(c, j, s) == self.entries@[c][entry_index(j, s)].0
                    &&& entry_index(j, s) < self.entries@[c].len() ==> self.slot_node(c, j, s) == self.entries@[c][entry_index(j, s)].1
                    &&& entry_index(j, s) >= self.entries@[c].len() ==> self.slot_vid(c, j, s) == 0
                } by {
                    assert(old(self).slot_vid(c, j, s) == self.slot_vid(c, j, s));
                    assert(old(self).slot_node(c, j, s) == self.slot_node(c, j, s));
                }
            }
            assert(self.wf_distinct()) by {
                assert forall|lk: LKey, t: int| self.leaf@.contains_key(lk) && 0 <= t < self.free_list_l2@.len()
                    implies #[trigger] self.leaf@[lk] != #[trigger] self.free_list_l2@[t] by {
                    assert(self.free_list_l2@[t] == fl[t + 1]);
                }
            }
            assert forall|lk: LKey| #[trigger] self.leaf@.contains_key(lk) implies self.leaf@[lk] != head by {
                assert(old(self).leaf@[lk] != fl[0]);
            }
            assert(self@ =~= old(self)@) by {
                assert forall|v: (int, int, int, int)| self@.contains(v) == old(self)@.contains(v) by {
                    let lk = (v.0 / 4, v.1 / 4, v.2 / 4, v.3);
                    if old(self).leaf@.contains_key(lk) {
                        assert(old(self).leaf@[lk] != fl[0]);
                    }
                }
            }
        }
        head
    }

    /// Puts level-2 node `node_idx` back at the head of the list of free level-2 nodes.
    pub fn deallocate_node_l2(&mut self, node_idx: usize)
        requires
            old(self).wf(),
            node_idx < old(self).l2len(),
        ensures
            final(self).l2len() == old(self).l2len(),
            final(self).nodes@ == old(self).nodes@,
            final(self).level_2@[0].packed_children[0] == node_idx,
            node_idx != 0 ==> final(self).level_2@[node_idx as int].packed_children[0] == old(self).level_2@[0].packed_children[0],
            node_idx != 0 ==> final(self).level_2@[node_idx as int].packed_children[1] == old(self).level_2@[node_idx as int].packed_children[1],
            forall|j: int| 0 < j < final(self).l2len() && j != node_idx ==> #[trigger] final(self).level_2@[j] == old(self).level_2@[j],
            old(self).unused_l2(node_idx as int) ==> {
                &&& final(self).wf()
                &&& final(self).free_list_l2@ == seq![node_idx as int].add(old(self).free_list_l2@)
                &&& final(self).free_list@ == old(self).free_list@
                &&& final(self).same_shape(old(self))
                &&& final(self)@ == old(self)@
            },
    {
        let ghost fl = self.free_list_l2@;
        let first = self.level_2[0].packed_children[0];
        let mut n = self.level_2[node_idx];
        n.set_child(0, first);
        self.level_2.set(node_idx, n);
        let mut h = self.level_2[0];
        h.set_child(0, node_idx as u32);
        self.level_2.set(0, h);
        self.free_list_l2 = Ghost(seq![node_idx as int].add(fl));
        proof {
            if old(self).unused_l2(node_idx as int) {
                let nf = self.free_list_l2@;
                assert forall|t: int| 0 < t < nf.len() implies #[trigger] nf[t] == fl[t - 1] by {}
                assert(nf.no_duplicates()) by {
                    assert forall|t1: int, t2: int| 0 <= t1 < nf.len() && 0 <= t2 < nf.len() && t1 != t2
                        implies nf[t1] != nf[t2] by {
                        if t1 > 0 && t2 > 0 {
                            assert(fl[t1 - 1] != fl[t2 - 1]);
                        } else if t1 == 0 {
                            assert(fl[t2 - 1] != node_idx);
                        } else {
                            assert(fl[t1 - 1] != node_idx);
                        }
                    }
                }
                assert(self.wf_free_l2()) by {
                    assert forall|t: int| 0 <= t < nf.len() implies
                        (#[trigger] self.level_2@[nf[t]]).packed_children[0] == (if t + 1 < nf.len() { nf[t + 1] } else { 0 }) by {
                        if t > 0 {
                            assert(fl[t - 1] != node_idx);
                        }
                    }
                    assert forall|t: int| 0 <= t < nf.len() implies 1 <= #[trigger] nf[t] < self.l2len() by {
                        if t > 0 {
                            assert(nf[t] == fl[t - 1]);
                        }
                    }
                }
                assert(self.wf_branch());
                assert(self.wf_chains()) by {
                    assert forall|c: Cell, j: int, s: int|
                        self.chains@.contains_key(c) && 0 <= j < self.chains@[c].len() && 0 <= s < 4 implies {
                        &&& entry_index(j, s) < self.entries@[c].len() ==> #[trigger] self.slot_vid(c, j, s) == self.entries@[c][entry_index(j, s)].0
                        &&& entry_index(j, s) < self.entries@[c].len() ==> self.slot_node(c, j, s) == self.entries@[c][entry_index(j, s)].1
                        &&& entry_index(j, s) >= self.entries@[c].len() ==> self.slot_vid(c, j, s) == 0
                    } by {
                        assert(old(self).slot_vid(c, j, s) == self.slot_vid(c, j, s));
                        assert(old(self).slot_node(c, j, s) == self.slot_node(c, j, s));
                    }
                }
                assert(self.wf_distinct()) by {
                    assert forall|lk: LKey, t: int| self.leaf@.contains_key(lk) && 0 <= t < nf.len()
                        implies #[trigger] self.leaf@[lk] != #[trigger] nf[t] by {
                        if t > 0 {
                            assert(nf[t] == fl[t - 1]);
                        }
                    }
                }
                assert(self@ =~= old(self)@) by {
                    assert forall|v: (int, int, int, int)| self@.contains(v) == old(self)@.contains(v) by {
                        let lk = (v.0 / 4, v.1 / 4, v.2 / 4, v.3);
                        if old(self).leaf@.contains_key(lk) {
                            assert(old(self).leaf@[lk] != node_idx);
                        }
                    }
                }
            }
        }
    }
}

} // verus!
