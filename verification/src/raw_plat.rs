use vstd::prelude::*;
use crate::layer::Layer;
use crate::node::Node;
use crate::node_l2::NodeL2;
use crate::get::{GetNodeResult, nothing};
use crate::utils::{l2s, pw};
use crate::vec3::UVec3;

verus! {

/// A plat: four layers of voxels over the same cube, each lying on top of the
/// ones before it.
///
/// 0 - Base layer: used for simple terrain generation.
/// 1 - Tmp layer: quick layer for temporary voxels generated by FWGen.
/// 2 - Schematic: used to place autopasted schematics, and AI buildings.
/// 3 - Canvas: each voxel a player places goes there.
pub struct RawPlat {
    pub position: (i32, i32, i32),
    pub rotation: (i32, i32, i32),
    /// Maximal depth of the plat: `2^depth` is the width of the world.
    pub depth: usize,
    pub layers: [Layer; 4],
}

/// Names of the four layers.
pub enum LayerIndex {
    Base,
    Tmp,
    Schem,
    Canvas,
}

impl LayerIndex {
    /// Position of the layer in [RawPlat::layers].
    pub fn index(&self) -> (i: usize)
        ensures
            i < 4,
            (*self is Base) ==> i == 0,
            (*self is Tmp) ==> i == 1,
            (*self is Schem) ==> i == 2,
            (*self is Canvas) ==> i == 3,
    {
        match self {
            LayerIndex::Base => 0,
            LayerIndex::Tmp => 1,
            LayerIndex::Schem => 2,
            LayerIndex::Canvas => 3,
        }
    }
}

/// The node pools a [Layer] is made on: nodes, and level-2 nodes.
pub open spec fn pools_ok(p: (Vec<Node>, Vec<NodeL2>)) -> bool {
    1 <= p.0.len() <= u32::MAX && 1 <= p.1.len() <= u32::MAX
}

/// Pools on which [Layer::new] makes a well-formed layer of the given depth.
pub open spec fn pools_fresh(depth: int, p: (Vec<Node>, Vec<NodeL2>)) -> bool {
    &&& 5 <= depth <= 31
    &&& 3 <= p.0.len() < 0x8000_0000
    &&& p.0@[1].flag == 0
    &&& p.0@[1].no_children()
}

impl RawPlat {
    /// Every layer is well formed and as deep as the plat.
    pub open spec fn wf(&self) -> bool {
        forall|i: int| 0 <= i < 4 ==> (#[trigger] self.layers[i]).wf() && self.layers[i].depth == self.depth
    }

    /// A plat on four pairs of node pools: base, tmp, schem and canvas.
    pub fn new(
        depth: usize,
        chunk_level: usize,
        segment_level: usize,
        base: (Vec<Node>, Vec<NodeL2>),
        tmp: (Vec<Node>, Vec<NodeL2>),
        schem: (Vec<Node>, Vec<NodeL2>),
        canvas: (Vec<Node>, Vec<NodeL2>),
    ) -> (plat: RawPlat)
        requires
            pools_ok(base),
            pools_ok(tmp),
            pools_ok(schem),
            pools_ok(canvas),
        ensures
            plat.depth == depth,
            plat.position == (0i32, 0i32, 0i32),
            plat.rotation == (0i32, 0i32, 0i32),
            forall|i: int| 0 <= i < 4 ==> (#[trigger] plat.layers[i]).depth == depth,
            plat.layers[0].made_from(depth, base.0@, base.1@),
            plat.layers[1].made_from(depth, tmp.0@, tmp.1@),
            plat.layers[2].made_from(depth, schem.0@, schem.1@),
            plat.layers[3].made_from(depth, canvas.0@, canvas.1@),
            plat.layers[0].nlen() == base.0.len() && plat.layers[0].l2len() == base.1.len(),
            plat.layers[1].nlen() == tmp.0.len() && plat.layers[1].l2len() == tmp.1.len(),
            plat.layers[2].nlen() == schem.0.len() && plat.layers[2].l2len() == schem.1.len(),
            plat.layers[3].nlen() == canvas.0.len() && plat.layers[3].l2len() == canvas.1.len(),
            (pools_fresh(depth as int, base) && pools_fresh(depth as int, tmp) && pools_fresh(depth as int, schem)
                && pools_fresh(depth as int, canvas)) ==> {
                &&& plat.wf()
                &&& forall|i: int| 0 <= i < 4 ==> (#[trigger] plat.layers[i])@ == Set::<(int, int, int, int)>::empty()
            },
    {
        let _ = chunk_level;
        let _ = segment_level;
        let l0 = Layer::new(depth, base.0, base.1);
        let l1 = Layer::new(depth, tmp.0, tmp.1);
        let l2 = Layer::new(depth, schem.0, schem.1);
        let l3 = Layer::new(depth, canvas.0, canvas.1);
        RawPlat { position: (0, 0, 0), rotation: (0, 0, 0), depth, layers: [l0, l1, l2, l3] }
    }

    /// The layers with their names.
    pub fn layers(&self) -> (r: [(&str, &Layer); 4])
        ensures
            r[0].1 == &self.layers[0],
            r[1].1 == &self.layers[1],
            r[2].1 == &self.layers[2],
            r[3].1 == &self.layers[3],
            r[0].0@ == "base"@,
            r[1].0@ == "tmp"@,
            r[2].0@ == "schem"@,
            r[3].0@ == "canvas"@,
    {
        [("base", &self.layers[0]), ("tmp", &self.layers[1]), ("schem", &self.layers[2]), ("canvas", &self.layers[3])]
    }

    pub fn depth(&self) -> (d: usize)
        ensures
            d == self.depth,
    {
        self.depth
    }

    /// Width of the plat: `2^depth`.
    pub fn size(&self) -> (s: u32)
        requires
            self.depth < 32,
        ensures
            s == pw(self.depth as nat),
    {
        l2s(self.depth)
    }

    /// What [RawPlat::get_node] returns: the lookup in the topmost layer that finds something.
    pub open spec fn get_node_spec(&self, position: UVec3, level: int) -> GetNodeResult {
        if self.layers[3].get_spec(position, level, Option::None).spec_is_some() {
            self.layers[3].get_spec(position, level, Option::None)
        } else if self.layers[2].get_spec(position, level, Option::None).spec_is_some() {
            self.layers[2].get_spec(position, level, Option::None)
        } else if self.layers[1].get_spec(position, level, Option::None).spec_is_some() {
            self.layers[1].get_spec(position, level, Option::None)
        } else if self.layers[0].get_spec(position, level, Option::None).spec_is_some() {
            self.layers[0].get_spec(position, level, Option::None)
        } else {
            nothing()
        }
    }

    /// Looks the node on `level` at `position` up in the layers, from the canvas
    /// down to the base, and returns the first one found.
    pub fn get_node(&self, position: UVec3, level: usize) -> (r: GetNodeResult)
        requires
            self.wf(),
            level < usize::MAX,
        ensures
            r == self.get_node_spec(position, level as int),
    {
        let mut layer_idx: usize = 4;
        while layer_idx > 0
            invariant
                self.wf(),
                level < usize::MAX,
                layer_idx <= 4,
                forall|i: int| layer_idx <= i < 4 ==> !(#[trigger] self.layers[i]).get_spec(position, level as int, Option::None).spec_is_some(),
            decreases layer_idx,
        {
            layer_idx -= 1;
            assert(self.layers[layer_idx as int].wf());
            let res = self.layers[layer_idx].get_node(position, level, Option::None);
            if res.is_some() {
                return res;
            }
        }
        GetNodeResult::none()
    }

    /// Looks the voxel at `position` up in the layers, from the canvas down to the base.
    pub fn get_voxel(&self, position: UVec3) -> (r: GetNodeResult)
        requires
            self.wf(),
        ensures
            r == self.get_node_spec(position, 0),
    {
        self.get_node(position, 0)
    }
}


/// A lookup in a plat answers from the topmost layer that finds something: if
/// layer `i` finds a node and no layer above it (a larger index) does, the
/// plat's answer is layer `i`'s; if no layer finds one, nothing is found.
pub proof fn law_plat_topmost_layer(p: &RawPlat, position: UVec3, level: int, i: int)
    requires
        0 <= i < 4,
    ensures
        p.layers[i].get_spec(position, level, Option::None).spec_is_some()
            && (forall|j: int| i < j < 4 ==> !(#[trigger] p.layers[j]).get_spec(position, level, Option::None).spec_is_some())
            ==> p.get_node_spec(position, level) == p.layers[i].get_spec(position, level, Option::None),
        (forall|j: int| 0 <= j < 4 ==> !(#[trigger] p.layers[j]).get_spec(position, level, Option::None).spec_is_some())
            ==> !p.get_node_spec(position, level).spec_is_some(),
{
    if forall|j: int| 0 <= j < 4 ==> !(#[trigger] p.layers[j]).get_spec(position, level, Option::None).spec_is_some() {
        assert(!p.layers[3].get_spec(position, level, Option::None).spec_is_some());
        assert(!p.layers[2].get_spec(position, level, Option::None).spec_is_some());
        assert(!p.layers[1].get_spec(position, level, Option::None).spec_is_some());
        assert(!p.layers[0].get_spec(position, level, Option::None).spec_is_some());
    }
    if p.layers[i].get_spec(position, level, Option::None).spec_is_some()
        && (forall|j: int| i < j < 4 ==> !(#[trigger] p.layers[j]).get_spec(position, level, Option::None).spec_is_some()) {
        if i < 3 {
            assert(!p.layers[3].get_spec(position, level, Option::None).spec_is_some());
        }
        if i < 2 {
            assert(!p.layers[2].get_spec(position, level, Option::None).spec_is_some());
        }
        if i < 1 {
            assert(!p.layers[1].get_spec(position, level, Option::None).spec_is_some());
        }
    }
}

} // verus!
