use vstd::prelude::*;
use crate::chunk::{Chunk, flat, in_chunk, DATA_LEN, lemma_flat_unflat, lemma_flat_injective};
use crate::traverse_laws::{reports_voxels, reports, cell_at, law_traverse_reports_voxels, law_traverse_reports_all, lemma_voxel_ancestors};
use crate::layer::Layer;
use crate::traverse::{Props, in_region, law_traverse_region};
use crate::utils::pw;
use crate::vec3::UVec3;
use crate::traverse::Pos;

verus! {

/// `p` made local to a chunk whose origin is `o`.
pub open spec fn local_to(p: UVec3, o: Pos) -> UVec3 {
    UVec3 { x: (p.x - o.0) as u32, y: (p.y - o.1) as u32, z: (p.z - o.2) as u32 }
}

/// The words of a chunk `size` voxels wide with origin `o` after the voxels of
/// `evs` on level 0 are written into `d` in order, each at its local position.
pub open spec fn loaded(d: Seq<u32>, o: Pos, size: int, evs: Seq<Props>) -> Seq<u32>
    decreases evs.len(),
{
    if evs.len() == 0 {
        d
    } else {
        let d1 = loaded(d, o, size, evs.drop_last());
        let e = evs.last();
        if e.level == 0 {
            d1.update(flat(local_to(e.position, o), size), e.voxel_id)
        } else {
            d1
        }
    }
}

/// The words of a chunk as [Chunk::new] makes it.
pub open spec fn blank_data(position: UVec3, lod_level: int, chunk_level: int) -> Seq<u32> {
    Seq::new(DATA_LEN as nat, |i: int|
        if i == 0 { position.x } else if i == 1 { position.y } else if i == 2 { position.z }
        else if i == 3 { lod_level as u32 } else if i == 4 { chunk_level as u32 }
        else if i == 5 { pw((chunk_level - lod_level) as nat) as u32 } else { 0u32 })
}

impl Layer {
    /// Every voxel that a traversal of the region of the chunk at `position` on
    /// `chunk_level` reports falls inside a chunk `2^(chunk_level - lod_level)` wide.
    pub open spec fn chunk_fits(&self, position: UVec3, lod_level: int, chunk_level: int) -> bool {
        let evs = self.traverse_spec(position, chunk_level);
        let w = pw(chunk_level as nat);
        let size = pw((chunk_level - lod_level) as nat);
        forall|t: int| 0 <= t < evs.len() && (#[trigger] evs[t]).level == 0 ==> {
            &&& evs[t].position.x - position.x * w < size
            &&& evs[t].position.y - position.y * w < size
            &&& evs[t].position.z - position.z * w < size
        }
    }

    /// Fills `chunk` with the voxels of this layer in the chunk's region: every
    /// voxel that [Layer::traverse] reports on level 0 is written at its place, in
    /// the order of the traversal.
    pub fn load_chunk_gpu(&self, chunk: &mut Chunk)
        requires
            self.wf(),
            5 <= old(chunk).data[4] <= 20,
            (old(chunk).data[0] + 1) * pw(old(chunk).data[4] as nat) <= 0x1_0000_0000,
            (old(chunk).data[1] + 1) * pw(old(chunk).data[4] as nat) <= 0x1_0000_0000,
            (old(chunk).data[2] + 1) * pw(old(chunk).data[4] as nat) <= 0x1_0000_0000,
            old(chunk).data[3] <= old(chunk).data[4],
            old(chunk).data[5] == pw((old(chunk).data[4] - old(chunk).data[3]) as nat),
            old(chunk).data[5] <= 32,
            self.chunk_fits(old(chunk).position_spec(), old(chunk).data[3] as int, old(chunk).data[4] as int),
        ensures
            final(chunk).same_meta(old(chunk)),
            final(chunk).data@ == loaded(old(chunk).data@, old(chunk).origin(), old(chunk).data[5] as int,
                self.traverse_spec(old(chunk).position_spec(), old(chunk).data[4] as int)),
    {
        let ghost c0 = *chunk;
        let ghost level = chunk.data[4] as int;
        let ghost pos = chunk.position_spec();
        let evs = self.traverse(chunk.position(), 0..=chunk.chunk_level());
        let ghost w = pw(level as nat);
        let ghost size = chunk.data[5] as int;
        proof {
            vstd::arithmetic::power2::lemma_pow2_pos(level as nat);
            vstd::arithmetic::power2::lemma_pow2_strictly_increases(level as nat, 32);
            vstd::arithmetic::power2::lemma2_to64();
            assert(size * size * size <= 32768) by (nonlinear_arith)
                requires 0 <= size <= 32;
            let (x, y, z) = (pos.x as int, pos.y as int, pos.z as int);
            assert((x + 1) * w == x * w + w && (y + 1) * w == y * w + w && (z + 1) * w == z * w + w) by (nonlinear_arith);
        }
        let mut i: usize = 0;
        while i < evs.len()
            invariant
                i <= evs@.len(),
                evs@ == self.traverse_spec(pos, level),
                pos == c0.position_spec(),
                level == c0.data[4],
                w == pw(level as nat),
                size == c0.data[5],
                size <= 32,
                size * size * size <= 32768,
                5 <= level <= 20,
                w <= u32::MAX,
                pos.x * w <= u32::MAX && pos.y * w <= u32::MAX && pos.z * w <= u32::MAX,
                (pos.x + 1) * pw(level as nat) <= 0x1_0000_0000,
                (pos.y + 1) * pw(level as nat) <= 0x1_0000_0000,
                (pos.z + 1) * pw(level as nat) <= 0x1_0000_0000,
                self.chunk_fits(pos, c0.data[3] as int, level),
                size == pw((level - c0.data[3]) as nat),
                chunk.same_meta(&c0),
                chunk.data@ == loaded(c0.data@, c0.origin(), size, evs@.subrange(0, i as int)),
            decreases evs@.len() - i,
        {
            let p = evs[i];
            proof {
                law_traverse_region(self, pos, level, i as int);
                assert(evs@.subrange(0, i + 1).drop_last() =~= evs@.subrange(0, i as int));
            }
            if p.level == 0 {
                proof {
                    assert(chunk.origin() == c0.origin());
                    assert(chunk.to_local(p.position) == c0.to_local(p.position));
                    let q = c0.to_local(p.position);
                    assert(in_region(p.position, (pos.x * w, pos.y * w, pos.z * w), level));
                    assert(in_chunk(q, size));
                    lemma_flat_unflat(q, size);
                }
                chunk.set_global(p.position, p.voxel_id);
                proof {
                    let idx = flat(c0.to_local(p.position), size);
                    assert(chunk.data@ =~= loaded(c0.data@, c0.origin(), size, evs@.subrange(0, i as int)).update(idx, p.voxel_id));
                }
            }
            i += 1;
        }
        proof {
            assert(evs@.subrange(0, evs@.len() as int) =~= evs@);
        }
    }

    /// A chunk at `position`, `2^(chunk_level - lod_level)` voxels wide, filled
    /// with the voxels of this layer in its region.
    pub fn load_chunk(&self, position: UVec3, lod_level: usize, chunk_level: usize) -> (c: Chunk)
        requires
            self.wf(),
            5 <= chunk_level <= 20,
            lod_level <= chunk_level,
            chunk_level - lod_level <= 5,
            (position.x + 1) * pw(chunk_level as nat) <= 0x1_0000_0000,
            (position.y + 1) * pw(chunk_level as nat) <= 0x1_0000_0000,
            (position.z + 1) * pw(chunk_level as nat) <= 0x1_0000_0000,
            self.chunk_fits(position, lod_level as int, chunk_level as int),
        ensures
            c.position_spec() == position,
            c.data[3] == lod_level,
            c.data[4] == chunk_level,
            c.data[5] == pw((chunk_level - lod_level) as nat),
            ({
                let w = pw(chunk_level as nat);
                c.data@ == loaded(blank_data(position, lod_level as int, chunk_level as int),
                    (position.x * w, position.y * w, position.z * w), pw((chunk_level - lod_level) as nat),
                    self.traverse_spec(position, chunk_level as int))
            }),
    {
        let mut chunk = Chunk::new(position, lod_level, chunk_level);
        proof {
            vstd::arithmetic::power2::lemma2_to64();
            if chunk_level - lod_level < 5 {
                vstd::arithmetic::power2::lemma_pow2_strictly_increases((chunk_level - lod_level) as nat, 5);
            }
            assert(chunk.position_spec() == position);
            assert(chunk.data@ =~= blank_data(position, lod_level as int, chunk_level as int));
        }
        self.load_chunk_gpu(&mut chunk);
        chunk
    }
}

/// A layer's voxels always fit a chunk on LoD level 0: a traversal reports
/// nothing outside the region it starts from.
pub proof fn law_fits_lod0(l: &Layer, position: UVec3, chunk_level: int)
    requires
        0 <= chunk_level <= 31,
        (position.x + 1) * pw(chunk_level as nat) <= 0x1_0000_0000,
        (position.y + 1) * pw(chunk_level as nat) <= 0x1_0000_0000,
        (position.z + 1) * pw(chunk_level as nat) <= 0x1_0000_0000,
    ensures
        l.chunk_fits(position, 0, chunk_level),
{
    let evs = l.traverse_spec(position, chunk_level);
    assert forall|t: int| 0 <= t < evs.len() && (#[trigger] evs[t]).level == 0 implies {
        let w = pw(chunk_level as nat);
        &&& evs[t].position.x - position.x * w < pw((chunk_level - 0) as nat)
        &&& evs[t].position.y - position.y * w < pw((chunk_level - 0) as nat)
        &&& evs[t].position.z - position.z * w < pw((chunk_level - 0) as nat)
    } by {
        law_traverse_region(l, position, chunk_level, t);
    }
}


/// The level-0 reports of `evs` fall inside the chunk `size` wide whose origin is `o`.
pub open spec fn reports_land(evs: Seq<Props>, o: Pos, size: int) -> bool {
    forall|t: int| 0 <= t < evs.len() && (#[trigger] evs[t]).level == 0 ==> {
        &&& o.0 <= evs[t].position.x && o.1 <= evs[t].position.y && o.2 <= evs[t].position.z
        &&& evs[t].position.x - o.0 < size && evs[t].position.y - o.1 < size && evs[t].position.z - o.2 < size
        &&& evs[t].voxel_id != 0
    }
}

proof fn lemma_loaded_len(d: Seq<u32>, o: Pos, size: int, evs: Seq<Props>)
    requires
        size > 0,
        6 + size * size * size <= d.len(),
        reports_land(evs, o, size),
    ensures
        loaded(d, o, size, evs).len() == d.len(),
    decreases evs.len(),
{
    if evs.len() > 0 {
        let ev0 = evs.drop_last();
        assert forall|t: int| 0 <= t < ev0.len() && (#[trigger] ev0[t]).level == 0 implies {
            &&& o.0 <= ev0[t].position.x && o.1 <= ev0[t].position.y && o.2 <= ev0[t].position.z
            &&& ev0[t].position.x - o.0 < size && ev0[t].position.y - o.1 < size && ev0[t].position.z - o.2 < size
            &&& ev0[t].voxel_id != 0
        } by {
            assert(ev0[t] == evs[t]);
        }
        lemma_loaded_len(d, o, size, ev0);
        let e = evs.last();
        assert(evs[evs.len() - 1] == e);
        if e.level == 0 {
            let le = local_to(e.position, o);
            assert(in_chunk(le, size));
            lemma_flat_unflat(le, size);
        }
    }
}

/// A place of the loaded chunk holds what it held before, or the voxel id of a
/// report on level 0 at that place.
proof fn lemma_loaded_from(d: Seq<u32>, o: Pos, size: int, evs: Seq<Props>, lq: UVec3)
    requires
        size > 0,
        6 + size * size * size <= d.len(),
        reports_land(evs, o, size),
        in_chunk(lq, size),
    ensures
        loaded(d, o, size, evs)[flat(lq, size)] == d[flat(lq, size)]
            || exists|t: int| 0 <= t < evs.len() && (#[trigger] evs[t]).level == 0 && local_to(evs[t].position, o) == lq
                && evs[t].voxel_id == loaded(d, o, size, evs)[flat(lq, size)],
    decreases evs.len(),
{
    if evs.len() > 0 {
        let ev0 = evs.drop_last();
        assert forall|t: int| 0 <= t < ev0.len() && (#[trigger] ev0[t]).level == 0 implies {
            &&& o.0 <= ev0[t].position.x && o.1 <= ev0[t].position.y && o.2 <= ev0[t].position.z
            &&& ev0[t].position.x - o.0 < size && ev0[t].position.y - o.1 < size && ev0[t].position.z - o.2 < size
            &&& ev0[t].voxel_id != 0
        } by {
            assert(ev0[t] == evs[t]);
        }
        lemma_loaded_from(d, o, size, ev0, lq);
        lemma_loaded_len(d, o, size, ev0);
        let d1 = loaded(d, o, size, ev0);
        let e = evs.last();
        let n = evs.len() - 1;
        assert(evs[n] == e);
        lemma_flat_unflat(lq, size);
        if exists|t: int| 0 <= t < ev0.len() && (#[trigger] ev0[t]).level == 0 && local_to(ev0[t].position, o) == lq
            && ev0[t].voxel_id == d1[flat(lq, size)] {
            let t = choose|t: int| 0 <= t < ev0.len() && (#[trigger] ev0[t]).level == 0 && local_to(ev0[t].position, o) == lq
                && ev0[t].voxel_id == d1[flat(lq, size)];
            assert(evs[t] == ev0[t]);
        }
        if e.level == 0 {
            let le = local_to(e.position, o);
            assert(in_chunk(le, size));
            lemma_flat_unflat(le, size);
            if le != lq {
                lemma_flat_injective(le, lq, size);
            }
        }
    }
}

/// The place of every report on level 0 holds a voxel id after loading.
proof fn lemma_loaded_set(d: Seq<u32>, o: Pos, size: int, evs: Seq<Props>, t: int)
    requires
        size > 0,
        6 + size * size * size <= d.len(),
        reports_land(evs, o, size),
        0 <= t < evs.len(),
        evs[t].level == 0,
    ensures
        loaded(d, o, size, evs)[flat(local_to(evs[t].position, o), size)] != 0,
    decreases evs.len(),
{
    let ev0 = evs.drop_last();
    assert forall|u: int| 0 <= u < ev0.len() && (#[trigger] ev0[u]).level == 0 implies {
        &&& o.0 <= ev0[u].position.x && o.1 <= ev0[u].position.y && o.2 <= ev0[u].position.z
        &&& ev0[u].position.x - o.0 < size && ev0[u].position.y - o.1 < size && ev0[u].position.z - o.2 < size
        &&& ev0[u].voxel_id != 0
    } by {
        assert(ev0[u] == evs[u]);
    }
    lemma_loaded_len(d, o, size, ev0);
    let e = evs.last();
    let n = evs.len() - 1;
    assert(evs[n] == e);
    let lt = local_to(evs[t].position, o);
    assert(in_chunk(lt, size));
    lemma_flat_unflat(lt, size);
    if t < n {
        assert(ev0[t] == evs[t]);
        lemma_loaded_set(d, o, size, ev0, t);
    }
    if e.level == 0 {
        let le = local_to(e.position, o);
        assert(in_chunk(le, size));
        lemma_flat_unflat(le, size);
    }
}

/// The sizes of a chunk load: the chunk fits its words, and the region lies in
/// the range of `u32`.
proof fn lemma_load_sizes(depth: int, position: UVec3, lod: int, level: int, cl: int)
    requires
        5 <= level <= depth <= 31,
        cl == pw((depth - level) as nat),
        position.x < cl,
        position.y < cl,
        position.z < cl,
        0 <= lod <= level,
        level - lod <= 5,
    ensures
        ({
            let w = pw(level as nat);
            let size = pw((level - lod) as nat);
            &&& 0 < size <= 32
            &&& 6 + size * size * size <= DATA_LEN
            &&& (position.x + 1) * w <= 0x8000_0000
            &&& (position.y + 1) * w <= 0x8000_0000
            &&& (position.z + 1) * w <= 0x8000_0000
        }),
{
    let w = pw(level as nat);
    let size = pw((level - lod) as nat);
    vstd::arithmetic::power2::lemma2_to64();
    vstd::arithmetic::power2::lemma_pow2_pos((level - lod) as nat);
    vstd::arithmetic::power2::lemma_pow2_pos(level as nat);
    if level - lod < 5 {
        vstd::arithmetic::power2::lemma_pow2_strictly_increases((level - lod) as nat, 5);
    }
    assert(size * size * size <= 32 * 32 * 32) by (nonlinear_arith)
        requires 0 < size <= 32;
    vstd::arithmetic::power2::lemma_pow2_adds((depth - level) as nat, level as nat);
    if depth < 31 {
        vstd::arithmetic::power2::lemma_pow2_strictly_increases(depth as nat, 31);
    }
    assert(cl * w == pw(depth as nat));
    assert((position.x + 1) * w <= cl * w && (position.y + 1) * w <= cl * w && (position.z + 1) * w <= cl * w)
        by (nonlinear_arith)
        requires position.x < cl, position.y < cl, position.z < cl, w >= 0;
}

/// The reports of a traversal of the chunk's region land in the chunk.
proof fn lemma_load_land(l: &Layer, position: UVec3, lod: int, level: int)
    requires
        l.inv(),
        5 <= level <= 31,
        (position.x + 1) * pw(level as nat) <= 0x1_0000_0000,
        (position.y + 1) * pw(level as nat) <= 0x1_0000_0000,
        (position.z + 1) * pw(level as nat) <= 0x1_0000_0000,
        l.chunk_fits(position, lod, level),
        reports_voxels(l, l.traverse_spec(position, level)),
    ensures
        reports_land(l.traverse_spec(position, level),
            (position.x * pw(level as nat), position.y * pw(level as nat), position.z * pw(level as nat)),
            pw((level - lod) as nat)),
{
    let w = pw(level as nat);
    let o = (position.x * w, position.y * w, position.z * w);
    let size = pw((level - lod) as nat);
    let evs = l.traverse_spec(position, level);
    assert forall|t: int| 0 <= t < evs.len() && (#[trigger] evs[t]).level == 0 implies {
        &&& o.0 <= evs[t].position.x && o.1 <= evs[t].position.y && o.2 <= evs[t].position.z
        &&& evs[t].position.x - o.0 < size && evs[t].position.y - o.1 < size && evs[t].position.z - o.2 < size
        &&& evs[t].voxel_id != 0
    } by {
        law_traverse_region(l, position, level, t);
        let e = evs[t];
        lemma_voxel_ancestors(l, (e.position.x as int, e.position.y as int, e.position.z as int), e.voxel_id as int);
    }
}

/// What a chunk load reads of a layer: the reports land in the chunk, name
/// voxels of the layer, and the blank chunk holds no voxel.
proof fn lemma_load_setup(l: &Layer, position: UVec3, lod: int, level: int)
    requires
        l.wf(),
        5 <= level <= l.depth,
        position.x < l.cells(level),
        position.y < l.cells(level),
        position.z < l.cells(level),
        0 <= lod <= level,
        level - lod <= 5,
        l.chunk_fits(position, lod, level),
    ensures
        ({
            let w = pw(level as nat);
            let o = (position.x * w, position.y * w, position.z * w);
            let size = pw((level - lod) as nat);
            let evs = l.traverse_spec(position, level);
            &&& 0 < size <= 32
            &&& 6 + size * size * size <= DATA_LEN
            &&& blank_data(position, lod, level).len() == DATA_LEN
            &&& reports_land(evs, o, size)
            &&& reports_voxels(l, evs)
        }),
{
    lemma_load_sizes(l.depth as int, position, lod, level, l.cells(level));
    law_traverse_reports_voxels(l, position, level);
    assert(l.inv()) by {
        reveal(Layer::inv);
    }
    lemma_load_land(l, position, lod, level);
}

/// Loading a chunk loses no voxel of the layer: for every voxel of the layer in
/// the chunk's region, the loaded chunk holds, at the voxel's place, the id of
/// a voxel of the layer there.
pub proof fn law_load_keeps_layer_voxels(l: &Layer, position: UVec3, lod: int, level: int, q: Pos, v: int)
    requires
        l.wf(),
        5 <= level <= l.depth,
        position.x < l.cells(level),
        position.y < l.cells(level),
        position.z < l.cells(level),
        0 <= lod <= level,
        level - lod <= 5,
        l.chunk_fits(position, lod, level),
        l.has_voxel(q.0, q.1, q.2, v),
        cell_at(q, level) == (position.x as int, position.y as int, position.z as int),
    ensures
        ({
            let w = pw(level as nat);
            let o = (position.x * w, position.y * w, position.z * w);
            let size = pw((level - lod) as nat);
            let d = loaded(blank_data(position, lod, level), o, size, l.traverse_spec(position, level));
            let lq = UVec3 { x: (q.0 - o.0) as u32, y: (q.1 - o.1) as u32, z: (q.2 - o.2) as u32 };
            &&& in_chunk(lq, size)
            &&& d[flat(lq, size)] != 0
            &&& l.has_voxel(q.0, q.1, q.2, d[flat(lq, size)] as int)
        }),
{
    lemma_load_setup(l, position, lod, level);
    law_traverse_reports_all(l, position, level, q, v);
    lemma_load_keeps(l, position, lod, level, q, v);
}

#[verifier::spinoff_prover]
proof fn lemma_load_keeps(l: &Layer, position: UVec3, lod: int, level: int, q: Pos, v: int)
    requires
        l.wf_sizes(),
        l.has_voxel(q.0, q.1, q.2, v),
        ({
            let w = pw(level as nat);
            let o = (position.x * w, position.y * w, position.z * w);
            let size = pw((level - lod) as nat);
            let evs = l.traverse_spec(position, level);
            &&& 0 < size <= 32
            &&& 6 + size * size * size <= DATA_LEN
            &&& blank_data(position, lod, level).len() == DATA_LEN
            &&& reports_land(evs, o, size)
            &&& reports_voxels(l, evs)
            &&& reports(evs, q, v)
        }),
    ensures
        ({
            let w = pw(level as nat);
            let o = (position.x * w, position.y * w, position.z * w);
            let size = pw((level - lod) as nat);
            let d = loaded(blank_data(position, lod, level), o, size, l.traverse_spec(position, level));
            let lq = UVec3 { x: (q.0 - o.0) as u32, y: (q.1 - o.1) as u32, z: (q.2 - o.2) as u32 };
            &&& in_chunk(lq, size)
            &&& d[flat(lq, size)] != 0
            &&& l.has_voxel(q.0, q.1, q.2, d[flat(lq, size)] as int)
        }),
{
    let w = pw(level as nat);
    let o = (position.x * w, position.y * w, position.z * w);
    let size = pw((level - lod) as nat);
    let evs = l.traverse_spec(position, level);
    let d0 = blank_data(position, lod, level);
    let d = loaded(d0, o, size, evs);
    let lq = UVec3 { x: (q.0 - o.0) as u32, y: (q.1 - o.1) as u32, z: (q.2 - o.2) as u32 };
    let t = choose|t: int| 0 <= t < evs.len() && (#[trigger] evs[t]).level == 0
        && evs[t].position == (UVec3 { x: q.0 as u32, y: q.1 as u32, z: q.2 as u32 })
        && evs[t].voxel_id == v as u32;
    assert(0 <= q.0 < pw(l.depth as nat) && 0 <= q.1 < pw(l.depth as nat) && 0 <= q.2 < pw(l.depth as nat));
    vstd::arithmetic::power2::lemma2_to64();
    if l.depth < 32 {
        vstd::arithmetic::power2::lemma_pow2_strictly_increases(l.depth as nat, 32);
    }
    assert(evs[t].position.x == q.0 && evs[t].position.y == q.1 && evs[t].position.z == q.2);
    assert(local_to(evs[t].position, o) == lq);
    lemma_loaded_set(d0, o, size, evs, t);
    lemma_loaded_from(d0, o, size, evs, lq);
    lemma_flat_unflat(lq, size);
    assert(d0[flat(lq, size)] == 0);
    let t2 = choose|t2: int| 0 <= t2 < evs.len() && (#[trigger] evs[t2]).level == 0 && local_to(evs[t2].position, o) == lq
        && evs[t2].voxel_id == d[flat(lq, size)];
    assert(evs[t2].position.x == q.0 && evs[t2].position.y == q.1 && evs[t2].position.z == q.2);
}

/// Loading a chunk adds no voxel: every place of the loaded chunk that holds a
/// voxel id holds the id of a voxel of the layer at that place.
pub proof fn law_load_only_layer_voxels(l: &Layer, position: UVec3, lod: int, level: int, lq: UVec3)
    requires
        l.wf(),
        5 <= level <= l.depth,
        position.x < l.cells(level),
        position.y < l.cells(level),
        position.z < l.cells(level),
        0 <= lod <= level,
        level - lod <= 5,
        l.chunk_fits(position, lod, level),
        in_chunk(lq, pw((level - lod) as nat)),
        loaded(blank_data(position, lod, level),
            (position.x * pw(level as nat), position.y * pw(level as nat), position.z * pw(level as nat)),
            pw((level - lod) as nat), l.traverse_spec(position, level))[flat(lq, pw((level - lod) as nat))] != 0,
    ensures
        ({
            let w = pw(level as nat);
            let o = (position.x * w, position.y * w, position.z * w);
            let size = pw((level - lod) as nat);
            let d = loaded(blank_data(position, lod, level), o, size, l.traverse_spec(position, level));
            l.has_voxel(o.0 + lq.x, o.1 + lq.y, o.2 + lq.z, d[flat(lq, size)] as int)
        }),
{
    let w = pw(level as nat);
    let o = (position.x * w, position.y * w, position.z * w);
    let size = pw((level - lod) as nat);
    let evs = l.traverse_spec(position, level);
    let d0 = blank_data(position, lod, level);
    let d = loaded(d0, o, size, evs);
    lemma_load_setup(l, position, lod, level);
    lemma_loaded_from(d0, o, size, evs, lq);
    lemma_flat_unflat(lq, size);
    assert(d0[flat(lq, size)] == 0);
    let t2 = choose|t2: int| 0 <= t2 < evs.len() && (#[trigger] evs[t2]).level == 0 && local_to(evs[t2].position, o) == lq
        && evs[t2].voxel_id == d[flat(lq, size)];
    assert(evs[t2].position.x == o.0 + lq.x && evs[t2].position.y == o.1 + lq.y && evs[t2].position.z == o.2 + lq.z);
}

} // verus!
