use vstd::prelude::*;
use crate::chunk::{Chunk, in_chunk, flat, ivec_add, DATA_LEN, lemma_flat_unflat};
use crate::raw_plat::RawPlat;
use crate::vec3::{UVec3, IVec3};

verus! {

/// Coordinate `axis` (0 for x, 1 for y, 2 for z) of `p`.
pub open spec fn coord(p: UVec3, axis: int) -> int {
    if axis == 0 { p.x as int } else if axis == 1 { p.y as int } else { p.z as int }
}

/// `p` with coordinate `axis` set to `v`.
pub open spec fn with_coord(p: UVec3, axis: int, v: int) -> UVec3 {
    if axis == 0 {
        UVec3 { x: v as u32, y: p.y, z: p.z }
    } else if axis == 1 {
        UVec3 { x: p.x, y: v as u32, z: p.z }
    } else {
        UVec3 { x: p.x, y: p.y, z: v as u32 }
    }
}

/// Block `c` of the run that starts at `bp` along `line`.
pub open spec fn run_pos(bp: UVec3, line: int, c: int) -> UVec3 {
    with_coord(bp, line, coord(bp, line) + c)
}

/// Block `c` of row `w` of the face that starts at `bp`: `w` along `width`, then
/// `c` along `line`, which wins where both are the same axis.
pub open spec fn row_pos(bp: UVec3, line: int, width: int, c: int, w: int) -> UVec3 {
    with_coord(with_coord(bp, width, coord(bp, width) + w), line, coord(bp, line) + c)
}

impl Chunk {
    /// What [Chunk::get_unchecked] returns at `p`.
    pub open spec fn at(&self, p: UVec3) -> u32 {
        if in_chunk(p, self.data[5] as int) { self.voxel(p) } else { 0 }
    }

    /// What [Chunk::get_neighbor_unchecked] returns for the block at `p` and `dir`.
    pub open spec fn neighbor_at(&self, p: UVec3, dir: IVec3) -> u32 {
        let sum = ivec_add(IVec3 { x: p.x as i32, y: p.y as i32, z: p.z as i32 }, dir);
        if self.outside(sum) { 1 } else { self.voxel(UVec3 { x: sum.0 as u32, y: sum.1 as u32, z: sum.2 as u32 }) }
    }
}

/// The block at `p` can join a face of `block` facing `dir`: it is not used yet
/// in `helper`, holds `block` in `chunk`, and its neighbour in `dir` is empty.
pub open spec fn joins(helper: &Chunk, chunk: &Chunk, block: u32, dir: IVec3, p: UVec3) -> bool {
    &&& helper.at(p) == 0
    &&& chunk.at(p) != 0
    &&& chunk.at(p) == block
    &&& chunk.neighbor_at(p, dir) == 0
}

/// `q` lies on the face that starts at `bp`, `len` blocks along `line` and
/// `width` rows along the other axis (just the run where both axes are the same).
pub open spec fn on_face(bp: UVec3, line: int, wa: int, len: int, width: int, q: UVec3) -> bool {
    let dl = coord(q, line) - coord(bp, line);
    let dw = coord(q, wa) - coord(bp, wa);
    &&& 0 <= dl < len
    &&& if line == wa {
        forall|a: int| 0 <= a < 3 && a != line ==> #[trigger] coord(q, a) == coord(bp, a)
    } else {
        &&& 0 <= dw < width
        &&& forall|a: int| 0 <= a < 3 && a != line && a != wa ==> #[trigger] coord(q, a) == coord(bp, a)
    }
}

/// [RawPlat::greedy_runner] starts a face at `bp`: the block is not marked with
/// `u32::MAX` in `helper` and its neighbour in `dir` is empty.
pub open spec fn starts_face(helper: &Chunk, chunk: &Chunk, bp: UVec3, dir: IVec3) -> bool {
    helper.at(bp) != u32::MAX && chunk.neighbor_at(bp, dir) == 0
}

/// The face that [RawPlat::greedy_runner] makes from `bp`, `len` blocks along
/// `line` and `width` rows along `wa`: the run goes on while the blocks join the
/// face, and the rows while whole rows do; `helper` goes from `h0` to `h1` by
/// marking the face's blocks with `1`.
pub open spec fn face_made(h0: &Chunk, h1: &Chunk, chunk: &Chunk, block: u32, bp: UVec3, line: int, wa: int,
    dir: IVec3, len: int, width: int) -> bool {
    &&& 1 <= len
    &&& forall|c: int| 1 <= c < len ==> #[trigger] joins(h0, chunk, block, dir, run_pos(bp, line, c))
    &&& !joins(h0, chunk, block, dir, run_pos(bp, line, len))
    &&& 1 <= width
    &&& line == wa ==> width == 1
    &&& line != wa ==> {
        &&& forall|c: int, w: int| 0 <= c < len && 1 <= w < width
            ==> #[trigger] joins(h0, chunk, block, dir, row_pos(bp, line, wa, c, w))
        &&& exists|c: int| 0 <= c < len && !#[trigger] joins(h0, chunk, block, dir, row_pos(bp, line, wa, c, width))
    }
    &&& h1.same_meta(h0)
    &&& forall|q: UVec3| #[trigger] in_chunk(q, h0.data[5] as int)
        ==> h1.voxel(q) == (if on_face(bp, line, wa, len, width, q) { 1 } else { h0.voxel(q) })
    &&& forall|i: int| 0 <= i < DATA_LEN && (forall|q: UVec3| in_chunk(q, h0.data[5] as int)
        ==> i != #[trigger] flat(q, h0.data[5] as int)) ==> h1.data[i] == h0.data[i]
}

/// A chunk of at most 32 voxels a side, whose neighbours can be asked for.
pub open spec fn mesh_chunk_ok(c: &Chunk) -> bool {
    c.data[5] <= 32 && c.data[4] < 32
}

/// `p` with coordinate `axis` set to `v`.
fn set_coord(p: UVec3, axis: usize, v: u32) -> (r: UVec3)
    requires
        axis < 3,
    ensures
        r == with_coord(p, axis as int, v as int),
{
    if axis == 0 {
        UVec3 { x: v, y: p.y, z: p.z }
    } else if axis == 1 {
        UVec3 { x: p.x, y: v, z: p.z }
    } else {
        UVec3 { x: p.x, y: p.y, z: v }
    }
}

/// Coordinate `axis` of `p`.
fn get_coord(p: UVec3, axis: usize) -> (v: u32)
    requires
        axis < 3,
    ensures
        v == coord(p, axis as int),
{
    if axis == 0 { p.x } else if axis == 1 { p.y } else { p.z }
}

proof fn lemma_not_max(v: u32)
    ensures
        (!v != 0) == (v != u32::MAX),
{
    assert((!v != 0) == (v != 0xffff_ffffu32)) by (bit_vector);
}

/// A block inside the chunk has its flattened index inside the data.
proof fn lemma_in_data(p: UVec3, size: int)
    requires
        0 < size <= 32,
        in_chunk(p, size),
    ensures
        flat(p, size) < DATA_LEN,
{
    lemma_flat_unflat(p, size);
    assert(size * size * size <= 32768) by (nonlinear_arith)
        requires 0 < size <= 32;
}

/// `q` lies on row `w` of the face, among its first `c` blocks.
pub open spec fn row_prefix(bp: UVec3, line: int, wa: int, c: int, w: int, q: UVec3) -> bool {
    &&& coord(q, wa) - coord(bp, wa) == w
    &&& 0 <= coord(q, line) - coord(bp, line) < c
    &&& forall|a: int| 0 <= a < 3 && a != line && a != wa ==> #[trigger] coord(q, a) == coord(bp, a)
}

proof fn lemma_coord_with(p: UVec3, axis: int, v: int, a: int)
    requires
        0 <= axis < 3,
        0 <= a < 3,
        0 <= v <= u32::MAX,
    ensures
        coord(with_coord(p, axis, v), a) == (if a == axis { v } else { coord(p, a) }),
{
}

proof fn lemma_eq_by_coords(p: UVec3, q: UVec3)
    requires
        forall|a: int| 0 <= a < 3 ==> #[trigger] coord(p, a) == coord(q, a),
    ensures
        p == q,
{
    assert(coord(p, 0) == coord(q, 0));
    assert(coord(p, 1) == coord(q, 1));
    assert(coord(p, 2) == coord(q, 2));
}

/// The face of one block is the block.
proof fn lemma_face_one(bp: UVec3, li: int, wi: int, q: UVec3)
    requires
        0 <= li < 3,
        0 <= wi < 3,
    ensures
        on_face(bp, li, wi, 1, 1, q) == (q == bp),
{
    if on_face(bp, li, wi, 1, 1, q) {
        assert forall|a: int| 0 <= a < 3 implies #[trigger] coord(q, a) == coord(bp, a) by {}
        lemma_eq_by_coords(q, bp);
    }
}

/// The next block of the run does not lie on the face so far.
proof fn lemma_run_fresh(bp: UVec3, li: int, wi: int, len: int)
    requires
        0 <= li < 3,
        0 <= wi < 3,
        1 <= len <= 33,
        bp.x < 32 && bp.y < 32 && bp.z < 32,
    ensures
        !on_face(bp, li, wi, len, 1, run_pos(bp, li, len)),
        run_pos(bp, li, len).x < 96 && run_pos(bp, li, len).y < 96 && run_pos(bp, li, len).z < 96,
{
    lemma_coord_with(bp, li, coord(bp, li) + len, 0);
    lemma_coord_with(bp, li, coord(bp, li) + len, 1);
    lemma_coord_with(bp, li, coord(bp, li) + len, 2);
}

/// The run grows by its next block.
proof fn lemma_run_step(bp: UVec3, li: int, wi: int, len: int, q: UVec3)
    requires
        0 <= li < 3,
        0 <= wi < 3,
        1 <= len <= 32,
        bp.x < 32 && bp.y < 32 && bp.z < 32,
    ensures
        on_face(bp, li, wi, len + 1, 1, q) == (on_face(bp, li, wi, len, 1, q) || q == run_pos(bp, li, len)),
{
    let r = run_pos(bp, li, len);
    assert forall|a: int| 0 <= a < 3 implies #[trigger] coord(r, a) == (if a == li { coord(bp, li) + len } else { coord(bp, a) }) by {
        lemma_coord_with(bp, li, coord(bp, li) + len, a);
    }
    if on_face(bp, li, wi, len + 1, 1, q) && coord(q, li) - coord(bp, li) == len {
        assert forall|a: int| 0 <= a < 3 implies #[trigger] coord(q, a) == coord(r, a) by {}
        lemma_eq_by_coords(q, r);
    }
}

/// A block of the next row does not lie on the face so far; where both axes are
/// the same, the row's first block is the start block.
proof fn lemma_row_fresh(bp: UVec3, li: int, wi: int, len: int, w: int, c: int)
    requires
        0 <= li < 3,
        0 <= wi < 3,
        1 <= len <= 33,
        1 <= w <= 33,
        0 <= c < len,
        bp.x < 32 && bp.y < 32 && bp.z < 32,
    ensures
        li != wi ==> !on_face(bp, li, wi, len, w, row_pos(bp, li, wi, c, w)),
        li == wi && c == 0 ==> row_pos(bp, li, wi, c, w) == bp,
        row_pos(bp, li, wi, c, w).x < 96 && row_pos(bp, li, wi, c, w).y < 96 && row_pos(bp, li, wi, c, w).z < 96,
{
    let p1 = with_coord(bp, wi, coord(bp, wi) + w);
    let r = row_pos(bp, li, wi, c, w);
    assert forall|a: int| 0 <= a < 3 implies #[trigger] coord(r, a)
        == (if a == li { coord(bp, li) + c } else if a == wi { coord(bp, wi) + w } else { coord(bp, a) }) by {
        lemma_coord_with(bp, wi, coord(bp, wi) + w, a);
        lemma_coord_with(p1, li, coord(bp, li) + c, a);
    }
    if li == wi && c == 0 {
        assert forall|a: int| 0 <= a < 3 implies #[trigger] coord(r, a) == coord(bp, a) by {}
        lemma_eq_by_coords(r, bp);
    }
    assert(coord(r, 0) < 96 && coord(r, 1) < 96 && coord(r, 2) < 96);
}

/// The row prefix grows by its next block.
proof fn lemma_row_prefix_step(bp: UVec3, li: int, wi: int, c: int, w: int, q: UVec3)
    requires
        0 <= li < 3,
        0 <= wi < 3,
        li != wi,
        0 <= c < 33,
        1 <= w <= 33,
        bp.x < 32 && bp.y < 32 && bp.z < 32,
    ensures
        row_prefix(bp, li, wi, c + 1, w, q) == (row_prefix(bp, li, wi, c, w, q) || q == row_pos(bp, li, wi, c, w)),
{
    let p1 = with_coord(bp, wi, coord(bp, wi) + w);
    let r = row_pos(bp, li, wi, c, w);
    assert forall|a: int| 0 <= a < 3 implies #[trigger] coord(r, a)
        == (if a == li { coord(bp, li) + c } else if a == wi { coord(bp, wi) + w } else { coord(bp, a) }) by {
        lemma_coord_with(bp, wi, coord(bp, wi) + w, a);
        lemma_coord_with(p1, li, coord(bp, li) + c, a);
    }
    if row_prefix(bp, li, wi, c + 1, w, q) && coord(q, li) - coord(bp, li) == c {
        assert forall|a: int| 0 <= a < 3 implies #[trigger] coord(q, a) == coord(r, a) by {}
        lemma_eq_by_coords(q, r);
    }
}

/// The face grows by a whole row.
proof fn lemma_face_row(bp: UVec3, li: int, wi: int, len: int, w: int, q: UVec3)
    requires
        0 <= li < 3,
        0 <= wi < 3,
        li != wi,
        1 <= w,
    ensures
        on_face(bp, li, wi, len, w + 1, q) == (on_face(bp, li, wi, len, w, q) || row_prefix(bp, li, wi, len, w, q)),
{
}

impl RawPlat {
    /// Whether the block at `p` can join the face, asking the chunks as the
    /// meshing loop does.
    fn joins_exec(&self, helper: &Chunk, chunk: &Chunk, block: u32, dir: IVec3, p: UVec3) -> (b: bool)
        requires
            mesh_chunk_ok(helper),
            mesh_chunk_ok(chunk),
            p.x < 96 && p.y < 96 && p.z < 96,
            i32::MIN + 128 <= dir.x <= i32::MAX - 128,
            i32::MIN + 128 <= dir.y <= i32::MAX - 128,
            i32::MIN + 128 <= dir.z <= i32::MAX - 128,
        ensures
            b == joins(helper, chunk, block, dir, p),
    {
        proof {
            if in_chunk(p, helper.data[5] as int) { lemma_in_data(p, helper.data[5] as int); }
            if in_chunk(p, chunk.data[5] as int) { lemma_in_data(p, chunk.data[5] as int); }
        }
        if helper.get_unchecked(p) != 0 {
            return false;
        }
        let run_block = chunk.get_unchecked(p);
        if run_block != 0 {
            if run_block == block {
                let ip = IVec3 { x: p.x as i32, y: p.y as i32, z: p.z as i32 };
                proof {
                    let sum = ivec_add(ip, dir);
                    if !chunk.outside(sum) {
                        crate::chunk::lemma_u32_as_i32(chunk.data[5]);
                        lemma_in_data(UVec3 { x: sum.0 as u32, y: sum.1 as u32, z: sum.2 as u32 }, chunk.data[5] as int);
                    }
                }
                if chunk.get_neighbor_unchecked(self, ip, dir) == 0 {
                    return true;
                }
            }
        }
        false
    }

    /// Grows a face of `block` facing `neighbor_direction` from the block at
    /// `block_position`: first a run along `line_idx` as long as the blocks join
    /// the face, then rows along `width_idx` as long as a whole row joins it,
    /// marking every block taken with `1` in `mesh_helper`. Nothing happens, and
    /// `None` comes back, when the start block is marked with `u32::MAX` or its
    /// neighbour in `neighbor_direction` is not empty; else the length and width
    /// of the face.
    #[verifier::spinoff_prover]
    pub fn greedy_runner(&self, mesh_helper: &mut Chunk, chunk: &Chunk, block: u32, block_position: UVec3,
        line_idx: usize, width_idx: usize, neighbor_direction: IVec3) -> (r: Option<(u32, u32)>)
        requires
            mesh_chunk_ok(old(mesh_helper)),
            mesh_chunk_ok(chunk),
            chunk.data[5] <= old(mesh_helper).data[5],
            line_idx < 3,
            block_position.x < 32 && block_position.y < 32 && block_position.z < 32,
            i32::MIN + 128 <= neighbor_direction.x <= i32::MAX - 128,
            i32::MIN + 128 <= neighbor_direction.y <= i32::MAX - 128,
            i32::MIN + 128 <= neighbor_direction.z <= i32::MAX - 128,
            old(mesh_helper).at(block_position) != u32::MAX && chunk.neighbor_at(block_position, neighbor_direction) == 0
                ==> width_idx < 3 && in_chunk(block_position, old(mesh_helper).data[5] as int),
        ensures
            (r is Some) == starts_face(old(mesh_helper), chunk, block_position, neighbor_direction),
            r is None ==> *final(mesh_helper) == *old(mesh_helper),
            r is Some ==> face_made(old(mesh_helper), final(mesh_helper), chunk, block, block_position,
                line_idx as int, width_idx as int, neighbor_direction, (r->0).0 as int, (r->0).1 as int),
    {
        let dir = neighbor_direction;
        let bp = block_position;
        let ghost h0 = *mesh_helper;
        proof {
            if in_chunk(bp, h0.data[5] as int) { lemma_in_data(bp, h0.data[5] as int); }
        }
        let start_used = mesh_helper.get_unchecked(block_position);
        proof {
            lemma_not_max(start_used);
            let sum = ivec_add(IVec3 { x: bp.x as i32, y: bp.y as i32, z: bp.z as i32 }, dir);
            if !chunk.outside(sum) {
                crate::chunk::lemma_u32_as_i32(chunk.data[5]);
                lemma_in_data(UVec3 { x: sum.0 as u32, y: sum.1 as u32, z: sum.2 as u32 }, chunk.data[5] as int);
            }
        }
        if !(!start_used != 0
            && chunk.get_neighbor_unchecked(self, IVec3 { x: bp.x as i32, y: bp.y as i32, z: bp.z as i32 }, dir) == 0) {
            return Option::None;
        }
        let ghost li = line_idx as int;
        let ghost wi = width_idx as int;
        let hs = mesh_helper.size();
        mesh_helper.set(bp, 1);
        let start_l = get_coord(bp, line_idx);
        let mut line_len: u32 = 1;
        proof {
            assert forall|q: UVec3| #[trigger] in_chunk(q, h0.data[5] as int) implies mesh_helper.voxel(q)
                == (if on_face(bp, li, wi, 1, 1, q) { 1 } else { h0.voxel(q) }) by {
                lemma_face_one(bp, li, wi, q);
                lemma_in_data(q, h0.data[5] as int);
            }
        }
        // The run along the line.
        loop
            invariant_except_break
                forall|q: UVec3| #[trigger] in_chunk(q, h0.data[5] as int)
                    ==> mesh_helper.voxel(q) == (if on_face(bp, li, wi, line_len as int, 1, q) { 1 } else { h0.voxel(q) }),
            invariant
                1 <= line_len <= 33,
                li == line_idx && wi == width_idx,
                line_idx < 3 && width_idx < 3,
                start_l == coord(bp, li),
                bp.x < 32 && bp.y < 32 && bp.z < 32,
                hs == h0.data[5],
                mesh_chunk_ok(&h0),
                mesh_chunk_ok(chunk),
                chunk.data[5] <= h0.data[5],
                in_chunk(bp, h0.data[5] as int),
                i32::MIN + 128 <= dir.x <= i32::MAX - 128,
                i32::MIN + 128 <= dir.y <= i32::MAX - 128,
                i32::MIN + 128 <= dir.z <= i32::MAX - 128,
                mesh_helper.same_meta(&h0),
                forall|c: int| 1 <= c < line_len ==> #[trigger] joins(&h0, chunk, block, dir, run_pos(bp, li, c)),
                line_len >= 2 ==> coord(bp, li) + line_len - 1 < chunk.data[5],
                forall|i: int| 0 <= i < DATA_LEN && (forall|q: UVec3| in_chunk(q, h0.data[5] as int)
                    ==> i != #[trigger] flat(q, h0.data[5] as int)) ==> mesh_helper.data[i] == h0.data[i],
            ensures
                !joins(&h0, chunk, block, dir, run_pos(bp, li, line_len as int)),
                forall|q: UVec3| #[trigger] in_chunk(q, h0.data[5] as int)
                    ==> mesh_helper.voxel(q) == (if on_face(bp, li, wi, line_len as int, 1, q) { 1 } else { h0.voxel(q) }),
            decreases 33 - line_len,
        {
            let next_pos = set_coord(bp, line_idx, start_l + line_len);
            proof {
                lemma_run_fresh(bp, li, wi, line_len as int);
                if in_chunk(next_pos, h0.data[5] as int) {
                    assert(mesh_helper.voxel(next_pos) == h0.voxel(next_pos));
                }
            }
            if !self.joins_exec(mesh_helper, chunk, block, dir, next_pos) {
                break;
            }
            proof {
                lemma_in_data(next_pos, h0.data[5] as int);
            }
            let ghost before = *mesh_helper;
            mesh_helper.set(next_pos, 1);
            line_len += 1;
            proof {
                assert forall|q: UVec3| #[trigger] in_chunk(q, h0.data[5] as int) implies mesh_helper.voxel(q)
                    == (if on_face(bp, li, wi, line_len as int, 1, q) { 1 } else { h0.voxel(q) }) by {
                    lemma_run_step(bp, li, wi, (line_len - 1) as int, q);
                    lemma_in_data(q, h0.data[5] as int);
                    if q != next_pos {
                        assert(mesh_helper.voxel(q) == before.voxel(q));
                    }
                }
            }
        }
        let ghost len = line_len as int;
        // The rows across.
        let start_w = get_coord(bp, width_idx);
        let mut line_width: u32 = 1;
        loop
            invariant_except_break
                forall|q: UVec3| #[trigger] in_chunk(q, h0.data[5] as int)
                    ==> mesh_helper.voxel(q) == (if on_face(bp, li, wi, len, line_width as int, q) { 1 } else { h0.voxel(q) }),
            invariant
                1 <= line_len <= 33,
                len == line_len,
                1 <= line_width <= 33,
                li == line_idx && wi == width_idx,
                line_idx < 3 && width_idx < 3,
                start_l == coord(bp, li),
                start_w == coord(bp, wi),
                bp.x < 32 && bp.y < 32 && bp.z < 32,
                hs == h0.data[5],
                mesh_chunk_ok(&h0),
                mesh_chunk_ok(chunk),
                chunk.data[5] <= h0.data[5],
                in_chunk(bp, h0.data[5] as int),
                i32::MIN + 128 <= dir.x <= i32::MAX - 128,
                i32::MIN + 128 <= dir.y <= i32::MAX - 128,
                i32::MIN + 128 <= dir.z <= i32::MAX - 128,
                mesh_helper.same_meta(&h0),
                li == wi ==> line_width == 1,
                forall|c: int| 1 <= c < len ==> #[trigger] joins(&h0, chunk, block, dir, run_pos(bp, li, c)),
                !joins(&h0, chunk, block, dir, run_pos(bp, li, len)),
                li != wi ==> forall|c: int, w: int| 0 <= c < len && 1 <= w < line_width
                    ==> #[trigger] joins(&h0, chunk, block, dir, row_pos(bp, li, wi, c, w)),
                line_width >= 2 ==> coord(bp, wi) + line_width - 1 < chunk.data[5],
                forall|i: int| 0 <= i < DATA_LEN && (forall|q: UVec3| in_chunk(q, h0.data[5] as int)
                    ==> i != #[trigger] flat(q, h0.data[5] as int)) ==> mesh_helper.data[i] == h0.data[i],
            ensures
                li != wi ==> exists|c: int| 0 <= c < len && !#[trigger] joins(&h0, chunk, block, dir, row_pos(bp, li, wi, c, line_width as int)),
                forall|q: UVec3| #[trigger] in_chunk(q, h0.data[5] as int)
                    ==> mesh_helper.voxel(q) == (if on_face(bp, li, wi, len, line_width as int, q) { 1 } else { h0.voxel(q) }),
            decreases 33 - line_width,
        {
            let mut c: u32 = 0;
            let mut flag = true;
            while c < line_len
                invariant_except_break
                    flag,
                invariant
                    c <= line_len,
                    len == line_len,
                    1 <= line_width <= 33,
                    li == line_idx && wi == width_idx,
                    line_idx < 3 && width_idx < 3,
                    start_l == coord(bp, li),
                    start_w == coord(bp, wi),
                    bp.x < 32 && bp.y < 32 && bp.z < 32,
                    line_len <= 33,
                    mesh_chunk_ok(&h0),
                    mesh_chunk_ok(chunk),
                    in_chunk(bp, h0.data[5] as int),
                    mesh_helper.same_meta(&h0),
                    mesh_chunk_ok(mesh_helper),
                    i32::MIN + 128 <= dir.x <= i32::MAX - 128,
                    i32::MIN + 128 <= dir.y <= i32::MAX - 128,
                    i32::MIN + 128 <= dir.z <= i32::MAX - 128,
                    forall|q: UVec3| #[trigger] in_chunk(q, h0.data[5] as int)
                        ==> mesh_helper.voxel(q) == (if on_face(bp, li, wi, len, line_width as int, q) { 1 } else { h0.voxel(q) }),
                    flag ==> li != wi ==> forall|c2: int| 0 <= c2 < c ==> #[trigger] joins(&h0, chunk, block, dir, row_pos(bp, li, wi, c2, line_width as int)),
                    !flag ==> li != wi ==> exists|c2: int| 0 <= c2 < len && !#[trigger] joins(&h0, chunk, block, dir, row_pos(bp, li, wi, c2, line_width as int)),
                    !flag ==> li == wi ==> true,
                    li == wi ==> !flag || c == 0,
                ensures
                    flag ==> c == line_len,
                    flag ==> li != wi ==> forall|c2: int| 0 <= c2 < c ==> #[trigger] joins(&h0, chunk, block, dir, row_pos(bp, li, wi, c2, line_width as int)),
                    !flag ==> li != wi ==> exists|c2: int| 0 <= c2 < len && !#[trigger] joins(&h0, chunk, block, dir, row_pos(bp, li, wi, c2, line_width as int)),
                    li == wi ==> !flag || c == 0,
                    forall|q: UVec3| #[trigger] in_chunk(q, h0.data[5] as int)
                        ==> mesh_helper.voxel(q) == (if on_face(bp, li, wi, len, line_width as int, q) { 1 } else { h0.voxel(q) }),
                decreases line_len - c + (if flag { 1int } else { 0int }),
            {
                let new_pos = set_coord(set_coord(bp, width_idx, start_w + line_width), line_idx, start_l + c);
                proof {
                    assert(new_pos == row_pos(bp, li, wi, c as int, line_width as int));
                    lemma_row_fresh(bp, li, wi, len, line_width as int, c as int);
                    if in_chunk(new_pos, h0.data[5] as int) && li != wi {
                        assert(mesh_helper.voxel(new_pos) == h0.voxel(new_pos));
                    }
                    if li == wi {
                        assert(c == 0);
                        assert(new_pos == bp);
                        assert(on_face(bp, li, wi, len, line_width as int, bp));
                        assert(mesh_helper.voxel(bp) == 1);
                    }
                    if li != wi {
                        assert(joins(&*mesh_helper, chunk, block, dir, new_pos) == joins(&h0, chunk, block, dir, new_pos));
                    }
                }
                if !self.joins_exec(mesh_helper, chunk, block, dir, new_pos) {
                    flag = false;
                    proof {
                        if li != wi {
                            assert(!joins(&h0, chunk, block, dir, row_pos(bp, li, wi, c as int, line_width as int)));
                        }
                    }
                    break;
                }
                c += 1;
            }
            if flag {
                proof {
                    assert(li != wi);
                }
                let mut c2: u32 = 0;
                while c2 < line_len
                    invariant
                        c2 <= line_len,
                        len == line_len,
                        1 <= line_width <= 33,
                        li == line_idx && wi == width_idx,
                        li != wi,
                        line_idx < 3 && width_idx < 3,
                        start_l == coord(bp, li),
                        start_w == coord(bp, wi),
                        bp.x < 32 && bp.y < 32 && bp.z < 32,
                        line_len <= 33,
                        hs == h0.data[5],
                        mesh_chunk_ok(&h0),
                        chunk.data[5] <= h0.data[5],
                        mesh_helper.same_meta(&h0),
                        forall|c3: int| 0 <= c3 < len ==> #[trigger] joins(&h0, chunk, block, dir, row_pos(bp, li, wi, c3, line_width as int)),
                        forall|q: UVec3| #[trigger] in_chunk(q, h0.data[5] as int)
                            ==> mesh_helper.voxel(q) == (if on_face(bp, li, wi, len, line_width as int, q)
                                || row_prefix(bp, li, wi, c2 as int, line_width as int, q) { 1 } else { h0.voxel(q) }),
                        forall|i: int| 0 <= i < DATA_LEN && (forall|q: UVec3| in_chunk(q, h0.data[5] as int)
                            ==> i != #[trigger] flat(q, h0.data[5] as int)) ==> mesh_helper.data[i] == h0.data[i],
                    decreases line_len - c2,
                {
                    let new_pos = set_coord(set_coord(bp, width_idx, start_w + line_width), line_idx, start_l + c2);
                    proof {
                        assert(joins(&h0, chunk, block, dir, row_pos(bp, li, wi, c2 as int, line_width as int)));
                        lemma_in_data(new_pos, h0.data[5] as int);
                    }
                    let ghost before = *mesh_helper;
                    mesh_helper.set(new_pos, 1);
                    c2 += 1;
                    proof {
                        assert forall|q: UVec3| #[trigger] in_chunk(q, h0.data[5] as int) implies mesh_helper.voxel(q)
                            == (if on_face(bp, li, wi, len, line_width as int, q)
                                || row_prefix(bp, li, wi, c2 as int, line_width as int, q) { 1 } else { h0.voxel(q) }) by {
                            lemma_row_prefix_step(bp, li, wi, (c2 - 1) as int, line_width as int, q);
                            lemma_in_data(q, h0.data[5] as int);
                            if q != new_pos {
                                assert(mesh_helper.voxel(q) == before.voxel(q));
                            }
                        }
                    }
                }
                line_width += 1;
                proof {
                    assert forall|q: UVec3| #[trigger] in_chunk(q, h0.data[5] as int) implies mesh_helper.voxel(q)
                        == (if on_face(bp, li, wi, len, line_width as int, q) { 1 } else { h0.voxel(q) }) by {
                        lemma_face_row(bp, li, wi, len, (line_width - 1) as int, q);
                    }
                    assert(joins(&h0, chunk, block, dir, row_pos(bp, li, wi, 0, (line_width - 1) as int)));
                }
            } else {
                break;
            }
        }
        proof {
            let h1 = *mesh_helper;
            assert(face_made(&h0, &h1, chunk, block, bp, li, wi, dir, line_len as int, line_width as int));
        }
        Option::Some((line_len, line_width))
    }
}


/// Two positions with the same three coordinates are the same.
proof fn lemma_same_coords(p: UVec3, q: UVec3)
    requires
        coord(p, 0) == coord(q, 0),
        coord(p, 1) == coord(q, 1),
        coord(p, 2) == coord(q, 2),
    ensures
        p == q,
{
}

/// Every block of a face that [RawPlat::greedy_runner] makes, but the one it
/// starts from, holds the face's block, was not used before, and has an empty
/// neighbour in the face's direction: a face never runs over a block of
/// another id, a used block, or a covered one.
pub proof fn law_face_holds_block(h0: &Chunk, h1: &Chunk, chunk: &Chunk, block: u32, bp: UVec3, line: int, wa: int,
    dir: IVec3, len: int, width: int, q: UVec3)
    requires
        0 <= line < 3,
        0 <= wa < 3,
        face_made(h0, h1, chunk, block, bp, line, wa, dir, len, width),
        on_face(bp, line, wa, len, width, q),
        q != bp,
    ensures
        chunk.at(q) == block,
        chunk.at(q) != 0,
        h0.at(q) == 0,
        chunk.neighbor_at(q, dir) == 0,
{
    let dl = coord(q, line) - coord(bp, line);
    let dw = coord(q, wa) - coord(bp, wa);
    if line == wa || dw == 0 {
        let r = run_pos(bp, line, dl);
        assert forall|a: int| 0 <= a < 3 implies coord(r, a) == coord(q, a) by {
            lemma_coord_with(bp, line, coord(bp, line) + dl, a);
            if a != line {
                assert(coord(q, a) == coord(bp, a));
            }
        }
        lemma_same_coords(r, q);
        if dl == 0 {
            assert forall|a: int| 0 <= a < 3 implies coord(bp, a) == coord(q, a) by {
                if a != line {
                    assert(coord(q, a) == coord(bp, a));
                }
            }
            lemma_same_coords(bp, q);
        }
        assert(joins(h0, chunk, block, dir, run_pos(bp, line, dl)));
    } else {
        let r = row_pos(bp, line, wa, dl, dw);
        let r1 = with_coord(bp, wa, coord(bp, wa) + dw);
        assert forall|a: int| 0 <= a < 3 implies coord(r, a) == coord(q, a) by {
            lemma_coord_with(bp, wa, coord(bp, wa) + dw, a);
            lemma_coord_with(r1, line, coord(bp, line) + dl, a);
            if a != line && a != wa {
                assert(coord(q, a) == coord(bp, a));
            }
        }
        lemma_same_coords(r, q);
        assert(joins(h0, chunk, block, dir, row_pos(bp, line, wa, dl, dw)));
    }
}

} // verus!
