use vstd::prelude::*;
use crate::utils::{l2s, pw};
use crate::vec3::{UVec3, uvec3, IVec3};
use crate::raw_plat::RawPlat;

verus! {

/// Width, in voxels, of the largest chunk.
pub const WIDTH: usize = 32;
/// Number of voxels in the largest chunk.
pub const MAX_SIZE: usize = WIDTH * WIDTH * WIDTH;
/// Length of [Chunk::data]: six words of metadata, then the voxels.
pub const DATA_LEN: usize = 32774;

/// Index in [Chunk::data] of the voxel at `p` in a chunk `size` voxels wide.
pub open spec fn flat(p: UVec3, size: int) -> int {
    p.x + p.y * size + p.z * size * size + 6
}

/// The position of the voxel kept at index `i` of [Chunk::data], in a chunk `size` voxels wide.
pub open spec fn unflat(i: int, size: int) -> UVec3 {
    let j = i - 6;
    UVec3 { x: (j % size) as u32, y: ((j / size) % size) as u32, z: (j / size / size) as u32 }
}

/// `p` lies inside a chunk `size` voxels wide.
pub open spec fn in_chunk(p: UVec3, size: int) -> bool {
    p.x < size && p.y < size && p.z < size
}

/// A chunk of voxels, flattened into one array so that it can go to the GPU as is.
///
/// `data[0..3]` is the position, `data[3]` the LoD level, `data[4]` the chunk
/// level, `data[5]` the size in voxels; the rest is the flattened chunk.
#[derive(Clone, Copy)]
pub struct Chunk {
    pub data: [u32; DATA_LEN],
}

/// What [Chunk::new] asks for a request.
#[derive(Clone, Copy, Default, Debug, PartialEq, Eq)]
pub struct ChunkLoadRequest {
    pub position: [u32; 3],
    pub lod_level: u32,
    pub chunk_level: u32,
}

impl Default for Chunk {
    fn default() -> (c: Chunk)
        ensures
            forall|i: int| 0 <= i < DATA_LEN ==> #[trigger] c.data[i] == 0,
    {
        Chunk { data: [0u32; DATA_LEN] }
    }
}

/// Flattening a position inside the chunk and back gives the position, and the
/// index lies past the metadata and below `6 + size^3`.
pub proof fn lemma_flat_unflat(p: UVec3, size: int)
    requires
        size > 0,
        in_chunk(p, size),
    ensures
        unflat(flat(p, size), size) == p,
        6 <= flat(p, size) < 6 + size * size * size,
{
    let x = p.x as int;
    let y = p.y as int;
    let z = p.z as int;
    let j = flat(p, size) - 6;
    assert(j == x + size * (y + size * z)) by (nonlinear_arith)
        requires j == x + y * size + z * size * size;
    vstd::arithmetic::div_mod::lemma_fundamental_div_mod_converse(j, size, y + size * z, x);
    vstd::arithmetic::div_mod::lemma_fundamental_div_mod_converse(y + size * z, size, z, y);
    assert(j < size * size * size) by (nonlinear_arith)
        requires j == x + size * (y + size * z), 0 <= x < size, 0 <= y < size, 0 <= z < size;
    assert(j >= 0) by (nonlinear_arith)
        requires j == x + size * (y + size * z), 0 <= x, 0 <= y, 0 <= z, size > 0;
    let q = unflat(flat(p, size), size);
    assert(q.x as int == x);
    assert(q.y as int == y);
    assert(q.z as int == z);
}

/// Distinct positions inside the chunk have distinct indexes.
pub proof fn lemma_flat_injective(p: UVec3, q: UVec3, size: int)
    requires
        size > 0,
        in_chunk(p, size),
        in_chunk(q, size),
        p != q,
    ensures
        flat(p, size) != flat(q, size),
{
    lemma_flat_unflat(p, size);
    lemma_flat_unflat(q, size);
}

impl Chunk {
    /// The voxel at `p`, `0` when there is none.
    pub open spec fn voxel(&self, p: UVec3) -> u32 {
        self.data[flat(p, self.data[5] as int)]
    }

    /// The metadata words are the same in both chunks.
    pub open spec fn same_meta(&self, other: &Chunk) -> bool {
        forall|i: int| 0 <= i < 6 ==> #[trigger] self.data[i] == other.data[i]
    }

    pub fn lod_level(&self) -> (l: usize)
        ensures
            l == self.data[3],
    {
        self.data[3] as usize
    }

    /// Clears every voxel.
    pub fn clean(&mut self)
        ensures
            final(self).same_meta(old(self)),
            forall|i: int| 6 <= i < DATA_LEN ==> #[trigger] final(self).data[i] == 0,
    {
        self.blank_with(0);
    }

    /// Sets every voxel to `d`.
    pub fn blank_with(&mut self, d: u32)
        ensures
            final(self).same_meta(old(self)),
            forall|i: int| 6 <= i < DATA_LEN ==> #[trigger] final(self).data[i] == d,
    {
        let mut i: usize = 0;
        while i < MAX_SIZE
            invariant
                i <= MAX_SIZE,
                MAX_SIZE == 32768,
                self.same_meta(old(self)),
                forall|k: int| 6 <= k < i + 6 ==> #[trigger] self.data[k] == d,
            decreases MAX_SIZE - i,
        {
            self.data[i + 6] = d;
            i += 1;
        }
    }

    /// Copies `layer` over the first voxels of the chunk.
    pub fn fill_layer(&mut self, layer: [u32; 1024])
        ensures
            final(self).same_meta(old(self)),
            forall|i: int| 0 <= i < 1024 ==> #[trigger] final(self).data[i + 6] == layer[i],
            forall|i: int| 1030 <= i < DATA_LEN ==> #[trigger] final(self).data[i] == old(self).data[i],
    {
        let mut i: usize = 0;
        while i < 1024
            invariant
                i <= 1024,
                self.same_meta(old(self)),
                forall|k: int| 0 <= k < i ==> #[trigger] self.data[k + 6] == layer[k],
                forall|k: int| 1030 <= k < DATA_LEN ==> #[trigger] self.data[k] == old(self).data[k],
            decreases 1024 - i,
        {
            self.data[i + 6] = layer[i];
            i += 1;
        }
    }

    pub fn chunk_level(&self) -> (l: usize)
        ensures
            l == self.data[4],
    {
        self.data[4] as usize
    }

    /// The chunk's position, in chunks.
    pub open spec fn position_spec(&self) -> UVec3 {
        UVec3 { x: self.data[0], y: self.data[1], z: self.data[2] }
    }

    pub fn position(&self) -> (p: UVec3)
        ensures
            p == self.position_spec(),
    {
        uvec3(self.data[0], self.data[1], self.data[2])
    }

    /// Size in blocks, tells how many blocks in chunk
    pub fn size(&self) -> (s: u32)
        ensures
            s == self.data[5],
    {
        self.data[5]
    }

    /// Width in meters, tells how much space in 3d space chunk takes
    pub fn width(&self) -> (w: u32)
        requires
            self.data[4] < 32,
        ensures
            w == pw(self.data[4] as nat),
    {
        l2s(self.chunk_level())
    }

    /// An empty chunk at `position`, `2^(chunk_level - lod_level)` voxels wide.
    pub fn new(position: UVec3, lod_level: usize, chunk_level: usize) -> (c: Chunk)
        requires
            lod_level <= chunk_level,
            chunk_level - lod_level < 32,
        ensures
            c.data[0] == position.x && c.data[1] == position.y && c.data[2] == position.z,
            c.data[3] == lod_level as u32,
            c.data[4] == chunk_level as u32,
            c.data[5] == pw((chunk_level - lod_level) as nat),
            forall|i: int| 6 <= i < DATA_LEN ==> #[trigger] c.data[i] == 0,
    {
        let mut data = [0u32; DATA_LEN];
        let p = position;
        data[0] = p.x;
        data[1] = p.y;
        data[2] = p.z;
        data[3] = lod_level as u32;
        data[4] = chunk_level as u32;
        data[5] = l2s(chunk_level - lod_level);
        Self { data }
    }

    /// Sets the metadata.
    pub fn update_meta(&mut self, p: UVec3, lod_level: usize, chunk_level: usize)
        requires
            lod_level <= chunk_level,
            chunk_level - lod_level < 32,
        ensures
            final(self).data[0] == p.x && final(self).data[1] == p.y && final(self).data[2] == p.z,
            final(self).data[3] == lod_level as u32,
            final(self).data[4] == chunk_level as u32,
            final(self).data[5] == pw((chunk_level - lod_level) as nat),
            forall|i: int| 6 <= i < DATA_LEN ==> #[trigger] final(self).data[i] == old(self).data[i],
    {
        self.data[0] = p.x;
        self.data[1] = p.y;
        self.data[2] = p.z;
        self.data[3] = lod_level as u32;
        self.data[4] = chunk_level as u32;
        self.data[5] = l2s(chunk_level - lod_level);
    }

    /// 3D Position to index in chunk
    pub fn flatten_value(&self, p: UVec3) -> (i: usize)
        requires
            p.x + p.y * self.data[5] + p.z * self.data[5] * self.data[5] <= u32::MAX,
            p.x + p.y * self.data[5] + p.z * self.data[5] * self.data[5] + 6 <= usize::MAX,
        ensures
            i == flat(p, self.data[5] as int),
    {
        let size = self.size();
        proof {
            let (x, y, z, s) = (p.x as int, p.y as int, p.z as int, size as int);
            assert(y * s >= 0 && z * s * s >= 0 && z * s >= 0) by (nonlinear_arith)
                requires y >= 0, z >= 0, s >= 0;
            assert(z * s <= 0xFFFF_FFFF) by (nonlinear_arith)
                requires z >= 0, s >= 0, z * s * s <= 0xFFFF_FFFF;
        }
        (p.x + (p.y * size) + (p.z * size * size)) as usize + 6
    }

    /// Index in chunk to 3D Position
    pub fn from_flatten(&self, index: u32) -> (p: UVec3)
        requires
            index >= 6,
            self.data[5] > 0,
        ensures
            p == unflat(index as int, self.data[5] as int),
    {
        let mut index = index;
        index -= 6;
        let size = self.size();
        let x = index % size;
        index /= size;
        let y = index % size;
        index /= size;
        let z = index;
        uvec3(x, y, z)
    }

    /// The word kept for the voxel at `p`.
    pub fn get_raw(&self, p: UVec3) -> (v: u32)
        requires
            flat(p, self.data[5] as int) < DATA_LEN,
        ensures
            v == self.voxel(p),
    {
        proof {
            assert(p.y * self.data[5] >= 0) by (nonlinear_arith);
            assert(p.z * self.data[5] * self.data[5] >= 0) by (nonlinear_arith);
        }
        let idx = self.flatten_value(p);
        self.data[idx]
    }

    /// The voxel at the local position `block_position`, if there is one.
    pub fn get(&self, block_position: UVec3) -> (r: Option<u32>)
        requires
            in_chunk(block_position, self.data[5] as int) ==> flat(block_position, self.data[5] as int) < DATA_LEN,
        ensures
            r == (if in_chunk(block_position, self.data[5] as int) && self.voxel(block_position) != 0 {
                Option::Some(self.voxel(block_position))
            } else {
                Option::None
            }),
    {
        if block_position.x >= self.size() || block_position.y >= self.size() || block_position.z >= self.size() {
            return Option::None;
        }
        let val = self.get_raw(block_position);
        if val != 0 {
            return Option::Some(val);
        } else {
            return Option::None;
        }
    }

    /// The voxel at the local position `block_position`, `0` when there is none
    /// or the position lies outside.
    pub fn get_unchecked(&self, block_position: UVec3) -> (v: u32)
        requires
            in_chunk(block_position, self.data[5] as int) ==> flat(block_position, self.data[5] as int) < DATA_LEN,
        ensures
            v == (if in_chunk(block_position, self.data[5] as int) { self.voxel(block_position) } else { 0 }),
    {
        if block_position.x >= self.size() || block_position.y >= self.size() || block_position.z >= self.size() {
            return 0;
        }
        self.get_raw(block_position)
    }

    /// The chunk's origin in voxels: its position times its width.
    pub open spec fn origin(&self) -> (int, int, int) {
        let w = pw(self.data[4] as nat);
        (self.data[0] * w, self.data[1] * w, self.data[2] * w)
    }

    /// `p`, a global position, lies at or past the chunk's origin.
    pub open spec fn global_ok(&self, p: UVec3) -> bool {
        let o = self.origin();
        &&& self.data[4] < 32
        &&& o.0 <= u32::MAX && o.1 <= u32::MAX && o.2 <= u32::MAX
        &&& o.0 <= p.x && o.1 <= p.y && o.2 <= p.z
    }

    /// `p` made local to the chunk.
    pub open spec fn to_local(&self, p: UVec3) -> UVec3 {
        let o = self.origin();
        UVec3 { x: (p.x - o.0) as u32, y: (p.y - o.1) as u32, z: (p.z - o.2) as u32 }
    }

    /// Makes a global position local to the chunk.
    fn local_of(&self, block_position: UVec3) -> (p: UVec3)
        requires
            self.global_ok(block_position),
        ensures
            p == self.to_local(block_position),
    {
        let w = self.width();
        let o = self.position();
        uvec3(block_position.x - o.x * w, block_position.y - o.y * w, block_position.z - o.z * w)
    }

    /// The voxel at the global position `block_position`, if there is one.
    pub fn get_global(&self, block_position: UVec3) -> (r: Option<u32>)
        requires
            self.global_ok(block_position),
            in_chunk(self.to_local(block_position), self.data[5] as int)
                ==> flat(self.to_local(block_position), self.data[5] as int) < DATA_LEN,
        ensures
            r == (if in_chunk(self.to_local(block_position), self.data[5] as int) && self.voxel(self.to_local(block_position)) != 0 {
                Option::Some(self.voxel(self.to_local(block_position)))
            } else {
                Option::None
            }),
    {
        let p = self.local_of(block_position);
        self.get(p)
    }

    /// Sets the voxel at the local position `position`.
    pub fn set(&mut self, position: UVec3, block: u32)
        requires
            in_chunk(position, old(self).data[5] as int),
            flat(position, old(self).data[5] as int) < DATA_LEN,
        ensures
            final(self).same_meta(old(self)),
            final(self).voxel(position) == block,
            forall|q: UVec3| #[trigger] in_chunk(q, old(self).data[5] as int) && q != position
                && flat(q, old(self).data[5] as int) < DATA_LEN ==> final(self).voxel(q) == old(self).voxel(q),
            forall|i: int| 0 <= i < DATA_LEN && i != flat(position, old(self).data[5] as int)
                ==> #[trigger] final(self).data[i] == old(self).data[i],
    {
        proof {
            lemma_flat_unflat(position, self.data[5] as int);
            assert(position.y * self.data[5] >= 0) by (nonlinear_arith);
            assert(position.z * self.data[5] * self.data[5] >= 0) by (nonlinear_arith);
        }
        let idx = self.flatten_value(position);
        self.data[idx] = block;
        proof {
            assert(self.data[5] == old(self).data[5]);
            assert forall|q: UVec3| #[trigger] in_chunk(q, old(self).data[5] as int) && q != position
                && flat(q, old(self).data[5] as int) < DATA_LEN
                implies self.voxel(q) == old(self).voxel(q) by {
                lemma_flat_injective(q, position, old(self).data[5] as int);
                lemma_flat_unflat(q, old(self).data[5] as int);
            }
        }
    }

    /// Sets the voxel at the global position `position`.
    pub fn set_global(&mut self, position: UVec3, block: u32)
        requires
            old(self).global_ok(position),
            in_chunk(old(self).to_local(position), old(self).data[5] as int),
            flat(old(self).to_local(position), old(self).data[5] as int) < DATA_LEN,
        ensures
            final(self).same_meta(old(self)),
            final(self).voxel(old(self).to_local(position)) == block,
            forall|q: UVec3| #[trigger] in_chunk(q, old(self).data[5] as int) && q != old(self).to_local(position)
                && flat(q, old(self).data[5] as int) < DATA_LEN ==> final(self).voxel(q) == old(self).voxel(q),
            forall|i: int| 0 <= i < DATA_LEN && i != flat(old(self).to_local(position), old(self).data[5] as int)
                ==> #[trigger] final(self).data[i] == old(self).data[i],
    {
        let p = self.local_of(position);
        self.set(p, block);
    }
}


/// Every index past the metadata, below `6 + size^3`, is the index of a
/// position inside the chunk.
pub proof fn lemma_unflat_flat(i: int, size: int)
    requires
        0 < size <= u32::MAX,
        6 <= i < 6 + size * size * size,
    ensures
        in_chunk(unflat(i, size), size),
        flat(unflat(i, size), size) == i,
{
    let j = i - 6;
    let x = j % size;
    let q = j / size;
    let y = q % size;
    let z = q / size;
    vstd::arithmetic::div_mod::lemma_fundamental_div_mod(j, size);
    vstd::arithmetic::div_mod::lemma_fundamental_div_mod(q, size);
    vstd::arithmetic::div_mod::lemma_mod_pos_bound(j, size);
    vstd::arithmetic::div_mod::lemma_mod_pos_bound(q, size);
    assert(q >= 0) by (nonlinear_arith)
        requires j >= 0, size > 0, q == j / size;
    assert(z >= 0) by (nonlinear_arith)
        requires q >= 0, size > 0, z == q / size;
    assert(z < size) by (nonlinear_arith)
        requires j == size * q + x, q == size * z + y, 0 <= x < size, 0 <= y < size, j < size * size * size, z >= 0;
    assert(j == x + y * size + z * size * size) by (nonlinear_arith)
        requires j == size * q + x, q == size * z + y;
    assert(y <= q) by (nonlinear_arith)
        requires q >= 0, size > 0, y == q % size, q == size * z + y, z >= 0;
    let p = unflat(i, size);
    assert(p.x as int == x && p.y as int == y && p.z as int == z);
}

/// A `u32` read as an `i32` keeps its value up to `i32::MAX` and turns negative above it.
pub proof fn lemma_u32_as_i32(x: u32)
    ensures
        x <= i32::MAX ==> (x as i32) as int == x as int,
        x > i32::MAX ==> (x as i32) < 0,
{
    assert(x <= 0x7fff_ffffu32 ==> (x as i32) as u32 == x) by (bit_vector);
    assert(x > 0x7fff_ffffu32 ==> (x as i32) < 0) by (bit_vector);
}

impl Chunk {
    /// The voxels with the indexes `6 .. i`, in order: their positions and ids,
    /// leaving out the empty ones.
    pub open spec fn iter_upto(&self, i: int) -> Seq<(UVec3, u32)>
        decreases i,
    {
        if i <= 6 {
            Seq::empty()
        } else {
            self.iter_upto(i - 1) + (if self.data[i - 1] != 0 {
                seq![(unflat(i - 1, self.data[5] as int), self.data[i - 1])]
            } else {
                Seq::empty()
            })
        }
    }

    /// Iterating over local positions and blocks: every voxel that is set, in the
    /// order of its index.
    pub fn iter(&self) -> (r: Vec<(UVec3, u32)>)
        requires
            self.data[5] > 0,
            6 + self.data[5] * self.data[5] * self.data[5] <= DATA_LEN,
        ensures
            r@ == self.iter_upto(6 + self.data[5] * self.data[5] * self.data[5]),
    {
        let size = self.size();
        proof {
            assert(size * size * size >= 0) by (nonlinear_arith);
            assert(size * size <= size * size * size) by (nonlinear_arith)
                requires size >= 1;
        }
        let end: u32 = size * size * size + 6;
        let mut out: Vec<(UVec3, u32)> = Vec::new();
        let mut index: u32 = 6;
        while index < end
            invariant
                6 <= index <= end,
                end == 6 + size * size * size,
                end <= DATA_LEN,
                size == self.data[5],
                size > 0,
                out@ == self.iter_upto(index as int),
            decreases end - index,
        {
            let voxel_id = self.data[index as usize];
            if voxel_id != 0 {
                out.push((self.from_flatten(index), voxel_id));
            }
            index += 1;
            proof {
                assert(out@ =~= self.iter_upto(index as int));
            }
        }
        out
    }
}

/// Everything [Chunk::iter] hands out is a voxel of the chunk, at its position.
pub proof fn law_iter_items(c: &Chunk, t: int)
    requires
        c.data[5] > 0,
        0 <= t < c.iter_upto(6 + c.data[5] * c.data[5] * c.data[5]).len(),
    ensures
        ({
            let (p, b) = c.iter_upto(6 + c.data[5] * c.data[5] * c.data[5])[t];
            &&& in_chunk(p, c.data[5] as int)
            &&& b != 0
            &&& c.voxel(p) == b
        }),
{
    lemma_iter_upto_items(c, 6 + c.data[5] * c.data[5] * c.data[5], t);
}

/// The items of [Chunk::iter_upto] are voxels of the chunk at their positions.
pub proof fn lemma_iter_upto_items(c: &Chunk, i: int, t: int)
    requires
        c.data[5] > 0,
        i <= 6 + c.data[5] * c.data[5] * c.data[5],
        0 <= t < c.iter_upto(i).len(),
    ensures
        ({
            let (p, b) = c.iter_upto(i)[t];
            &&& in_chunk(p, c.data[5] as int)
            &&& b != 0
            &&& c.voxel(p) == b
        }),
    decreases i,
{
    if i > 6 {
        if t < c.iter_upto(i - 1).len() {
            lemma_iter_upto_items(c, i - 1, t);
        } else {
            lemma_unflat_flat(i - 1, c.data[5] as int);
        }
    }
}

/// `a + b` with both in `i32`, in specifications.
pub open spec fn ivec_add(a: IVec3, b: IVec3) -> (int, int, int) {
    (a.x + b.x, a.y + b.y, a.z + b.z)
}

/// The sum lies inside `i32` on every axis.
pub open spec fn ivec_add_ok(a: IVec3, b: IVec3) -> bool {
    let s = ivec_add(a, b);
    i32::MIN <= s.0 <= i32::MAX && i32::MIN <= s.1 <= i32::MAX && i32::MIN <= s.2 <= i32::MAX
}

impl Chunk {
    /// Where [Chunk::get_neighbor] looks a neighbour up when it lies outside the
    /// chunk: the chunk's origin as an `IVec3`, plus the local position, as a `UVec3`.
    pub open spec fn neighbor_global(&self, sum: (int, int, int)) -> UVec3 {
        let w = pw(self.data[4] as nat);
        UVec3 {
            x: ((((self.data[0] * w) as u32) as i32) + sum.0) as u32,
            y: ((((self.data[1] * w) as u32) as i32) + sum.1) as u32,
            z: ((((self.data[2] * w) as u32) as i32) + sum.2) as u32,
        }
    }

    /// The local position `sum` lies outside the chunk.
    pub open spec fn outside(&self, sum: (int, int, int)) -> bool {
        let size = (self.data[5] as i32) as int;
        sum.2 < 0 || sum.1 < 0 || sum.0 < 0 || sum.0 >= size || sum.1 >= size || sum.2 >= size
    }

    /// What the chunk needs of its metadata for [Chunk::get_neighbor] not to overflow at `sum`.
    pub open spec fn neighbor_ok(&self, sum: (int, int, int)) -> bool {
        let w = pw(self.data[4] as nat);
        &&& self.data[4] < 32
        &&& self.data[0] * w <= u32::MAX && self.data[1] * w <= u32::MAX && self.data[2] * w <= u32::MAX
        &&& self.outside(sum) ==> {
            &&& i32::MIN <= (((self.data[0] * w) as u32) as i32) + sum.0 <= i32::MAX
            &&& i32::MIN <= (((self.data[1] * w) as u32) as i32) + sum.1 <= i32::MAX
            &&& i32::MIN <= (((self.data[2] * w) as u32) as i32) + sum.2 <= i32::MAX
        }
        &&& !self.outside(sum) ==> flat(UVec3 { x: sum.0 as u32, y: sum.1 as u32, z: sum.2 as u32 }, self.data[5] as int) < DATA_LEN
    }

    /// The neighbour of the voxel at `local_block_position` in direction
    /// `neighbor_direction`: from this chunk when it lies inside, else from the
    /// plat, on the chunk's LoD level.
    pub fn get_neighbor(&self, plat: &RawPlat, local_block_position: IVec3, neighbor_direction: IVec3) -> (r: Option<u32>)
        requires
            plat.wf(),
            ivec_add_ok(local_block_position, neighbor_direction),
            self.neighbor_ok(ivec_add(local_block_position, neighbor_direction)),
            self.data[3] < usize::MAX,
        ensures
            ({
                let sum = ivec_add(local_block_position, neighbor_direction);
                let local = UVec3 { x: sum.0 as u32, y: sum.1 as u32, z: sum.2 as u32 };
                if self.outside(sum) {
                    let res = plat.get_node_spec(self.neighbor_global(sum), self.data[3] as int);
                    r == (if res.spec_is_some() { Option::Some(res.voxel_id as u32) } else { Option::None })
                } else {
                    r == (if self.voxel(local) != 0 { Option::Some(self.voxel(local)) } else { Option::None })
                }
            }),
    {
        let real_chunk_size = l2s(self.chunk_level());
        let chunk_size = self.size();
        let dir = neighbor_direction;
        let pos = local_block_position;
        let sum = IVec3 { x: pos.x + dir.x, y: pos.y + dir.y, z: pos.z + dir.z };
        if sum.z < 0 || sum.y < 0 || sum.x < 0 || sum.x >= chunk_size as i32 || sum.y >= chunk_size as i32
            || sum.z >= chunk_size as i32 {
            let o = self.position();
            let global = UVec3 {
                x: (((o.x * real_chunk_size) as i32) + sum.x) as u32,
                y: (((o.y * real_chunk_size) as i32) + sum.y) as u32,
                z: (((o.z * real_chunk_size) as i32) + sum.z) as u32,
            };
            let res = plat.get_node(global, self.lod_level());
            if res.is_some() {
                return Option::Some(res.voxel_id as u32);
            }
            Option::None
        } else {
            let local = UVec3 { x: sum.x as u32, y: sum.y as u32, z: sum.z as u32 };
            proof {
                lemma_u32_as_i32(chunk_size);
            }
            self.get(local)
        }
    }

    /// Like [Chunk::get_neighbor], but `1` for every neighbour outside the chunk,
    /// and `0` for an empty one inside.
    pub fn get_neighbor_unchecked(&self, _plat: &RawPlat, local_block_position: IVec3, neighbor_direction: IVec3) -> (r: u32)
        requires
            ivec_add_ok(local_block_position, neighbor_direction),
            !self.outside(ivec_add(local_block_position, neighbor_direction)) ==> flat(UVec3 {
                x: ivec_add(local_block_position, neighbor_direction).0 as u32,
                y: ivec_add(local_block_position, neighbor_direction).1 as u32,
                z: ivec_add(local_block_position, neighbor_direction).2 as u32,
            }, self.data[5] as int) < DATA_LEN,
            self.data[4] < 32,
        ensures
            ({
                let sum = ivec_add(local_block_position, neighbor_direction);
                r == (if self.outside(sum) { 1 } else { self.voxel(UVec3 { x: sum.0 as u32, y: sum.1 as u32, z: sum.2 as u32 }) })
            }),
    {
        let _real_chunk_size = l2s(self.chunk_level());
        let chunk_size = self.size();
        let sum = IVec3 {
            x: neighbor_direction.x + local_block_position.x,
            y: neighbor_direction.y + local_block_position.y,
            z: neighbor_direction.z + local_block_position.z,
        };
        if sum.z < 0 || sum.y < 0 || sum.x < 0 || sum.x >= chunk_size as i32 || sum.y >= chunk_size as i32
            || sum.z >= chunk_size as i32 {
            1
        } else {
            proof {
                lemma_u32_as_i32(chunk_size);
            }
            self.get_unchecked(UVec3 { x: sum.x as u32, y: sum.y as u32, z: sum.z as u32 })
        }
    }
}


/// Outside the chunk, [Chunk::get_neighbor] looks at the global position of the
/// neighbour: the chunk's origin, `position * 2^chunk_level`, plus the local
/// offset `sum`, wherever both lie in the range of `i32`.
pub proof fn law_neighbor_global(c: &Chunk, sum: (int, int, int))
    requires
        c.data[4] < 32,
        0 <= c.origin().0 <= i32::MAX,
        0 <= c.origin().1 <= i32::MAX,
        0 <= c.origin().2 <= i32::MAX,
        0 <= c.origin().0 + sum.0 <= i32::MAX,
        0 <= c.origin().1 + sum.1 <= i32::MAX,
        0 <= c.origin().2 + sum.2 <= i32::MAX,
    ensures
        c.neighbor_global(sum).x == c.origin().0 + sum.0,
        c.neighbor_global(sum).y == c.origin().1 + sum.1,
        c.neighbor_global(sum).z == c.origin().2 + sum.2,
{
    let o = c.origin();
    assert((o.0 as u32) as i32 == o.0);
    assert((o.1 as u32) as i32 == o.1);
    assert((o.2 as u32) as i32 == o.2);
}

/// Item `t` of the listing up to index `j` is item `t` of every longer listing.
proof fn lemma_iter_prefix(c: &Chunk, j: int, k: int, t: int)
    requires
        j <= k,
        0 <= t < c.iter_upto(j).len(),
    ensures
        t < c.iter_upto(k).len(),
        c.iter_upto(k)[t] == c.iter_upto(j)[t],
    decreases k - j,
{
    if j < k {
        lemma_iter_prefix(c, j, k - 1, t);
        assert(k > 6);
        assert(c.iter_upto(k)[t] == c.iter_upto(k - 1)[t]);
    }
}

/// [Chunk::iter] lists every block that is not empty: each place inside the
/// chunk that holds a block comes with it in the listing.
pub proof fn law_iter_complete(c: &Chunk, p: UVec3)
    requires
        c.data[5] > 0,
        6 + c.data[5] * c.data[5] * c.data[5] <= DATA_LEN,
        in_chunk(p, c.data[5] as int),
        c.voxel(p) != 0,
    ensures
        exists|t: int| 0 <= t < c.iter_upto(6 + c.data[5] * c.data[5] * c.data[5]).len()
            && #[trigger] c.iter_upto(6 + c.data[5] * c.data[5] * c.data[5])[t] == (p, c.voxel(p)),
{
    let size = c.data[5] as int;
    let n = 6 + size * size * size;
    let i = flat(p, size);
    lemma_flat_unflat(p, size);
    assert(c.iter_upto(i + 1) == c.iter_upto(i) + seq![(unflat(i, size), c.data[i])]);
    let t = c.iter_upto(i).len() as int;
    assert(c.iter_upto(i + 1)[t] == (p, c.voxel(p)));
    lemma_iter_prefix(c, i + 1, n, t);
}

} // verus!
