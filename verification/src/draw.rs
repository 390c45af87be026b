use vstd::prelude::*;

verus! {

/// One indirect draw call, as the GPU reads it.
#[derive(Clone, Copy, PartialEq, Eq, Structural, Debug)]
pub struct DrawIndirectPacked {
    pub vertex_count: u32,
    pub instance_count: u32,
    pub base_vertex: u32,
    pub base_instance: u32,
}

/// Faces (vertices * 6) per bucket of the vertex pool.
pub const BUCKET_SIZE: u32 = 512;

/// Buckets in the whole vertex pool.
pub const VP_SIZE: u32 = 6144;

/// Draw calls: one per bucket that can be in use at a time.
pub const DRAW_CALLS: u32 = 12;

impl DrawIndirectPacked {
    /// Size in bytes of one draw call.
    pub fn size() -> (r: u64)
        ensures
            r == 16,
    {
        16
    }

    /// The four words, in the order the GPU reads them.
    pub fn to_arr(self) -> (r: [u32; 4])
        ensures
            r@ == seq![self.vertex_count, self.instance_count, self.base_vertex, self.base_instance],
    {
        let r = [self.vertex_count, self.instance_count, self.base_vertex, self.base_instance];
        assert(r@ =~= seq![self.vertex_count, self.instance_count, self.base_vertex, self.base_instance]);
        r
    }
}

/// The draw call of bucket `i`: all its vertices, one instance, starting at the
/// bucket's first vertex.
pub open spec fn bucket_call(i: int, bucket_size: int) -> DrawIndirectPacked {
    DrawIndirectPacked {
        vertex_count: (bucket_size * 6) as u32,
        instance_count: 1,
        base_vertex: (i * bucket_size * 6) as u32,
        base_instance: 0,
    }
}

/// The table of indirect draw calls, one per bucket.
pub fn indirect_table(draw_calls: u32, bucket_size: u32) -> (r: Vec<DrawIndirectPacked>)
    requires
        draw_calls * bucket_size * 6 <= u32::MAX,
    ensures
        r@.len() == draw_calls,
        forall|i: int| 0 <= i < draw_calls ==> #[trigger] r@[i] == bucket_call(i, bucket_size as int),
{
    let mut r: Vec<DrawIndirectPacked> = Vec::new();
    let mut i: u32 = 0;
    while i < draw_calls
        invariant
            i <= draw_calls,
            draw_calls * bucket_size * 6 <= u32::MAX,
            r@.len() == i,
            forall|j: int| 0 <= j < i ==> #[trigger] r@[j] == bucket_call(j, bucket_size as int),
        decreases draw_calls - i,
    {
        assert(i * bucket_size * 6 <= draw_calls * bucket_size * 6) by (nonlinear_arith)
            requires i <= draw_calls;
        assert(bucket_size * 6 <= draw_calls * bucket_size * 6) by (nonlinear_arith)
            requires i < draw_calls;
        r.push(DrawIndirectPacked {
            vertex_count: bucket_size * 6,
            instance_count: 1,
            base_vertex: i * bucket_size * 6,
            base_instance: 0,
        });
        i += 1;
    }
    r
}

} // verus!
