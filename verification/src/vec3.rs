use vstd::prelude::*;

verus! {

/// A position or an extent in voxel space: three unsigned coordinates.
#[derive(Clone, Copy, PartialEq, Eq, Structural, Debug)]
pub struct UVec3 {
    pub x: u32,
    pub y: u32,
    pub z: u32,
}

/// Builds a [UVec3] from its three coordinates.
pub fn uvec3(x: u32, y: u32, z: u32) -> (v: UVec3)
    ensures
        v == (UVec3 { x, y, z }),
{
    UVec3 { x, y, z }
}

impl UVec3 {
    /// The origin.
    pub fn zero() -> (v: UVec3)
        ensures
            v == (UVec3 { x: 0, y: 0, z: 0 }),
    {
        UVec3 { x: 0, y: 0, z: 0 }
    }

    /// `(1, 1, 1)`.
    pub fn one() -> (v: UVec3)
        ensures
            v == (UVec3 { x: 1, y: 1, z: 1 }),
    {
        UVec3 { x: 1, y: 1, z: 1 }
    }
}

/// A position in voxel space that may lie on the negative side of an axis.
#[derive(Clone, Copy, PartialEq, Eq, Structural, Debug)]
pub struct IVec3 {
    pub x: i32,
    pub y: i32,
    pub z: i32,
}

/// Builds an [IVec3] from its three coordinates.
pub fn ivec3(x: i32, y: i32, z: i32) -> (v: IVec3)
    ensures
        v == (IVec3 { x, y, z }),
{
    IVec3 { x, y, z }
}

} // verus!
