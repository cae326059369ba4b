use vstd::prelude::*;

verus! {

/// A point or offset on the signed integer lattice.
#[derive(Clone, Copy, Debug, PartialEq, Eq, Structural)]
pub struct IVec3 {
    pub x: i32,
    pub y: i32,
    pub z: i32,
}

impl IVec3 {
    pub fn new(x: i32, y: i32, z: i32) -> (r: IVec3)
        ensures
            r.x == x,
            r.y == y,
            r.z == z,
    {
        IVec3 { x, y, z }
    }

    pub open spec fn splat_spec(v: i32) -> IVec3 {
        IVec3 { x: v, y: v, z: v }
    }

    /// The same value on every axis.
    pub fn splat(v: i32) -> (r: IVec3)
        ensures
            r == IVec3::splat_spec(v),
    {
        IVec3 { x: v, y: v, z: v }
    }
}

/// An 8-bit RGB colour.
#[derive(Clone, Copy, Debug, PartialEq, Eq, Structural)]
pub struct Color {
    pub r: u8,
    pub g: u8,
    pub b: u8,
}

impl Color {
    pub fn new(r: u8, g: u8, b: u8) -> (c: Color)
        ensures
            c.r == r,
            c.g == g,
            c.b == b,
    {
        Color { r, g, b }
    }
}

} // verus!
