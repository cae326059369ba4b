use vstd::prelude::*;

use crate::vec3::{Color, IVec3};

verus! {

/// Height of the tallest possible terrain column.
pub const MAX_HEIGHT: i32 = 100;

/// The datum stored per lattice cell.
#[derive(Clone, Copy, Debug, PartialEq, Eq, Structural)]
pub struct Voxel {
    pub color: Color,
}

pub open spec fn water_blue() -> Color {
    Color { r: 0, g: 80, b: 200 }
}

pub open spec fn grass_green() -> Color {
    Color { r: 50, g: 170, b: 50 }
}

pub open spec fn mountain_gray() -> Color {
    Color { r: 130, g: 130, b: 130 }
}

pub open spec fn snow_white() -> Color {
    Color { r: 240, g: 240, b: 255 }
}

/// Colour band of a column of height `h`, by `h / MAX_HEIGHT` against
/// 0.3, 0.6 and 0.8.
pub open spec fn band_color(h: int) -> Color {
    if 10 * h < 3 * MAX_HEIGHT {
        water_blue()
    } else if 10 * h < 6 * MAX_HEIGHT {
        grass_green()
    } else if 10 * h < 8 * MAX_HEIGHT {
        mountain_gray()
    } else {
        snow_white()
    }
}

/// What a column of height `h` holds at altitude `z`: a voxel coloured by the
/// column's band for `0 <= z <= h`, nothing elsewhere.
pub open spec fn column_voxel_spec(z: int, h: int) -> Option<Voxel> {
    if 0 <= z <= h {
        Some(Voxel { color: band_color(h) })
    } else {
        None
    }
}

/// Colour of a column of height `z`.
pub fn height_to_color(z: i32) -> (c: Color)
    ensures
        c == band_color(z as int),
{
    let z = z as i64;
    if 10 * z < 3 * (MAX_HEIGHT as i64) {
        Color::new(0, 80, 200)
    } else if 10 * z < 6 * (MAX_HEIGHT as i64) {
        Color::new(50, 170, 50)
    } else if 10 * z < 8 * (MAX_HEIGHT as i64) {
        Color::new(130, 130, 130)
    } else {
        Color::new(240, 240, 255)
    }
}

/// The voxel at altitude `z` of a column of height `h`.
pub fn column_voxel(z: i32, h: i32) -> (r: Option<Voxel>)
    ensures
        r == column_voxel_spec(z as int, h as int),
{
    if 0 <= z && z <= h {
        Some(Voxel { color: height_to_color(h) })
    } else {
        None
    }
}

/// A terrain height field sampled over a rectangle of columns: `x` in
/// `[min_x, min_x + width)`, `y` in `[min_y, min_y + depth)`. Columns outside
/// the rectangle hold nothing.
pub struct VoxelGenerator {
    min_x: i32,
    min_y: i32,
    width: usize,
    depth: usize,
    heights: Vec<i32>,
}

impl VoxelGenerator {
    pub closed spec fn wf(&self) -> bool {
        &&& self.heights@.len() == self.width * self.depth
        &&& self.min_x + self.width <= i32::MAX + 1
        &&& self.min_y + self.depth <= i32::MAX + 1
    }

    /// Height of column `(x, y)`, if the rectangle covers it.
    pub closed spec fn height_spec(&self, x: int, y: int) -> Option<int> {
        if self.min_x <= x < self.min_x + self.width && self.min_y <= y < self.min_y + self.depth {
            Some(self.heights@[(x - self.min_x) * self.depth + (y - self.min_y)] as int)
        } else {
            None
        }
    }

    /// The voxel the terrain holds at `pos`.
    pub open spec fn lookup_spec(&self, pos: IVec3) -> Option<Voxel> {
        match self.height_spec(pos.x as int, pos.y as int) {
            Some(h) => column_voxel_spec(pos.z as int, h),
            None => None,
        }
    }

    /// A height field from its column heights, listed with `y` varying fastest:
    /// column `(min_x + i, min_y + j)` has height `heights[i * depth + j]`.
    pub fn from_heights(min_x: i32, min_y: i32, width: usize, depth: usize, heights: Vec<i32>) -> (r: VoxelGenerator)
        requires
            heights@.len() == width * depth,
            min_x + width <= i32::MAX + 1,
            min_y + depth <= i32::MAX + 1,
        ensures
            r.wf(),
            forall|i: int, j: int|
                0 <= i < width && 0 <= j < depth ==> #[trigger] r.height_spec(min_x + i, min_y + j)
                    == Some(heights@[i * depth + j] as int),
            forall|x: int, y: int|
                !(min_x <= x < min_x + width && min_y <= y < min_y + depth) ==> #[trigger] r.height_spec(x, y)
                    is None,
    {
        VoxelGenerator { min_x, min_y, width, depth, heights }
    }

    /// Height of column `(x, y)`, if the rectangle covers it.
    pub fn height(&self, x: i32, y: i32) -> (r: Option<i32>)
        requires
            self.wf(),
        ensures
            r matches Some(h) ==> self.height_spec(x as int, y as int) == Some(h as int),
            r is None ==> self.height_spec(x as int, y as int) is None,
    {
        let dx = x as i64 - self.min_x as i64;
        let dy = y as i64 - self.min_y as i64;
        if dx < 0 || dy < 0 || dx >= self.width as i64 || dy >= self.depth as i64 {
            return None;
        }
        let i = dx as usize;
        let j = dy as usize;
        let n = self.heights.len();
        proof {
            assert((i as int) * (self.depth as int) + (j as int) < (self.width as int) * (self.depth as int)) by (nonlinear_arith)
                requires
                    i < self.width,
                    j < self.depth,
            ;
            assert(0 <= (i as int) * (self.depth as int)) by (nonlinear_arith);
        }
        Some(self.heights[i * self.depth + j])
    }

    /// The voxel at `pos`: present iff `0 <= pos.z <= h` where `h` is the
    /// height of the column under `pos`.
    pub fn lookup(&self, pos: IVec3) -> (r: Option<Voxel>)
        requires
            self.wf(),
        ensures
            r == self.lookup_spec(pos),
    {
        match self.height(pos.x, pos.y) {
            Some(h) => column_voxel(pos.z, h),
            None => None,
        }
    }
}

} // verus!
