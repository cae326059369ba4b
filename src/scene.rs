use vstd::prelude::*;

use crate::aabb::{lattice_index, lemma_lattice_index, IAabb};
use crate::dense::{cell_index, DenseStorage};
use crate::octree::SparseStorage;
use crate::vec3::IVec3;
use crate::voxel::VoxelGenerator;

verus! {

/// Why a configuration is refused.
#[derive(Clone, Copy, Debug, PartialEq, Eq, Structural)]
pub enum ConfigError {
    /// A camera position needs exactly three components.
    InvalidPosition,
}

/// The scene box: centred on the origin, half extent `size` on every axis.
pub fn scene_aabb(size: u32) -> (r: IAabb)
    requires
        0 < size <= i32::MAX,
    ensures
        r.wf(),
        r.origin == IVec3::splat_spec(0),
        r.extents == IVec3::splat_spec(size as i32),
{
    IAabb::new(IVec3::splat(0), IVec3::splat(size as i32))
}

/// The camera position: the three given components, or `size` on every axis
/// when none are given.
pub fn camera_position(components: Option<Vec<i32>>, size: u32) -> (r: Result<IVec3, ConfigError>)
    requires
        size <= i32::MAX,
    ensures
        components matches Some(v) ==> (if v@.len() == 3 {
            r == Ok::<IVec3, ConfigError>(IVec3 { x: v@[0], y: v@[1], z: v@[2] })
        } else {
            r == Err::<IVec3, ConfigError>(ConfigError::InvalidPosition)
        }),
        components is None ==> r == Ok::<IVec3, ConfigError>(IVec3::splat_spec(size as i32)),
{
    match components {
        Some(v) => {
            if v.len() == 3 {
                Ok(IVec3::new(v[0], v[1], v[2]))
            } else {
                Err(ConfigError::InvalidPosition)
            }
        },
        None => Ok(IVec3::splat(size as i32)),
    }
}

/// Built from the same generator over the same cube, the two stores hold the
/// same voxels: the dense cell at offset `(ix, iy, iz)` from the minimum
/// corner holds what the octree returns for that lattice point.
pub proof fn lemma_stores_agree(
    generator: VoxelGenerator,
    bb: IAabb,
    dense: DenseStorage,
    sparse: SparseStorage,
    ix: int,
    iy: int,
    iz: int,
)
    requires
        bb.wf(),
        bb.extents.x == bb.extents.y && bb.extents.y == bb.extents.z,
        2 * bb.extents.x <= i32::MAX,
        dense.holds_lattice_of(generator, bb),
        sparse.holds_voxels_of(generator, bb),
        0 <= ix < 2 * bb.extents.x,
        0 <= iy < 2 * bb.extents.y,
        0 <= iz < 2 * bb.extents.z,
    ensures
        ({
            let offset = IVec3 { x: ix as i32, y: iy as i32, z: iz as i32 };
            let p = IVec3 {
                x: (bb.origin.x - bb.extents.x + ix) as i32,
                y: (bb.origin.y - bb.extents.y + iy) as i32,
                z: (bb.origin.z - bb.extents.z + iz) as i32,
            };
            &&& 0 <= cell_index(bb, offset) < dense.chunk_spec().data_spec().len()
            &&& dense.chunk_spec().data_spec()[cell_index(bb, offset)] == sparse.octree_spec().spec_get(p)
        }),
{
    let offset = IVec3 { x: ix as i32, y: iy as i32, z: iz as i32 };
    let p = IVec3 {
        x: (bb.origin.x - bb.extents.x + ix) as i32,
        y: (bb.origin.y - bb.extents.y + iy) as i32,
        z: (bb.origin.z - bb.extents.z + iz) as i32,
    };
    lemma_lattice_index(bb, ix, iy, iz);
    let w = 2 * bb.extents.x;
    let h = 2 * bb.extents.y;
    assert(cell_index(bb, offset) == lattice_index(bb, ix, iy, iz)) by (nonlinear_arith)
        requires
            cell_index(bb, offset) == iz + w * (iy + h * ix),
            lattice_index(bb, ix, iy, iz) == (ix * h + iy) * (2 * bb.extents.z) + iz,
            w == 2 * bb.extents.z,
    ;
    assert(bb.in_lattice(p));
    assert(sparse.octree_spec().spec_get(p) == generator.lookup_spec(p));
}

} // verus!
