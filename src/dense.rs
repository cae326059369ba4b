use vstd::prelude::*;

use crate::aabb::{lattice_len, lattice_point, lemma_lattice_index, IAabb};
use crate::vec3::IVec3;
use crate::voxel::{Voxel, VoxelGenerator};

verus! {

/// Number of occupied entries among the first `n` of `s`.
pub open spec fn count_some(s: Seq<Option<Voxel>>, n: int) -> nat
    decreases n,
{
    if n <= 0 {
        0
    } else {
        count_some(s, n - 1) + if s[n - 1] is Some {
            1nat
        } else {
            0nat
        }
    }
}

/// Linear position of grid cell `idx` (offsets from the box's minimum
/// corner): `z + width * (y + height * x)`.
pub open spec fn cell_index(bb: IAabb, idx: IVec3) -> int {
    idx.z + (2 * bb.extents.x) * (idx.y + (2 * bb.extents.y) * idx.x)
}

/// A dense grid of optional voxels over a box, one entry per lattice cell.
pub struct Chunk {
    data: Vec<Option<Voxel>>,
    bb: IAabb,
}

impl Chunk {
    pub closed spec fn data_spec(&self) -> Seq<Option<Voxel>> {
        self.data@
    }

    pub closed spec fn aabb_spec(&self) -> IAabb {
        self.bb
    }

    pub open spec fn wf(&self) -> bool {
        &&& self.aabb_spec().wf()
        &&& self.data_spec().len() == lattice_len(self.aabb_spec())
    }

    /// A grid over `bb` from its entries; there must be one per lattice cell.
    pub fn new(data: Vec<Option<Voxel>>, bb: IAabb) -> (r: Chunk)
        requires
            bb.wf(),
            data@.len() == lattice_len(bb),
        ensures
            r.wf(),
            r.data_spec() == data@,
            r.aabb_spec() == bb,
    {
        Chunk { data, bb }
    }

    /// The box the grid covers.
    pub fn aabb(&self) -> (r: IAabb)
        ensures
            r == self.aabb_spec(),
    {
        self.bb
    }

    /// Number of occupied cells.
    pub fn len(&self) -> (r: usize)
        ensures
            r == count_some(self.data_spec(), self.data_spec().len() as int),
    {
        let mut count: usize = 0;
        let mut i: usize = 0;
        while i < self.data.len()
            invariant
                i <= self.data@.len(),
                count == count_some(self.data@, i as int),
                count <= i,
            decreases self.data@.len() - i,
        {
            if self.data[i].is_some() {
                count = count + 1;
            }
            i = i + 1;
        }
        count
    }

    /// Entry of grid cell `idx` (offsets from the minimum corner), or `None`
    /// when its linear position `z + width * (y + height * x)` is past the end.
    pub fn cell(&self, idx: IVec3) -> (r: Option<Option<Voxel>>)
        requires
            self.wf(),
            idx.x >= 0,
            idx.y >= 0,
            idx.z >= 0,
        ensures
            r == if cell_index(self.aabb_spec(), idx) < self.data_spec().len() {
                Some(self.data_spec()[cell_index(self.aabb_spec(), idx)])
            } else {
                None
            },
    {
        let w = 2 * (self.bb.extents.x as u128);
        let h = 2 * (self.bb.extents.y as u128);
        let x = idx.x as u128;
        let y = idx.y as u128;
        let z = idx.z as u128;
        proof {
            assert(h * x <= 0x1_0000_0000 * 0x8000_0000) by (nonlinear_arith)
                requires
                    h <= 0x1_0000_0000,
                    x <= 0x8000_0000,
            ;
            assert(w * (y + h * x) <= 0x1_0000_0000 * (0x8000_0000 + 0x1_0000_0000 * 0x8000_0000)) by (nonlinear_arith)
                requires
                    w <= 0x1_0000_0000,
                    y <= 0x8000_0000,
                    h * x <= 0x1_0000_0000 * 0x8000_0000,
            ;
        }
        let linear = z + w * (y + h * x);
        if linear < self.data.len() as u128 {
            Some(self.data[linear as usize])
        } else {
            None
        }
    }
}

/// The dense scene store: the voxels of every lattice cell of a box.
pub struct DenseStorage {
    chunk: Chunk,
}

impl DenseStorage {
    pub closed spec fn chunk_spec(&self) -> Chunk {
        self.chunk
    }

    /// The grid covers `bb` and holds `generator`'s voxel for every lattice
    /// point, in order by x, then y, then z.
    pub open spec fn holds_lattice_of(&self, generator: VoxelGenerator, bb: IAabb) -> bool {
        &&& self.chunk_spec().wf()
        &&& self.chunk_spec().aabb_spec() == bb
        &&& forall|k: int|
            0 <= k < lattice_len(bb) ==> #[trigger] self.chunk_spec().data_spec()[k] == generator.lookup_spec(
                lattice_point(bb, k),
            )
    }

    /// Samples `generator` at every lattice point of `bb`, in order by x, then
    /// y, then z.
    pub fn from_voxels(generator: &VoxelGenerator, bb: IAabb) -> (r: DenseStorage)
        requires
            generator.wf(),
            bb.wf(),
        ensures
            r.holds_lattice_of(*generator, bb),
    {
        let lo = bb.min();
        let hi = bb.max();
        let ghost h = 2 * bb.extents.y;
        let ghost l = 2 * bb.extents.z;
        let mut data: Vec<Option<Voxel>> = Vec::new();
        let mut x = lo.x;
        proof {
            assert((x - lo.x) * h * l == 0) by (nonlinear_arith)
                requires
                    x - lo.x == 0,
            ;
        }
        while x < hi.x
            invariant
                generator.wf(),
                bb.wf(),
                lo.x == bb.origin.x - bb.extents.x && hi.x == bb.origin.x + bb.extents.x,
                lo.y == bb.origin.y - bb.extents.y && hi.y == bb.origin.y + bb.extents.y,
                lo.z == bb.origin.z - bb.extents.z && hi.z == bb.origin.z + bb.extents.z,
                h == 2 * bb.extents.y,
                l == 2 * bb.extents.z,
                lo.x <= x <= hi.x,
                data@.len() == (x - lo.x) * h * l,
                forall|k: int| 0 <= k < data@.len() ==> #[trigger] data@[k] == generator.lookup_spec(lattice_point(bb, k)),
            decreases hi.x - x,
        {
            let mut y = lo.y;
            proof {
                assert(((x - lo.x) * h + (y - lo.y)) * l == (x - lo.x) * h * l) by (nonlinear_arith)
                    requires
                        y - lo.y == 0,
                ;
            }
            while y < hi.y
                invariant
                    generator.wf(),
                    bb.wf(),
                    lo.x == bb.origin.x - bb.extents.x && hi.x == bb.origin.x + bb.extents.x,
                    lo.y == bb.origin.y - bb.extents.y && hi.y == bb.origin.y + bb.extents.y,
                    lo.z == bb.origin.z - bb.extents.z && hi.z == bb.origin.z + bb.extents.z,
                    h == 2 * bb.extents.y,
                    l == 2 * bb.extents.z,
                    lo.x <= x < hi.x,
                    lo.y <= y <= hi.y,
                    data@.len() == ((x - lo.x) * h + (y - lo.y)) * l,
                    forall|k: int| 0 <= k < data@.len() ==> #[trigger] data@[k] == generator.lookup_spec(lattice_point(bb, k)),
                decreases hi.y - y,
            {
                let mut z = lo.z;
                while z < hi.z
                    invariant
                        generator.wf(),
                        bb.wf(),
                        lo.x == bb.origin.x - bb.extents.x && hi.x == bb.origin.x + bb.extents.x,
                        lo.y == bb.origin.y - bb.extents.y && hi.y == bb.origin.y + bb.extents.y,
                        lo.z == bb.origin.z - bb.extents.z && hi.z == bb.origin.z + bb.extents.z,
                        h == 2 * bb.extents.y,
                        l == 2 * bb.extents.z,
                        lo.x <= x < hi.x,
                        lo.y <= y < hi.y,
                        lo.z <= z <= hi.z,
                        data@.len() == ((x - lo.x) * h + (y - lo.y)) * l + (z - lo.z),
                        forall|k: int| 0 <= k < data@.len() ==> #[trigger] data@[k] == generator.lookup_spec(lattice_point(bb, k)),
                    decreases hi.z - z,
                {
                    proof {
                        lemma_lattice_index(bb, x - lo.x, y - lo.y, z - lo.z);
                    }
                    let pos = IVec3::new(x, y, z);
                    data.push(generator.lookup(pos));
                    z = z + 1;
                }
                proof {
                    assert(((x - lo.x) * h + (y - lo.y)) * l + l == ((x - lo.x) * h + (y + 1 - lo.y)) * l) by (nonlinear_arith);
                }
                y = y + 1;
            }
            proof {
                assert(((x - lo.x) * h + (h - 1) + 1) * l == (x - lo.x + 1) * h * l) by (nonlinear_arith);
            }
            x = x + 1;
        }
        proof {
            assert((hi.x - lo.x) * h * l == lattice_len(bb)) by (nonlinear_arith)
                requires
                    hi.x - lo.x == 2 * bb.extents.x,
                    h == 2 * bb.extents.y,
                    l == 2 * bb.extents.z,
            ;
        }
        DenseStorage { chunk: Chunk::new(data, bb) }
    }

    /// The grid.
    pub fn chunk(&self) -> (r: &Chunk)
        ensures
            *r == self.chunk_spec(),
    {
        &self.chunk
    }
}

} // verus!
