use vstd::arithmetic::div_mod::{lemma_fundamental_div_mod, lemma_fundamental_div_mod_converse};
use vstd::prelude::*;

use crate::vec3::IVec3;

verus! {

/// Smallest power of two strictly greater than `k` (1 when `k <= 0`).
pub open spec fn pow2_above(k: int) -> int
    decreases k,
{
    if k <= 0 {
        1
    } else {
        2 * pow2_above(k / 2)
    }
}

pub open spec fn is_pow2(p: int) -> bool
    decreases p,
{
    if p <= 0 {
        false
    } else if p == 1 {
        true
    } else {
        p % 2 == 0 && is_pow2(p / 2)
    }
}

pub open spec fn max3(a: int, b: int, c: int) -> int {
    if a >= b && a >= c {
        a
    } else if b >= c {
        b
    } else {
        c
    }
}

/// Whether `p` lies in the part of an axis that octant indexing accepts: the
/// coordinate equal to the centre counts as negative, so the accepted span is
/// `(o - e, o + e]`.
pub open spec fn addressable_axis(o: int, e: int, p: int) -> bool {
    o - e < p <= o + e
}

/// Whether `p` lies in the half-open lattice span `[o - e, o + e)`.
pub open spec fn lattice_axis(o: int, e: int, p: int) -> bool {
    o - e <= p < o + e
}

/// 1 when `p` lies on the positive side of the centre `o`.
pub open spec fn side_bit(o: int, p: int) -> int {
    if p > o {
        1
    } else {
        0
    }
}

/// Sign of octant `idx` on axis `a`: -1 or +1.
pub open spec fn octant_sign(idx: int, a: int) -> int {
    if (idx / pow_of_axis(a)) % 2 == 1 {
        1
    } else {
        -1
    }
}

pub open spec fn pow_of_axis(a: int) -> int {
    if a == 0 {
        1
    } else if a == 1 {
        2
    } else {
        4
    }
}

/// Number of lattice points of `bb`.
pub open spec fn lattice_len(bb: IAabb) -> int {
    (2 * bb.extents.x) * (2 * bb.extents.y) * (2 * bb.extents.z)
}

/// The `k`-th lattice point of `bb` in order by x, then y, then z.
pub open spec fn lattice_point(bb: IAabb, k: int) -> IVec3 {
    let h = 2 * bb.extents.y;
    let l = 2 * bb.extents.z;
    IVec3 {
        x: (bb.origin.x - bb.extents.x + (k / l) / h) as i32,
        y: (bb.origin.y - bb.extents.y + (k / l) % h) as i32,
        z: (bb.origin.z - bb.extents.z + k % l) as i32,
    }
}

/// Position of lattice offset `(ix, iy, iz)` in that order.
pub open spec fn lattice_index(bb: IAabb, ix: int, iy: int, iz: int) -> int {
    (ix * (2 * bb.extents.y) + iy) * (2 * bb.extents.z) + iz
}

/// Signed-integer axis-aligned box: `origin` with half `extents` on each axis.
#[derive(Clone, Copy, Debug, PartialEq, Eq, Structural)]
pub struct IAabb {
    pub origin: IVec3,
    pub extents: IVec3,
}

impl IAabb {
    /// Positive extents, and both corners representable as `i32`.
    pub open spec fn wf(&self) -> bool {
        &&& 0 < self.extents.x && 0 < self.extents.y && 0 < self.extents.z
        &&& i32::MIN <= self.origin.x - self.extents.x && self.origin.x + self.extents.x <= i32::MAX
        &&& i32::MIN <= self.origin.y - self.extents.y && self.origin.y + self.extents.y <= i32::MAX
        &&& i32::MIN <= self.origin.z - self.extents.z && self.origin.z + self.extents.z <= i32::MAX
    }

    /// The cells whose octant index is defined: `(min, max]` on every axis.
    pub open spec fn addressable(&self, p: IVec3) -> bool {
        &&& addressable_axis(self.origin.x as int, self.extents.x as int, p.x as int)
        &&& addressable_axis(self.origin.y as int, self.extents.y as int, p.y as int)
        &&& addressable_axis(self.origin.z as int, self.extents.z as int, p.z as int)
    }

    /// The lattice points of the box: `[min, max)` on every axis.
    pub open spec fn in_lattice(&self, p: IVec3) -> bool {
        &&& lattice_axis(self.origin.x as int, self.extents.x as int, p.x as int)
        &&& lattice_axis(self.origin.y as int, self.extents.y as int, p.y as int)
        &&& lattice_axis(self.origin.z as int, self.extents.z as int, p.z as int)
    }

    /// Octant of `p`: bit 0, 1, 2 set when `p` is on the positive side in x, y, z.
    pub open spec fn index_of_spec(&self, p: IVec3) -> Option<usize> {
        if self.addressable(p) {
            Some(
                (side_bit(self.origin.x as int, p.x as int) + 2 * side_bit(
                    self.origin.y as int,
                    p.y as int,
                ) + 4 * side_bit(self.origin.z as int, p.z as int)) as usize,
            )
        } else {
            None
        }
    }

    /// Octant `idx`: half the extents, centre moved by them towards the octant's side.
    pub open spec fn octant_spec(&self, idx: int) -> IAabb {
        let e = IVec3 {
            x: (self.extents.x / 2) as i32,
            y: (self.extents.y / 2) as i32,
            z: (self.extents.z / 2) as i32,
        };
        IAabb {
            origin: IVec3 {
                x: (if octant_sign(idx, 0) == 1 { self.origin.x + e.x } else { self.origin.x - e.x }) as i32,
                y: (if octant_sign(idx, 1) == 1 { self.origin.y + e.y } else { self.origin.y - e.y }) as i32,
                z: (if octant_sign(idx, 2) == 1 { self.origin.z + e.z } else { self.origin.z - e.z }) as i32,
            },
            extents: e,
        }
    }

    pub open spec fn is_cube_pow2(&self) -> bool {
        &&& self.extents.x == self.extents.y && self.extents.y == self.extents.z
        &&& is_pow2(self.extents.x as int)
    }

    /// Creates a box; the extents must be positive.
    pub fn new(origin: IVec3, extents: IVec3) -> (r: IAabb)
        requires
            (IAabb { origin, extents }).wf(),
        ensures
            r.origin == origin,
            r.extents == extents,
            r.wf(),
    {
        IAabb { origin, extents }
    }

    /// Side length in x.
    pub fn width(&self) -> (r: usize)
        requires
            self.wf(),
            2 * self.extents.x <= usize::MAX,
        ensures
            r == 2 * self.extents.x,
    {
        (self.extents.x as usize) * 2
    }

    /// Side length in y.
    pub fn height(&self) -> (r: usize)
        requires
            self.wf(),
            2 * self.extents.y <= usize::MAX,
        ensures
            r == 2 * self.extents.y,
    {
        (self.extents.y as usize) * 2
    }

    /// Side length in z.
    pub fn length(&self) -> (r: usize)
        requires
            self.wf(),
            2 * self.extents.z <= usize::MAX,
        ensures
            r == 2 * self.extents.z,
    {
        (self.extents.z as usize) * 2
    }

    /// The lattice coordinates on the x axis.
    pub fn iter_x(&self) -> (r: std::ops::Range<i32>)
        requires
            self.wf(),
        ensures
            r.start == self.origin.x - self.extents.x,
            r.end == self.origin.x + self.extents.x,
    {
        (self.origin.x - self.extents.x)..(self.origin.x + self.extents.x)
    }

    /// The lattice coordinates on the y axis.
    pub fn iter_y(&self) -> (r: std::ops::Range<i32>)
        requires
            self.wf(),
        ensures
            r.start == self.origin.y - self.extents.y,
            r.end == self.origin.y + self.extents.y,
    {
        (self.origin.y - self.extents.y)..(self.origin.y + self.extents.y)
    }

    /// The lattice coordinates on the z axis.
    pub fn iter_z(&self) -> (r: std::ops::Range<i32>)
        requires
            self.wf(),
        ensures
            r.start == self.origin.z - self.extents.z,
            r.end == self.origin.z + self.extents.z,
    {
        (self.origin.z - self.extents.z)..(self.origin.z + self.extents.z)
    }

    /// Every lattice point of the box, in order by x, then y, then z.
    pub fn iter(&self) -> (r: Vec<IVec3>)
        requires
            self.wf(),
        ensures
            r@.len() == lattice_len(*self),
            forall|k: int| 0 <= k < r@.len() ==> #[trigger] r@[k] == lattice_point(*self, k),
    {
        let lo = self.min();
        let hi = self.max();
        let ghost h = 2 * self.extents.y;
        let ghost l = 2 * self.extents.z;
        let mut out: Vec<IVec3> = Vec::new();
        let mut x = lo.x;
        proof {
            assert((x - lo.x) * h * l == 0) by (nonlinear_arith)
                requires
                    x - lo.x == 0,
            ;
        }
        while x < hi.x
            invariant
                self.wf(),
                lo.x == self.origin.x - self.extents.x && hi.x == self.origin.x + self.extents.x,
                lo.y == self.origin.y - self.extents.y && hi.y == self.origin.y + self.extents.y,
                lo.z == self.origin.z - self.extents.z && hi.z == self.origin.z + self.extents.z,
                h == 2 * self.extents.y,
                l == 2 * self.extents.z,
                lo.x <= x <= hi.x,
                out@.len() == (x - lo.x) * h * l,
                forall|k: int| 0 <= k < out@.len() ==> #[trigger] out@[k] == lattice_point(*self, k),
            decreases hi.x - x,
        {
            let mut y = lo.y;
            proof {
                assert(((x - lo.x) * h + (y - lo.y)) * l == (x - lo.x) * h * l) by (nonlinear_arith)
                    requires
                        y - lo.y == 0,
                ;
            }
            while y < hi.y
                invariant
                    self.wf(),
                    lo.x == self.origin.x - self.extents.x && hi.x == self.origin.x + self.extents.x,
                    lo.y == self.origin.y - self.extents.y && hi.y == self.origin.y + self.extents.y,
                    lo.z == self.origin.z - self.extents.z && hi.z == self.origin.z + self.extents.z,
                    h == 2 * self.extents.y,
                    l == 2 * self.extents.z,
                    lo.x <= x < hi.x,
                    lo.y <= y <= hi.y,
                    out@.len() == ((x - lo.x) * h + (y - lo.y)) * l,
                    forall|k: int| 0 <= k < out@.len() ==> #[trigger] out@[k] == lattice_point(*self, k),
                decreases hi.y - y,
            {
                let mut z = lo.z;
                while z < hi.z
                    invariant
                        self.wf(),
                        lo.x == self.origin.x - self.extents.x && hi.x == self.origin.x + self.extents.x,
                        lo.y == self.origin.y - self.extents.y && hi.y == self.origin.y + self.extents.y,
                        lo.z == self.origin.z - self.extents.z && hi.z == self.origin.z + self.extents.z,
                        h == 2 * self.extents.y,
                        l == 2 * self.extents.z,
                        lo.x <= x < hi.x,
                        lo.y <= y < hi.y,
                        lo.z <= z <= hi.z,
                        out@.len() == ((x - lo.x) * h + (y - lo.y)) * l + (z - lo.z),
                        forall|k: int| 0 <= k < out@.len() ==> #[trigger] out@[k] == lattice_point(*self, k),
                    decreases hi.z - z,
                {
                    proof {
                        lemma_lattice_index(*self, x - lo.x, y - lo.y, z - lo.z);
                    }
                    out.push(IVec3::new(x, y, z));
                    z = z + 1;
                }
                proof {
                    assert(((x - lo.x) * h + (y - lo.y)) * l + l == ((x - lo.x) * h + (y + 1 - lo.y)) * l) by (nonlinear_arith);
                }
                y = y + 1;
            }
            proof {
                assert(((x - lo.x) * h + (h - 1) + 1) * l == (x - lo.x + 1) * h * l) by (nonlinear_arith);
            }
            x = x + 1;
        }
        proof {
            assert((hi.x - lo.x) * h * l == lattice_len(*self)) by (nonlinear_arith)
                requires
                    hi.x - lo.x == 2 * self.extents.x,
                    h == 2 * self.extents.y,
                    l == 2 * self.extents.z,
            ;
        }
        out
    }

    /// Lowest corner, `origin - extents`.
    pub fn min(&self) -> (r: IVec3)
        requires
            self.wf(),
        ensures
            r.x == self.origin.x - self.extents.x,
            r.y == self.origin.y - self.extents.y,
            r.z == self.origin.z - self.extents.z,
    {
        IVec3::new(
            self.origin.x - self.extents.x,
            self.origin.y - self.extents.y,
            self.origin.z - self.extents.z,
        )
    }

    /// Highest corner, `origin + extents`.
    pub fn max(&self) -> (r: IVec3)
        requires
            self.wf(),
        ensures
            r.x == self.origin.x + self.extents.x,
            r.y == self.origin.y + self.extents.y,
            r.z == self.origin.z + self.extents.z,
    {
        IVec3::new(
            self.origin.x + self.extents.x,
            self.origin.y + self.extents.y,
            self.origin.z + self.extents.z,
        )
    }

    /// Whether the longest half extent is one.
    pub fn is_unit(&self) -> (r: bool)
        ensures
            r == (max3(self.extents.x as int, self.extents.y as int, self.extents.z as int) == 1),
    {
        let e = self.extents;
        let m = if e.x >= e.y && e.x >= e.z {
            e.x
        } else if e.y >= e.z {
            e.y
        } else {
            e.z
        };
        m == 1
    }

    /// Cube around the same origin whose half extent is the smallest power of
    /// two above the longest half extent.
    pub fn next_pow2(&self) -> (r: IAabb)
        requires
            self.wf(),
            max3(self.extents.x as int, self.extents.y as int, self.extents.z as int) < 0x4000_0000,
            (IAabb {
                origin: self.origin,
                extents: IVec3::splat_spec(pow2_above(max3(self.extents.x as int, self.extents.y as int, self.extents.z as int)) as i32),
            }).wf(),
        ensures
            r.origin == self.origin,
            r.extents == IVec3::splat_spec(pow2_above(max3(self.extents.x as int, self.extents.y as int, self.extents.z as int)) as i32),
            r.wf(),
            r.is_cube_pow2(),
    {
        let e = self.extents;
        let m = if e.x >= e.y && e.x >= e.z {
            e.x
        } else if e.y >= e.z {
            e.y
        } else {
            e.z
        };
        let k = m as u32;
        let mut p: u32 = 1;
        while p <= k
            invariant
                1 <= k < 0x4000_0000,
                is_pow2(p as int),
                1 <= p <= 2 * k,
                p == 1 || p / 2 <= k,
            decreases 2 * k - p,
        {
            proof {
                assert(is_pow2((2 * p) as int) == (((2 * p) as int) % 2 == 0 && is_pow2(((2 * p) as int) / 2)));
            }
            p = p * 2;
        }
        proof {
            lemma_pow2_above_unique(k as int, p as int);
            lemma_pow2_above(k as int);
        }
        IAabb { origin: self.origin, extents: IVec3::splat(p as i32) }
    }

    /// Octant index of `pos` relative to `origin`, or `None` outside the box.
    pub fn index_of(&self, pos: IVec3) -> (r: Option<usize>)
        ensures
            r == self.index_of_spec(pos),
            r matches Some(i) ==> i < 8,
    {
        let lx = pos.x as i64 - self.origin.x as i64;
        let ly = pos.y as i64 - self.origin.y as i64;
        let lz = pos.z as i64 - self.origin.z as i64;
        let bx: i64 = if lx > 0 { 1 } else { 0 };
        let by: i64 = if ly > 0 { 1 } else { 0 };
        let bz: i64 = if lz > 0 { 1 } else { 0 };
        // the centre belongs to the negative half: shift that half by one so
        // both halves are measured against the same extent
        let sx = lx - (1 - bx);
        let sy = ly - (1 - by);
        let sz = lz - (1 - bz);
        let ex = self.extents.x as i64;
        let ey = self.extents.y as i64;
        let ez = self.extents.z as i64;
        if -ex <= sx && sx <= ex && -ey <= sy && sy <= ey && -ez <= sz && sz <= ez {
            Some((bx + 2 * by + 4 * bz) as usize)
        } else {
            None
        }
    }

    /// The sub-box of octant `idx`.
    pub fn octant(&self, idx: usize) -> (r: IAabb)
        requires
            self.wf(),
            idx < 8,
        ensures
            r == self.octant_spec(idx as int),
            r.extents.x == self.extents.x / 2,
            r.extents.y == self.extents.y / 2,
            r.extents.z == self.extents.z / 2,
            r.origin.x == self.origin.x + r.extents.x * octant_sign(idx as int, 0),
            r.origin.y == self.origin.y + r.extents.y * octant_sign(idx as int, 1),
            r.origin.z == self.origin.z + r.extents.z * octant_sign(idx as int, 2),
    {
        let i = idx as i32;
        let e = IVec3::new(self.extents.x / 2, self.extents.y / 2, self.extents.z / 2);
        let ox = if i % 2 == 1 { self.origin.x + e.x } else { self.origin.x - e.x };
        let oy = if (i / 2) % 2 == 1 { self.origin.y + e.y } else { self.origin.y - e.y };
        let oz = if (i / 4) % 2 == 1 { self.origin.z + e.z } else { self.origin.z - e.z };
        let origin = IVec3::new(ox, oy, oz);
        IAabb { origin, extents: e }
    }
}


/// `pow2_above(k)` is a power of two, above `k`, and at most twice `k`.
pub proof fn lemma_pow2_above(k: int)
    requires
        k >= 1,
    ensures
        is_pow2(pow2_above(k)),
        k < pow2_above(k) <= 2 * k,
    decreases k,
{
    if k / 2 >= 1 {
        lemma_pow2_above(k / 2);
    }
    let p = pow2_above(k / 2);
    assert(is_pow2(2 * p) == ((2 * p) % 2 == 0 && is_pow2((2 * p) / 2)));
}

/// A power of two `p` with `p / 2 <= k < p` is `pow2_above(k)`.
proof fn lemma_pow2_above_unique(k: int, p: int)
    requires
        k >= 0,
        is_pow2(p),
        p / 2 <= k < p,
    ensures
        p == pow2_above(k),
    decreases k,
{
    if p == 1 {
        assert(k == 0);
    } else {
        assert(p >= 2);
        assert(is_pow2(p) == (p % 2 == 0 && is_pow2(p / 2)));
        let q = p / 2;
        assert(q >= 1);
        assert(k >= 1);
        assert(q / 2 <= k / 2 < q);
        lemma_pow2_above_unique(k / 2, q);
        assert(pow2_above(k) == 2 * pow2_above(k / 2));
    }
}


/// Octant `i` of a power-of-two cube of side at least 4 is again such a cube
/// (or the unit cube), and a position that `index_of` sends to octant `i` is
/// addressable inside that octant.
pub proof fn lemma_octant_nests(bb: IAabb, p: IVec3, i: usize)
    requires
        bb.wf(),
        bb.is_cube_pow2(),
        bb.extents.x >= 2,
        bb.index_of_spec(p) == Some(i),
    ensures
        bb.octant_spec(i as int).wf(),
        bb.octant_spec(i as int).is_cube_pow2(),
        bb.octant_spec(i as int).addressable(p),
        bb.octant_spec(i as int).extents.x == bb.extents.x / 2,
{
    let e = bb.extents.x as int;
    assert(is_pow2(e) == (e % 2 == 0 && is_pow2(e / 2)));
}

/// In a box of half extent one on every axis, the octant index tells the
/// addressable positions apart.
pub proof fn lemma_unit_index_unique(bb: IAabb, p: IVec3, q: IVec3)
    requires
        bb.extents.x == 1,
        bb.extents.y == 1,
        bb.extents.z == 1,
        bb.index_of_spec(p) is Some,
        bb.index_of_spec(p) == bb.index_of_spec(q),
    ensures
        p == q,
{
}

/// Octants of a box: half its extents, centre moved by those extents towards
/// the octant's side on each axis.
pub proof fn lemma_octant_shape(bb: IAabb, i: int)
    requires
        bb.wf(),
        0 <= i < 8,
    ensures
        bb.octant_spec(i).extents.x == bb.extents.x / 2,
        bb.octant_spec(i).extents.y == bb.extents.y / 2,
        bb.octant_spec(i).extents.z == bb.extents.z / 2,
        bb.octant_spec(i).origin.x == bb.origin.x + (bb.extents.x / 2) * octant_sign(i, 0),
        bb.octant_spec(i).origin.y == bb.origin.y + (bb.extents.y / 2) * octant_sign(i, 1),
        bb.octant_spec(i).origin.z == bb.origin.z + (bb.extents.z / 2) * octant_sign(i, 2),
        octant_sign(i, 0) == (if i % 2 == 1 { 1int } else { -1int }),
        octant_sign(i, 1) == (if (i / 2) % 2 == 1 { 1int } else { -1int }),
        octant_sign(i, 2) == (if (i / 4) % 2 == 1 { 1int } else { -1int }),
{
    let ex = bb.extents.x / 2;
    let ey = bb.extents.y / 2;
    let ez = bb.extents.z / 2;
    if octant_sign(i, 0) == 1 {
        assert(ex * octant_sign(i, 0) == ex * 1);
    } else {
        assert(octant_sign(i, 0) == -1);
        assert(ex * octant_sign(i, 0) == ex * (-1));
    }
    if octant_sign(i, 1) == 1 {
        assert(ey * octant_sign(i, 1) == ey * 1);
    } else {
        assert(octant_sign(i, 1) == -1);
        assert(ey * octant_sign(i, 1) == ey * (-1));
    }
    if octant_sign(i, 2) == 1 {
        assert(ez * octant_sign(i, 2) == ez * 1);
    } else {
        assert(octant_sign(i, 2) == -1);
        assert(ez * octant_sign(i, 2) == ez * (-1));
    }
}

/// Octant indexing is defined exactly on the addressable cells `(min, max]`:
/// every lattice point of the box other than those on a minimum face gets an
/// index below 8, and every point outside the closed box gets none.
pub proof fn lemma_index_of_domain(bb: IAabb, p: IVec3)
    requires
        bb.wf(),
    ensures
        bb.in_lattice(p) && p.x > bb.origin.x - bb.extents.x && p.y > bb.origin.y - bb.extents.y
            && p.z > bb.origin.z - bb.extents.z ==> (bb.index_of_spec(p) matches Some(i) && i < 8),
        !(bb.origin.x - bb.extents.x <= p.x <= bb.origin.x + bb.extents.x && bb.origin.y - bb.extents.y
            <= p.y <= bb.origin.y + bb.extents.y && bb.origin.z - bb.extents.z <= p.z <= bb.origin.z
            + bb.extents.z) ==> bb.index_of_spec(p) is None,
{
}

/// Offset `(ix, iy, iz)` sits at `lattice_index` in the enumeration, which
/// stays below the number of points.
pub proof fn lemma_lattice_index(bb: IAabb, ix: int, iy: int, iz: int)
    requires
        bb.wf(),
        0 <= ix < 2 * bb.extents.x,
        0 <= iy < 2 * bb.extents.y,
        0 <= iz < 2 * bb.extents.z,
    ensures
        0 <= lattice_index(bb, ix, iy, iz) < lattice_len(bb),
        lattice_point(bb, lattice_index(bb, ix, iy, iz)) == (IVec3 {
            x: (bb.origin.x - bb.extents.x + ix) as i32,
            y: (bb.origin.y - bb.extents.y + iy) as i32,
            z: (bb.origin.z - bb.extents.z + iz) as i32,
        }),
{
    let w = 2 * bb.extents.x;
    let h = 2 * bb.extents.y;
    let l = 2 * bb.extents.z;
    let k = lattice_index(bb, ix, iy, iz);
    let q = ix * h + iy;
    lemma_fundamental_div_mod_converse(k, l, q, iz);
    lemma_fundamental_div_mod_converse(q, h, ix, iy);
    assert(0 <= q < w * h) by (nonlinear_arith)
        requires
            q == ix * h + iy,
            0 <= ix < w,
            0 <= iy < h,
    ;
    assert(0 <= k < (w * h) * l) by (nonlinear_arith)
        requires
            k == q * l + iz,
            0 <= q < w * h,
            0 <= iz < l,
    ;
    assert((w * h) * l == w * h * l) by (nonlinear_arith);
}

/// Every index below the number of points decodes to a lattice point and is
/// the `lattice_index` of its offsets.
proof fn lemma_lattice_decode(bb: IAabb, k: int)
    requires
        bb.wf(),
        0 <= k < lattice_len(bb),
    ensures
        bb.in_lattice(lattice_point(bb, k)),
        k == lattice_index(
            bb,
            (k / (2 * bb.extents.z)) / (2 * bb.extents.y),
            (k / (2 * bb.extents.z)) % (2 * bb.extents.y),
            k % (2 * bb.extents.z),
        ),
        0 <= (k / (2 * bb.extents.z)) / (2 * bb.extents.y) < 2 * bb.extents.x,
{
    let w = 2 * bb.extents.x;
    let h = 2 * bb.extents.y;
    let l = 2 * bb.extents.z;
    let q = k / l;
    lemma_fundamental_div_mod(k, l);
    lemma_fundamental_div_mod(q, h);
    assert(0 <= q) by (nonlinear_arith)
        requires
            0 <= k,
            l > 0,
            q == k / l,
    ;
    assert(0 <= k % l < l);
    assert(0 <= q % h < h);
    assert(q < w * h) by (nonlinear_arith)
        requires
            k == l * q + k % l,
            0 <= k % l,
            k < w * h * l,
            l > 0,
    ;
    assert(0 <= q / h < w) by (nonlinear_arith)
        requires
            q == h * (q / h) + q % h,
            0 <= q % h < h,
            0 <= q < w * h,
            h > 0,
    ;
    assert(k == (q / h * h + q % h) * l + k % l) by (nonlinear_arith)
        requires
            k == l * q + k % l,
            q == h * (q / h) + q % h,
    ;
}

/// The enumeration of a box's lattice lists `width * height * length`
/// distinct points, each in the box, and reaches every point of the box.
pub proof fn lemma_lattice_round_trip(bb: IAabb)
    requires
        bb.wf(),
    ensures
        lattice_len(bb) == (2 * bb.extents.x) * (2 * bb.extents.y) * (2 * bb.extents.z),
        forall|j: int, k: int|
            0 <= j < lattice_len(bb) && 0 <= k < lattice_len(bb) && j != k ==> #[trigger] lattice_point(bb, j)
                != #[trigger] lattice_point(bb, k),
        forall|k: int| 0 <= k < lattice_len(bb) ==> bb.in_lattice(#[trigger] lattice_point(bb, k)),
        forall|p: IVec3|
            #[trigger] bb.in_lattice(p) ==> exists|k: int| 0 <= k < lattice_len(bb) && lattice_point(bb, k) == p,
{
    assert forall|j: int, k: int|
        0 <= j < lattice_len(bb) && 0 <= k < lattice_len(bb) && j != k implies #[trigger] lattice_point(bb, j)
            != #[trigger] lattice_point(bb, k) by {
        lemma_lattice_decode(bb, j);
        lemma_lattice_decode(bb, k);
    }
    assert forall|k: int| 0 <= k < lattice_len(bb) implies bb.in_lattice(#[trigger] lattice_point(bb, k)) by {
        lemma_lattice_decode(bb, k);
    }
    assert forall|p: IVec3| #[trigger] bb.in_lattice(p) implies exists|k: int|
        0 <= k < lattice_len(bb) && lattice_point(bb, k) == p by {
        let ix = p.x - (bb.origin.x - bb.extents.x);
        let iy = p.y - (bb.origin.y - bb.extents.y);
        let iz = p.z - (bb.origin.z - bb.extents.z);
        lemma_lattice_index(bb, ix, iy, iz);
        assert(lattice_point(bb, lattice_index(bb, ix, iy, iz)) == p);
    }
}

/// A position addressable inside octant `i` of a power-of-two cube is
/// addressable in the cube itself, with octant index `i`.
pub proof fn lemma_octant_inside(bb: IAabb, p: IVec3, i: usize)
    requires
        bb.wf(),
        bb.is_cube_pow2(),
        bb.extents.x >= 2,
        i < 8,
        bb.octant_spec(i as int).addressable(p),
    ensures
        bb.index_of_spec(p) == Some(i),
{
    let e = bb.extents.x as int;
    assert(is_pow2(e) == (e % 2 == 0 && is_pow2(e / 2)));
    let ii = i as int;
    assert(ii == (ii % 2) + 2 * ((ii / 2) % 2) + 4 * ((ii / 4) % 2));
}

} // verus!
