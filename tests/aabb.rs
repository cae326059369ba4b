use voxel_ray_tracer::aabb::IAabb;
use voxel_ray_tracer::vec3::IVec3;

fn v(x: i32, y: i32, z: i32) -> IVec3 {
    IVec3::new(x, y, z)
}

#[test]
fn indices() {
    let bb = IAabb::new(IVec3::splat(0), IVec3::splat(2));

    assert_eq!(bb.index_of(IVec3::splat(-2)), None);
    assert_eq!(bb.index_of(IVec3::splat(-1)), Some(0b000));
    assert_eq!(bb.index_of(IVec3::splat(0)), Some(0b000));
    assert_eq!(bb.index_of(IVec3::splat(1)), Some(0b111));
    assert_eq!(bb.index_of(IVec3::splat(2)), Some(0b111));
    assert_eq!(bb.index_of(IVec3::splat(3)), None);
}

#[test]
fn octants() {
    let bb = IAabb::new(IVec3::splat(0), IVec3::splat(2));
    assert_eq!(bb.octant(0b000), IAabb::new(IVec3::splat(-1), IVec3::splat(1)));
    assert_eq!(bb.octant(0b111), IAabb::new(IVec3::splat(1), IVec3::splat(1)));
}

#[test]
fn octant_mixed_signs_and_odd_extents() {
    let bb = IAabb::new(v(10, -4, 7), v(4, 2, 5));
    // bit 0 (x) set, bit 1 (y) clear, bit 2 (z) set
    let o = bb.octant(0b101);
    assert_eq!(o.extents, v(2, 1, 2));
    assert_eq!(o.origin, v(12, -5, 9));
    let o = bb.octant(0b010);
    assert_eq!(o.extents, v(2, 1, 2));
    assert_eq!(o.origin, v(8, -3, 5));
}

#[test]
fn octants_of_every_index_halve_the_box() {
    let bb = IAabb::new(v(3, 5, -7), IVec3::splat(8));
    for i in 0..8usize {
        let o = bb.octant(i);
        assert_eq!(o.extents, IVec3::splat(4));
        let sx = if i & 1 != 0 { 1 } else { -1 };
        let sy = if i & 2 != 0 { 1 } else { -1 };
        let sz = if i & 4 != 0 { 1 } else { -1 };
        assert_eq!(o.origin, v(3 + 4 * sx, 5 + 4 * sy, -7 + 4 * sz));
    }
}

#[test]
fn index_of_per_axis_bits() {
    let bb = IAabb::new(IVec3::splat(0), IVec3::splat(2));
    assert_eq!(bb.index_of(v(1, 0, 0)), Some(0b001));
    assert_eq!(bb.index_of(v(0, 1, 0)), Some(0b010));
    assert_eq!(bb.index_of(v(0, 0, 1)), Some(0b100));
    assert_eq!(bb.index_of(v(2, -1, 2)), Some(0b101));
    // the minimum face is outside, the maximum face inside
    assert_eq!(bb.index_of(v(-2, 0, 0)), None);
    assert_eq!(bb.index_of(v(0, 2, 0)), Some(0b010));
}

#[test]
fn index_of_is_defined_on_lattice_points_off_the_minimum_faces() {
    let bb = IAabb::new(v(1, -2, 3), v(2, 1, 3));
    let lo = bb.min();
    for p in bb.iter() {
        let r = bb.index_of(p);
        if p.x > lo.x && p.y > lo.y && p.z > lo.z {
            assert!(matches!(r, Some(i) if i < 8));
        }
    }
    let hi = bb.max();
    assert_eq!(bb.index_of(v(hi.x + 1, 0, 3)), None);
    assert_eq!(bb.index_of(v(1, lo.y - 1, 3)), None);
    assert_eq!(bb.index_of(v(1, -2, hi.z + 5)), None);
}

#[test]
fn unit_box_addresses_its_eight_cells() {
    let bb = IAabb::new(IVec3::splat(0), IVec3::splat(1));
    assert!(bb.is_unit());
    assert_eq!(bb.index_of(v(0, 0, 0)), Some(0));
    assert_eq!(bb.index_of(v(1, 1, 1)), Some(7));
    assert_eq!(bb.index_of(v(-1, 0, 0)), None);
    assert!(!IAabb::new(IVec3::splat(0), v(1, 2, 1)).is_unit());
}

#[test]
fn sizes_and_corners() {
    let bb = IAabb::new(v(1, 2, 3), v(4, 5, 6));
    assert_eq!(bb.width(), 8);
    assert_eq!(bb.height(), 10);
    assert_eq!(bb.length(), 12);
    assert_eq!(bb.min(), v(-3, -3, -3));
    assert_eq!(bb.max(), v(5, 7, 9));
    assert_eq!(bb.iter_x(), -3..5);
    assert_eq!(bb.iter_y(), -3..7);
    assert_eq!(bb.iter_z(), -3..9);
}

#[test]
fn iter_visits_every_point_once_in_order() {
    let bb = IAabb::new(v(0, 1, -1), v(1, 2, 3));
    let pts = bb.iter();
    assert_eq!(pts.len(), bb.width() * bb.height() * bb.length());
    assert_eq!(pts.len(), 2 * 4 * 6);
    assert_eq!(pts[0], bb.min());
    assert_eq!(pts[1], v(-1, -1, -3));
    assert_eq!(pts[6], v(-1, 0, -4));
    assert_eq!(*pts.last().unwrap(), v(0, 2, 1));
    for i in 0..pts.len() {
        for j in (i + 1)..pts.len() {
            assert_ne!(pts[i], pts[j]);
        }
        let p = pts[i];
        assert!(bb.iter_x().contains(&p.x));
        assert!(bb.iter_y().contains(&p.y));
        assert!(bb.iter_z().contains(&p.z));
    }
}

#[test]
fn next_pow2_rounds_strictly_up() {
    let cases = [(1, 2), (2, 4), (3, 4), (4, 8), (5, 8), (50, 64), (64, 128), (200, 256)];
    for (k, p) in cases {
        let bb = IAabb::new(v(7, -3, 2), v(1, k, 1));
        let r = bb.next_pow2();
        assert_eq!(r.origin, v(7, -3, 2));
        assert_eq!(r.extents, IVec3::splat(p));
    }
    let r = IAabb::new(IVec3::splat(0), v(3, 9, 5)).next_pow2();
    assert_eq!(r.extents, IVec3::splat(16));
}
