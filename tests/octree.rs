use voxel_ray_tracer::aabb::IAabb;
use voxel_ray_tracer::dense::DenseStorage;
use voxel_ray_tracer::hash::pearson_hash;
use voxel_ray_tracer::octree::{Node, Octree, Slot, SparseStorage};
use voxel_ray_tracer::walk::octant_walk;
use voxel_ray_tracer::vec3::{Color, IVec3};
use voxel_ray_tracer::voxel::{Voxel, VoxelGenerator};

fn vox(r: u8, g: u8, b: u8) -> Voxel {
    Voxel { color: Color::new(r, g, b) }
}

fn v(x: i32, y: i32, z: i32) -> IVec3 {
    IVec3::new(x, y, z)
}

#[test]
fn test_octree_insert_and_get_one() {
    let mut octree = Octree::new(IAabb::new(IVec3::splat(0), IVec3::splat(1)));

    assert!(octree.insert(IVec3::splat(1), vox(1, 1, 1)));
    assert_eq!(octree.get(IVec3::splat(1)), Some(vox(1, 1, 1)));

    assert!(octree.insert(IVec3::splat(0), vox(2, 2, 2)));

    assert!(!octree.insert(IVec3::splat(-2), vox(3, 3, 3)));

    assert_eq!(octree.get(IVec3::splat(0)), Some(vox(2, 2, 2)));
    assert_eq!(octree.get(IVec3::splat(-1)), None);
    assert_eq!(octree.get(IVec3::splat(-2)), None);
    assert_eq!(octree.get(IVec3::splat(1)), Some(vox(1, 1, 1)));

    assert!(octree.insert(IVec3::splat(1), vox(4, 4, 4)));
    assert_eq!(octree.get(IVec3::splat(1)), Some(vox(4, 4, 4)));

    assert!(octree.insert(v(1, 0, 1), vox(0, 1, 0)));
    assert_eq!(octree.get(v(1, 0, 1)), Some(vox(0, 1, 0)));
}

#[test]
fn test_octree_insert_and_get_two() {
    let mut octree = Octree::new(IAabb::new(IVec3::splat(0), IVec3::splat(2)));

    assert!(octree.insert(IVec3::splat(1), vox(1, 1, 1)));
    assert_eq!(octree.get(IVec3::splat(1)), Some(vox(1, 1, 1)));

    assert!(octree.insert(IVec3::splat(0), vox(2, 2, 2)));
    assert!(octree.insert(IVec3::splat(-1), vox(3, 3, 3)));

    assert_eq!(octree.get(IVec3::splat(0)), Some(vox(2, 2, 2)));
    assert_eq!(octree.get(IVec3::splat(-1)), Some(vox(3, 3, 3)));
    assert_eq!(octree.get(IVec3::splat(1)), Some(vox(1, 1, 1)));

    assert!(octree.insert(IVec3::splat(1), vox(4, 4, 4)));
    assert_eq!(octree.get(IVec3::splat(1)), Some(vox(4, 4, 4)));
}

#[test]
fn octree_persistence_scenario() {
    let mut octree = Octree::new(IAabb::new(IVec3::splat(0), IVec3::splat(2)));
    let (a, b, c, d) = (vox(10, 0, 0), vox(0, 20, 0), vox(0, 0, 30), vox(40, 40, 40));
    assert!(octree.insert(v(1, 1, 1), a));
    assert!(octree.insert(v(0, 0, 0), b));
    assert!(octree.insert(v(-1, -1, -1), c));
    assert_eq!(octree.get(v(1, 1, 1)), Some(a));
    assert_eq!(octree.get(v(0, 0, 0)), Some(b));
    assert_eq!(octree.get(v(-1, -1, -1)), Some(c));
    assert!(octree.insert(v(1, 1, 1), d));
    assert_eq!(octree.get(v(1, 1, 1)), Some(d));
    assert_eq!(octree.get(v(0, 0, 0)), Some(b));
    assert_eq!(octree.get(v(-1, -1, -1)), Some(c));
}

#[test]
fn octree_covers_padded_cube_only() {
    // extents 3 pad to 4: addressable cells are (-4, 4] on every axis
    let mut octree = Octree::new(IAabb::new(IVec3::splat(0), IVec3::splat(3)));
    assert_eq!(octree.aabb(), IAabb::new(IVec3::splat(0), IVec3::splat(4)));
    assert!(octree.insert(IVec3::splat(4), vox(1, 2, 3)));
    assert!(octree.insert(IVec3::splat(-3), vox(3, 2, 1)));
    assert!(!octree.insert(IVec3::splat(-4), vox(9, 9, 9)));
    assert!(!octree.insert(v(0, 5, 0), vox(9, 9, 9)));
    assert_eq!(octree.get(IVec3::splat(4)), Some(vox(1, 2, 3)));
    assert_eq!(octree.get(IVec3::splat(-3)), Some(vox(3, 2, 1)));
    assert_eq!(octree.get(IVec3::splat(-4)), None);
    assert_eq!(octree.get(v(0, 5, 0)), None);
}

#[test]
fn set_with_none_changes_nothing() {
    let mut octree = Octree::new(IAabb::new(IVec3::splat(0), IVec3::splat(2)));
    assert!(octree.set(v(1, 2, 0), Some(vox(5, 5, 5))));
    assert!(octree.set(v(1, 2, 0), None));
    assert_eq!(octree.get(v(1, 2, 0)), Some(vox(5, 5, 5)));
    assert!(octree.set(v(100, 0, 0), None));
    assert!(!octree.set(v(100, 0, 0), Some(vox(5, 5, 5))));
}

#[test]
fn slots_of_unit_leaf() {
    // the padded root of extents 2 has leaves of extents 1 as children
    let mut octree = Octree::new(IAabb::new(IVec3::splat(0), IVec3::splat(1)));
    assert_eq!(octree.node_count(), 1);
    assert!(octree.insert(v(1, 1, 1), vox(7, 7, 7)));
    assert!(octree.insert(v(2, 2, 2), vox(8, 8, 8)));
    assert_eq!(octree.node_count(), 2);
    // (1, 1, 1) and (2, 2, 2) both lie in octant 7 of the root
    let leaf = match octree.slot(0, 7) {
        Slot::Child(c) => c,
        other => panic!("expected a child, got {:?}", other),
    };
    assert_eq!(octree.slot(0, 0), Slot::Empty);
    // the leaf box has origin (1, 1, 1): (1, 1, 1) is slot 0, (2, 2, 2) is slot 7
    assert_eq!(octree.slot(leaf, 0), Slot::Voxel(vox(7, 7, 7)));
    assert_eq!(octree.slot(leaf, 7), Slot::Voxel(vox(8, 8, 8)));
    assert_eq!(octree.slot(leaf, 3), Slot::Empty);
}

#[test]
fn node_kind_follows_box_size() {
    assert!(matches!(Node::from_aabb(IAabb::new(IVec3::splat(0), IVec3::splat(1))), Node::Leaf(_)));
    assert!(matches!(Node::from_aabb(IAabb::new(IVec3::splat(0), IVec3::splat(2))), Node::Branch(_)));
}

fn terrain() -> (VoxelGenerator, IAabb) {
    // a 4 x 4 column rectangle over x, y in [-2, 2)
    let heights = vec![-1, 0, 1, 2, 3, 0, 1, 2, 1, 1, 1, 1, 0, 0, 0, 3];
    (VoxelGenerator::from_heights(-2, -2, 4, 4, heights), IAabb::new(IVec3::splat(0), IVec3::splat(2)))
}

#[test]
fn octree_from_voxels_matches_generator() {
    let (generator, bb) = terrain();
    let octree = Octree::from_voxels(&generator, bb);
    let mut count = 0;
    for p in bb.iter() {
        assert_eq!(octree.get(p), generator.lookup(p));
        if generator.lookup(p).is_some() {
            count += 1;
        }
    }
    assert!(count > 0);
    // the padded cube reaches past bb, and holds nothing there
    assert_eq!(octree.get(v(2, 0, 0)), None);
    assert_eq!(octree.get(v(0, 0, 2)), None);
}

#[test]
fn dense_and_sparse_hold_the_same_voxels() {
    let (generator, bb) = terrain();
    let dense = DenseStorage::from_voxels(&generator, bb);
    let sparse = SparseStorage::from_voxels(&generator, bb);
    let lo = bb.min();
    for ix in 0..4 {
        for iy in 0..4 {
            for iz in 0..4 {
                let p = v(lo.x + ix, lo.y + iy, lo.z + iz);
                assert_eq!(dense.chunk().cell(v(ix, iy, iz)), Some(sparse.octree().get(p)));
            }
        }
    }
}

#[test]
fn octant_walk_flips_one_bit_per_axis() {
    assert_eq!(octant_walk(0, &vec![]), vec![0]);
    assert_eq!(octant_walk(0, &vec![1]), vec![0, 2]);
    assert_eq!(octant_walk(5, &vec![0, 2, 1]), vec![5, 4, 0, 2]);
    assert_eq!(octant_walk(7, &vec![2, 1, 0]), vec![7, 3, 1, 0]);
    let walk = octant_walk(6, &vec![1, 0, 2]);
    for i in 0..walk.len() {
        for j in (i + 1)..walk.len() {
            assert_ne!(walk[i], walk[j]);
        }
    }
}

#[test]
fn entries_list_every_stored_voxel() {
    let mut octree = Octree::new(IAabb::new(IVec3::splat(0), IVec3::splat(2)));
    assert!(octree.entries().is_empty());
    let cells = [v(1, 1, 1), v(0, 0, 0), v(-1, -1, -1), v(2, -1, 0), v(1, 0, 2)];
    for (i, p) in cells.iter().enumerate() {
        assert!(octree.insert(*p, vox(i as u8, 0, 0)));
    }
    let entries = octree.entries();
    assert_eq!(entries.len(), cells.len());
    for (i, p) in cells.iter().enumerate() {
        assert!(entries.contains(&(*p, vox(i as u8, 0, 0))));
    }
    for (p, voxel) in &entries {
        assert_eq!(octree.get(*p), Some(*voxel));
    }
}

#[test]
fn len_counts_voxels() {
    let mut octree = Octree::new(IAabb::new(IVec3::splat(0), IVec3::splat(3)));
    assert_eq!(octree.len(), 0);
    assert!(octree.insert(v(1, 1, 1), vox(1, 1, 1)));
    assert!(octree.insert(v(1, 1, 2), vox(1, 1, 1)));
    assert!(octree.insert(v(-3, 4, 0), vox(1, 1, 1)));
    assert_eq!(octree.len(), 3);
    // overwriting keeps the count
    assert!(octree.insert(v(1, 1, 1), vox(2, 2, 2)));
    assert_eq!(octree.len(), 3);
    let (generator, bb) = terrain();
    let built = Octree::from_voxels(&generator, bb);
    let expected = bb.iter().into_iter().filter(|p| generator.lookup(*p).is_some()).count();
    assert_eq!(built.len(), expected);
}

#[test]
fn pearson_hash_follows_the_table() {
    let identity: [u8; 256] = core::array::from_fn(|i| i as u8);
    // with the identity table every round xors the three bytes in:
    // 64 rounds use each x byte 16 times, each y and z byte 16 times, so all cancel
    assert_eq!(pearson_hash(v(0x1234, -7, 99), &identity), Color::new(1, 2, 3));
    let shifted: [u8; 256] = core::array::from_fn(|i| (i as u8).wrapping_add(1));
    let a = pearson_hash(v(5, 6, 7), &shifted);
    let b = pearson_hash(v(5, 6, 7), &shifted);
    assert_eq!(a, b);
    assert_ne!(pearson_hash(v(0, 0, 0), &shifted), Color::new(1, 2, 3));
}
