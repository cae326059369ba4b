use noise::{NoiseFn, Perlin};
use voxel_ray_tracer::aabb::IAabb;
use voxel_ray_tracer::dense::{Chunk, DenseStorage};
use voxel_ray_tracer::vec3::{Color, IVec3};
use voxel_ray_tracer::voxel::{column_voxel, height_to_color, Voxel, VoxelGenerator, MAX_HEIGHT};

const TEST_SEED: u32 = 12345;

fn water() -> Color {
    Color::new(0, 80, 200)
}

fn grass() -> Color {
    Color::new(50, 170, 50)
}

fn mountain() -> Color {
    Color::new(130, 130, 130)
}

fn snow() -> Color {
    Color::new(240, 240, 255)
}

#[test]
fn test_voxel_generator_lookup_with_seed() {
    let x = 0;
    let y = 0;

    let perlin = Perlin::new(TEST_SEED);
    let scale = 1.0 / MAX_HEIGHT as f64;
    let noise_value = perlin.get([x as f64 * scale, y as f64 * scale]);
    let terrain_z = ((noise_value + 1.0) / 2.0 * MAX_HEIGHT as f64) as i32;

    let voxel_generator = VoxelGenerator::from_heights(x, y, 1, 1, vec![terrain_z]);

    let voxel_correct_height = voxel_generator.lookup(IVec3::new(x, y, terrain_z));
    assert!(voxel_correct_height.is_some(), "Voxel does not exist at correct height");

    let voxel_above = voxel_generator.lookup(IVec3::new(x, y, terrain_z + 1));
    assert!(voxel_above.is_none(), "Voxel exists above the calculated height");

    let voxel_below = voxel_generator.lookup(IVec3::new(x, y, terrain_z - 1));
    assert!(
        voxel_below.is_some() || terrain_z == 0,
        "Voxel is missing below or at the calculated height"
    );
}

#[test]
fn test_voxel_color_mapping() {
    let low_voxel = height_to_color(2);
    let mid_voxel = height_to_color(MAX_HEIGHT / 2);
    let high_voxel = height_to_color(MAX_HEIGHT - 1);

    assert_eq!(low_voxel, water(), "Low altitude should be blue (water)");
    assert_eq!(mid_voxel, grass(), "Mid altitude should be green (grass)");
    assert_eq!(high_voxel, snow(), "High altitude should be white (snow)");
}

#[test]
fn color_band_edges() {
    assert_eq!(height_to_color(-5), water());
    assert_eq!(height_to_color(29), water());
    assert_eq!(height_to_color(30), grass());
    assert_eq!(height_to_color(59), grass());
    assert_eq!(height_to_color(60), mountain());
    assert_eq!(height_to_color(79), mountain());
    assert_eq!(height_to_color(80), snow());
    assert_eq!(height_to_color(1000), snow());
}

#[test]
fn column_holds_voxels_from_ground_to_height() {
    assert_eq!(column_voxel(-1, 40), None);
    assert_eq!(column_voxel(0, 40), Some(Voxel { color: grass() }));
    assert_eq!(column_voxel(40, 40), Some(Voxel { color: grass() }));
    assert_eq!(column_voxel(41, 40), None);
    assert_eq!(column_voxel(0, -1), None);
}

#[test]
fn generator_columns_and_outside() {
    let g = VoxelGenerator::from_heights(10, 20, 2, 3, vec![0, 1, 2, 30, 60, 90]);
    // heights[i * depth + j] is column (10 + i, 20 + j)
    assert_eq!(g.height(10, 22), Some(2));
    assert_eq!(g.height(11, 20), Some(30));
    assert_eq!(g.height(12, 20), None);
    assert_eq!(g.height(9, 20), None);
    assert_eq!(g.lookup(IVec3::new(11, 22, 90)), Some(Voxel { color: snow() }));
    assert_eq!(g.lookup(IVec3::new(11, 21, 61)), None);
    assert_eq!(g.lookup(IVec3::new(11, 21, 0)), Some(Voxel { color: mountain() }));
    assert_eq!(g.lookup(IVec3::new(0, 0, 0)), None);
}

#[test]
fn generator_determinism_for_equal_heights() {
    let a = VoxelGenerator::from_heights(0, 0, 2, 2, vec![1, 5, 50, 99]);
    let b = VoxelGenerator::from_heights(0, 0, 2, 2, vec![1, 5, 50, 99]);
    for x in -1..3 {
        for y in -1..3 {
            for z in -1..101 {
                let p = IVec3::new(x, y, z);
                assert_eq!(a.lookup(p), b.lookup(p));
            }
        }
    }
}

#[test]
fn chunk_len_counts_occupied_cells() {
    let bb = IAabb::new(IVec3::splat(0), IVec3::splat(1));
    let mut data = vec![None; 8];
    let one = Some(Voxel { color: Color::new(1, 1, 1) });
    data[0] = one;
    data[5] = one;
    let chunk = Chunk::new(data, bb);
    assert_eq!(chunk.len(), 2);
    assert_eq!(chunk.cell(IVec3::new(0, 0, 0)), Some(one));
    // z + 2 * (y + 2 * x) = 1 + 2 * (0 + 2 * 1) = 5
    assert_eq!(chunk.cell(IVec3::new(1, 0, 1)), Some(one));
    assert_eq!(chunk.cell(IVec3::new(0, 1, 0)), Some(None));
    assert_eq!(chunk.cell(IVec3::new(2, 0, 0)), None);
    assert_eq!(Chunk::new(vec![None; 8], bb).len(), 0);
}

#[test]
fn dense_from_voxels_in_lattice_order() {
    let g = VoxelGenerator::from_heights(-1, -1, 2, 2, vec![0, 1, -1, 5]);
    let bb = IAabb::new(IVec3::splat(0), IVec3::splat(1));
    let dense = DenseStorage::from_voxels(&g, bb);
    let chunk = dense.chunk();
    assert_eq!(chunk.aabb(), bb);
    let pts = bb.iter();
    let mut occupied = 0;
    for (k, p) in pts.iter().enumerate() {
        let lo = bb.min();
        let off = IVec3::new(p.x - lo.x, p.y - lo.y, p.z - lo.z);
        assert_eq!(chunk.cell(off), Some(g.lookup(*p)));
        assert_eq!(k as i32, off.z + 2 * (off.y + 2 * off.x));
        if g.lookup(*p).is_some() {
            occupied += 1;
        }
    }
    // columns (-1,-1): z=0 only in [-1,1) -> 1; (-1,0): z in {0} -> 1;
    // (0,-1): none; (0,0): z in {0} -> 1
    assert_eq!(occupied, 3);
    assert_eq!(chunk.len(), 3);
}
