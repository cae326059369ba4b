use voxel_ray_tracer::framebuffer::{pack_color, rgba_bytes, Framebuffer, Iter, ParIter};
use voxel_ray_tracer::scene::{camera_position, scene_aabb, ConfigError};
use voxel_ray_tracer::vec3::{Color, IVec3};

#[test]
fn framebuffer_starts_transparent() {
    let fb = Framebuffer::new(3, 2);
    assert_eq!(fb.width(), 3);
    assert_eq!(fb.height(), 2);
    for y in 0..2 {
        for x in 0..3 {
            assert_eq!(fb.pixel(x, y), 0);
        }
    }
    assert_eq!(fb.to_rgba8(), vec![0u8; 24]);
}

#[test]
fn pixel_mut_writes_row_major() {
    let mut fb = Framebuffer::new(3, 2);
    *fb.pixel_mut(2, 1) = 0x1122_33FF;
    *fb.pixel_mut(0, 1) = 7;
    assert_eq!(fb.pixel(2, 1), 0x1122_33FF);
    assert_eq!(fb.pixel(0, 1), 7);
    assert_eq!(fb.pixel(1, 1), 0);
    let bytes = fb.to_rgba8();
    assert_eq!(bytes.len(), 24);
    // cell (2, 1) is word 1 * 3 + 2 = 5
    assert_eq!(&bytes[20..24], &[0x11, 0x22, 0x33, 0xFF]);
    assert_eq!(&bytes[12..16], &[0, 0, 0, 7]);
}

#[test]
fn from_pixels_keeps_words() {
    let fb = Framebuffer::from_pixels(2, 1, vec![1, 0xAABB_CCDD]);
    assert_eq!(fb.pixel(1, 0), 0xAABB_CCDD);
    assert_eq!(fb.to_rgba8(), vec![0, 0, 0, 1, 0xAA, 0xBB, 0xCC, 0xDD]);
}

#[test]
fn pack_color_layout() {
    assert_eq!(pack_color(Color::new(0x12, 0x34, 0x56)), 0x1234_56FF);
    assert_eq!(pack_color(Color::new(0, 0, 0)), 0x0000_00FF);
    assert_eq!(pack_color(Color::new(255, 255, 255)), 0xFFFF_FFFF);
}

#[test]
fn rgba_bytes_split() {
    assert_eq!(rgba_bytes(0x1234_5678), [0x12, 0x34, 0x56, 0x78]);
    assert_eq!(rgba_bytes(0), [0, 0, 0, 0]);
    let c = Color::new(9, 200, 31);
    assert_eq!(rgba_bytes(pack_color(c)), [9, 200, 31, 0xFF]);
}

#[test]
fn par_iter_covers_every_cell_once() {
    let fb = Framebuffer::new(4, 3);
    let all = fb.into_par_iter();
    assert_eq!(all.len(), 12);
    let (left, right) = all.split_at(5);
    assert_eq!((left.start, left.end), (0, 5));
    assert_eq!((right.start, right.end), (5, 12));
    let (a, b) = right.split_at(3);
    let mut seen = vec![0; 12];
    for part in [left, a, b] {
        let mut it = part.into_iter();
        while let Some(px) = it.next() {
            assert_eq!(px.index, px.y * 4 + px.x);
            assert!(px.x < 4 && px.y < 3);
            seen[px.index] += 1;
        }
    }
    assert_eq!(seen, vec![1; 12]);
}

#[test]
fn iter_from_both_ends() {
    let mut it = Iter { width: 3, start: 1, end: 5 };
    assert_eq!(it.len(), 4);
    let f = it.next().unwrap();
    assert_eq!((f.x, f.y, f.index), (1, 0, 1));
    let b = it.next_back().unwrap();
    assert_eq!((b.x, b.y, b.index), (1, 1, 4));
    let b = it.next_back().unwrap();
    assert_eq!((b.x, b.y, b.index), (0, 1, 3));
    assert_eq!(it.len(), 1);
    assert_eq!(it.next().unwrap().index, 2);
    assert!(it.next().is_none());
    assert!(it.next_back().is_none());
    let p = ParIter { width: 3, start: 2, end: 2 };
    assert_eq!(p.len(), 0);
}

#[test]
fn scene_box_and_camera_position() {
    let bb = scene_aabb(50);
    assert_eq!(bb.origin, IVec3::splat(0));
    assert_eq!(bb.extents, IVec3::splat(50));
    assert_eq!(camera_position(None, 50), Ok(IVec3::splat(50)));
    assert_eq!(camera_position(Some(vec![1, -2, 3]), 50), Ok(IVec3::new(1, -2, 3)));
    assert_eq!(camera_position(Some(vec![1, 2]), 50), Err(ConfigError::InvalidPosition));
    assert_eq!(camera_position(Some(vec![1, 2, 3, 4]), 50), Err(ConfigError::InvalidPosition));
    assert_eq!(camera_position(Some(vec![]), 50), Err(ConfigError::InvalidPosition));
}
