use std::collections::HashSet;

use nitroray::render::{pixel_index, worker_pixels, workgroup_dimensions};

#[test]
fn workgroups_split_four_by_three() {
    assert_eq!(workgroup_dimensions(8, 6), (2, 2));
    assert_eq!(workgroup_dimensions(10, 10), (2, 3));
    assert_eq!(workgroup_dimensions(3, 2), (0, 0));
}

#[test]
fn worker_renders_its_workgroup_column_by_column() {
    assert_eq!(worker_pixels(0, 8, 6), vec![(0, 0), (0, 1), (1, 0), (1, 1)]);
    assert_eq!(worker_pixels(5, 8, 6), vec![(2, 2), (2, 3), (3, 2), (3, 3)]);
}

#[test]
fn worker_beyond_grid_renders_leftover_rows() {
    // Height 10 gives workgroups three rows high; worker 12 starts at row 9.
    assert_eq!(worker_pixels(12, 10, 10), vec![(0, 9), (1, 9)]);
    assert_eq!(worker_pixels(16, 10, 10), Vec::<(u32, u32)>::new());
}

#[test]
fn tiny_image_gives_workers_nothing() {
    assert!(worker_pixels(0, 3, 2).is_empty());
}

#[test]
fn twelve_workers_cover_divisible_image_once() {
    let (width, height) = (8, 9);
    let mut seen = HashSet::new();
    for worker in 0..12 {
        for pixel in worker_pixels(worker, width, height) {
            assert!(seen.insert(pixel), "pixel {:?} rendered twice", pixel);
        }
    }
    assert_eq!(seen.len(), (width * height) as usize);
}

#[test]
fn fewer_workers_leave_pixels_unrendered() {
    let mut seen = HashSet::new();
    for worker in 0..8 {
        seen.extend(worker_pixels(worker, 8, 9));
    }
    // Eight workers cover the first two workgroup rows only.
    assert_eq!(seen.len(), 8 * 6);
}

#[test]
fn pixel_index_is_row_major() {
    assert_eq!(pixel_index(0, 0, 4, 3), 0);
    assert_eq!(pixel_index(3, 0, 4, 3), 3);
    assert_eq!(pixel_index(1, 2, 4, 3), 9);
    assert_eq!(pixel_index(3, 2, 4, 3), 11);
}

#[test]
fn pixel_indices_fill_the_framebuffer_once() {
    let (width, height) = (5, 4);
    let mut seen = HashSet::new();
    for x in 0..width {
        for y in 0..height {
            let index = pixel_index(x, y, width, height);
            assert!(index < (width * height) as usize);
            assert!(seen.insert(index));
        }
    }
    assert_eq!(seen.len(), (width * height) as usize);
}
