//! Behaviour of the raster helpers: drawing a path and a search snapshot
//! onto an image, channel extraction and height normalization.

use rustfinder::raster::in_bounds;
use rustfinder::{
    draw_path, draw_search_step, get_red_channel, normalize_to_grid, Color, ColorImage,
    GrayImage, SearchStep, SCALE,
};

fn gray_base(width: usize, height: usize, level: u8) -> ColorImage {
    ColorImage {
        width,
        height,
        pixels: vec![Color { r: level, g: level, b: level }; width * height],
    }
}

fn pixel(img: &ColorImage, r: usize, c: usize) -> Color {
    img.get(r, c)
}

#[test]
fn draw_path_paints_route_endpoints_and_blocked() {
    let base = gray_base(4, 4, 100);
    let path = vec![(0usize, 0usize), (1, 1), (2, 2)];
    let blocked = vec![(-1isize, 0isize), (3, 3), (9, 9)];
    let out = draw_path(&base, &path, &blocked);
    // First cell green, last purple, the middle red.
    assert_eq!(pixel(&out, 0, 0), Color { r: 0, g: 255, b: 0 });
    assert_eq!(pixel(&out, 1, 1), Color { r: 255, g: 0, b: 0 });
    assert_eq!(pixel(&out, 2, 2), Color { r: 128, g: 0, b: 128 });
    // In-bounds blocked cells darkened; off-image ones ignored.
    assert_eq!(pixel(&out, 3, 3), Color { r: 0, g: 0, b: 0 });
    // Everything else keeps the base image.
    assert_eq!(pixel(&out, 0, 3), Color { r: 100, g: 100, b: 100 });
    assert_eq!(pixel(&out, 2, 1), Color { r: 100, g: 100, b: 100 });
}

#[test]
fn draw_path_single_cell_is_marked_as_goal() {
    let base = gray_base(3, 3, 10);
    let path = vec![(1usize, 1usize)];
    let out = draw_path(&base, &path, &Vec::new());
    // The only cell is both first and last: the goal colour wins.
    assert_eq!(pixel(&out, 1, 1), Color { r: 128, g: 0, b: 128 });
}

#[test]
fn path_cells_win_over_blocked_cells() {
    let base = gray_base(3, 3, 10);
    let path = vec![(0usize, 0usize), (0, 1), (0, 2)];
    let blocked = vec![(0isize, 1isize)];
    let out = draw_path(&base, &path, &blocked);
    assert_eq!(pixel(&out, 0, 1), Color { r: 255, g: 0, b: 0 });
}

#[test]
fn draw_search_step_layers_the_snapshot() {
    let base = gray_base(4, 4, 200);
    let step = SearchStep {
        step_index: 5,
        current: (1, 1),
        visited: vec![(0, 0), (1, 1), (0, 1)],
        open_nodes: vec![(0, 1), (2, 2)],
        blocked: vec![(3isize, 0isize), (-2, -2)],
        is_goal: false,
    };
    let out = draw_search_step(&base, &step);
    // The current cell outranks its own visited mark.
    assert_eq!(pixel(&out, 1, 1), Color { r: 50, g: 205, b: 50 });
    // A frontier mark outranks a visited mark.
    assert_eq!(pixel(&out, 0, 1), Color { r: 255, g: 255, b: 0 });
    assert_eq!(pixel(&out, 0, 0), Color { r: 0, g: 0, b: 255 });
    assert_eq!(pixel(&out, 2, 2), Color { r: 255, g: 255, b: 0 });
    assert_eq!(pixel(&out, 3, 0), Color { r: 0, g: 0, b: 0 });
    assert_eq!(pixel(&out, 3, 3), Color { r: 200, g: 200, b: 200 });
}

#[test]
fn red_channel_extraction() {
    let img = ColorImage {
        width: 2,
        height: 1,
        pixels: vec![Color { r: 17, g: 200, b: 3 }, Color { r: 250, g: 1, b: 1 }],
    };
    let gray = get_red_channel(&img);
    assert_eq!(gray.get(0, 0), 17);
    assert_eq!(gray.get(0, 1), 250);
    assert_eq!(gray.width, 2);
    assert_eq!(gray.height, 1);
}

#[test]
fn normalization_scales_bytes_into_the_unit_range() {
    let img = GrayImage { width: 3, height: 1, pixels: vec![0, 128, 255] };
    let grid = normalize_to_grid(&img);
    assert_eq!(grid.rows, 1);
    assert_eq!(grid.cols, 3);
    assert_eq!(grid.get(0, 0), 0);
    assert_eq!(grid.get(0, 1), (128 * SCALE / 255) as i64);
    assert_eq!(grid.get(0, 2), SCALE as i64);
}

#[test]
fn bounds_test_is_exact() {
    assert!(in_bounds(0, 0, 1, 1));
    assert!(!in_bounds(1, 0, 1, 1));
    assert!(!in_bounds(0, 5, 3, 5));
    assert!(in_bounds(2, 4, 3, 5));
}
