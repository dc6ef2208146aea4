use fractui::color::{from_hex, get_palette_colors, Color, Palette};
use fractui::engine::{compute_batches, sample_density};
use fractui::geom::Rect;

#[test]
fn density_doubles_width_and_quadruples_height() {
    let (dx, dy) = sample_density(Rect { x: 3, y: 7, width: 80, height: 24 });
    assert_eq!((dx, dy), (160, 96));
}

#[test]
fn density_has_a_floor_of_ten() {
    let (dx, dy) = sample_density(Rect { x: 0, y: 0, width: 4, height: 2 });
    assert_eq!((dx, dy), (10, 10));
    let (dx, dy) = sample_density(Rect { x: 0, y: 0, width: 0, height: 0 });
    assert_eq!((dx, dy), (10, 10));
    let (dx, dy) = sample_density(Rect { x: 0, y: 0, width: 5, height: 3 });
    assert_eq!((dx, dy), (10, 12));
}

#[test]
fn samples_land_in_iteration_modulo_bucket() {
    // Columns of iteration counts; cap 6, palette of 4 colors.
    let grid = vec![vec![0u32, 1, 2, 3], vec![4, 5, 6, 7]];
    let batches = compute_batches(&grid, 6, 4);
    assert_eq!(batches.len(), 4);
    // Iteration k < 6 goes to bucket k % 4; 6 is the cap (dropped) and 7
    // exceeds it (the kernel never returns beyond the cap, but even such a
    // value lands nowhere).
    assert_eq!(batches[0], vec![(0, 0), (1, 0)]); // iterations 0 and 4
    assert_eq!(batches[1], vec![(0, 1), (1, 1)]); // iterations 1 and 5
    assert_eq!(batches[2], vec![(0, 2)]); // iteration 2; 6 reached the cap
    assert_eq!(batches[3], vec![(0, 3)]); // iteration 3
}

#[test]
fn capped_samples_are_painted_nowhere() {
    let grid = vec![vec![9u32, 9, 9]];
    let batches = compute_batches(&grid, 9, 8);
    assert_eq!(batches.len(), 8);
    for bucket in &batches {
        assert!(bucket.is_empty());
    }
}

#[test]
fn merge_keeps_column_order_per_bucket() {
    // One palette bucket: every escaped sample lands in it, columns first.
    let grid = vec![vec![0u32, 5], vec![1u32], vec![5u32, 0, 2]];
    let batches = compute_batches(&grid, 6, 1);
    assert_eq!(batches.len(), 1);
    assert_eq!(batches[0], vec![(0, 0), (0, 1), (1, 0), (2, 0), (2, 1), (2, 2)]);
}

#[test]
fn from_hex_unpacks_channels() {
    assert_eq!(from_hex(0x030412), Color::Rgb(0x03, 0x04, 0x12));
    assert_eq!(from_hex(0xFCFDBF), Color::Rgb(0xFC, 0xFD, 0xBF));
    assert_eq!(from_hex(0x000000), Color::Rgb(0, 0, 0));
}

#[test]
fn palettes_have_their_color_tables() {
    let classic = get_palette_colors(Palette::Classic);
    assert_eq!(classic.len(), 8);
    assert_eq!(classic[0], Color::Red);
    assert_eq!(classic[7], Color::Cyan);
    let rainbow = get_palette_colors(Palette::Rainbow);
    assert_eq!(rainbow.len(), 8);
    assert_eq!(rainbow[0], Color::Magenta);
    let magma = get_palette_colors(Palette::Magma);
    assert_eq!(magma.len(), 18);
    assert_eq!(magma[0], Color::Rgb(0x03, 0x04, 0x12));
    assert_eq!(magma[17], Color::Rgb(0xFC, 0xFD, 0xBF));
}

#[test]
fn rect_edges_saturate() {
    let r = Rect { x: 65535, y: 65530, width: 10, height: 10 };
    assert_eq!(r.right(), 65535);
    assert_eq!(r.bottom(), 65535);
    let r = Rect { x: 5, y: 6, width: 7, height: 8 };
    assert_eq!((r.left(), r.right(), r.top(), r.bottom()), (5, 12, 6, 14));
    assert!(r.contains(5, 6));
    assert!(r.contains(11, 13));
    assert!(!r.contains(12, 6));
    assert!(!r.contains(5, 14));
}
