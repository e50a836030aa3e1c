use img2poster::palette::{Color, Palette};
use img2poster::grid::{grid_extent, tile_coord, page_index, pixel_region, enumerate_tiles,
    snap_to_tile_multiple};
use img2poster::PosterError;

fn c(r: u8, g: u8, b: u8) -> Color {
    Color { r, g, b }
}

#[test]
fn nearest_exact_match_maps_to_entry() {
    let pal = Palette::new(vec![c(0, 0, 0), c(255, 0, 0), c(0, 255, 0), c(0, 0, 255)]).unwrap();
    assert_eq!(pal.nearest(c(0, 0, 0)), 0);
    assert_eq!(pal.nearest(c(255, 0, 0)), 1);
    assert_eq!(pal.nearest(c(0, 255, 0)), 2);
    assert_eq!(pal.nearest(c(0, 0, 255)), 3);
}

#[test]
fn nearest_is_deterministic() {
    let pal = Palette::new(vec![c(10, 10, 10), c(200, 200, 200)]).unwrap();
    let probe = c(90, 91, 92);
    let first = pal.nearest(probe);
    for _ in 0..10 {
        assert_eq!(pal.nearest(probe), first);
    }
}

#[test]
fn nearest_ties_break_to_lowest_index() {
    // 100 is equidistant from 90 and 110.
    let pal = Palette::new(vec![c(110, 0, 0), c(90, 0, 0)]).unwrap();
    assert_eq!(pal.nearest(c(100, 0, 0)), 0);
    // Duplicate entries: the first wins.
    let pal2 = Palette::new(vec![c(1, 2, 3), c(1, 2, 3)]).unwrap();
    assert_eq!(pal2.nearest(c(1, 2, 3)), 0);
}

#[test]
fn nearest_handles_full_channel_range() {
    let pal = Palette::new(vec![c(0, 0, 0), c(255, 255, 255)]).unwrap();
    assert_eq!(pal.nearest(c(255, 255, 255)), 1);
    assert_eq!(pal.nearest(c(0, 0, 0)), 0);
    assert_eq!(pal.nearest(c(127, 127, 127)), 0);
    assert_eq!(pal.nearest(c(128, 128, 128)), 1);
}

#[test]
fn palette_rejects_empty_and_oversized() {
    assert_eq!(Palette::new(vec![]).unwrap_err(), PosterError::InvalidDimensions);
    assert!(Palette::new(vec![c(0, 0, 0); 256]).is_ok());
    assert_eq!(
        Palette::new(vec![c(0, 0, 0); 257]).unwrap_err(),
        PosterError::InvalidDimensions
    );
}

#[test]
fn grid_extent_of_valid_dimensions() {
    assert_eq!(grid_extent(128, 128).unwrap(), (1, 1));
    assert_eq!(grid_extent(256, 384).unwrap(), (2, 3));
}

#[test]
fn grid_extent_rejects_unaligned_or_empty() {
    assert_eq!(grid_extent(100, 128).unwrap_err(), PosterError::InvalidDimensions);
    assert_eq!(grid_extent(128, 129).unwrap_err(), PosterError::InvalidDimensions);
    assert_eq!(grid_extent(0, 128).unwrap_err(), PosterError::InvalidDimensions);
    assert_eq!(grid_extent(128, 0).unwrap_err(), PosterError::InvalidDimensions);
}

#[test]
fn tile_coordinates_are_row_major() {
    // 2 wide, 3 tall: linear index 4 is column 0 of row 2.
    assert_eq!(tile_coord(4, 2), (0, 2));
    assert_eq!(tile_coord(0, 2), (0, 0));
    assert_eq!(tile_coord(1, 2), (1, 0));
    assert_eq!(page_index(0, 2, 2, 3), 4);
    assert_eq!(page_index(1, 2, 2, 3), 5);
    let tiles = enumerate_tiles(2, 3);
    assert_eq!(tiles.len(), 6);
    assert_eq!(tiles[0], (0, 0));
    assert_eq!(tiles[1], (1, 0));
    assert_eq!(tiles[2], (0, 1));
    assert_eq!(tiles[5], (1, 2));
}

#[test]
fn pixel_region_is_scaled_coordinate() {
    assert_eq!(pixel_region(0, 0), (0, 0, 128, 128));
    assert_eq!(pixel_region(3, 2), (384, 256, 128, 128));
}

#[test]
fn snapping_rounds_to_nearest_tile_multiple() {
    assert_eq!(snap_to_tile_multiple(0), 128);
    assert_eq!(snap_to_tile_multiple(63), 128); // rounds down to 0, floored to one tile
    assert_eq!(snap_to_tile_multiple(64), 128);
    assert_eq!(snap_to_tile_multiple(128), 128);
    assert_eq!(snap_to_tile_multiple(191), 128);
    assert_eq!(snap_to_tile_multiple(192), 256);
    assert_eq!(snap_to_tile_multiple(400), 384);
}
