use img2poster::palette::{Color, Palette};
use img2poster::raster::RasterImage;
use img2poster::poster::{convert, reconstruct, quantize_tile, QuantizationMode, PosterArray, Page};
use img2poster::annot::{FixedAnnotator, GridAnnotator};
use img2poster::PosterError;

fn c(r: u8, g: u8, b: u8) -> Color {
    Color { r, g, b }
}

fn test_palette() -> Palette {
    Palette::new(vec![
        c(0, 0, 0),
        c(255, 0, 0),
        c(0, 255, 0),
        c(0, 0, 255),
        c(255, 255, 255),
    ])
    .unwrap()
}

fn fixed() -> FixedAnnotator {
    FixedAnnotator { label: String::from("L"), tooltip: String::from("T") }
}

/// An image whose tile at (tc, tr) is filled with the palette color of
/// index (tr * tiles_w + tc) modulo the palette size.
fn tiled_image(tiles_w: usize, tiles_h: usize) -> RasterImage {
    let colors = [c(0, 0, 0), c(255, 0, 0), c(0, 255, 0), c(0, 0, 255), c(255, 255, 255)];
    let w = tiles_w * 128;
    let h = tiles_h * 128;
    let mut pixels = Vec::with_capacity(w * h);
    for y in 0..h {
        for x in 0..w {
            let tile = (y / 128) * tiles_w + (x / 128);
            pixels.push(colors[tile % colors.len()]);
        }
    }
    RasterImage::new(w, h, pixels).unwrap()
}

#[test]
fn convert_produces_grid_extent_and_page_count() {
    let pal = test_palette();
    let img = tiled_image(2, 3);
    let a = convert(&img, &pal, &fixed(), QuantizationMode::WholeImage, 1, String::from("t"))
        .unwrap();
    assert_eq!(a.width, 2);
    assert_eq!(a.height, 3);
    assert_eq!(a.pages.len(), 6);
    assert_eq!(a.title, "t");
    for p in &a.pages {
        assert_eq!(p.pixels.len(), 128 * 128);
    }
}

#[test]
fn convert_rejects_unaligned_image() {
    let pal = test_palette();
    let img = RasterImage::new(100, 128, vec![c(0, 0, 0); 100 * 128]).unwrap();
    let r = convert(&img, &pal, &fixed(), QuantizationMode::WholeImage, 1, String::new());
    assert_eq!(r.unwrap_err(), PosterError::InvalidDimensions);
}

#[test]
fn page_order_is_row_major_for_any_worker_count() {
    let pal = test_palette();
    let img = tiled_image(2, 3);
    let mut results: Vec<PosterArray> = Vec::new();
    for workers in [1u32, 2, 8] {
        let a = convert(&img, &pal, &fixed(), QuantizationMode::WholeImage, workers,
            String::from("t")).unwrap();
        // Page at linear index row*2+col holds the tile filled with
        // palette color (row*2+col) % 5, so every index equals that.
        for (i, page) in a.pages.iter().enumerate() {
            let expected = (i % 5) as u8;
            assert!(page.pixels.iter().all(|&px| px == expected));
        }
        results.push(a);
    }
    assert_eq!(results[0], results[1]);
    assert_eq!(results[0], results[2]);
}

#[test]
fn annotators_receive_true_coordinates_and_extent() {
    let pal = test_palette();
    let img = tiled_image(2, 3);
    let gen = GridAnnotator { name: String::from("name"), print_id: String::from("000042") };
    let a = convert(&img, &pal, &gen, QuantizationMode::WholeImage, 1, String::from("t"))
        .unwrap();
    // Linear index 4 in a 2x3 grid is (column 0, row 2).
    assert_eq!(a.pages[4].label, "name: (1,3)/(2x3)");
    assert_eq!(
        a.pages[4].tooltip,
        "print:000042 name:name extent:2x3 pos:0,2 info:img2poster"
    );
    assert_eq!(a.pages[0].label, "name: (1,1)/(2x3)");
    assert_eq!(a.pages[5].label, "name: (2,3)/(2x3)");
}

#[test]
fn fixed_annotator_is_constant_per_tile() {
    let pal = test_palette();
    let img = tiled_image(2, 1);
    let gen = FixedAnnotator { label: String::from("forced"), tooltip: String::from("tip") };
    let a = convert(&img, &pal, &gen, QuantizationMode::PerPoster, 1, String::new()).unwrap();
    for p in &a.pages {
        assert_eq!(p.label, "forced");
        assert_eq!(p.tooltip, "tip");
    }
}

#[test]
fn per_poster_tiles_match_independent_quantization() {
    let pal = test_palette();
    let img = tiled_image(2, 1);
    let a = convert(&img, &pal, &fixed(), QuantizationMode::PerPoster, 1, String::new())
        .unwrap();
    // Quantize each 128x128 half as an image of its own.
    for tc in 0..2usize {
        let fill = if tc == 0 { c(0, 0, 0) } else { c(255, 0, 0) };
        let half_img = RasterImage::new(128, 128, vec![fill; 128 * 128]).unwrap();
        let b = convert(&half_img, &pal, &fixed(), QuantizationMode::PerPoster, 1,
            String::new()).unwrap();
        assert_eq!(b.pages.len(), 1);
        assert_eq!(b.pages[0].pixels, a.pages[tc].pixels);
        // The same grid also comes straight from the tile quantizer.
        assert_eq!(quantize_tile(&img, &pal, tc, 0), a.pages[tc].pixels);
    }
}

#[test]
fn reconstruct_inverts_convert() {
    let pal = test_palette();
    let img = tiled_image(2, 3);
    let a = convert(&img, &pal, &fixed(), QuantizationMode::WholeImage, 1, String::new())
        .unwrap();
    let out = reconstruct(&a, &pal).unwrap();
    assert_eq!(out.width, img.width);
    assert_eq!(out.height, img.height);
    // Every source pixel is an exact palette color, so reconstruction
    // returns the original image.
    assert_eq!(out.pixels, img.pixels);
}

#[test]
fn reconstruct_single_tile_pixels_are_nearest_palette_colors() {
    let pal = test_palette();
    // A 128x128 image of colors that are near, not equal to, entries.
    let mut pixels = Vec::with_capacity(128 * 128);
    for y in 0..128u32 {
        for x in 0..128u32 {
            pixels.push(c((x % 256) as u8, (y % 256) as u8, 7));
        }
    }
    let img = RasterImage::new(128, 128, pixels).unwrap();
    let a = convert(&img, &pal, &fixed(), QuantizationMode::WholeImage, 1, String::new())
        .unwrap();
    let out = reconstruct(&a, &pal).unwrap();
    assert_eq!(out.width, 128);
    assert_eq!(out.height, 128);
    for y in 0..128usize {
        for x in 0..128usize {
            let orig = img.pixels[y * 128 + x];
            let idx = pal.nearest(orig);
            let expect = pal.color_at(idx);
            assert_eq!(out.pixels[y * 128 + x], expect);
        }
    }
}

#[test]
fn reconstruct_rejects_malformed_arrays() {
    let pal = test_palette();
    let page = Page {
        pixels: vec![0u8; 128 * 128],
        label: String::new(),
        tooltip: String::new(),
    };
    // Wrong page count for the declared extent.
    let bad = PosterArray { pages: vec![page.clone()], width: 2, height: 1,
        title: String::new() };
    assert_eq!(reconstruct(&bad, &pal).unwrap_err(), PosterError::InvalidDimensions);
    // A page with an index outside the palette.
    let mut rogue = page.clone();
    rogue.pixels[77] = 200;
    let bad2 = PosterArray { pages: vec![rogue], width: 1, height: 1, title: String::new() };
    assert_eq!(reconstruct(&bad2, &pal).unwrap_err(), PosterError::QuantizationFailure);
    // A page with too few indices.
    let short = Page { pixels: vec![0u8; 5], label: String::new(), tooltip: String::new() };
    let bad3 = PosterArray { pages: vec![short], width: 1, height: 1, title: String::new() };
    assert_eq!(reconstruct(&bad3, &pal).unwrap_err(), PosterError::InvalidDimensions);
}
