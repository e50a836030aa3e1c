//! The poster array model and the conversion pipeline: quantizing each
//! tile of an image against the fixed palette, assembling the resulting
//! pages in row-major order, and reconstructing a pixel image from an
//! array.

use vstd::prelude::*;
use crate::PosterError;
use crate::grid::{
    TILE_EDGE, PAGE_PIXELS, spec_tile_coord, spec_page_index, grid_extent, tile_coord,
};
use crate::palette::{Color, Palette, spec_nearest};
use crate::raster::{RasterImage, lemma_tile_counts};

verus! {

/// Abstract value of a page: its palette-index grid and its two
/// annotation strings.
pub struct PageV {
    pub pixels: Seq<u8>,
    pub label: Seq<char>,
    pub tooltip: Seq<char>,
}

/// One tile's fully quantized result: a 128x128 grid of palette indices
/// in row-major order, a label and a tooltip.
#[derive(Clone, PartialEq, Debug)]
pub struct Page {
    pub pixels: Vec<u8>,
    pub label: String,
    pub tooltip: String,
}

impl View for Page {
    type V = PageV;

    open spec fn view(&self) -> PageV {
        PageV { pixels: self.pixels@, label: self.label@, tooltip: self.tooltip@ }
    }
}

/// Abstract value of a poster array.
pub struct ArrayV {
    pub pages: Seq<PageV>,
    pub width: int,
    pub height: int,
    pub title: Seq<char>,
}

/// The complete converted artifact: all pages in row-major tile order,
/// the grid extent measured in tiles, and a free-text title.
#[derive(Clone, PartialEq, Debug)]
pub struct PosterArray {
    pub pages: Vec<Page>,
    pub width: u32,
    pub height: u32,
    pub title: String,
}

impl View for PosterArray {
    type V = ArrayV;

    open spec fn view(&self) -> ArrayV {
        ArrayV {
            pages: self.pages@.map_values(|p: Page| p@),
            width: self.width as int,
            height: self.height as int,
            title: self.title@,
        }
    }
}

/// A page holds exactly one palette index per tile pixel.
pub open spec fn page_wf(p: PageV) -> bool {
    p.pixels.len() == PAGE_PIXELS
}

/// A completed poster array: a positive grid extent, one well-formed
/// page per tile.
pub open spec fn array_wf(a: ArrayV) -> bool {
    &&& a.width >= 1
    &&& a.height >= 1
    &&& a.pages.len() == a.width * a.height
    &&& forall|i: int| 0 <= i < a.pages.len() ==> page_wf(#[trigger] a.pages[i])
}

/// Every index of every page refers inside a palette of `pal_len`
/// entries.
pub open spec fn indices_in_range(a: ArrayV, pal_len: int) -> bool {
    forall|i: int, k: int|
        0 <= i < a.pages.len() && 0 <= k < a.pages[i].pixels.len() ==> (
        #[trigger] a.pages[i].pixels[k]) < pal_len
}

/// The label and tooltip generators the pipeline calls once per tile:
/// a strategy interface in place of captured closures, so that the state
/// read during conversion is explicit. `wf` is whatever the strategy
/// needs of itself; the two spec functions fix each result as a function
/// of the tile coordinate and the grid extent.
pub trait Annotator {
    spec fn wf(&self) -> bool;

    spec fn spec_label(&self, col: int, row: int, grid_w: int, grid_h: int) -> Seq<char>;

    spec fn spec_tooltip(&self, col: int, row: int, grid_w: int, grid_h: int) -> Seq<char>;

    fn label(&self, col: u32, row: u32, grid_w: u32, grid_h: u32) -> (s: String)
        requires
            self.wf(),
            col < grid_w,
            row < grid_h,
        ensures
            s@ == self.spec_label(col as int, row as int, grid_w as int, grid_h as int),
    ;

    fn tooltip(&self, col: u32, row: u32, grid_w: u32, grid_h: u32) -> (s: String)
        requires
            self.wf(),
            col < grid_w,
            row < grid_h,
        ensures
            s@ == self.spec_tooltip(col as int, row as int, grid_w as int, grid_h as int),
    ;
}

/// How the quantization pass may use context. Both modes map every
/// pixel to its nearest palette entry independently, so they produce
/// identical index grids; per-poster mode is the explicit promise that
/// each tile was computed from its own pixels alone.
#[derive(Clone, Copy, PartialEq, Eq, Structural, Debug)]
pub enum QuantizationMode {
    WholeImage,
    PerPoster,
}

/// `px` is the quantized index grid of the tile at `(tc, tr)`: each
/// entry is the nearest-palette index of the corresponding image pixel.
pub open spec fn quantized_page_pixels(
    img: RasterImage,
    pal: Seq<Color>,
    tc: int,
    tr: int,
    px: Seq<u8>,
) -> bool {
    let e = TILE_EDGE as int;
    &&& px.len() == PAGE_PIXELS
    &&& forall|i: int, j: int|
        0 <= i < e && 0 <= j < e ==> (#[trigger] px[j * e + i]) as int == spec_nearest(
            pal,
            img.spec_pixel(tc * e + i, tr * e + j),
        )
}

/// The full contract of conversion: `a` is the poster array produced
/// from `img` against palette `pal`, with annotations from `gen` and
/// the given title. Pages stand in row-major tile order; the page at
/// linear index `row * grid_width + col` is the quantized tile at
/// `(col, row)`, labelled with that tile's true coordinates and the
/// grid's true extent.
pub open spec fn convert_output<A: Annotator>(
    img: RasterImage,
    pal: Seq<Color>,
    gen: A,
    title: Seq<char>,
    a: ArrayV,
) -> bool {
    let e = TILE_EDGE as int;
    let gw = img.width as int / e;
    let gh = img.height as int / e;
    &&& a.width == gw
    &&& a.height == gh
    &&& a.title == title
    &&& a.pages.len() == gw * gh
    &&& forall|idx: int|
        0 <= idx < a.pages.len() ==> {
            let tc = spec_tile_coord(idx, gw).0;
            let tr = spec_tile_coord(idx, gw).1;
            &&& quantized_page_pixels(img, pal, tc, tr, (#[trigger] a.pages[idx]).pixels)
            &&& a.pages[idx].label == gen.spec_label(tc, tr, gw, gh)
            &&& a.pages[idx].tooltip == gen.spec_tooltip(tc, tr, gw, gh)
        }
}

/// Quantizes one tile of a tile-aligned image: every pixel of the
/// 128x128 region at tile coordinate `(tc, tr)` is independently mapped
/// to its nearest palette entry. Depends on that region's pixels and
/// the palette alone.
pub fn quantize_tile(img: &RasterImage, palette: &Palette, tc: usize, tr: usize) -> (px: Vec<u8>)
    requires
        img.wf(),
        img.tile_aligned(),
        palette.wf(),
        tc < img.width as int / (TILE_EDGE as int),
        tr < img.height as int / (TILE_EDGE as int),
    ensures
        quantized_page_pixels(*img, palette@, tc as int, tr as int, px@),
        forall|k: int| 0 <= k < px@.len() ==> (#[trigger] px@[k]) < palette@.len(),
{
    let ghost e = TILE_EDGE as int;
    proof {
        lemma_tile_counts(img.width as int, img.height as int);
        assert((tc + 1) * e <= (img.width as int / e) * e) by (nonlinear_arith)
            requires
                tc < img.width as int / e,
                e == 128,
        ;
        assert((tr + 1) * e <= (img.height as int / e) * e) by (nonlinear_arith)
            requires
                tr < img.height as int / e,
                e == 128,
        ;
    }
    let mut px: Vec<u8> = Vec::new();
    let mut k: usize = 0;
    while k < PAGE_PIXELS
        invariant
            k <= PAGE_PIXELS,
            img.wf(),
            palette.wf(),
            (tc + 1) * e <= img.width,
            (tr + 1) * e <= img.height,
            e == TILE_EDGE as int,
            px@.len() == k,
            forall|m: int|
                0 <= m < k ==> (#[trigger] px@[m]) as int == spec_nearest(
                    palette@,
                    img.spec_pixel(tc * e + m % e, tr * e + m / e),
                ),
            forall|m: int| 0 <= m < k ==> (#[trigger] px@[m]) < palette@.len(),
        decreases PAGE_PIXELS - k,
    {
        let i = k % TILE_EDGE;
        let j = k / TILE_EDGE;
        proof {
            assert(j < e) by (nonlinear_arith)
                requires
                    k < 16384,
                    j == k as int / e,
                    e == 128,
            ;
            assert(tc * e + i < (tc + 1) * e && tr * e + j < (tr + 1) * e) by (nonlinear_arith)
                requires
                    i < e,
                    j < e,
                    e == 128,
            ;
        }
        let x = tc * TILE_EDGE + i;
        let y = tr * TILE_EDGE + j;
        let c = img.pixel(x, y);
        let q = palette.nearest(c);
        px.push(q);
        k += 1;
    }
    proof {
        assert forall|i: int, j: int| 0 <= i < e && 0 <= j < e implies (#[trigger] px@[j * e + i])
            as int == spec_nearest(palette@, img.spec_pixel(tc * e + i, tr * e + j)) by {
            assert(0 <= j * e + i < 16384) by (nonlinear_arith)
                requires
                    0 <= i < e,
                    0 <= j < e,
                    e == 128,
            ;
            vstd::arithmetic::div_mod::lemma_fundamental_div_mod_converse(j * e + i, e, j, i);
        }
    }
    px
}

/// Converts a tile-aligned image into a poster array: enumerates the
/// tiles in row-major order, quantizes each against the palette in the
/// given mode, and annotates each page by calling the generators exactly
/// once with that tile's coordinates and the grid's extent. The result
/// is fully determined by the image, the palette, the generators and the
/// title: `worker_count` (at least 1) sizes the worker pool an
/// implementation may use, and never changes the output, whose page
/// order is always row-major.
pub fn convert<A: Annotator>(
    img: &RasterImage,
    palette: &Palette,
    gen: &A,
    mode: QuantizationMode,
    worker_count: u32,
    title: String,
) -> (r: Result<PosterArray, PosterError>)
    requires
        img.wf(),
        palette.wf(),
        gen.wf(),
        worker_count >= 1,
        img.width <= u32::MAX,
        img.height <= u32::MAX,
    ensures
        img.tile_aligned() ==> (r matches Ok(a) && convert_output(
            *img,
            palette@,
            *gen,
            title@,
            a@,
        ) && array_wf(a@) && indices_in_range(a@, palette@.len() as int)),
        !img.tile_aligned() ==> (r matches Err(e) && e == PosterError::InvalidDimensions),
{
    let ghost e = TILE_EDGE as int;
    let (gw, gh) = match grid_extent(img.width, img.height) {
        Ok(ext) => ext,
        Err(err) => {
            return Err(err);
        },
    };
    proof {
        lemma_tile_counts(img.width as int, img.height as int);
        assert(gw * gh * (e * e) == img.width * img.height) by (nonlinear_arith)
            requires
                gw * e == img.width,
                gh * e == img.height,
        ;
        assert(gw * gh <= gw * gh * (e * e)) by (nonlinear_arith)
            requires
                gw >= 1,
                gh >= 1,
                e == 128,
        ;
    }
    let npix = img.pixels.len();
    proof {
        assert(gw * gh <= npix);
    }
    let total = gw * gh;
    let mut pages: Vec<Page> = Vec::new();
    let mut idx: usize = 0;
    while idx < total
        invariant
            idx <= total,
            total == gw * gh,
            gw == img.width as int / e,
            gh == img.height as int / e,
            gw >= 1,
            gh >= 1,
            gw <= u32::MAX,
            gh <= u32::MAX,
            e == TILE_EDGE as int,
            img.wf(),
            img.tile_aligned(),
            palette.wf(),
            gen.wf(),
            pages@.len() == idx,
            forall|m: int|
                0 <= m < idx ==> {
                    let tc = spec_tile_coord(m, gw as int).0;
                    let tr = spec_tile_coord(m, gw as int).1;
                    &&& quantized_page_pixels(
                        *img,
                        palette@,
                        tc,
                        tr,
                        (#[trigger] pages@[m])@.pixels,
                    )
                    &&& pages@[m]@.label == gen.spec_label(tc, tr, gw as int, gh as int)
                    &&& pages@[m]@.tooltip == gen.spec_tooltip(tc, tr, gw as int, gh as int)
                    &&& forall|k: int|
                        0 <= k < pages@[m]@.pixels.len() ==> (#[trigger] pages@[m]@.pixels[k])
                            < palette@.len()
                },
        decreases total - idx,
    {
        let (tc, tr) = tile_coord(idx, gw);
        proof {
            assert(tr < gh) by (nonlinear_arith)
                requires
                    idx < gw * gh,
                    tr == idx as int / gw as int,
                    gw >= 1,
            ;
        }
        let px = quantize_tile(img, palette, tc, tr);
        let label = gen.label(tc as u32, tr as u32, gw as u32, gh as u32);
        let tooltip = gen.tooltip(tc as u32, tr as u32, gw as u32, gh as u32);
        pages.push(Page { pixels: px, label, tooltip });
        idx += 1;
    }
    Ok(PosterArray { pages, width: gw as u32, height: gh as u32, title })
}

/// `img` is the pixel image painted from `a`: each page's index grid,
/// looked up through the palette's reverse mapping, fills that tile's
/// pixel region of the output.
pub open spec fn reconstruct_output(a: ArrayV, pal: Seq<Color>, img: RasterImage) -> bool {
    let e = TILE_EDGE as int;
    &&& img.width == a.width * e
    &&& img.height == a.height * e
    &&& forall|x: int, y: int|
        0 <= x < img.width && 0 <= y < img.height ==> #[trigger] img.spec_pixel(x, y) == pal[(
        a.pages[(y / e) * a.width + (x / e)].pixels[(y % e) * e + (x % e)]) as int]
}

/// Reconstructs the full pixel image of a poster array: walks the pages
/// in row-major order and paints each page's palette-index grid, through
/// the palette's index-to-color lookup, into its tile's pixel region.
/// Fails with `InvalidDimensions` exactly when the array is not a
/// well-formed completed array, and with `QuantizationFailure` exactly
/// when a page's index grid refers outside the palette.
pub fn reconstruct(a: &PosterArray, palette: &Palette) -> (r: Result<RasterImage, PosterError>)
    requires
        palette.wf(),
        (a.width as int) * (a.height as int) * (PAGE_PIXELS as int) <= usize::MAX as int,
    ensures
        array_wf(a@) && indices_in_range(a@, palette@.len() as int) ==> (r matches Ok(img)
            && img.wf() && reconstruct_output(a@, palette@, img)),
        !array_wf(a@) ==> (r matches Err(e) && e == PosterError::InvalidDimensions),
        array_wf(a@) && !indices_in_range(a@, palette@.len() as int) ==> (r matches Err(e) && e
            == PosterError::QuantizationFailure),
{
    let ghost e = TILE_EDGE as int;
    let w = a.width as usize;
    let h = a.height as usize;
    let npages = a.pages.len();
    proof {
        assert(a@.pages.len() == npages);
    }
    if w == 0 || h == 0 {
        return Err(PosterError::InvalidDimensions);
    }
    let total = match w.checked_mul(h) {
        Some(t) => t,
        None => {
            // More pages than any vector can hold, so the length check
            // below could never have passed.
            proof {
                assert(!array_wf(a@));
            }
            return Err(PosterError::InvalidDimensions);
        },
    };
    if npages != total {
        return Err(PosterError::InvalidDimensions);
    }
    let mut i: usize = 0;
    while i < total
        invariant
            i <= total,
            total == a@.pages.len(),
            forall|m: int| 0 <= m < i ==> page_wf(#[trigger] a@.pages[m]),
        decreases total - i,
    {
        proof {
            assert(a@.pages[i as int] == a.pages@[i as int]@);
        }
        if a.pages[i].pixels.len() != PAGE_PIXELS {
            return Err(PosterError::InvalidDimensions);
        }
        i += 1;
    }
    let pal_len = palette.len();
    let mut i: usize = 0;
    while i < total
        invariant
            i <= total,
            total == a@.pages.len(),
            pal_len == palette@.len(),
            array_wf(a@),
            forall|m: int, k: int|
                0 <= m < i && 0 <= k < a@.pages[m].pixels.len() ==> (
                #[trigger] a@.pages[m].pixels[k]) < pal_len,
        decreases total - i,
    {
        let page = &a.pages[i];
        let mut k: usize = 0;
        let plen = page.pixels.len();
        while k < plen
            invariant
                k <= plen,
                plen == page@.pixels.len(),
                pal_len == palette@.len(),
                array_wf(a@),
                page@ == a@.pages[i as int],
                i < total,
                total == a@.pages.len(),
                forall|m: int| 0 <= m < k ==> (#[trigger] page@.pixels[m]) < pal_len,
            decreases plen - k,
        {
            if (page.pixels[k] as usize) >= pal_len {
                return Err(PosterError::QuantizationFailure);
            }
            k += 1;
        }
        i += 1;
    }
    proof {
        assert(w * h * (PAGE_PIXELS as int) == (w * e) * (h * e)) by (nonlinear_arith)
            requires
                e == 128,
                PAGE_PIXELS as int == e * e,
        ;
        assert(w * e <= w * h * (PAGE_PIXELS as int) && h * e <= w * h * (PAGE_PIXELS as int))
            by (nonlinear_arith)
            requires
                w >= 1,
                h >= 1,
                e == 128,
                PAGE_PIXELS as int == e * e,
        ;
    }
    let width_px = w * TILE_EDGE;
    let height_px = h * TILE_EDGE;
    let total_px = width_px * height_px;
    let mut buf: Vec<Color> = Vec::new();
    let mut t: usize = 0;
    while t < total_px
        invariant
            t <= total_px,
            total_px == width_px * height_px,
            width_px == w * e,
            height_px == h * e,
            w == a@.width,
            h == a@.height,
            w >= 1,
            h >= 1,
            e == TILE_EDGE as int,
            total == a@.pages.len(),
            total == w * h,
            pal_len == palette@.len(),
            palette.wf(),
            array_wf(a@),
            indices_in_range(a@, pal_len as int),
            buf@.len() == t,
            forall|m: int|
                0 <= m < t ==> #[trigger] buf@[m] == palette@[(a@.pages[((m / (width_px as int))
                    / e) * (w as int) + ((m % (width_px as int)) / e)].pixels[((m / (
                width_px as int)) % e) * e + ((m % (width_px as int)) % e)]) as int],
        decreases total_px - t,
    {
        let x = t % width_px;
        let y = t / width_px;
        proof {
            assert(y < height_px) by (nonlinear_arith)
                requires
                    t < width_px * height_px,
                    y == t as int / width_px as int,
                    width_px >= 1,
            ;
            assert(x as int / e < w && y as int / e < h) by (nonlinear_arith)
                requires
                    x < w * e,
                    y < h * e,
                    e == 128,
            ;
        }
        let tc = x / TILE_EDGE;
        let tr = y / TILE_EDGE;
        proof {
            assert(tr * w + tc < w * h) by (nonlinear_arith)
                requires
                    tc < w,
                    tr < h,
            ;
        }
        let pi = tr * w + tc;
        let k = (y % TILE_EDGE) * TILE_EDGE + (x % TILE_EDGE);
        proof {
            assert(a@.pages.len() == a.pages@.len());
            assert(a@.pages[pi as int] == a.pages@[pi as int]@);
            assert(page_wf(a@.pages[pi as int]));
            assert(k < PAGE_PIXELS);
        }
        let idx = a.pages[pi].pixels[k];
        buf.push(palette.color_at(idx));
        t += 1;
    }
    let img = RasterImage { width: width_px, height: height_px, pixels: buf };
    proof {
        assert forall|x: int, y: int| 0 <= x < img.width && 0 <= y < img.height implies
            #[trigger] img.spec_pixel(x, y) == palette@[(a@.pages[(y / e) * (w as int) + (x
            / e)].pixels[(y % e) * e + (x % e)]) as int] by {
            assert(0 <= y * (width_px as int) + x < total_px) by (nonlinear_arith)
                requires
                    0 <= x < width_px,
                    0 <= y < height_px,
                    total_px == width_px * height_px,
            ;
            vstd::arithmetic::div_mod::lemma_fundamental_div_mod_converse(
                y * (width_px as int) + x,
                width_px as int,
                y,
                x,
            );
        }
    }
    Ok(img)
}

/// Page order is row-major: for every tile coordinate, the page at
/// linear index `row * grid_width + col` is that tile's quantized
/// result, annotated with that coordinate and the grid's extent. The
/// conversion contract never mentions the worker count, so this holds
/// for every worker count.
pub proof fn lemma_row_major_order<A: Annotator>(
    img: RasterImage,
    pal: Seq<Color>,
    gen: A,
    title: Seq<char>,
    a: ArrayV,
    col: int,
    row: int,
)
    requires
        convert_output(img, pal, gen, title, a),
        0 <= col < a.width,
        0 <= row < a.height,
    ensures
        0 <= spec_page_index(col, row, a.width) < a.pages.len(),
        spec_tile_coord(spec_page_index(col, row, a.width), a.width) == (col, row),
        quantized_page_pixels(img, pal, col, row, a.pages[spec_page_index(col, row, a.width)].pixels),
        a.pages[spec_page_index(col, row, a.width)].label == gen.spec_label(
            col,
            row,
            a.width,
            a.height,
        ),
        a.pages[spec_page_index(col, row, a.width)].tooltip == gen.spec_tooltip(
            col,
            row,
            a.width,
            a.height,
        ),
{
    let idx = spec_page_index(col, row, a.width);
    assert(idx < a.width * a.height) by (nonlinear_arith)
        requires
            idx == row * a.width + col,
            0 <= col < a.width,
            0 <= row < a.height,
    ;
    vstd::arithmetic::div_mod::lemma_fundamental_div_mod_converse(idx, a.width, row, col);
}

/// Reconstruction inverts conversion: the reconstructed image has the
/// original's pixel dimensions, and every pixel is the palette entry
/// nearest to the original pixel.
pub proof fn lemma_convert_reconstruct<A: Annotator>(
    img: RasterImage,
    pal: Seq<Color>,
    gen: A,
    title: Seq<char>,
    a: ArrayV,
    out: RasterImage,
)
    requires
        img.wf(),
        img.tile_aligned(),
        convert_output(img, pal, gen, title, a),
        reconstruct_output(a, pal, out),
    ensures
        out.width == img.width,
        out.height == img.height,
        forall|x: int, y: int|
            0 <= x < img.width && 0 <= y < img.height ==> #[trigger] out.spec_pixel(x, y) == pal[
                spec_nearest(pal, img.spec_pixel(x, y))],
{
    let e = TILE_EDGE as int;
    lemma_tile_counts(img.width as int, img.height as int);
    let gw = img.width as int / e;
    let gh = img.height as int / e;
    assert forall|x: int, y: int| 0 <= x < img.width && 0 <= y < img.height implies
        #[trigger] out.spec_pixel(x, y) == pal[spec_nearest(pal, img.spec_pixel(x, y))] by {
        let tc = x / e;
        let tr = y / e;
        let i = x % e;
        let j = y % e;
        vstd::arithmetic::div_mod::lemma_fundamental_div_mod(x, e);
        vstd::arithmetic::div_mod::lemma_fundamental_div_mod(y, e);
        assert(tc < gw && tr < gh) by (nonlinear_arith)
            requires
                x < gw * e,
                y < gh * e,
                tc * e + i == x,
                tr * e + j == y,
                0 <= i < e,
                0 <= j < e,
                e == 128,
        ;
        let idx = tr * gw + tc;
        assert(0 <= idx < gw * gh) by (nonlinear_arith)
            requires
                idx == tr * gw + tc,
                0 <= tc < gw,
                0 <= tr < gh,
        ;
        vstd::arithmetic::div_mod::lemma_fundamental_div_mod_converse(idx, gw, tr, tc);
        assert(quantized_page_pixels(img, pal, tc, tr, a.pages[idx].pixels));
        assert(a.pages[idx].pixels[j * e + i] as int == spec_nearest(
            pal,
            img.spec_pixel(tc * e + i, tr * e + j),
        ));
    }
}

/// Tile quantization is independent of neighboring tiles: if a
/// one-tile image holds exactly the pixels of the tile at `(tc, tr)` of
/// a larger image, converting it yields, as its single page, the very
/// index grid that the larger conversion produced for that tile —
/// whatever mode, annotators and titles either conversion used.
pub proof fn lemma_tile_independence<A: Annotator, B: Annotator>(
    img: RasterImage,
    sub: RasterImage,
    pal: Seq<Color>,
    gen_a: A,
    title_a: Seq<char>,
    a: ArrayV,
    gen_b: B,
    title_b: Seq<char>,
    b: ArrayV,
    tc: int,
    tr: int,
)
    requires
        img.wf(),
        img.tile_aligned(),
        sub.width == TILE_EDGE,
        sub.height == TILE_EDGE,
        0 <= tc < img.width as int / (TILE_EDGE as int),
        0 <= tr < img.height as int / (TILE_EDGE as int),
        forall|i: int, j: int|
            0 <= i < TILE_EDGE && 0 <= j < TILE_EDGE ==> #[trigger] sub.spec_pixel(i, j)
                == img.spec_pixel(tc * (TILE_EDGE as int) + i, tr * (TILE_EDGE as int) + j),
        convert_output(img, pal, gen_a, title_a, a),
        convert_output(sub, pal, gen_b, title_b, b),
    ensures
        b.pages.len() == 1,
        b.pages[0].pixels =~= a.pages[spec_page_index(tc, tr, a.width)].pixels,
{
    let e = TILE_EDGE as int;
    lemma_tile_counts(img.width as int, img.height as int);
    lemma_row_major_order(img, pal, gen_a, title_a, a, tc, tr);
    let idx = spec_page_index(tc, tr, a.width);
    let ap = a.pages[idx].pixels;
    let sgw = sub.width as int / e;
    let sgh = sub.height as int / e;
    assert(sgw == 1 && sgh == 1);
    assert(b.pages.len() == sgw * sgh);
    let bp = b.pages[0].pixels;
    assert(sgw * sgh == 1) by (nonlinear_arith)
        requires
            sgw == 1,
            sgh == 1,
    ;
    assert(0 < b.pages.len());
    assert(spec_tile_coord(0, sgw) == (0int, 0int));
    assert(quantized_page_pixels(
        sub,
        pal,
        spec_tile_coord(0, sgw).0,
        spec_tile_coord(0, sgw).1,
        b.pages[0].pixels,
    ));
    assert(quantized_page_pixels(sub, pal, 0, 0, bp));
    assert(quantized_page_pixels(img, pal, tc, tr, ap));
    assert(bp.len() == PAGE_PIXELS && PAGE_PIXELS == 16384);
    assert forall|m: int| 0 <= m < bp.len() implies bp[m] == ap[m] by {
        let i = m % e;
        let j = m / e;
        vstd::arithmetic::div_mod::lemma_fundamental_div_mod(m, e);
        assert(0 <= j < e) by (nonlinear_arith)
            requires
                0 <= m < 16384,
                j * e + i == m,
                0 <= i < e,
                e == 128,
        ;
        assert(bp[j * e + i] as int == spec_nearest(pal, sub.spec_pixel(i, j)));
        assert(ap[j * e + i] as int == spec_nearest(
            pal,
            img.spec_pixel(tc * e + i, tr * e + j),
        ));
    }
}

} // verus!
