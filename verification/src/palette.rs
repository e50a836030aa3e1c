//! The fixed, finite set of renderable colors and the nearest-color lookup.

use vstd::prelude::*;
use crate::PosterError;

verus! {

/// One renderable color, as 8-bit red, green and blue channels.
#[derive(Clone, Copy, PartialEq, Eq, Structural, Debug)]
pub struct Color {
    pub r: u8,
    pub g: u8,
    pub b: u8,
}

/// Squared Euclidean distance between two colors in RGB space.
pub open spec fn dist2(a: Color, b: Color) -> int {
    (a.r - b.r) * (a.r - b.r) + (a.g - b.g) * (a.g - b.g) + (a.b - b.b) * (a.b - b.b)
}

/// Index of the entry among the first `n` of `colors` nearest to `c`,
/// ties broken towards the lowest index.
pub open spec fn nearest_in_prefix(colors: Seq<Color>, c: Color, n: int) -> int
    decreases n,
{
    if n <= 1 {
        0
    } else {
        let prev = nearest_in_prefix(colors, c, n - 1);
        if dist2(colors[n - 1], c) < dist2(colors[prev], c) {
            n - 1
        } else {
            prev
        }
    }
}

/// Index of the palette entry nearest to `c`, ties broken towards the
/// lowest index.
pub open spec fn spec_nearest(colors: Seq<Color>, c: Color) -> int {
    nearest_in_prefix(colors, c, colors.len() as int)
}

pub proof fn lemma_dist2_nonneg(a: Color, b: Color)
    ensures
        dist2(a, b) >= 0,
        dist2(a, b) == 0 ==> a == b,
{
    let dr = a.r - b.r;
    let dg = a.g - b.g;
    let db = a.b - b.b;
    assert(dr * dr >= 0 && (dr * dr == 0 ==> dr == 0)) by (nonlinear_arith);
    assert(dg * dg >= 0 && (dg * dg == 0 ==> dg == 0)) by (nonlinear_arith);
    assert(db * db >= 0 && (db * db == 0 ==> db == 0)) by (nonlinear_arith);
}

/// The nearest index is in range, minimizes the distance over the whole
/// prefix, and is strictly better than every earlier index.
pub proof fn lemma_nearest_in_prefix(colors: Seq<Color>, c: Color, n: int)
    requires
        1 <= n <= colors.len(),
    ensures
        0 <= nearest_in_prefix(colors, c, n) < n,
        forall|j: int|
            0 <= j < n ==> dist2(colors[nearest_in_prefix(colors, c, n)], c) <= #[trigger] dist2(
                colors[j],
                c,
            ),
        forall|j: int|
            0 <= j < nearest_in_prefix(colors, c, n) ==> #[trigger] dist2(colors[j], c) > dist2(
                colors[nearest_in_prefix(colors, c, n)],
                c,
            ),
    decreases n,
{
    if n > 1 {
        lemma_nearest_in_prefix(colors, c, n - 1);
    }
}

/// A color equal to a palette entry maps to that entry's index (to the
/// lowest such index when the entry occurs more than once).
pub proof fn lemma_nearest_exact(colors: Seq<Color>, c: Color, k: int)
    requires
        0 <= k < colors.len(),
        colors[k] == c,
        forall|j: int| 0 <= j < k ==> colors[j] != c,
    ensures
        spec_nearest(colors, c) == k,
{
    let m = spec_nearest(colors, c);
    lemma_nearest_in_prefix(colors, c, colors.len() as int);
    lemma_dist2_nonneg(c, c);
    assert(dist2(colors[k], c) == 0);
    lemma_dist2_nonneg(colors[m], c);
    assert(dist2(colors[m], c) <= dist2(colors[k], c));
    assert(colors[m] == c);
    if m < k {
        assert(colors[m] != c);
    }
    if k < m {
        assert(dist2(colors[k], c) > dist2(colors[m], c));
    }
}

/// The fixed palette: an ordered, immutable sequence of colors, shared
/// read-only by every quantization call. At most 256 entries, so that a
/// palette index always fits in one byte.
#[derive(Clone, Debug)]
pub struct Palette {
    colors: Vec<Color>,
}

impl Palette {
    pub closed spec fn view(&self) -> Seq<Color> {
        self.colors@
    }

    pub closed spec fn wf(&self) -> bool {
        1 <= self.colors@.len() <= 256
    }

    /// Builds a palette from its color entries. Rejects an empty list and
    /// one with more than 256 entries, since indices are stored as bytes.
    pub fn new(colors: Vec<Color>) -> (r: Result<Palette, PosterError>)
        ensures
            1 <= colors@.len() <= 256 ==> (r matches Ok(p) && p.wf() && p@ == colors@),
            !(1 <= colors@.len() <= 256) ==> (r matches Err(e) && e == PosterError::InvalidDimensions),
    {
        if colors.len() < 1 || colors.len() > 256 {
            Err(PosterError::InvalidDimensions)
        } else {
            Ok(Palette { colors })
        }
    }

    pub fn len(&self) -> (n: usize)
        ensures
            n == self@.len(),
    {
        self.colors.len()
    }

    /// The color stored at a palette index: the reverse lookup used by
    /// reconstruction.
    pub fn color_at(&self, i: u8) -> (c: Color)
        requires
            (i as int) < self@.len(),
        ensures
            c == self@[i as int],
    {
        self.colors[i as usize]
    }

    /// Nearest-color lookup: returns the index of the entry minimizing the
    /// squared Euclidean RGB distance to `c`, ties broken towards the
    /// lowest index. Total and deterministic: the result is a function of
    /// the palette contents and `c` alone.
    pub fn nearest(&self, c: Color) -> (i: u8)
        requires
            self.wf(),
        ensures
            i as int == spec_nearest(self@, c),
            (i as int) < self@.len(),
    {
        proof {
            lemma_nearest_in_prefix(self.colors@, c, self.colors@.len() as int);
        }
        let n = self.colors.len();
        let mut best: usize = 0;
        let mut best_d: u32 = color_dist2(self.colors[0], c);
        let mut k: usize = 1;
        while k < n
            invariant
                1 <= k <= n,
                n == self.colors@.len(),
                1 <= n <= 256,
                best as int == nearest_in_prefix(self.colors@, c, k as int),
                best < k,
                best_d == dist2(self.colors@[best as int], c),
            decreases n - k,
        {
            let d = color_dist2(self.colors[k], c);
            if d < best_d {
                best = k;
                best_d = d;
            }
            k += 1;
        }
        best as u8
    }
}

/// Executable squared Euclidean RGB distance.
fn color_dist2(a: Color, b: Color) -> (d: u32)
    ensures
        d == dist2(a, b),
{
    let dr: i32 = a.r as i32 - b.r as i32;
    let dg: i32 = a.g as i32 - b.g as i32;
    let db: i32 = a.b as i32 - b.b as i32;
    proof {
        assert(dr * dr <= 65025 && dr * dr >= 0) by (nonlinear_arith)
            requires
                -255 <= dr <= 255,
        ;
        assert(dg * dg <= 65025 && dg * dg >= 0) by (nonlinear_arith)
            requires
                -255 <= dg <= 255,
        ;
        assert(db * db <= 65025 && db * db >= 0) by (nonlinear_arith)
            requires
                -255 <= db <= 255,
        ;
    }
    (dr * dr) as u32 + (dg * dg) as u32 + (db * db) as u32
}

} // verus!
