//! RGB colours and nearest-colour search over an ordered palette.

use vstd::prelude::*;

verus! {

/// An RGB colour; two colours are equal when all three channels are.
#[derive(Clone, Copy, Debug, PartialEq, Eq, Structural, Hash)]
pub struct Color {
    pub r: u8,
    pub g: u8,
    pub b: u8,
}

/// The background colour: runs of it are never counted nor drawn.
pub open spec fn white() -> Color {
    Color { r: 255, g: 255, b: 255 }
}

/// Squared Euclidean distance between two colours in RGB space.
///
/// The square root is monotone, so ordering colours by this value orders them
/// by Euclidean distance, and equal distances have equal squares.
pub open spec fn dist_sq(a: Color, b: Color) -> int {
    (a.r - b.r) * (a.r - b.r) + (a.g - b.g) * (a.g - b.g) + (a.b - b.b) * (a.b - b.b)
}

/// `i` is the slot of the palette entry closest to `p`, and the first such
/// slot where several entries are equally close.
pub open spec fn is_nearest(p: Color, palette: Seq<Color>, i: int) -> bool {
    &&& 0 <= i < palette.len()
    &&& forall|j: int| 0 <= j < palette.len() ==> dist_sq(p, palette[i]) <= dist_sq(p, #[trigger] palette[j])
    &&& forall|j: int| 0 <= j < i ==> dist_sq(p, palette[i]) < dist_sq(p, #[trigger] palette[j])
}

/// The slot that nearest-colour search selects in a non-empty palette.
pub open spec fn nearest_index(p: Color, palette: Seq<Color>) -> int
    decreases palette.len(),
{
    if palette.len() <= 1 {
        0
    } else {
        let best = nearest_index(p, palette.drop_last());
        if dist_sq(p, palette.last()) < dist_sq(p, palette[best]) {
            palette.len() - 1
        } else {
            best
        }
    }
}

/// The palette colour that `p` is mapped to.
pub open spec fn nearest_color(p: Color, palette: Seq<Color>) -> Color {
    palette[nearest_index(p, palette)]
}

/// `nearest_index` is the first slot at minimal distance.
pub proof fn lemma_nearest_index(p: Color, palette: Seq<Color>)
    requires
        palette.len() > 0,
    ensures
        is_nearest(p, palette, nearest_index(p, palette)),
    decreases palette.len(),
{
    if palette.len() > 1 {
        let init = palette.drop_last();
        lemma_nearest_index(p, init);
        let best = nearest_index(p, init);
        assert(init[best] == palette[best]);
        assert forall|j: int| 0 <= j < palette.len() - 1 implies #[trigger] palette[j] == init[j] by {}
    }
}

/// At most one slot is the first at minimal distance.
pub proof fn lemma_nearest_unique(p: Color, palette: Seq<Color>, i: int, j: int)
    requires
        is_nearest(p, palette, i),
        is_nearest(p, palette, j),
    ensures
        i == j,
{
    let a = palette[i];
    let b = palette[j];
    if i < j {
        assert(dist_sq(p, b) < dist_sq(p, a));
    } else if j < i {
        assert(dist_sq(p, a) < dist_sq(p, b));
    }
}

/// Every colour maps to the only entry of a one-colour palette.
pub proof fn lemma_single_color_palette(p: Color, palette: Seq<Color>)
    requires
        palette.len() == 1,
    ensures
        nearest_color(p, palette) == palette[0],
{
}

/// The mapped colour is an entry of the palette.
pub proof fn lemma_nearest_in_palette(p: Color, palette: Seq<Color>)
    requires
        palette.len() > 0,
    ensures
        palette.contains(nearest_color(p, palette)),
{
    lemma_nearest_index(p, palette);
}

/// A palette entry maps to a colour equal to itself.
pub proof fn lemma_palette_entry_fixed(palette: Seq<Color>, k: int)
    requires
        0 <= k < palette.len(),
    ensures
        nearest_color(palette[k], palette) == palette[k],
{
    let p = palette[k];
    lemma_nearest_index(p, palette);
    let i = nearest_index(p, palette);
    assert(dist_sq(p, palette[k]) == 0);
    assert(dist_sq(p, palette[i]) <= dist_sq(p, palette[k]));
    lemma_dist_zero(p, palette[i]);
}

/// Two colours at distance zero are the same colour.
pub proof fn lemma_dist_zero(a: Color, b: Color)
    ensures
        dist_sq(a, b) >= 0,
        dist_sq(a, b) == 0 <==> a == b,
{
    let dr = a.r - b.r;
    let dg = a.g - b.g;
    let db = a.b - b.b;
    assert(dr * dr >= 0 && (dr * dr == 0 <==> dr == 0)) by (nonlinear_arith);
    assert(dg * dg >= 0 && (dg * dg == 0 <==> dg == 0)) by (nonlinear_arith);
    assert(db * db >= 0 && (db * db == 0 <==> db == 0)) by (nonlinear_arith);
    if dr == 0 && dg == 0 && db == 0 {
        assert(a.r == b.r && a.g == b.g && a.b == b.b);
    }
}

impl Color {
    pub fn new(r: u8, g: u8, b: u8) -> (out: Color)
        ensures
            out == (Color { r, g, b }),
    {
        Color { r, g, b }
    }

    /// Whether this is the background colour.
    pub fn is_white(&self) -> (out: bool)
        ensures
            out == (*self == white()),
    {
        self.r == 255 && self.g == 255 && self.b == 255
    }
}

/// Squared Euclidean distance between two colours.
pub fn color_distance(c1: &Color, c2: &Color) -> (out: u32)
    ensures
        out == dist_sq(*c1, *c2),
        out <= 195075,
{
    let dr: i32 = c1.r as i32 - c2.r as i32;
    let dg: i32 = c1.g as i32 - c2.g as i32;
    let db: i32 = c1.b as i32 - c2.b as i32;
    assert(0 <= dr * dr <= 65025) by (nonlinear_arith)
        requires
            -255 <= dr <= 255,
    ;
    assert(0 <= dg * dg <= 65025) by (nonlinear_arith)
        requires
            -255 <= dg <= 255,
    ;
    assert(0 <= db * db <= 65025) by (nonlinear_arith)
        requires
            -255 <= db <= 255,
    ;
    (dr * dr + dg * dg + db * db) as u32
}

/// The slot of the palette entry closest to `pixel`; the first one on a tie.
pub fn nearest_slot(pixel: &Color, palette: &[Color]) -> (out: usize)
    requires
        palette@.len() > 0,
    ensures
        out == nearest_index(*pixel, palette@),
        is_nearest(*pixel, palette@, out as int),
{
    let mut best: usize = 0;
    let mut best_distance: u32 = color_distance(pixel, &palette[0]);
    let mut k: usize = 1;
    assert(palette@.take(1).len() == 1);
    while k < palette.len()
        invariant
            1 <= k <= palette@.len(),
            best < k,
            best == nearest_index(*pixel, palette@.take(k as int)),
            best_distance == dist_sq(*pixel, palette@[best as int]),
        decreases palette@.len() - k,
    {
        let distance: u32 = color_distance(pixel, &palette[k]);
        proof {
            let next = palette@.take(k + 1);
            assert(next.drop_last() =~= palette@.take(k as int));
            assert(next.last() == palette@[k as int]);
            assert(next[best as int] == palette@[best as int]);
        }
        if distance < best_distance {
            best = k;
            best_distance = distance;
        }
        k += 1;
    }
    proof {
        assert(palette@.take(k as int) =~= palette@);
        lemma_nearest_index(*pixel, palette@);
    }
    best
}

/// The palette entry closest to `pixel` by Euclidean distance in RGB space;
/// among equally close entries, the one that comes first in the palette.
pub fn find_nearest_color(pixel: &Color, palette: &[Color]) -> (out: Color)
    requires
        palette@.len() > 0,
    ensures
        out == nearest_color(*pixel, palette@),
        is_nearest(*pixel, palette@, nearest_index(*pixel, palette@)),
        palette@.contains(out),
{
    let slot = nearest_slot(pixel, palette);
    palette[slot]
}

} // verus!
