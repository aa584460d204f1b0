//! An ordered palette as a colour map.

use vstd::prelude::*;
use crate::color::{
    find_nearest_color, is_nearest, lemma_dist_zero, lemma_palette_entry_fixed, nearest_color,
    nearest_index, nearest_slot, Color,
};

verus! {

/// The `image` crate's RGB pixel: three channel values in the order red,
/// green, blue.
#[verifier::external_type_specification]
#[verifier::reject_recursive_types(T)]
pub struct ExRgb<T>(image::Rgb<T>);

/// An ordered sequence of colours; the position of a colour is its slot.
#[derive(Debug)]
pub struct Palette {
    pub colors: Vec<Color>,
}

impl Palette {
    /// The colours in slot order.
    pub open spec fn view(&self) -> Seq<Color> {
        self.colors@
    }

    pub fn from_colors(colors: Vec<Color>) -> (out: Palette)
        ensures
            out@ == colors@,
    {
        Palette { colors }
    }

    /// A palette with the colours of a slice, in the same order.
    pub fn from_slice(colors: &[Color]) -> (out: Palette)
        ensures
            out@ == colors@,
    {
        let mut copy: Vec<Color> = Vec::new();
        let mut k: usize = 0;
        while k < colors.len()
            invariant
                k <= colors@.len(),
                copy@ == colors@.take(k as int),
            decreases colors@.len() - k,
        {
            copy.push(colors[k]);
            proof {
                assert(copy@ =~= colors@.take(k + 1));
            }
            k += 1;
        }
        proof {
            assert(colors@.take(k as int) =~= colors@);
        }
        Palette { colors: copy }
    }

    /// The slot of the entry closest to `color`, the first one on a tie; for
    /// a colour of the palette that is the first slot that holds it. `None`
    /// for an empty palette.
    pub fn slot_of(&self, color: &Color) -> (out: Option<usize>)
        ensures
            self@.len() == 0 <==> out.is_none(),
            out.is_some() ==> out.unwrap() == nearest_index(*color, self@) && is_nearest(
                *color,
                self@,
                out.unwrap() as int,
            ),
            self@.contains(*color) ==> out.is_some() && self@[out.unwrap() as int] == *color
                && forall|j: int| 0 <= j < out.unwrap() ==> self@[j] != *color,
    {
        if self.colors.len() == 0 {
            None
        } else {
            let slot = nearest_slot(color, self.colors.as_slice());
            proof {
                if self@.contains(*color) {
                    let k = choose|k: int| 0 <= k < self@.len() && self@[k] == *color;
                    lemma_palette_entry_fixed(self@, k);
                    assert forall|j: int| 0 <= j < slot implies self@[j] != *color by {
                        lemma_dist_zero(*color, self@[j]);
                        lemma_dist_zero(*color, self@[slot as int]);
                    }
                }
            }
            Some(slot)
        }
    }

    /// The entry closest to `color`; `color` itself for an empty palette.
    pub fn nearest(&self, color: &Color) -> (out: Color)
        ensures
            self@.len() == 0 ==> out == *color,
            self@.len() > 0 ==> out == nearest_color(*color, self@) && self@.contains(out),
    {
        if self.colors.len() == 0 {
            *color
        } else {
            find_nearest_color(color, self.colors.as_slice())
        }
    }
}

impl image::imageops::colorops::ColorMap for Palette {
    type Color = image::Rgb<u8>;

    /// The slot of the entry closest to `color`, the first one on a tie; for
    /// a colour of the palette that is the first slot that holds it. Zero
    /// for an empty palette.
    fn index_of(&self, color: &image::Rgb<u8>) -> (out: usize)
        ensures
            self@.len() == 0 ==> out == 0,
            self@.len() > 0 ==> out == nearest_index(rgb_color(*color), self@) && is_nearest(
                rgb_color(*color),
                self@,
                out as int,
            ),
            self@.contains(rgb_color(*color)) ==> self@[out as int] == rgb_color(*color)
                && forall|j: int| 0 <= j < out ==> self@[j] != rgb_color(*color),
    {
        let c = Color { r: color.0[0], g: color.0[1], b: color.0[2] };
        match self.slot_of(&c) {
            Some(slot) => slot,
            None => 0,
        }
    }

    /// Replaces `pixel` by the entry closest to it, the first one on a tie;
    /// an empty palette leaves it as it is.
    fn map_color(&self, pixel: &mut image::Rgb<u8>)
        ensures
            self@.len() == 0 ==> rgb_color(*final(pixel)) == rgb_color(*old(pixel)),
            self@.len() > 0 ==> rgb_color(*final(pixel)) == nearest_color(
                rgb_color(*old(pixel)),
                self@,
            ) && self@.contains(rgb_color(*final(pixel))),
    {
        let c = Color { r: pixel.0[0], g: pixel.0[1], b: pixel.0[2] };
        let mapped = self.nearest(&c);
        *pixel = image::Rgb([mapped.r, mapped.g, mapped.b]);
    }
}

/// The colour that a pixel of the `image` crate holds.
pub open spec fn rgb_color(p: image::Rgb<u8>) -> Color {
    Color { r: p.0[0], g: p.0[1], b: p.0[2] }
}

} // verus!
