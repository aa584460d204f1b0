//! Rectangular grids of colours.

use vstd::prelude::*;
use crate::color::Color;

verus! {

/// A rectangular image, stored row by row from the top.
#[derive(Clone, Debug)]
pub struct PixelGrid {
    pub width: u32,
    pub height: u32,
    pub rows: Vec<Vec<Color>>,
}

impl PixelGrid {
    /// There are `height` rows and each holds `width` colours.
    pub open spec fn wf(&self) -> bool {
        &&& self.rows@.len() == self.height
        &&& forall|y: int| 0 <= y < self.rows@.len() ==> (#[trigger] self.rows@[y])@.len() == self.width
    }

    /// The colour at column `x` of row `y`.
    pub open spec fn at(&self, x: int, y: int) -> Color {
        self.rows@[y]@[x]
    }

    /// The grid as a sequence of rows.
    pub open spec fn view(&self) -> Seq<Seq<Color>> {
        Seq::new(self.rows@.len(), |y: int| self.rows@[y]@)
    }

    /// Whether the rows can form a grid: all are as long as the first, and
    /// neither their number nor their length exceeds `u32::MAX`.
    pub open spec fn rectangular(rows: Seq<Vec<Color>>) -> bool {
        &&& rows.len() <= u32::MAX
        &&& rows.len() > 0 ==> rows[0]@.len() <= u32::MAX
        &&& forall|y: int| 0 <= y < rows.len() ==> (#[trigger] rows[y])@.len() == rows[0]@.len()
    }

    /// The grid made of the given rows, if they are all of one length; a
    /// grid without rows has width zero.
    pub fn from_rows(rows: Vec<Vec<Color>>) -> (out: Option<PixelGrid>)
        ensures
            out.is_some() <==> Self::rectangular(rows@),
            out.is_some() ==> out.unwrap().wf() && out.unwrap().rows@ == rows@ && out.unwrap().height
                == rows@.len() && (rows@.len() > 0 ==> out.unwrap().width == rows@[0]@.len()) && (
            rows@.len() == 0 ==> out.unwrap().width == 0),
    {
        if rows.len() > u32::MAX as usize {
            return None;
        }
        let width: usize = if rows.len() > 0 { rows[0].len() } else { 0 };
        if width > u32::MAX as usize {
            return None;
        }
        let mut y: usize = 0;
        while y < rows.len()
            invariant
                y <= rows@.len(),
                rows@.len() > 0 ==> width == rows@[0]@.len(),
                forall|j: int| 0 <= j < y ==> (#[trigger] rows@[j])@.len() == width,
            decreases rows@.len() - y,
        {
            if rows[y].len() != width {
                return None;
            }
            y += 1;
        }
        let height = rows.len() as u32;
        Some(PixelGrid { width: width as u32, height, rows })
    }

    /// A grid of the given size filled with one colour.
    pub fn filled(width: u32, height: u32, color: Color) -> (out: PixelGrid)
        ensures
            out.wf(),
            out.width == width,
            out.height == height,
            forall|x: int, y: int| 0 <= x < width && 0 <= y < height ==> out.at(x, y) == color,
    {
        let mut rows: Vec<Vec<Color>> = Vec::new();
        let mut y: u32 = 0;
        while y < height
            invariant
                y <= height,
                rows@.len() == y,
                forall|j: int| 0 <= j < y ==> (#[trigger] rows@[j])@.len() == width,
                forall|i: int, j: int| 0 <= i < width && 0 <= j < y ==> rows@[j]@[i] == color,
            decreases height - y,
        {
            let mut row: Vec<Color> = Vec::new();
            let mut x: u32 = 0;
            while x < width
                invariant
                    x <= width,
                    row@.len() == x,
                    forall|i: int| 0 <= i < x ==> row@[i] == color,
                decreases width - x,
            {
                row.push(color);
                x += 1;
            }
            rows.push(row);
            y += 1;
        }
        PixelGrid { width, height, rows }
    }

    /// Reads one pixel.
    pub fn get_pixel(&self, x: u32, y: u32) -> (out: Color)
        requires
            self.wf(),
            x < self.width,
            y < self.height,
        ensures
            out == self.at(x as int, y as int),
    {
        self.rows[y as usize][x as usize]
    }

    /// Overwrites one pixel and leaves the others as they were.
    pub fn put_pixel(&mut self, x: u32, y: u32, color: Color)
        requires
            old(self).wf(),
            x < old(self).width,
            y < old(self).height,
        ensures
            final(self).wf(),
            final(self).width == old(self).width,
            final(self).height == old(self).height,
            final(self).at(x as int, y as int) == color,
            forall|i: int, j: int|
                0 <= i < old(self).width && 0 <= j < old(self).height && !(i == x && j == y)
                    ==> final(self).at(i, j) == old(self).at(i, j),
    {
        let mut row: Vec<Color> = self.rows[y as usize].clone();
        row.set(x as usize, color);
        self.rows.set(y as usize, row);
    }
}

} // verus!
