//! Reducing an image to the colours of a palette.
//!
//! The image is first resampled to the target size and then mapped to the
//! palette, either pixel by pixel or with error diffusion.

use vstd::prelude::*;
use crate::color::{find_nearest_color, lemma_nearest_in_palette, nearest_color, Color};
use crate::grid::PixelGrid;
use crate::palette::Palette;

verus! {

/// Why an image could not be reduced to a palette.
#[derive(Clone, Copy, Debug, PartialEq, Eq, Structural)]
pub enum QuantizeError {
    /// The palette holds no colour.
    EmptyPalette,
    /// The source image has no pixels.
    EmptySource,
    /// The source or the target holds more than `MAX_PIXELS` pixels.
    TooLarge,
    /// Error diffusion needs at least two columns and one row.
    TooNarrowToDither,
}

/// The largest number of pixels that resampling is asked to read or write.
pub const MAX_PIXELS: u64 = 0x400_0000;

/// The rows that `image`'s error diffusion over a palette gives.
pub uninterp spec fn dithered(rows: Seq<Seq<Color>>, palette: Seq<Color>) -> Seq<Seq<Color>>;

/// Every colour replaced by the palette entry closest to it.
pub open spec fn nearest_rows(rows: Seq<Seq<Color>>, palette: Seq<Color>) -> Seq<Seq<Color>> {
    Seq::new(
        rows.len(),
        |y: int| Seq::new(rows[y].len(), |x: int| nearest_color(rows[y][x], palette)),
    )
}

/// Whether every pixel is a colour of the palette.
pub open spec fn within_palette(grid: PixelGrid, palette: Seq<Color>) -> bool {
    forall|x: int, y: int|
        0 <= x < grid.width && 0 <= y < grid.height ==> palette.contains(#[trigger] grid.at(x, y))
}

/// What mapping rows that have their target size to the palette gives.
pub open spec fn quantized_rows(resized: Seq<Seq<Color>>, palette: Seq<Color>, dithering: bool) -> Result<
    Seq<Seq<Color>>,
    QuantizeError,
> {
    if palette.len() == 0 {
        Err(QuantizeError::EmptyPalette)
    } else if !dithering {
        Ok(nearest_rows(resized, palette))
    } else if resized.len() < 1 || resized[0].len() < 2 {
        Err(QuantizeError::TooNarrowToDither)
    } else {
        Ok(dithered(resized, palette))
    }
}

/// Whether a grid has at least one row and one column and is neither wider
/// nor higher than the bounds, a bound of zero counting as one.
pub open spec fn fits(grid: PixelGrid, bounds: (u32, u32)) -> bool {
    &&& 1 <= grid.width
    &&& 1 <= grid.height
    &&& grid.width <= bounds.0 || grid.width == 1
    &&& grid.height <= bounds.1 || grid.height == 1
}

/// Whether source or target exceed the pixel limit.
pub open spec fn too_large(grid: PixelGrid, size: (u32, u32)) -> bool {
    let w = if grid.width > size.0 { grid.width } else { size.0 };
    let h = if grid.height > size.1 { grid.height } else { size.1 };
    w * h > MAX_PIXELS
}

/// `image::DynamicImage::resize` with the `Lanczos3` filter on an RGB image,
/// read back as RGB. The result has at least one row and one column and
/// fits within the bounds, a bound of zero counting as one; where the
/// bounds are the source's own size the source comes back unchanged.
/// Nothing else is claimed of the resampled pixels: the filter works in
/// floating point. The pixel limit keeps every buffer of the resampling
/// within what a vector can hold.
#[verifier::external_body]
fn resize_rows(grid: &PixelGrid, width: u32, height: u32) -> (out: PixelGrid)
    requires
        grid.wf(),
        grid.width >= 1,
        grid.height >= 1,
        !too_large(*grid, (width, height)),
    ensures
        out.wf(),
        fits(out, (width, height)),
        width == grid.width && height == grid.height ==> out.width == width && out.height == height
            && out@ == grid@,
{
    let raw: Vec<u8> = grid.rows.iter().flatten().flat_map(|c| [c.r, c.g, c.b]).collect();
    let source = image::RgbImage::from_raw(grid.width, grid.height, raw).unwrap();
    let resized = image::DynamicImage::ImageRgb8(source)
        .resize(width, height, image::imageops::FilterType::Lanczos3)
        .to_rgb8();
    let rows = resized.rows().map(|r| r.map(|p| Color { r: p.0[0], g: p.0[1], b: p.0[2] }).collect());
    PixelGrid { width: resized.width(), height: resized.height(), rows: rows.collect() }
}

/// `image::imageops::dither`, Floyd-Steinberg error diffusion in raster
/// order. The size is kept, every pixel of the result is one that the
/// palette's colour map returned, and the result is a function of the pixels
/// and the palette.
#[verifier::external_body]
fn dither_rows(grid: &PixelGrid, palette: &Palette) -> (out: PixelGrid)
    requires
        grid.wf(),
        grid.width >= 2,
        grid.height >= 1,
        palette@.len() > 0,
    ensures
        out.wf(),
        out.width == grid.width,
        out.height == grid.height,
        out@ == dithered(grid@, palette@),
        within_palette(out, palette@),
{
    let raw: Vec<u8> = grid.rows.iter().flatten().flat_map(|c| [c.r, c.g, c.b]).collect();
    let mut img = image::RgbImage::from_raw(grid.width, grid.height, raw).unwrap();
    image::imageops::colorops::dither(&mut img, palette);
    let rows = img.rows().map(|r| r.map(|p| Color { r: p.0[0], g: p.0[1], b: p.0[2] }).collect());
    PixelGrid { width: img.width(), height: img.height(), rows: rows.collect() }
}

/// Replaces every pixel by the palette entry closest to it.
pub fn map_nearest(grid: &PixelGrid, palette: &[Color]) -> (out: PixelGrid)
    requires
        grid.wf(),
        palette@.len() > 0,
    ensures
        out.wf(),
        out.width == grid.width,
        out.height == grid.height,
        out@ == nearest_rows(grid@, palette@),
        forall|x: int, y: int|
            0 <= x < grid.width && 0 <= y < grid.height ==> out.at(x, y) == nearest_color(
                grid.at(x, y),
                palette@,
            ),
        within_palette(out, palette@),
{
    let mut rows: Vec<Vec<Color>> = Vec::new();
    let mut y: usize = 0;
    while y < grid.rows.len()
        invariant
            grid.wf(),
            palette@.len() > 0,
            y <= grid.rows@.len(),
            rows@.len() == y,
            forall|j: int| 0 <= j < y ==> (#[trigger] rows@[j])@.len() == grid.width,
            forall|i: int, j: int|
                0 <= i < grid.width && 0 <= j < y ==> rows@[j]@[i] == nearest_color(
                    grid.rows@[j]@[i],
                    palette@,
                ),
        decreases grid.rows@.len() - y,
    {
        let source = &grid.rows[y];
        let mut row: Vec<Color> = Vec::new();
        let mut x: usize = 0;
        while x < source.len()
            invariant
                palette@.len() > 0,
                x <= source@.len(),
                row@.len() == x,
                forall|i: int| 0 <= i < x ==> row@[i] == nearest_color(source@[i], palette@),
            decreases source@.len() - x,
        {
            row.push(find_nearest_color(&source[x], palette));
            x += 1;
        }
        rows.push(row);
        y += 1;
    }
    let out = PixelGrid { width: grid.width, height: grid.height, rows };
    proof {
        assert(out@ =~~= nearest_rows(grid@, palette@));
        assert forall|x: int, y: int| 0 <= x < out.width && 0 <= y < out.height implies palette@.contains(
            #[trigger] out.at(x, y),
        ) by {
            lemma_nearest_in_palette(grid.at(x, y), palette@);
        }
    }
    out
}

/// Maps an image that already has its target size to the palette: with error
/// diffusion when `dithering`, else pixel by pixel.
pub fn quantize_resized(resized: &PixelGrid, palette: &[Color], dithering: bool) -> (out: Result<
    PixelGrid,
    QuantizeError,
>)
    requires
        resized.wf(),
    ensures
        match out {
            Ok(grid) => {
                &&& quantized_rows(resized@, palette@, dithering) == Ok::<_, QuantizeError>(grid@)
                &&& grid.wf()
                &&& grid.width == resized.width
                &&& grid.height == resized.height
                &&& within_palette(grid, palette@)
                &&& palette@.len() == 1 ==> forall|x: int, y: int|
                    0 <= x < grid.width && 0 <= y < grid.height ==> grid.at(x, y) == palette@[0]
            },
            Err(e) => quantized_rows(resized@, palette@, dithering) == Err::<Seq<Seq<Color>>, _>(e),
        },
{
    if palette.len() == 0 {
        return Err(QuantizeError::EmptyPalette);
    }
    let out = if !dithering {
        map_nearest(resized, palette)
    } else if resized.height < 1 || resized.width < 2 {
        return Err(QuantizeError::TooNarrowToDither);
    } else {
        let map = Palette::from_slice(palette);
        dither_rows(resized, &map)
    };
    proof {
        if palette@.len() == 1 {
            assert forall|x: int, y: int| 0 <= x < out.width && 0 <= y < out.height implies out.at(x, y)
                == palette@[0] by {
                assert(palette@.contains(out.at(x, y)));
            }
        }
    }
    Ok(out)
}

/// Whether an image and a target size can be handed to the resampling.
pub open spec fn can_resize(img: PixelGrid, size: (u32, u32)) -> bool {
    img.width > 0 && img.height > 0 && !too_large(img, size)
}

/// Resamples `img` to fit `size`, keeping its aspect ratio, and maps the
/// result to the palette: with error diffusion when `dithering`, else pixel
/// by pixel.
///
/// An image that already has the target size is not resampled, and the
/// result is then exactly the mapping of its pixels. Resampling works in
/// floating point; of its outcome the contract says what holds in any case:
/// the result has at least one pixel and fits within `size`, all its pixels
/// are palette colours, and the only failure left is an image too narrow
/// for error diffusion.
pub fn quantize(img: &PixelGrid, palette: &[Color], size: (u32, u32), dithering: bool) -> (out: Result<
    PixelGrid,
    QuantizeError,
>)
    requires
        img.wf(),
    ensures
        palette@.len() == 0 ==> out == Err::<PixelGrid, _>(QuantizeError::EmptyPalette),
        palette@.len() > 0 && (img.width == 0 || img.height == 0) ==> out == Err::<PixelGrid, _>(
            QuantizeError::EmptySource,
        ),
        palette@.len() > 0 && img.width > 0 && img.height > 0 && too_large(*img, size) ==> out == Err::<
            PixelGrid,
            _,
        >(QuantizeError::TooLarge),
        palette@.len() > 0 && can_resize(*img, size) ==> match out {
            Ok(grid) => fits(grid, size) && (dithering ==> grid.width >= 2),
            Err(e) => dithering && e == QuantizeError::TooNarrowToDither,
        },
        palette@.len() > 0 && can_resize(*img, size) && size.0 == img.width && size.1 == img.height
            ==> match out {
            Ok(grid) => grid.width == img.width && grid.height == img.height && quantized_rows(
                img@,
                palette@,
                dithering,
            ) == Ok::<_, QuantizeError>(grid@),
            Err(e) => quantized_rows(img@, palette@, dithering) == Err::<Seq<Seq<Color>>, _>(e),
        },
        out.is_ok() ==> out.unwrap().wf() && within_palette(out.unwrap(), palette@),
        out.is_ok() && palette@.len() == 1 ==> forall|x: int, y: int|
            0 <= x < out.unwrap().width && 0 <= y < out.unwrap().height ==> out.unwrap().at(x, y)
                == palette@[0],
{
    if palette.len() == 0 {
        return Err(QuantizeError::EmptyPalette);
    }
    if img.width == 0 || img.height == 0 {
        return Err(QuantizeError::EmptySource);
    }
    let w: u64 = if img.width > size.0 { img.width as u64 } else { size.0 as u64 };
    let h: u64 = if img.height > size.1 { img.height as u64 } else { size.1 as u64 };
    assert(w * h <= 0xFFFF_FFFF * 0xFFFF_FFFF) by (nonlinear_arith)
        requires
            0 <= w <= 0xFFFF_FFFF,
            0 <= h <= 0xFFFF_FFFF,
    ;
    if w * h > MAX_PIXELS {
        return Err(QuantizeError::TooLarge);
    }
    let resized = resize_rows(img, size.0, size.1);
    quantize_resized(&resized, palette, dithering)
}

} // verus!
