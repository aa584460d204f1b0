use drawing_bot::color::Color;
use image::imageops::colorops::ColorMap;
use drawing_bot::grid::PixelGrid;
use drawing_bot::palette::Palette;
use drawing_bot::quantize::{map_nearest, quantize, quantize_resized, QuantizeError};

fn black() -> Color {
    Color::new(0, 0, 0)
}

fn white() -> Color {
    Color::new(255, 255, 255)
}

fn gradient(width: u32, height: u32) -> PixelGrid {
    let mut rows = Vec::new();
    for y in 0..height {
        let mut row = Vec::new();
        for x in 0..width {
            let v = ((x * 255) / (width - 1).max(1)) as u8;
            row.push(Color::new(v, v, (y % 2) as u8 * 10));
        }
        rows.push(row);
    }
    PixelGrid::from_rows(rows).unwrap()
}

#[test]
fn from_rows_rejects_ragged_rows() {
    assert!(PixelGrid::from_rows(vec![vec![black(), white()], vec![black()]]).is_none());
    let grid = PixelGrid::from_rows(vec![vec![black(), white()], vec![white(), black()]]).unwrap();
    assert_eq!((grid.width, grid.height), (2, 2));
    assert_eq!(grid.get_pixel(1, 0), white());
    let empty = PixelGrid::from_rows(Vec::new()).unwrap();
    assert_eq!((empty.width, empty.height), (0, 0));
}

#[test]
fn filled_and_put_pixel() {
    let mut grid = PixelGrid::filled(3, 2, white());
    assert_eq!((grid.width, grid.height), (3, 2));
    grid.put_pixel(2, 1, black());
    assert_eq!(grid.get_pixel(2, 1), black());
    assert_eq!(grid.get_pixel(1, 1), white());
    assert_eq!(grid.get_pixel(2, 0), white());
}

#[test]
fn map_nearest_picks_closest_entry() {
    let palette = vec![black(), white(), Color::new(255, 0, 0)];
    let grid = PixelGrid::from_rows(vec![vec![
        Color::new(10, 10, 10),
        Color::new(250, 240, 245),
        Color::new(200, 30, 20),
    ]])
    .unwrap();
    let out = map_nearest(&grid, &palette);
    assert_eq!(out.rows, vec![vec![black(), white(), Color::new(255, 0, 0)]]);
}

#[test]
fn quantize_at_own_size_maps_each_pixel() {
    let palette = vec![black(), white()];
    let grid = gradient(4, 2);
    let out = quantize(&grid, &palette, (4, 2), false).unwrap();
    assert_eq!((out.width, out.height), (4, 2));
    assert_eq!(out.rows[0], vec![black(), black(), black(), white()]);
    assert_eq!(out.rows[1], vec![black(), black(), black(), white()]);
}

#[test]
fn quantize_never_leaves_the_palette() {
    let palette = vec![Color::new(0, 0, 0), Color::new(102, 102, 102), Color::new(0, 80, 205), white()];
    let grid = gradient(16, 12);
    for dithering in [false, true] {
        let out = quantize(&grid, &palette, (8, 6), dithering).unwrap();
        assert!(out.width >= 1 && out.height >= 1);
        for row in &out.rows {
            assert_eq!(row.len(), out.width as usize);
            for c in row {
                assert!(palette.contains(c));
            }
        }
    }
}

#[test]
fn quantize_single_color_palette() {
    let only = Color::new(17, 176, 60);
    let grid = gradient(6, 4);
    for dithering in [false, true] {
        let out = quantize(&grid, &[only], (6, 4), dithering).unwrap();
        assert_eq!((out.width, out.height), (6, 4));
        for row in &out.rows {
            for c in row {
                assert_eq!(*c, only);
            }
        }
    }
}

#[test]
fn quantize_resamples_to_the_target() {
    let palette = vec![black(), white()];
    let grid = gradient(8, 8);
    let out = quantize(&grid, &palette, (4, 4), false).unwrap();
    assert_eq!((out.width, out.height), (4, 4));
    assert_eq!(out.rows.len(), 4);
    let wide = quantize(&grid, &palette, (4, 8), false).unwrap();
    assert_eq!((wide.width, wide.height), (4, 4));
}

#[test]
fn quantize_resamples_tiny_and_odd_sizes() {
    let palette = vec![black(), white()];
    let dot = PixelGrid::filled(1, 1, Color::new(200, 200, 200));
    let out = quantize(&dot, &palette, (5, 5), true).unwrap();
    assert_eq!((out.width, out.height), (5, 5));
    let out = quantize(&dot, &palette, (0, 0), false).unwrap();
    assert_eq!((out.width, out.height), (1, 1));
    assert_eq!(out.rows, vec![vec![white()]]);
    let strip = gradient(7, 1);
    let out = quantize(&strip, &palette, (3, 9), false).unwrap();
    assert_eq!((out.width, out.height), (3, 1));
    let tall = quantize(&gradient(10, 30), &palette, (20, 15), false).unwrap();
    assert_eq!((tall.width, tall.height), (5, 15));
    let narrow = quantize(&gradient(9, 3), &palette, (1, 1), true);
    assert_eq!(narrow.unwrap_err(), QuantizeError::TooNarrowToDither);
}

#[test]
fn dithering_spreads_the_error() {
    let palette = vec![black(), white()];
    let gray = PixelGrid::filled(8, 8, Color::new(128, 128, 128));
    let plain = quantize_resized(&gray, &palette, false).unwrap();
    let dithered = quantize_resized(&gray, &palette, true).unwrap();
    let count = |g: &PixelGrid, c: Color| g.rows.iter().flatten().filter(|p| **p == c).count();
    assert_eq!(count(&plain, white()), 64);
    assert!(count(&dithered, white()) > 0);
    assert!(count(&dithered, black()) > 0);
    assert_eq!((dithered.width, dithered.height), (8, 8));
}

#[test]
fn quantize_errors() {
    let grid = gradient(4, 4);
    let palette = vec![black(), white()];
    assert_eq!(quantize(&grid, &[], (4, 4), false).unwrap_err(), QuantizeError::EmptyPalette);
    let empty = PixelGrid::from_rows(Vec::new()).unwrap();
    assert_eq!(quantize(&empty, &palette, (4, 4), false).unwrap_err(), QuantizeError::EmptySource);
    assert_eq!(
        quantize(&grid, &palette, (100_000, 100_000), false).unwrap_err(),
        QuantizeError::TooLarge
    );
    let column = PixelGrid::filled(1, 5, black());
    assert_eq!(
        quantize(&column, &palette, (1, 5), true).unwrap_err(),
        QuantizeError::TooNarrowToDither
    );
    assert_eq!(quantize_resized(&column, &palette, true).unwrap_err(), QuantizeError::TooNarrowToDither);
    assert_eq!(quantize_resized(&column, &[], true).unwrap_err(), QuantizeError::EmptyPalette);
    assert!(quantize(&column, &palette, (1, 5), false).is_ok());
}

#[test]
fn palette_slots() {
    let palette = Palette::from_colors(vec![black(), Color::new(102, 102, 102), white()]);
    assert_eq!(palette.slot_of(&white()), Some(2));
    assert_eq!(palette.slot_of(&Color::new(100, 100, 100)), Some(1));
    assert_eq!(palette.nearest(&Color::new(240, 250, 250)), white());
    let none = Palette::from_colors(Vec::new());
    assert_eq!(none.slot_of(&black()), None);
    assert_eq!(none.nearest(&black()), black());
    let copy = Palette::from_slice(&[white(), black()]);
    assert_eq!(copy.colors, vec![white(), black()]);
}

#[test]
fn palette_as_color_map() {
    let palette = Palette::from_colors(vec![black(), Color::new(102, 102, 102), white(), black()]);
    let mut pixel = image::Rgb([90u8, 100, 110]);
    palette.map_color(&mut pixel);
    assert_eq!(pixel, image::Rgb([102u8, 102, 102]));
    let mut tie = image::Rgb([51u8, 51, 51]);
    palette.map_color(&mut tie);
    assert_eq!(tie, image::Rgb([0u8, 0, 0]));
    assert_eq!(ColorMap::index_of(&palette, &image::Rgb([255u8, 255, 255])), 2);
    assert_eq!(ColorMap::index_of(&palette, &image::Rgb([0u8, 0, 0])), 0);
    assert_eq!(ColorMap::index_of(&palette, &image::Rgb([200u8, 210, 220])), 2);
    let none = Palette::from_colors(Vec::new());
    let mut kept = image::Rgb([1u8, 2, 3]);
    none.map_color(&mut kept);
    assert_eq!(kept, image::Rgb([1u8, 2, 3]));
    assert_eq!(ColorMap::index_of(&none, &kept), 0);
}
