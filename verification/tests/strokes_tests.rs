use drawing_bot::color::Color;
use drawing_bot::executor::{DrawJob, PointerAction};
use drawing_bot::grid::PixelGrid;
use drawing_bot::strokes::{compile_strokes, extract_strokes, Point, ScreenOrigin, Stroke};

const BLACK: Color = Color { r: 0, g: 0, b: 0 };
const WHITE: Color = Color { r: 255, g: 255, b: 255 };
const RED: Color = Color { r: 255, g: 0, b: 0 };

fn pt(x: i64, y: i64) -> Point {
    Point { x, y }
}

fn stroke(color: Color, start: (i64, i64), end: (i64, i64)) -> Stroke {
    Stroke { color, start: pt(start.0, start.1), end: pt(end.0, end.1) }
}

#[test]
fn two_pixel_example() {
    let grid = PixelGrid::from_rows(vec![vec![BLACK, WHITE]]).unwrap();
    let origin = ScreenOrigin { x: 100, y: 200 };
    let plan = compile_strokes(&grid, origin, 1);
    assert_eq!(plan.strokes, vec![stroke(BLACK, (100, 200), (100, 200))]);
    assert_eq!(plan.segments_for(BLACK).len(), 1);
    assert_eq!(plan.segments_for(WHITE).len(), 0);
    let palette = vec![BLACK, WHITE];
    let swatches = vec![pt(10, 10), pt(20, 20)];
    let job = DrawJob::new(&plan, &palette, &swatches).unwrap();
    assert_eq!(
        job.script,
        vec![
            PointerAction::SelectColor { slot: 0, at: pt(10, 10) },
            PointerAction::DrawSegment { stroke: stroke(BLACK, (100, 200), (100, 200)) },
        ]
    );
}

#[test]
fn all_white_grid_has_no_strokes() {
    let grid = PixelGrid::filled(5, 4, WHITE);
    let origin = ScreenOrigin { x: 0, y: 0 };
    for vertically in [true, false] {
        let (plan, count) = extract_strokes(&grid, origin, vertically, 1);
        assert_eq!(count, 0);
        assert!(plan.strokes.iter().all(|s| s.color == WHITE));
    }
    assert!(compile_strokes(&grid, origin, 2).strokes.is_empty());
}

#[test]
fn horizontal_band_is_one_row_stroke() {
    let mut grid = PixelGrid::filled(6, 5, WHITE);
    for x in 0..6 {
        grid.put_pixel(x, 2, RED);
    }
    let origin = ScreenOrigin { x: 10, y: 20 };
    let (_, columns) = extract_strokes(&grid, origin, true, 1);
    let (_, rows) = extract_strokes(&grid, origin, false, 1);
    assert_eq!(columns, 6);
    assert_eq!(rows, 1);
    let plan = compile_strokes(&grid, origin, 1);
    assert_eq!(plan.strokes, vec![stroke(RED, (10, 22), (15, 22))]);
    let plan = compile_strokes(&grid, origin, 2);
    assert_eq!(plan.strokes, vec![stroke(RED, (10, 22), (14, 22))]);
}

#[test]
fn vertical_band_is_one_column_stroke() {
    let mut grid = PixelGrid::filled(4, 5, WHITE);
    for y in 0..5 {
        grid.put_pixel(1, y, BLACK);
    }
    let origin = ScreenOrigin { x: -3, y: 7 };
    let plan = compile_strokes(&grid, origin, 1);
    assert_eq!(plan.strokes, vec![stroke(BLACK, (-2, 7), (-2, 11))]);
}

#[test]
fn runs_along_columns_in_scan_order() {
    let grid = PixelGrid::from_rows(vec![
        vec![BLACK, RED],
        vec![BLACK, RED],
        vec![WHITE, BLACK],
    ])
    .unwrap();
    let origin = ScreenOrigin { x: 0, y: 0 };
    let (plan, count) = extract_strokes(&grid, origin, true, 1);
    assert_eq!(count, 3);
    assert_eq!(
        plan.strokes,
        vec![
            stroke(BLACK, (0, 0), (0, 1)),
            stroke(WHITE, (0, 2), (0, 2)),
            stroke(RED, (1, 0), (1, 1)),
            stroke(BLACK, (1, 2), (1, 2)),
        ]
    );
    let (plan, count) = extract_strokes(&grid, origin, false, 1);
    assert_eq!(count, 5);
    assert_eq!(
        plan.strokes,
        vec![
            stroke(BLACK, (0, 0), (0, 0)),
            stroke(RED, (1, 0), (1, 0)),
            stroke(BLACK, (0, 1), (0, 1)),
            stroke(RED, (1, 1), (1, 1)),
            stroke(WHITE, (0, 2), (0, 2)),
            stroke(BLACK, (1, 2), (1, 2)),
        ]
    );
    let kept = compile_strokes(&grid, origin, 1);
    assert_eq!(kept.strokes.len(), 3);
    assert_eq!(kept.segments_for(BLACK), vec![stroke(BLACK, (0, 0), (0, 1)), stroke(BLACK, (1, 2), (1, 2))]);
}

#[test]
fn compiled_count_is_the_minimum() {
    let grid = PixelGrid::from_rows(vec![
        vec![BLACK, RED, BLACK, WHITE],
        vec![RED, RED, BLACK, BLACK],
        vec![WHITE, RED, WHITE, BLACK],
    ])
    .unwrap();
    let origin = ScreenOrigin { x: 0, y: 0 };
    for interval in 1..4u8 {
        let (_, columns) = extract_strokes(&grid, origin, true, interval);
        let (_, rows) = extract_strokes(&grid, origin, false, interval);
        let plan = compile_strokes(&grid, origin, interval);
        assert_eq!(plan.strokes.len(), columns.min(rows));
    }
}

#[test]
fn interval_skips_pixels_and_lines() {
    let grid = PixelGrid::from_rows(vec![
        vec![BLACK, RED, BLACK, RED, BLACK],
        vec![RED, RED, RED, RED, RED],
        vec![BLACK, RED, BLACK, RED, RED],
    ])
    .unwrap();
    let origin = ScreenOrigin { x: 0, y: 0 };
    let (plan, count) = extract_strokes(&grid, origin, false, 2);
    assert_eq!(count, 3);
    assert_eq!(
        plan.strokes,
        vec![
            stroke(BLACK, (0, 0), (4, 0)),
            stroke(BLACK, (0, 2), (2, 2)),
            stroke(RED, (4, 2), (4, 2)),
        ]
    );
    let (plan, count) = extract_strokes(&grid, origin, true, 255);
    assert_eq!(count, 1);
    assert_eq!(plan.strokes, vec![stroke(BLACK, (0, 0), (0, 0))]);
}

#[test]
fn equal_counts_keep_columns() {
    let grid = PixelGrid::from_rows(vec![vec![BLACK, RED], vec![RED, BLACK]]).unwrap();
    let origin = ScreenOrigin { x: 0, y: 0 };
    let plan = compile_strokes(&grid, origin, 1);
    assert_eq!(
        plan.strokes,
        vec![
            stroke(BLACK, (0, 0), (0, 0)),
            stroke(RED, (0, 1), (0, 1)),
            stroke(RED, (1, 0), (1, 0)),
            stroke(BLACK, (1, 1), (1, 1)),
        ]
    );
}

#[test]
fn empty_grid_has_no_strokes() {
    let grid = PixelGrid::from_rows(Vec::new()).unwrap();
    let (plan, count) = extract_strokes(&grid, ScreenOrigin { x: 0, y: 0 }, true, 1);
    assert_eq!(count, 0);
    assert!(plan.strokes.is_empty());
}

#[test]
fn far_origin_does_not_overflow() {
    let grid = PixelGrid::from_rows(vec![vec![BLACK, BLACK]]).unwrap();
    let origin = ScreenOrigin { x: i32::MAX, y: i32::MIN };
    let plan = compile_strokes(&grid, origin, 1);
    let x = i32::MAX as i64;
    let y = i32::MIN as i64;
    assert_eq!(plan.strokes, vec![stroke(BLACK, (x, y), (x + 1, y))]);
}
