use drawing_bot::color::Color;
use drawing_bot::executor::{draw_image, DrawError, DrawJob, PointerAction, PointerEvent};
use drawing_bot::grid::PixelGrid;
use drawing_bot::strokes::{Point, ScreenOrigin, Stroke, StrokePlan};

const BLACK: Color = Color { r: 0, g: 0, b: 0 };
const WHITE: Color = Color { r: 255, g: 255, b: 255 };
const RED: Color = Color { r: 255, g: 0, b: 0 };
const BLUE: Color = Color { r: 0, g: 80, b: 205 };

fn pt(x: i64, y: i64) -> Point {
    Point { x, y }
}

fn seg(color: Color, n: i64) -> Stroke {
    Stroke { color, start: pt(n, 0), end: pt(n, 5) }
}

fn plan() -> StrokePlan {
    StrokePlan {
        strokes: vec![seg(RED, 1), seg(BLACK, 2), seg(WHITE, 3), seg(RED, 4), seg(BLACK, 5), seg(RED, 6)],
    }
}

fn palette() -> Vec<Color> {
    vec![BLACK, BLUE, WHITE, RED]
}

fn swatches() -> Vec<Point> {
    vec![pt(10, 10), pt(20, 20), pt(30, 30), pt(40, 40)]
}

fn drain(job: &mut DrawJob, cancel_at: Option<usize>) -> Vec<PointerAction> {
    let mut out = Vec::new();
    let mut asked = 0;
    for _ in 0..50 {
        let cancelled = cancel_at.map_or(false, |n| asked >= n);
        asked += 1;
        if let Some(action) = job.next_action(cancelled) {
            out.push(action);
        }
    }
    out
}

#[test]
fn script_follows_palette_order() {
    let mut job = DrawJob::new(&plan(), &palette(), &swatches()).unwrap();
    assert_eq!(job.pos, 0);
    assert!(!job.stopped);
    let done = drain(&mut job, None);
    assert_eq!(
        done,
        vec![
            PointerAction::SelectColor { slot: 0, at: pt(10, 10) },
            PointerAction::DrawSegment { stroke: seg(BLACK, 2) },
            PointerAction::DrawSegment { stroke: seg(BLACK, 5) },
            PointerAction::SelectColor { slot: 3, at: pt(40, 40) },
            PointerAction::DrawSegment { stroke: seg(RED, 1) },
            PointerAction::DrawSegment { stroke: seg(RED, 4) },
            PointerAction::DrawSegment { stroke: seg(RED, 6) },
        ]
    );
    assert!(job.stopped);
    assert_eq!(job.next_action(false), None);
}

#[test]
fn cancel_before_second_color_draws_only_the_first() {
    let mut job = DrawJob::new(&plan(), &palette(), &swatches()).unwrap();
    let done = drain(&mut job, Some(4));
    assert_eq!(
        done,
        vec![
            PointerAction::SelectColor { slot: 0, at: pt(10, 10) },
            PointerAction::DrawSegment { stroke: seg(BLACK, 2) },
            PointerAction::DrawSegment { stroke: seg(BLACK, 5) },
            PointerAction::SelectColor { slot: 3, at: pt(40, 40) },
        ]
    );
    assert!(job.stopped);
    assert_eq!(job.next_action(false), None);
    assert_eq!(job.pos, 4);
}

#[test]
fn cancel_at_once_draws_nothing() {
    let mut job = DrawJob::new(&plan(), &palette(), &swatches()).unwrap();
    let done = drain(&mut job, Some(0));
    assert_eq!(done, vec![PointerAction::SelectColor { slot: 0, at: pt(10, 10) }]);
}

#[test]
fn cancel_between_segments_stops_the_color() {
    let mut job = DrawJob::new(&plan(), &palette(), &swatches()).unwrap();
    let done = drain(&mut job, Some(2));
    assert_eq!(
        done,
        vec![
            PointerAction::SelectColor { slot: 0, at: pt(10, 10) },
            PointerAction::DrawSegment { stroke: seg(BLACK, 2) },
        ]
    );
}

#[test]
fn missing_swatch_is_reported_before_drawing() {
    let short = vec![pt(10, 10), pt(20, 20)];
    let err = DrawJob::new(&plan(), &palette(), &short).unwrap_err();
    assert_eq!(err, DrawError::MissingCoordinate { slot: 3 });
    let only_black = StrokePlan { strokes: vec![seg(BLACK, 1), seg(WHITE, 2)] };
    let job = DrawJob::new(&only_black, &palette(), &short).unwrap();
    assert_eq!(job.script.len(), 2);
    let none = DrawJob::new(&only_black, &palette(), &[]).unwrap_err();
    assert_eq!(none, DrawError::MissingCoordinate { slot: 0 });
}

#[test]
fn colors_outside_the_palette_are_not_drawn() {
    let job = DrawJob::new(&plan(), &[BLUE, WHITE], &swatches()).unwrap();
    assert!(job.script.is_empty());
    let empty = StrokePlan { strokes: Vec::new() };
    let mut job = DrawJob::new(&empty, &palette(), &[]).unwrap();
    assert_eq!(job.next_action(false), None);
    assert!(job.stopped);
}

#[test]
fn events_of_actions() {
    let click = PointerAction::SelectColor { slot: 2, at: pt(7, 8) };
    assert_eq!(
        click.events(),
        vec![PointerEvent::MoveTo(pt(7, 8)), PointerEvent::Press, PointerEvent::Release]
    );
    let line = PointerAction::DrawSegment { stroke: Stroke { color: RED, start: pt(1, 2), end: pt(3, 4) } };
    assert_eq!(
        line.events(),
        vec![
            PointerEvent::MoveTo(pt(1, 2)),
            PointerEvent::Press,
            PointerEvent::MoveTo(pt(3, 4)),
            PointerEvent::Release,
            PointerEvent::Pause,
        ]
    );
}

#[test]
fn draw_image_plans_the_whole_job() {
    let grid = PixelGrid::from_rows(vec![vec![RED, RED, WHITE], vec![BLACK, BLACK, BLACK]]).unwrap();
    let origin = ScreenOrigin { x: 50, y: 60 };
    let job = draw_image(&grid, &palette(), &swatches(), origin, 1).unwrap();
    assert_eq!(
        job.script,
        vec![
            PointerAction::SelectColor { slot: 0, at: pt(10, 10) },
            PointerAction::DrawSegment { stroke: Stroke { color: BLACK, start: pt(50, 61), end: pt(52, 61) } },
            PointerAction::SelectColor { slot: 3, at: pt(40, 40) },
            PointerAction::DrawSegment { stroke: Stroke { color: RED, start: pt(50, 60), end: pt(51, 60) } },
        ]
    );
    let err = draw_image(&grid, &palette(), &[pt(1, 1)], origin, 1).unwrap_err();
    assert_eq!(err, DrawError::MissingCoordinate { slot: 3 });
}
