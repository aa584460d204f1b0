//! Turning a colour grid into same-colour line strokes.
//!
//! A grid is scanned along parallel lines, every `interval`-th pixel of every
//! `interval`-th line. Each maximal run of equal colours along a line becomes
//! one stroke from the first sample of the run to its last.

use vstd::prelude::*;
use crate::color::{white, Color};
use crate::grid::PixelGrid;

verus! {

/// A screen position in whole pixels.
#[derive(Clone, Copy, Debug, PartialEq, Eq, Structural)]
pub struct Point {
    pub x: i64,
    pub y: i64,
}

/// The screen position of the grid's top-left pixel.
#[derive(Clone, Copy, Debug, PartialEq, Eq, Structural)]
pub struct ScreenOrigin {
    pub x: i32,
    pub y: i32,
}

/// One pen-down, move, pen-up action in a single colour.
#[derive(Clone, Copy, Debug, PartialEq, Eq, Structural)]
pub struct Stroke {
    pub color: Color,
    pub start: Point,
    pub end: Point,
}

/// The strokes of one drawing, in the order in which they were found.
#[derive(Debug)]
pub struct StrokePlan {
    pub strokes: Vec<Stroke>,
}

/// How many samples a stride of `interval` takes from `extent` pixels.
pub open spec fn sample_count(extent: nat, interval: nat) -> nat {
    if extent == 0 {
        0
    } else {
        ((extent - 1) / (interval as int) + 1) as nat
    }
}

/// Number of scan lines and of pixels along each, for one orientation.
pub open spec fn scan_extent(grid: PixelGrid, vertically: bool) -> (nat, nat) {
    if vertically {
        (grid.width as nat, grid.height as nat)
    } else {
        (grid.height as nat, grid.width as nat)
    }
}

/// The colour found `pos` pixels along the scan line at offset `line`.
pub open spec fn sample_color(grid: PixelGrid, vertically: bool, line: int, pos: int) -> Color {
    if vertically {
        grid.at(line, pos)
    } else {
        grid.at(pos, line)
    }
}

/// The screen position `pos` pixels along the scan line at offset `line`.
pub open spec fn sample_point(origin: ScreenOrigin, vertically: bool, line: int, pos: int) -> Point {
    if vertically {
        Point { x: (origin.x + line) as i64, y: (origin.y + pos) as i64 }
    } else {
        Point { x: (origin.x + pos) as i64, y: (origin.y + line) as i64 }
    }
}

/// The runs among the first `n` samples of the scan line at offset `line`.
///
/// A sample of the colour of the last run extends that run to the sample's
/// position; any other sample starts a new run there.
pub open spec fn scan_line(
    grid: PixelGrid,
    origin: ScreenOrigin,
    vertically: bool,
    interval: nat,
    line: int,
    n: nat,
) -> Seq<Stroke>
    decreases n,
{
    if n == 0 {
        Seq::empty()
    } else {
        let before = scan_line(grid, origin, vertically, interval, line, (n - 1) as nat);
        let color = sample_color(grid, vertically, line, (n - 1) * interval);
        let point = sample_point(origin, vertically, line, (n - 1) * interval);
        if before.len() > 0 && before.last().color == color {
            before.drop_last().push(Stroke { color, start: before.last().start, end: point })
        } else {
            before.push(Stroke { color, start: point, end: point })
        }
    }
}

/// The runs of the first `lines` scan lines, line after line.
pub open spec fn scan_lines(
    grid: PixelGrid,
    origin: ScreenOrigin,
    vertically: bool,
    interval: nat,
    lines: nat,
) -> Seq<Stroke>
    decreases lines,
{
    if lines == 0 {
        Seq::empty()
    } else {
        scan_lines(grid, origin, vertically, interval, (lines - 1) as nat) + scan_line(
            grid,
            origin,
            vertically,
            interval,
            (lines - 1) * interval,
            sample_count(scan_extent(grid, vertically).1, interval),
        )
    }
}

/// Every run of the grid in one orientation: columns when `vertically`,
/// rows otherwise.
pub open spec fn extracted(
    grid: PixelGrid,
    origin: ScreenOrigin,
    vertically: bool,
    interval: nat,
) -> Seq<Stroke> {
    scan_lines(
        grid,
        origin,
        vertically,
        interval,
        sample_count(scan_extent(grid, vertically).0, interval),
    )
}

/// How many strokes are not of the background colour.
pub open spec fn non_white_count(strokes: Seq<Stroke>) -> nat
    decreases strokes.len(),
{
    if strokes.len() == 0 {
        0
    } else {
        non_white_count(strokes.drop_last()) + if strokes.last().color != white() {
            1nat
        } else {
            0nat
        }
    }
}

/// The strokes that are not of the background colour, in the same order.
pub open spec fn drawable(strokes: Seq<Stroke>) -> Seq<Stroke>
    decreases strokes.len(),
{
    if strokes.len() == 0 {
        Seq::empty()
    } else {
        let before = drawable(strokes.drop_last());
        if strokes.last().color != white() {
            before.push(strokes.last())
        } else {
            before
        }
    }
}

/// The runs of the orientation that is kept: rows if columns need more
/// non-background strokes than rows, else columns.
pub open spec fn preferred(grid: PixelGrid, origin: ScreenOrigin, interval: nat) -> Seq<Stroke> {
    let columns = extracted(grid, origin, true, interval);
    let rows = extracted(grid, origin, false, interval);
    if non_white_count(columns) > non_white_count(rows) {
        rows
    } else {
        columns
    }
}

/// The strokes of a drawing: the non-background runs of the orientation
/// that needs fewer of them; of columns where both need equally many.
pub open spec fn compiled(grid: PixelGrid, origin: ScreenOrigin, interval: nat) -> Seq<Stroke> {
    drawable(preferred(grid, origin, interval))
}

/// The `k`-th sample lies inside the extent.
pub proof fn lemma_sample_in_range(extent: nat, interval: nat, k: nat)
    requires
        interval >= 1,
        k < sample_count(extent, interval),
    ensures
        k * interval < extent,
{
    let q = (extent - 1) / (interval as int);
    vstd::arithmetic::div_mod::lemma_fundamental_div_mod(extent - 1, interval as int);
    vstd::arithmetic::div_mod::lemma_mod_bound(extent - 1, interval as int);
    assert(k * interval <= q * interval) by (nonlinear_arith)
        requires
            0 <= k <= q,
            interval >= 1,
    ;
    assert(interval * q == q * interval) by (nonlinear_arith);
}

/// Runs are maximal: two runs that follow each other on a scan line differ
/// in colour.
pub proof fn lemma_adjacent_runs_differ(
    grid: PixelGrid,
    origin: ScreenOrigin,
    vertically: bool,
    interval: nat,
    line: int,
    n: nat,
)
    ensures
        forall|i: int|
            0 <= i < scan_line(grid, origin, vertically, interval, line, n).len() - 1 ==> (
            #[trigger] scan_line(grid, origin, vertically, interval, line, n)[i]).color != scan_line(
                grid,
                origin,
                vertically,
                interval,
                line,
                n,
            )[i + 1].color,
    decreases n,
{
    if n > 0 {
        lemma_adjacent_runs_differ(grid, origin, vertically, interval, line, (n - 1) as nat);
        let before = scan_line(grid, origin, vertically, interval, line, (n - 1) as nat);
        let now = scan_line(grid, origin, vertically, interval, line, n);
        assert forall|i: int| 0 <= i < now.len() - 1 implies (#[trigger] now[i]).color != now[i
            + 1].color by {
            if i + 1 < before.len() {
                assert(now[i] == before[i]);
                assert(now[i + 1].color == before[i + 1].color);
            } else {
                assert(now[i] == before[i]);
            }
        }
    }
}

/// Counting is additive over appending one stroke.
pub proof fn lemma_count_push(strokes: Seq<Stroke>, s: Stroke)
    ensures
        non_white_count(strokes.push(s)) == non_white_count(strokes) + if s.color != white() {
            1nat
        } else {
            0nat
        },
        non_white_count(strokes) <= strokes.len(),
    decreases strokes.len(),
{
    assert(strokes.push(s).drop_last() =~= strokes);
    if strokes.len() > 0 {
        lemma_count_push(strokes.drop_last(), strokes.last());
        assert(strokes.drop_last().push(strokes.last()) =~= strokes);
    }
}

/// Dropping the background strokes leaves as many strokes as were counted,
/// none of them of the background colour.
pub proof fn lemma_drawable(strokes: Seq<Stroke>)
    ensures
        drawable(strokes).len() == non_white_count(strokes),
        non_white_count(drawable(strokes)) == non_white_count(strokes),
        forall|i: int| 0 <= i < drawable(strokes).len() ==> (#[trigger] drawable(strokes)[i]).color != white(),
    decreases strokes.len(),
{
    if strokes.len() > 0 {
        lemma_drawable(strokes.drop_last());
        lemma_count_push(drawable(strokes.drop_last()), strokes.last());
    }
}

/// Whether every pixel of the grid is of the background colour.
pub open spec fn all_white(grid: PixelGrid) -> bool {
    forall|x: int, y: int| 0 <= x < grid.width && 0 <= y < grid.height ==> grid.at(x, y) == white()
}

/// Whether every stroke is of the background colour.
pub open spec fn only_white(strokes: Seq<Stroke>) -> bool {
    forall|i: int| 0 <= i < strokes.len() ==> (#[trigger] strokes[i]).color == white()
}

/// Strokes of the background colour count for nothing.
pub proof fn lemma_only_white_counts_zero(strokes: Seq<Stroke>)
    requires
        only_white(strokes),
    ensures
        non_white_count(strokes) == 0,
    decreases strokes.len(),
{
    if strokes.len() > 0 {
        lemma_only_white_counts_zero(strokes.drop_last());
    }
}

/// A scan line over background pixels gives background runs only.
pub proof fn lemma_scan_line_white(
    grid: PixelGrid,
    origin: ScreenOrigin,
    vertically: bool,
    interval: nat,
    k: nat,
    n: nat,
)
    requires
        grid.wf(),
        all_white(grid),
        interval >= 1,
        k < sample_count(scan_extent(grid, vertically).0, interval),
        n <= sample_count(scan_extent(grid, vertically).1, interval),
    ensures
        only_white(scan_line(grid, origin, vertically, interval, (k * interval) as int, n)),
    decreases n,
{
    if n > 0 {
        lemma_scan_line_white(grid, origin, vertically, interval, k, (n - 1) as nat);
        lemma_sample_in_range(scan_extent(grid, vertically).0, interval, k);
        lemma_sample_in_range(scan_extent(grid, vertically).1, interval, (n - 1) as nat);
        assert(sample_color(grid, vertically, (k * interval) as int, (n - 1) * interval) == white());
    }
}

/// The first scan lines of a background grid give background runs only.
pub proof fn lemma_scan_lines_white(
    grid: PixelGrid,
    origin: ScreenOrigin,
    vertically: bool,
    interval: nat,
    lines: nat,
)
    requires
        grid.wf(),
        all_white(grid),
        interval >= 1,
        lines <= sample_count(scan_extent(grid, vertically).0, interval),
    ensures
        only_white(scan_lines(grid, origin, vertically, interval, lines)),
    decreases lines,
{
    if lines > 0 {
        lemma_scan_lines_white(grid, origin, vertically, interval, (lines - 1) as nat);
        lemma_scan_line_white(
            grid,
            origin,
            vertically,
            interval,
            (lines - 1) as nat,
            sample_count(scan_extent(grid, vertically).1, interval),
        );
    }
}

/// A grid that holds only the background colour needs no stroke at all:
/// neither orientation counts one, and the drawing is empty.
pub proof fn lemma_all_white_needs_no_stroke(
    grid: PixelGrid,
    origin: ScreenOrigin,
    vertically: bool,
    interval: nat,
)
    requires
        grid.wf(),
        all_white(grid),
        interval >= 1,
    ensures
        non_white_count(extracted(grid, origin, vertically, interval)) == 0,
        compiled(grid, origin, interval).len() == 0,
{
    let count = |v: bool| sample_count(scan_extent(grid, v).0, interval);
    lemma_scan_lines_white(grid, origin, true, interval, count(true));
    lemma_scan_lines_white(grid, origin, false, interval, count(false));
    lemma_only_white_counts_zero(extracted(grid, origin, true, interval));
    lemma_only_white_counts_zero(extracted(grid, origin, false, interval));
    lemma_drawable(preferred(grid, origin, interval));
}

/// The drawing never holds more strokes than either orientation alone
/// counts: their number is the smaller of the two counts.
pub proof fn lemma_compiled_is_minimum(grid: PixelGrid, origin: ScreenOrigin, interval: nat)
    ensures
        compiled(grid, origin, interval).len() == non_white_count(compiled(grid, origin, interval)),
        non_white_count(compiled(grid, origin, interval)) <= non_white_count(
            extracted(grid, origin, true, interval),
        ),
        non_white_count(compiled(grid, origin, interval)) <= non_white_count(
            extracted(grid, origin, false, interval),
        ),
        non_white_count(compiled(grid, origin, interval)) == non_white_count(
            extracted(grid, origin, true, interval),
        ) || non_white_count(compiled(grid, origin, interval)) == non_white_count(
            extracted(grid, origin, false, interval),
        ),
{
    lemma_drawable(preferred(grid, origin, interval));
}

impl StrokePlan {
    /// The strokes in the order in which they were found.
    pub open spec fn view(&self) -> Seq<Stroke> {
        self.strokes@
    }

    /// The plan without its strokes of the background colour.
    pub fn without_background(&self) -> (out: StrokePlan)
        ensures
            out@ == drawable(self@),
    {
        let mut kept: Vec<Stroke> = Vec::new();
        let mut i: usize = 0;
        while i < self.strokes.len()
            invariant
                i <= self@.len(),
                kept@ == drawable(self@.take(i as int)),
            decreases self@.len() - i,
        {
            let stroke = self.strokes[i];
            proof {
                assert(self@.take(i + 1).drop_last() =~= self@.take(i as int));
            }
            if !stroke.color.is_white() {
                kept.push(stroke);
            }
            i += 1;
        }
        proof {
            assert(self@.take(i as int) =~= self@);
        }
        StrokePlan { strokes: kept }
    }
}

/// The runs of one orientation, and how many of them are not background.
pub fn extract_strokes(
    grid: &PixelGrid,
    origin: ScreenOrigin,
    vertically: bool,
    pixels_interval: u8,
) -> (out: (StrokePlan, usize))
    requires
        grid.wf(),
        pixels_interval >= 1,
    ensures
        out.0@ == extracted(*grid, origin, vertically, pixels_interval as nat),
        out.1 == non_white_count(out.0@),
{
    let step: u64 = pixels_interval as u64;
    let (w, h): (u64, u64) = if vertically {
        (grid.width as u64, grid.height as u64)
    } else {
        (grid.height as u64, grid.width as u64)
    };
    let n_lines: u64 = if w == 0 { 0 } else { (w - 1) / step + 1 };
    let n_samples: u64 = if h == 0 { 0 } else { (h - 1) / step + 1 };
    let ghost interval = pixels_interval as nat;
    let mut strokes: Vec<Stroke> = Vec::new();
    let mut count: usize = 0;
    let mut k: u64 = 0;
    while k < n_lines
        invariant
            grid.wf(),
            step == interval,
            interval >= 1,
            (w as nat, h as nat) == scan_extent(*grid, vertically),
            n_lines == sample_count(w as nat, interval),
            n_samples == sample_count(h as nat, interval),
            k <= n_lines,
            strokes@ == scan_lines(*grid, origin, vertically, interval, k as nat),
            count == non_white_count(strokes@),
        decreases n_lines - k,
    {
        proof {
            lemma_sample_in_range(w as nat, interval, k as nat);
        }
        let x: u64 = k * step;
        let ghost base = strokes@;
        let mut open: Option<Stroke> = None;
        let mut j: u64 = 0;
        while j < n_samples
            invariant
                grid.wf(),
                step == interval,
                interval >= 1,
                (w as nat, h as nat) == scan_extent(*grid, vertically),
                n_samples == sample_count(h as nat, interval),
                x == k * interval,
                x < w,
                j <= n_samples,
                count == non_white_count(strokes@),
                j == 0 ==> open.is_none() && strokes@ == base,
                j > 0 ==> open.is_some() && strokes@.push(open.unwrap()) == base + scan_line(
                    *grid,
                    origin,
                    vertically,
                    interval,
                    x as int,
                    j as nat,
                ),
            decreases n_samples - j,
        {
            proof {
                lemma_sample_in_range(h as nat, interval, j as nat);
            }
            let y: u64 = j * step;
            let (pixel, position) = if vertically {
                (
                    grid.get_pixel(x as u32, y as u32),
                    Point { x: origin.x as i64 + x as i64, y: origin.y as i64 + y as i64 },
                )
            } else {
                (
                    grid.get_pixel(y as u32, x as u32),
                    Point { x: origin.x as i64 + y as i64, y: origin.y as i64 + x as i64 },
                )
            };
            let ghost line = scan_line(*grid, origin, vertically, interval, x as int, j as nat);
            let ghost next = scan_line(
                *grid,
                origin,
                vertically,
                interval,
                x as int,
                (j + 1) as nat,
            );
            proof {
                assert(pixel == sample_color(*grid, vertically, x as int, j * interval));
                assert(position == sample_point(origin, vertically, x as int, j * interval));
                if j > 0 {
                    assert(line.len() > 0 && line.last() == open.unwrap() && strokes@
                        == base + line.drop_last()) by {
                        let joined = strokes@.push(open.unwrap());
                        assert(joined.len() == base.len() + line.len());
                        assert(joined.last() == (base + line)[joined.len() - 1]);
                        assert(joined.drop_last() =~= strokes@);
                        assert((base + line).drop_last() =~= base + line.drop_last());
                    }
                }
            }
            match open {
                None => {
                    open = Some(Stroke { color: pixel, start: position, end: position });
                    proof {
                        assert(strokes@.push(open.unwrap()) =~= base + next);
                    }
                },
                Some(run) => {
                    if run.color == pixel {
                        open = Some(Stroke { color: pixel, start: run.start, end: position });
                        proof {
                            assert(strokes@.push(open.unwrap()) =~= base + next);
                        }
                    } else {
                        proof {
                            lemma_count_push(strokes@, run);
                            assert(strokes@.push(run) =~= base + line);
                        }
                        strokes.push(run);
                        if !run.color.is_white() {
                            assert(count < strokes.len());
                            count += 1;
                        }
                        open = Some(Stroke { color: pixel, start: position, end: position });
                        proof {
                            assert(strokes@.push(open.unwrap()) =~= base + next);
                        }
                    }
                },
            }
            j += 1;
        }
        match open {
            None => {
                proof {
                    assert(base + Seq::<Stroke>::empty() =~= base);
                }
            },
            Some(run) => {
                proof {
                    lemma_count_push(strokes@, run);
                }
                strokes.push(run);
                if !run.color.is_white() {
                    assert(count < strokes.len());
                    count += 1;
                }
            },
        }
        k += 1;
    }
    (StrokePlan { strokes }, count)
}

/// Extracts the runs along columns and along rows, keeps the orientation
/// that needs fewer non-background strokes (columns where both need equally
/// many) and drops its background runs.
pub fn compile_strokes(grid: &PixelGrid, origin: ScreenOrigin, pixels_interval: u8) -> (out:
    StrokePlan)
    requires
        grid.wf(),
        pixels_interval >= 1,
    ensures
        out@ == compiled(*grid, origin, pixels_interval as nat),
        out@.len() == non_white_count(out@),
        non_white_count(out@) <= non_white_count(
            extracted(*grid, origin, true, pixels_interval as nat),
        ),
        non_white_count(out@) <= non_white_count(
            extracted(*grid, origin, false, pixels_interval as nat),
        ),
{
    let (columns, n_columns) = extract_strokes(grid, origin, true, pixels_interval);
    let (rows, n_rows) = extract_strokes(grid, origin, false, pixels_interval);
    proof {
        lemma_compiled_is_minimum(*grid, origin, pixels_interval as nat);
    }
    if n_columns > n_rows {
        rows.without_background()
    } else {
        columns.without_background()
    }
}

} // verus!
