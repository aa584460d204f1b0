//! What extraction gives for a grid with a single row of colour.

use vstd::prelude::*;
use crate::color::{white, Color};
use crate::grid::PixelGrid;
use crate::strokes::{
    compiled, drawable, extracted, lemma_count_push, lemma_drawable, lemma_sample_in_range,
    non_white_count, preferred, sample_color, sample_count, sample_point, scan_extent, scan_line,
    scan_lines, ScreenOrigin, Stroke,
};

verus! {

/// Row `band` of the grid is of colour `c` throughout, `c` is not the
/// background colour, and every other pixel is.
pub open spec fn is_row_band(grid: PixelGrid, band: int, c: Color) -> bool {
    &&& grid.wf()
    &&& grid.width >= 1
    &&& 0 <= band < grid.height
    &&& c != white()
    &&& forall|x: int, y: int|
        0 <= x < grid.width && 0 <= y < grid.height ==> grid.at(x, y) == if y == band {
            c
        } else {
            white()
        }
}

/// Whether every stroke is of colour `c` or of the background colour.
pub open spec fn only_white_or(strokes: Seq<Stroke>, c: Color) -> bool {
    forall|i: int|
        0 <= i < strokes.len() ==> (#[trigger] strokes[i]).color == c || strokes[i].color == white()
}

/// Counting is additive over joining two sequences of strokes.
pub proof fn lemma_count_concat(a: Seq<Stroke>, b: Seq<Stroke>)
    ensures
        non_white_count(a + b) == non_white_count(a) + non_white_count(b),
    decreases b.len(),
{
    if b.len() == 0 {
        assert(a + b =~= a);
    } else {
        lemma_count_concat(a, b.drop_last());
        assert((a + b).drop_last() =~= a + b.drop_last());
    }
}

/// What one more sample does to a scan line: the last run then has the
/// sample's colour, and one more run counts exactly when the sample is not
/// of the background colour and does not continue the run before it.
pub proof fn lemma_scan_line_step(
    grid: PixelGrid,
    origin: ScreenOrigin,
    vertically: bool,
    interval: nat,
    line: int,
    n: nat,
)
    requires
        n >= 1,
    ensures
        scan_line(grid, origin, vertically, interval, line, n).len() > 0,
        scan_line(grid, origin, vertically, interval, line, n).last().color == sample_color(
            grid,
            vertically,
            line,
            (n - 1) * interval,
        ),
        non_white_count(scan_line(grid, origin, vertically, interval, line, n)) == non_white_count(
            scan_line(grid, origin, vertically, interval, line, (n - 1) as nat),
        ) + if sample_color(grid, vertically, line, (n - 1) * interval) != white() && (n == 1
            || sample_color(grid, vertically, line, (n - 2) * interval) != sample_color(
            grid,
            vertically,
            line,
            (n - 1) * interval,
        )) {
            1nat
        } else {
            0nat
        },
    decreases n,
{
    let now = scan_line(grid, origin, vertically, interval, line, n);
    let before = scan_line(grid, origin, vertically, interval, line, (n - 1) as nat);
    let c = sample_color(grid, vertically, line, (n - 1) * interval);
    if n >= 2 {
        lemma_scan_line_step(grid, origin, vertically, interval, line, (n - 1) as nat);
    }
    if before.len() > 0 && before.last().color == c {
        lemma_count_push(before.drop_last(), now.last());
        assert(now =~= before.drop_last().push(now.last()));
    } else {
        lemma_count_push(before, now.last());
        assert(now =~= before.push(now.last()));
    }
}

/// Every run of a scan line has the colour of one of its samples; with
/// samples of `c` and of the background only, so are the runs.
pub proof fn lemma_scan_line_colors(
    grid: PixelGrid,
    origin: ScreenOrigin,
    vertically: bool,
    interval: nat,
    line: int,
    n: nat,
    c: Color,
)
    requires
        forall|j: int|
            0 <= j < n ==> sample_color(grid, vertically, line, #[trigger] (j * interval)) == c
                || sample_color(grid, vertically, line, j * interval) == white(),
    ensures
        only_white_or(scan_line(grid, origin, vertically, interval, line, n), c),
    decreases n,
{
    if n > 0 {
        lemma_scan_line_colors(grid, origin, vertically, interval, line, (n - 1) as nat, c);
        let j = n - 1;
        assert(sample_color(grid, vertically, line, j * interval) == c || sample_color(
            grid,
            vertically,
            line,
            j * interval,
        ) == white());
    }
}

/// Samples at different steps lie at different offsets.
pub proof fn lemma_steps_differ(a: int, b: int, interval: nat)
    requires
        interval >= 1,
    ensures
        a * interval == b * interval <==> a == b,
{
    assert(a * interval == b * interval <==> a == b) by (nonlinear_arith)
        requires
            interval >= 1,
    ;
}

/// An offset inside the extent belongs to a sample that is taken.
pub proof fn lemma_step_is_sampled(extent: nat, interval: nat, k: nat)
    requires
        interval >= 1,
        k * interval < extent,
    ensures
        k < sample_count(extent, interval),
{
    vstd::arithmetic::div_mod::lemma_div_is_ordered(
        (interval * k) as int,
        extent - 1,
        interval as int,
    );
    vstd::arithmetic::div_mod::lemma_div_multiples_vanish(k as int, interval as int);
    assert(interval * k == k * interval) by (nonlinear_arith);
}

/// Along rows, only the band's row counts, and it counts once.
proof fn lemma_band_row(
    grid: PixelGrid,
    origin: ScreenOrigin,
    interval: nat,
    step: nat,
    c: Color,
    k: nat,
    n: nat,
)
    requires
        interval >= 1,
        is_row_band(grid, (step * interval) as int, c),
        k < sample_count(grid.height as nat, interval),
        n <= sample_count(grid.width as nat, interval),
    ensures
        non_white_count(scan_line(grid, origin, false, interval, (k * interval) as int, n)) == if n >= 1 && k
            == step {
            1nat
        } else {
            0nat
        },
        only_white_or(scan_line(grid, origin, false, interval, (k * interval) as int, n), c),
    decreases n,
{
    let line = (k * interval) as int;
    lemma_sample_in_range(grid.height as nat, interval, k);
    lemma_steps_differ(k as int, step as int, interval);
    assert forall|j: int| 0 <= j < n implies sample_color(grid, false, line, #[trigger] (j * interval))
        == if k == step {
        c
    } else {
        white()
    } by {
        lemma_sample_in_range(grid.width as nat, interval, j as nat);
    }
    lemma_scan_line_colors(grid, origin, false, interval, line, n, c);
    if n >= 1 {
        lemma_band_row(grid, origin, interval, step, c, k, (n - 1) as nat);
        lemma_scan_line_step(grid, origin, false, interval, line, n);
        assert(sample_color(grid, false, line, (n - 1) * interval) == if k == step {
            c
        } else {
            white()
        });
        if n >= 2 {
            assert(sample_color(grid, false, line, (n - 2) * interval) == if k == step {
                c
            } else {
                white()
            });
        }
    }
}

/// Along columns, every column counts once the band's row is passed.
proof fn lemma_band_column(
    grid: PixelGrid,
    origin: ScreenOrigin,
    interval: nat,
    step: nat,
    c: Color,
    k: nat,
    n: nat,
)
    requires
        interval >= 1,
        is_row_band(grid, (step * interval) as int, c),
        k < sample_count(grid.width as nat, interval),
        n <= sample_count(grid.height as nat, interval),
    ensures
        non_white_count(scan_line(grid, origin, true, interval, (k * interval) as int, n)) == if n > step {
            1nat
        } else {
            0nat
        },
        only_white_or(scan_line(grid, origin, true, interval, (k * interval) as int, n), c),
    decreases n,
{
    let line = (k * interval) as int;
    lemma_sample_in_range(grid.width as nat, interval, k);
    assert forall|j: int| 0 <= j < n implies sample_color(grid, true, line, #[trigger] (j * interval))
        == if j == step {
        c
    } else {
        white()
    } by {
        lemma_sample_in_range(grid.height as nat, interval, j as nat);
        lemma_steps_differ(j, step as int, interval);
    }
    lemma_scan_line_colors(grid, origin, true, interval, line, n, c);
    if n >= 1 {
        lemma_band_column(grid, origin, interval, step, c, k, (n - 1) as nat);
        lemma_scan_line_step(grid, origin, true, interval, line, n);
        assert(sample_color(grid, true, line, (n - 1) * interval) == if n - 1 == step {
            c
        } else {
            white()
        });
        if n >= 2 {
            assert(sample_color(grid, true, line, (n - 2) * interval) == if n - 2 == step {
                c
            } else {
                white()
            });
        }
    }
}

/// The counts over the first `m` scan lines of a grid with a band.
proof fn lemma_band_lines(
    grid: PixelGrid,
    origin: ScreenOrigin,
    interval: nat,
    step: nat,
    c: Color,
    vertically: bool,
    m: nat,
)
    requires
        interval >= 1,
        is_row_band(grid, (step * interval) as int, c),
        m <= sample_count(scan_extent(grid, vertically).0, interval),
    ensures
        non_white_count(scan_lines(grid, origin, vertically, interval, m)) == if vertically {
            m
        } else if m > step {
            1nat
        } else {
            0nat
        },
        only_white_or(scan_lines(grid, origin, vertically, interval, m), c),
    decreases m,
{
    if m > 0 {
        let k = (m - 1) as nat;
        let samples = sample_count(scan_extent(grid, vertically).1, interval);
        lemma_band_lines(grid, origin, interval, step, c, vertically, k);
        lemma_step_is_sampled(grid.height as nat, interval, step);
        lemma_step_is_sampled(grid.width as nat, interval, 0);
        if vertically {
            lemma_band_column(grid, origin, interval, step, c, k, samples);
        } else {
            lemma_band_row(grid, origin, interval, step, c, k, samples);
        }
        lemma_count_concat(
            scan_lines(grid, origin, vertically, interval, k),
            scan_line(grid, origin, vertically, interval, (k * interval) as int, samples),
        );
    }
}

/// Dropping background strokes keeps the colours within `c`.
proof fn lemma_drawable_colors(strokes: Seq<Stroke>, c: Color)
    requires
        only_white_or(strokes, c),
    ensures
        forall|i: int| 0 <= i < drawable(strokes).len() ==> (#[trigger] drawable(strokes)[i]).color == c,
    decreases strokes.len(),
{
    if strokes.len() > 0 {
        let init = strokes.drop_last();
        assert(strokes.last().color == c || strokes.last().color == white());
        assert forall|i: int| 0 <= i < init.len() implies (#[trigger] init[i]).color == c || init[i].color
            == white() by {
            assert(init[i] == strokes[i]);
        }
        lemma_drawable_colors(init, c);
        assert forall|i: int| 0 <= i < drawable(strokes).len() implies (#[trigger] drawable(
            strokes,
        )[i]).color == c by {
            if i < drawable(init).len() {
                assert(drawable(strokes)[i] == drawable(init)[i]);
            }
        }
    }
}

/// The stroke along the whole of row `band`, from its first sample to its
/// last.
pub open spec fn band_stroke(
    grid: PixelGrid,
    origin: ScreenOrigin,
    interval: nat,
    band: int,
    c: Color,
) -> Stroke {
    Stroke {
        color: c,
        start: sample_point(origin, false, band, 0),
        end: sample_point(
            origin,
            false,
            band,
            (sample_count(grid.width as nat, interval) - 1) * interval,
        ),
    }
}

/// Dropping background strokes goes through joining.
pub proof fn lemma_drawable_concat(a: Seq<Stroke>, b: Seq<Stroke>)
    ensures
        drawable(a + b) == drawable(a) + drawable(b),
    decreases b.len(),
{
    if b.len() == 0 {
        assert(a + b =~= a);
        assert(drawable(a) + drawable(b) =~= drawable(a));
    } else {
        lemma_drawable_concat(a, b.drop_last());
        assert((a + b).drop_last() =~= a + b.drop_last());
        assert((drawable(a) + drawable(b.drop_last())).push(b.last()) =~= drawable(a) + drawable(
            b.drop_last(),
        ).push(b.last()));
    }
}

/// Samples of one colour along a scan line form a single run, from the
/// first sample to the last.
pub proof fn lemma_uniform_line(
    grid: PixelGrid,
    origin: ScreenOrigin,
    vertically: bool,
    interval: nat,
    line: int,
    n: nat,
    c: Color,
)
    requires
        n >= 1,
        forall|j: int| 0 <= j < n ==> sample_color(grid, vertically, line, #[trigger] (j * interval)) == c,
    ensures
        scan_line(grid, origin, vertically, interval, line, n) == seq![
            Stroke {
                color: c,
                start: sample_point(origin, vertically, line, 0),
                end: sample_point(origin, vertically, line, (n - 1) * interval),
            },
        ],
    decreases n,
{
    let j = n - 1;
    assert(sample_color(grid, vertically, line, j * interval) == c);
    let now = scan_line(grid, origin, vertically, interval, line, n);
    if n == 1 {
        assert((n - 1) * interval == 0) by (nonlinear_arith)
            requires
                n == 1,
        ;
        assert(scan_line(grid, origin, vertically, interval, line, 0).len() == 0);
        assert(now =~= seq![
            Stroke {
                color: c,
                start: sample_point(origin, vertically, line, 0),
                end: sample_point(origin, vertically, line, 0),
            },
        ]);
    } else {
        lemma_uniform_line(grid, origin, vertically, interval, line, (n - 1) as nat, c);
        assert(now =~= seq![
            Stroke {
                color: c,
                start: sample_point(origin, vertically, line, 0),
                end: sample_point(origin, vertically, line, (n - 1) * interval),
            },
        ]);
    }
}

/// Along rows, what is drawn of the first `m` rows is the band's stroke once
/// the band's row is among them.
proof fn lemma_band_rows_drawn(
    grid: PixelGrid,
    origin: ScreenOrigin,
    interval: nat,
    step: nat,
    c: Color,
    m: nat,
)
    requires
        interval >= 1,
        is_row_band(grid, (step * interval) as int, c),
        m <= sample_count(grid.height as nat, interval),
    ensures
        drawable(scan_lines(grid, origin, false, interval, m)) == if m > step {
            seq![band_stroke(grid, origin, interval, (step * interval) as int, c)]
        } else {
            Seq::<Stroke>::empty()
        },
    decreases m,
{
    if m > 0 {
        let k = (m - 1) as nat;
        let n = sample_count(grid.width as nat, interval);
        let line = (k * interval) as int;
        let shade = if k == step { c } else { white() };
        lemma_band_rows_drawn(grid, origin, interval, step, c, k);
        lemma_step_is_sampled(grid.width as nat, interval, 0);
        lemma_sample_in_range(grid.height as nat, interval, k);
        lemma_steps_differ(k as int, step as int, interval);
        assert forall|j: int| 0 <= j < n implies sample_color(
            grid,
            false,
            line,
            #[trigger] (j * interval),
        ) == shade by {
            lemma_sample_in_range(grid.width as nat, interval, j as nat);
        }
        lemma_uniform_line(grid, origin, false, interval, line, n, shade);
        let row = scan_line(grid, origin, false, interval, line, n);
        assert(row.drop_last() =~= Seq::<Stroke>::empty());
        assert(drawable(row.drop_last()) =~= Seq::<Stroke>::empty());
        assert(drawable(row) =~= if k == step {
            seq![row[0]]
        } else {
            Seq::<Stroke>::empty()
        });
        let before = scan_lines(grid, origin, false, interval, k);
        lemma_drawable_concat(before, row);
        assert(drawable(before) + drawable(row) =~= if m > step {
            seq![band_stroke(grid, origin, interval, (step * interval) as int, c)]
        } else {
            Seq::<Stroke>::empty()
        });
    }
}

/// A grid that is background but for one sampled row of colour `c`, which
/// spans the full width, is drawn with exactly one stroke, of colour `c`.
/// Rows count one stroke and columns one per sampled column, so that rows
/// are kept wherever more than one column is sampled, that is, wherever the
/// grid is wider than the interval; the one stroke then runs along the
/// band from its first sample to its last.
pub proof fn lemma_row_band(grid: PixelGrid, origin: ScreenOrigin, interval: nat, step: nat, c: Color)
    requires
        interval >= 1,
        is_row_band(grid, (step * interval) as int, c),
    ensures
        non_white_count(extracted(grid, origin, false, interval)) == 1,
        non_white_count(extracted(grid, origin, true, interval)) == sample_count(
            grid.width as nat,
            interval,
        ),
        grid.width > interval ==> preferred(grid, origin, interval) == extracted(
            grid,
            origin,
            false,
            interval,
        ),
        grid.width > interval ==> compiled(grid, origin, interval) == seq![
            band_stroke(grid, origin, interval, (step * interval) as int, c),
        ],
        compiled(grid, origin, interval).len() == 1,
        compiled(grid, origin, interval)[0].color == c,
{
    lemma_band_rows_drawn(
        grid,
        origin,
        interval,
        step,
        c,
        sample_count(grid.height as nat, interval),
    );
    lemma_step_is_sampled(grid.height as nat, interval, step);
    lemma_step_is_sampled(grid.width as nat, interval, 0);
    lemma_band_lines(grid, origin, interval, step, c, false, sample_count(grid.height as nat, interval));
    lemma_band_lines(grid, origin, interval, step, c, true, sample_count(grid.width as nat, interval));
    if grid.width > interval {
        lemma_step_is_sampled(grid.width as nat, interval, 1);
    }
    lemma_drawable(preferred(grid, origin, interval));
    lemma_drawable_colors(preferred(grid, origin, interval), c);
}

} // verus!
