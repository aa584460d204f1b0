//! Replaying a stroke plan as pointer actions, colour by colour.
//!
//! A job lays the plan out as a script: for every palette slot, in slot
//! order, whose colour is not the background and has strokes in the plan, one
//! click on the slot's swatch followed by the colour's strokes in plan order.
//! The caller asks for one action at a time and reports before each whether
//! cancellation was requested; a request is honoured before a stroke begins
//! and ends the job for good.

use vstd::prelude::*;
use crate::color::{white, Color};
use crate::grid::PixelGrid;
use crate::strokes::{compile_strokes, compiled, Point, ScreenOrigin, Stroke, StrokePlan};

verus! {

/// One step of a drawing as the caller carries it out.
#[derive(Clone, Copy, Debug, PartialEq, Eq, Structural)]
pub enum PointerAction {
    /// Click the swatch of a palette slot.
    SelectColor { slot: usize, at: Point },
    /// Draw one stroke.
    DrawSegment { stroke: Stroke },
}

/// The pointer events that make up an action.
#[derive(Clone, Copy, Debug, PartialEq, Eq, Structural)]
pub enum PointerEvent {
    MoveTo(Point),
    Press,
    Release,
    /// Wait the fixed delay that lets the canvas catch up.
    Pause,
}

/// Why a job could not be set up.
#[derive(Clone, Copy, Debug, PartialEq, Eq, Structural)]
pub enum DrawError {
    /// A colour that has to be drawn sits in a slot without a swatch position.
    MissingCoordinate { slot: usize },
}

/// A drawing in progress.
#[derive(Debug)]
pub struct DrawJob {
    pub script: Vec<PointerAction>,
    pub pos: usize,
    pub stopped: bool,
}

/// The strokes of one colour, in plan order.
pub open spec fn strokes_of(plan: Seq<Stroke>, color: Color) -> Seq<Stroke>
    decreases plan.len(),
{
    if plan.len() == 0 {
        Seq::empty()
    } else {
        let before = strokes_of(plan.drop_last(), color);
        if plan.last().color == color {
            before.push(plan.last())
        } else {
            before
        }
    }
}

/// Whether a colour takes part in the drawing.
pub open spec fn is_drawn(plan: Seq<Stroke>, color: Color) -> bool {
    color != white() && strokes_of(plan, color).len() > 0
}

/// One drawing action per stroke.
pub open spec fn draw_actions(strokes: Seq<Stroke>) -> Seq<PointerAction> {
    Seq::new(strokes.len(), |i: int| PointerAction::DrawSegment { stroke: strokes[i] })
}

/// The actions for palette slot `k`.
pub open spec fn color_block(
    plan: Seq<Stroke>,
    palette: Seq<Color>,
    swatches: Seq<Point>,
    k: int,
) -> Seq<PointerAction> {
    if is_drawn(plan, palette[k]) {
        seq![PointerAction::SelectColor { slot: k as usize, at: swatches[k] }] + draw_actions(
            strokes_of(plan, palette[k]),
        )
    } else {
        Seq::empty()
    }
}

/// The actions for the first `k` palette slots.
pub open spec fn script_upto(
    plan: Seq<Stroke>,
    palette: Seq<Color>,
    swatches: Seq<Point>,
    k: nat,
) -> Seq<PointerAction>
    decreases k,
{
    if k == 0 {
        Seq::empty()
    } else {
        script_upto(plan, palette, swatches, (k - 1) as nat) + color_block(
            plan,
            palette,
            swatches,
            k - 1,
        )
    }
}

/// The whole drawing.
pub open spec fn script(plan: Seq<Stroke>, palette: Seq<Color>, swatches: Seq<Point>) -> Seq<
    PointerAction,
> {
    script_upto(plan, palette, swatches, palette.len())
}

/// Whether every colour that is drawn from the first `k` slots has a swatch.
pub open spec fn swatches_cover(plan: Seq<Stroke>, palette: Seq<Color>, swatches: nat, k: int) -> bool {
    forall|j: int| 0 <= j < k && is_drawn(plan, #[trigger] palette[j]) ==> j < swatches
}

/// One request for the next action: the position and the stopped mark after
/// it, and the action handed out.
pub open spec fn step(script: Seq<PointerAction>, pos: nat, stopped: bool, cancelled: bool) -> (
    nat,
    bool,
    Option<PointerAction>,
) {
    if stopped || pos >= script.len() {
        (pos, true, None)
    } else if cancelled && script[pos as int] is DrawSegment {
        (pos, true, None)
    } else {
        (pos + 1, false, Some(script[pos as int]))
    }
}

/// Everything a job hands out over a series of requests, `flags` holding
/// what each request reported about cancellation.
pub open spec fn run(script: Seq<PointerAction>, pos: nat, stopped: bool, flags: Seq<bool>) -> Seq<
    PointerAction,
>
    decreases flags.len(),
{
    if flags.len() == 0 {
        Seq::empty()
    } else {
        let (next_pos, next_stopped, action) = step(script, pos, stopped, flags[0]);
        let rest = run(script, next_pos, next_stopped, flags.skip(1));
        match action {
            Some(a) => seq![a] + rest,
            None => rest,
        }
    }
}

/// A stopped job hands out nothing more, whatever is reported.
pub proof fn lemma_stopped_is_silent(script: Seq<PointerAction>, pos: nat, flags: Seq<bool>)
    ensures
        run(script, pos, true, flags) == Seq::<PointerAction>::empty(),
    decreases flags.len(),
{
    if flags.len() > 0 {
        lemma_stopped_is_silent(script, pos, flags.skip(1));
    }
}

/// A job that is told of cancellation with a stroke as its next action for
/// the first time at the stroke at `target` has handed out the script up to
/// there and hands out nothing else.
pub proof fn lemma_run_until_cancel(script: Seq<PointerAction>, pos: nat, target: nat, flags: Seq<bool>)
    requires
        pos <= target < script.len(),
        script[target as int] is DrawSegment,
        flags.len() > target - pos,
        forall|i: int| 0 <= i < target - pos ==> !(flags[i] && script[pos + i] is DrawSegment),
        flags[target - pos],
    ensures
        run(script, pos, false, flags) == script.subrange(pos as int, target as int),
    decreases target - pos,
{
    let rest = flags.skip(1);
    if pos == target {
        lemma_stopped_is_silent(script, pos, rest);
        assert(script.subrange(pos as int, target as int) =~= Seq::empty());
    } else {
        assert(!(flags[0] && script[pos as int + 0] is DrawSegment));
        assert forall|i: int| 0 <= i < target - (pos + 1) implies !(rest[i] && script[pos + 1 + i]
            is DrawSegment) by {
            assert(rest[i] == flags[i + 1]);
            assert(!(flags[i + 1] && script[pos + (i + 1)] is DrawSegment));
        }
        assert(rest[target - (pos + 1)] == flags[target - pos]);
        lemma_run_until_cancel(script, pos + 1, target, rest);
        assert(seq![script[pos as int]] + script.subrange(pos as int + 1, target as int)
            =~= script.subrange(pos as int, target as int));
    }
}

/// The actions for the first `k` slots open the actions for the first `n`.
pub proof fn lemma_script_prefix(
    plan: Seq<Stroke>,
    palette: Seq<Color>,
    swatches: Seq<Point>,
    k: nat,
    n: nat,
)
    requires
        k <= n,
    ensures
        script_upto(plan, palette, swatches, k).len() <= script_upto(plan, palette, swatches, n).len(),
        script_upto(plan, palette, swatches, n).take(
            script_upto(plan, palette, swatches, k).len() as int,
        ) == script_upto(plan, palette, swatches, k),
    decreases n - k,
{
    let short = script_upto(plan, palette, swatches, k);
    if k == n {
        assert(short.take(short.len() as int) =~= short);
    } else {
        lemma_script_prefix(plan, palette, swatches, k, (n - 1) as nat);
        let before = script_upto(plan, palette, swatches, (n - 1) as nat);
        let block = color_block(plan, palette, swatches, n - 1);
        assert((before + block).take(short.len() as int) =~= before.take(short.len() as int));
    }
}

/// Cancellation before a colour's first stroke: when a job that was not told
/// of cancellation while it drew the colours before slot `k` is told before
/// the first stroke of slot `k`, whether before or after the click on that
/// slot's swatch, all it ever hands out is the complete actions of the
/// slots before `k` and that one click. No stroke of slot `k` or of a later
/// slot is among them.
pub proof fn lemma_cancel_before_color(
    plan: Seq<Stroke>,
    palette: Seq<Color>,
    swatches: Seq<Point>,
    k: nat,
    flags: Seq<bool>,
)
    requires
        k < palette.len(),
        is_drawn(plan, palette[k as int]),
        flags.len() > script_upto(plan, palette, swatches, k).len() + 1,
        forall|i: int| 0 <= i < script_upto(plan, palette, swatches, k).len() ==> !flags[i],
        flags[script_upto(plan, palette, swatches, k).len() as int + 1],
    ensures
        run(script(plan, palette, swatches), 0, false, flags) == script_upto(
            plan,
            palette,
            swatches,
            k,
        ).push(PointerAction::SelectColor { slot: k as usize, at: swatches[k as int] }),
{
    let whole = script(plan, palette, swatches);
    let before = script_upto(plan, palette, swatches, k);
    let block = color_block(plan, palette, swatches, k as int);
    let through = script_upto(plan, palette, swatches, k + 1);
    let target = before.len() + 1;
    lemma_script_prefix(plan, palette, swatches, k + 1, palette.len());
    assert(through == before + block);
    assert(block.len() >= 2);
    assert(block[1] is DrawSegment);
    assert(through[target as int] == block[1]);
    assert(whole.take(through.len() as int)[target as int] == whole[target as int]);
    assert(whole[before.len() as int] == block[0]) by {
        assert(through[before.len() as int] == block[0]);
        assert(whole.take(through.len() as int)[before.len() as int] == whole[before.len() as int]);
    }
    lemma_run_until_cancel(whole, 0, target, flags);
    assert(whole.subrange(0, target as int) =~= through.subrange(0, target as int)) by {
        assert forall|i: int| 0 <= i < target implies whole[i] == through[i] by {
            assert(whole.take(through.len() as int)[i] == whole[i]);
        }
    }
    assert(through.subrange(0, target as int) =~= before.push(block[0]));
}

impl StrokePlan {
    /// The strokes of one colour, in plan order.
    pub fn segments_for(&self, color: Color) -> (out: Vec<Stroke>)
        ensures
            out@ == strokes_of(self@, color),
    {
        let mut found: Vec<Stroke> = Vec::new();
        let mut i: usize = 0;
        while i < self.strokes.len()
            invariant
                i <= self@.len(),
                found@ == strokes_of(self@.take(i as int), color),
            decreases self@.len() - i,
        {
            let stroke = self.strokes[i];
            proof {
                assert(self@.take(i + 1).drop_last() =~= self@.take(i as int));
            }
            if stroke.color == color {
                found.push(stroke);
            }
            i += 1;
        }
        proof {
            assert(self@.take(i as int) =~= self@);
        }
        found
    }
}

impl PointerAction {
    /// The pointer events of the action, in order: a click on the swatch, or
    /// press at the stroke's start, release at its end, and a pause.
    pub fn events(&self) -> (out: Vec<PointerEvent>)
        ensures
            out@ == match *self {
                PointerAction::SelectColor { slot, at } => seq![
                    PointerEvent::MoveTo(at),
                    PointerEvent::Press,
                    PointerEvent::Release,
                ],
                PointerAction::DrawSegment { stroke } => seq![
                    PointerEvent::MoveTo(stroke.start),
                    PointerEvent::Press,
                    PointerEvent::MoveTo(stroke.end),
                    PointerEvent::Release,
                    PointerEvent::Pause,
                ],
            },
    {
        let mut out: Vec<PointerEvent> = Vec::new();
        match *self {
            PointerAction::SelectColor { slot, at } => {
                out.push(PointerEvent::MoveTo(at));
                out.push(PointerEvent::Press);
                out.push(PointerEvent::Release);
            },
            PointerAction::DrawSegment { stroke } => {
                out.push(PointerEvent::MoveTo(stroke.start));
                out.push(PointerEvent::Press);
                out.push(PointerEvent::MoveTo(stroke.end));
                out.push(PointerEvent::Release);
                out.push(PointerEvent::Pause);
            },
        }
        proof {
            match *self {
                PointerAction::SelectColor { slot, at } => {
                    assert(out@ =~= seq![
                        PointerEvent::MoveTo(at),
                        PointerEvent::Press,
                        PointerEvent::Release,
                    ]);
                },
                PointerAction::DrawSegment { stroke } => {
                    assert(out@ =~= seq![
                        PointerEvent::MoveTo(stroke.start),
                        PointerEvent::Press,
                        PointerEvent::MoveTo(stroke.end),
                        PointerEvent::Release,
                        PointerEvent::Pause,
                    ]);
                },
            }
        }
        out
    }
}

impl DrawJob {
    /// The position lies within the script.
    pub open spec fn wf(&self) -> bool {
        self.pos <= self.script@.len()
    }

    /// Lays out the drawing of `plan` with the colours in palette order.
    ///
    /// Fails, before anything is handed out, on the first slot whose colour
    /// has to be drawn and has no swatch position.
    pub fn new(plan: &StrokePlan, palette: &[Color], swatches: &[Point]) -> (out: Result<
        DrawJob,
        DrawError,
    >)
        ensures
            match out {
                Ok(job) => {
                    &&& swatches_cover(plan@, palette@, swatches@.len(), palette@.len() as int)
                    &&& job.script@ == script(plan@, palette@, swatches@)
                    &&& job.pos == 0
                    &&& !job.stopped
                    &&& job.wf()
                },
                Err(DrawError::MissingCoordinate { slot }) => {
                    &&& swatches@.len() <= slot < palette@.len()
                    &&& is_drawn(plan@, palette@[slot as int])
                    &&& swatches_cover(plan@, palette@, swatches@.len(), slot as int)
                },
            },
    {
        let mut actions: Vec<PointerAction> = Vec::new();
        let mut k: usize = 0;
        while k < palette.len()
            invariant
                k <= palette@.len(),
                actions@ == script_upto(plan@, palette@, swatches@, k as nat),
                swatches_cover(plan@, palette@, swatches@.len(), k as int),
            decreases palette@.len() - k,
        {
            let color = palette[k];
            let segments = plan.segments_for(color);
            if !color.is_white() && segments.len() > 0 {
                if k >= swatches.len() {
                    return Err(DrawError::MissingCoordinate { slot: k });
                }
                let ghost before = actions@;
                let ghost click = PointerAction::SelectColor { slot: k, at: swatches@[k as int] };
                actions.push(PointerAction::SelectColor { slot: k, at: swatches[k] });
                let mut j: usize = 0;
                while j < segments.len()
                    invariant
                        j <= segments@.len(),
                        actions@ == before.push(click) + draw_actions(segments@.take(j as int)),
                    decreases segments@.len() - j,
                {
                    actions.push(PointerAction::DrawSegment { stroke: segments[j] });
                    proof {
                        assert(actions@ =~= before.push(click) + draw_actions(
                            segments@.take(j + 1),
                        ));
                    }
                    j += 1;
                }
                proof {
                    assert(segments@.take(j as int) =~= segments@);
                    assert(actions@ =~= before + color_block(plan@, palette@, swatches@, k as int));
                }
            } else {
                proof {
                    assert(actions@ + Seq::<PointerAction>::empty() =~= actions@);
                }
            }
            k += 1;
        }
        Ok(DrawJob { script: actions, pos: 0, stopped: false })
    }

    /// Hands out the next action, or `None` when the job is over.
    ///
    /// A job is over once its script is used up or once cancellation was
    /// reported while the next action was a stroke; it then stays over. A
    /// click on a swatch is handed out even when cancellation is reported.
    pub fn next_action(&mut self, cancelled: bool) -> (out: Option<PointerAction>)
        requires
            old(self).wf(),
        ensures
            final(self).wf(),
            final(self).script@ == old(self).script@,
            (final(self).pos as nat, final(self).stopped, out) == step(
                old(self).script@,
                old(self).pos as nat,
                old(self).stopped,
                cancelled,
            ),
    {
        if self.stopped || self.pos >= self.script.len() {
            self.stopped = true;
            return None;
        }
        let action = self.script[self.pos];
        let is_stroke = match action {
            PointerAction::DrawSegment { .. } => true,
            PointerAction::SelectColor { .. } => false,
        };
        if cancelled && is_stroke {
            self.stopped = true;
            return None;
        }
        self.pos = self.pos + 1;
        Some(action)
    }
}

/// Plans the drawing of an image whose top-left pixel lies at `start_pos`:
/// compiles its strokes with the given sampling interval and lays them out
/// in palette order, `colors_pos` holding one swatch position per palette
/// slot.
pub fn draw_image(
    image: &PixelGrid,
    palette: &[Color],
    colors_pos: &[Point],
    start_pos: ScreenOrigin,
    pixel_interval: u8,
) -> (out: Result<DrawJob, DrawError>)
    requires
        image.wf(),
        pixel_interval >= 1,
    ensures
        match out {
            Ok(job) => {
                &&& swatches_cover(
                    compiled(*image, start_pos, pixel_interval as nat),
                    palette@,
                    colors_pos@.len(),
                    palette@.len() as int,
                )
                &&& job.script@ == script(
                    compiled(*image, start_pos, pixel_interval as nat),
                    palette@,
                    colors_pos@,
                )
                &&& job.pos == 0
                &&& !job.stopped
                &&& job.wf()
            },
            Err(DrawError::MissingCoordinate { slot }) => {
                &&& colors_pos@.len() <= slot < palette@.len()
                &&& is_drawn(
                    compiled(*image, start_pos, pixel_interval as nat),
                    palette@[slot as int],
                )
                &&& swatches_cover(
                    compiled(*image, start_pos, pixel_interval as nat),
                    palette@,
                    colors_pos@.len(),
                    slot as int,
                )
            },
        },
{
    let plan = compile_strokes(image, start_pos, pixel_interval);
    DrawJob::new(&plan, palette, colors_pos)
}

} // verus!
