//! What the picking overlay does with pointer input.
//!
//! The overlay is shown in one of two modes: marking the drawing area with a
//! drag, or recording one click per palette slot. The decisions are made
//! here; carrying them out is left to the window toolkit.

use vstd::prelude::*;
use crate::strokes::Point;

verus! {

/// The largest number of swatch positions that are recorded.
pub const MAX_SWATCHES: usize = 18;

/// Which view the main window shows.
#[derive(Clone, Copy, Debug, PartialEq, Eq, Structural)]
pub enum ViewStatus {
    Default,
    Area,
    Palette,
}

/// What the overlay is picking.
#[derive(Clone, Copy, Debug, PartialEq, Eq, Structural)]
pub enum Mode {
    Area,
    Palette,
}

/// The pointer input that matters to the overlay.
#[derive(Clone, Copy, Debug, PartialEq, Eq, Structural)]
pub enum PointerInput {
    /// A button went down; `right` tells whether the right button is held.
    Down { right: bool },
    /// The pointer moved; `left` tells whether the left button is held.
    Moved { left: bool },
    /// A button went up.
    Up,
    /// Anything else.
    Other,
}

/// What the overlay knows when input arrives.
#[derive(Clone, Copy, Debug, PartialEq, Eq, Structural)]
pub struct OverlayState {
    /// Whether the overlay has grabbed the pointer.
    pub active: bool,
    /// Whether the first corner of the area has been set.
    pub has_start: bool,
    /// How many swatch positions have been recorded.
    pub recorded: usize,
}

/// What to do with the position of the input.
#[derive(Clone, Copy, Debug, PartialEq, Eq, Structural)]
pub enum Effect {
    /// Nothing.
    Ignore,
    /// Return to the default view.
    Leave,
    /// Store the recorded swatch positions and return to the default view.
    SaveAndLeave,
    /// Grab the pointer and make the position the first corner of the area.
    BeginArea,
    /// Make the position the second corner of the area.
    ExtendArea,
    /// Let go of the pointer.
    Release,
    /// Grab the pointer and record the position as the next swatch.
    RecordSwatch,
}

/// An effect, and whether the input is then passed on to the wrapped widget.
#[derive(Clone, Copy, Debug, PartialEq, Eq, Structural)]
pub struct Reaction {
    pub effect: Effect,
    pub forward: bool,
}

/// How the overlay reacts in each mode.
///
/// Marking an area: a press with the right button held leaves; any other
/// press begins the area; a move with the pointer grabbed and the left
/// button held extends an area that has begun; a release with the pointer
/// grabbed lets go. Recording swatches: a press with the right button held,
/// or once `MAX_SWATCHES` positions are recorded, saves and leaves; any other
/// press records a swatch. Only leaving keeps the input from the wrapped
/// widget.
pub open spec fn reaction(mode: Mode, input: PointerInput, state: OverlayState) -> Reaction {
    match mode {
        Mode::Area => match input {
            PointerInput::Down { right } => if right {
                Reaction { effect: Effect::Leave, forward: false }
            } else {
                Reaction { effect: Effect::BeginArea, forward: true }
            },
            PointerInput::Moved { left } => if state.active && left && state.has_start {
                Reaction { effect: Effect::ExtendArea, forward: true }
            } else {
                Reaction { effect: Effect::Ignore, forward: true }
            },
            PointerInput::Up => if state.active {
                Reaction { effect: Effect::Release, forward: true }
            } else {
                Reaction { effect: Effect::Ignore, forward: true }
            },
            PointerInput::Other => Reaction { effect: Effect::Ignore, forward: true },
        },
        Mode::Palette => match input {
            PointerInput::Down { right } => if right || state.recorded >= MAX_SWATCHES {
                Reaction { effect: Effect::SaveAndLeave, forward: false }
            } else {
                Reaction { effect: Effect::RecordSwatch, forward: true }
            },
            _ => Reaction { effect: Effect::Ignore, forward: true },
        },
    }
}

/// The view and the overlay's knowledge after an effect was carried out.
pub open spec fn after(effect: Effect, view: ViewStatus, state: OverlayState) -> (ViewStatus, OverlayState) {
    match effect {
        Effect::Ignore => (view, state),
        Effect::Leave | Effect::SaveAndLeave => (ViewStatus::Default, state),
        Effect::BeginArea => (view, OverlayState { active: true, has_start: true, ..state }),
        Effect::ExtendArea => (view, state),
        Effect::Release => (view, OverlayState { active: false, ..state }),
        Effect::RecordSwatch => (
            view,
            OverlayState { active: true, recorded: (state.recorded + 1) as usize, ..state },
        ),
    }
}

/// The distance between two coordinates, at most `u32::MAX`.
pub open spec fn span(a: i64, b: i64) -> int {
    let d = if a <= b { b - a } else { a - b };
    if d > u32::MAX { u32::MAX as int } else { d }
}

/// Width and height of the rectangle between two corners, each cut off at
/// `u32::MAX`.
pub fn area_size(start: Point, end: Point) -> (out: (u32, u32))
    ensures
        out.0 == span(start.x, end.x),
        out.1 == span(start.y, end.y),
{
    (distance(start.x, end.x), distance(start.y, end.y))
}

/// The distance between two coordinates, cut off at `u32::MAX`.
pub fn distance(a: i64, b: i64) -> (out: u32)
    ensures
        out == span(a, b),
{
    let d: i128 = if a <= b { b as i128 - a as i128 } else { a as i128 - b as i128 };
    if d > u32::MAX as i128 {
        u32::MAX
    } else {
        d as u32
    }
}

/// Reacts to pointer input on the picking overlay.
#[derive(Clone, Copy, Debug)]
pub struct PainterController {
    pub mode: Mode,
}

impl PainterController {
    pub fn new(mode: Mode) -> (out: PainterController)
        ensures
            out.mode == mode,
    {
        PainterController { mode }
    }

    /// Decides what an input does.
    pub fn event(&self, input: PointerInput, state: OverlayState) -> (out: Reaction)
        ensures
            out == reaction(self.mode, input, state),
            self.mode == Mode::Palette ==> out.effect != Effect::RecordSwatch || state.recorded
                < MAX_SWATCHES,
    {
        match self.mode {
            Mode::Area => match input {
                PointerInput::Down { right } => {
                    if right {
                        Reaction { effect: Effect::Leave, forward: false }
                    } else {
                        Reaction { effect: Effect::BeginArea, forward: true }
                    }
                },
                PointerInput::Moved { left } => {
                    if state.active && left && state.has_start {
                        Reaction { effect: Effect::ExtendArea, forward: true }
                    } else {
                        Reaction { effect: Effect::Ignore, forward: true }
                    }
                },
                PointerInput::Up => {
                    if state.active {
                        Reaction { effect: Effect::Release, forward: true }
                    } else {
                        Reaction { effect: Effect::Ignore, forward: true }
                    }
                },
                PointerInput::Other => Reaction { effect: Effect::Ignore, forward: true },
            },
            Mode::Palette => match input {
                PointerInput::Down { right } => {
                    if right || state.recorded >= MAX_SWATCHES {
                        Reaction { effect: Effect::SaveAndLeave, forward: false }
                    } else {
                        Reaction { effect: Effect::RecordSwatch, forward: true }
                    }
                },
                _ => Reaction { effect: Effect::Ignore, forward: true },
            },
        }
    }

    /// Carries an effect over to the view and to what the overlay knows.
    pub fn apply(effect: Effect, view: ViewStatus, state: OverlayState) -> (out: (
        ViewStatus,
        OverlayState,
    ))
        requires
            effect == Effect::RecordSwatch ==> state.recorded < MAX_SWATCHES,
        ensures
            out == after(effect, view, state),
    {
        match effect {
            Effect::Ignore => (view, state),
            Effect::Leave => (ViewStatus::Default, state),
            Effect::SaveAndLeave => (ViewStatus::Default, state),
            Effect::BeginArea => (
                view,
                OverlayState { active: true, has_start: true, recorded: state.recorded },
            ),
            Effect::ExtendArea => (view, state),
            Effect::Release => (
                view,
                OverlayState { active: false, has_start: state.has_start, recorded: state.recorded },
            ),
            Effect::RecordSwatch => (
                view,
                OverlayState {
                    active: true,
                    has_start: state.has_start,
                    recorded: state.recorded + 1,
                },
            ),
        }
    }
}

/// Lets a window without a title bar be dragged by its content.
#[derive(Clone, Copy, Debug)]
pub struct DragController;

impl DragController {
    /// Whether the input makes the window follow the pointer: every move does.
    pub fn event(&self, input: PointerInput) -> (out: bool)
        ensures
            out == (input is Moved),
    {
        match input {
            PointerInput::Moved { .. } => true,
            _ => false,
        }
    }
}

/// Recording never goes beyond `MAX_SWATCHES` positions: an overlay that
/// holds at most that many still does after reacting to any input.
pub proof fn lemma_recorded_stays_bounded(input: PointerInput, view: ViewStatus, state: OverlayState)
    requires
        state.recorded <= MAX_SWATCHES,
    ensures
        after(reaction(Mode::Palette, input, state).effect, view, state).1.recorded <= MAX_SWATCHES,
{
}

} // verus!
