use drawing_bot::strokes::Point;
use drawing_bot::controller::{
    area_size, DragController, Effect, Mode, OverlayState, PainterController, PointerInput, Reaction, ViewStatus,
    MAX_SWATCHES,
};

fn state(active: bool, has_start: bool, recorded: usize) -> OverlayState {
    OverlayState { active, has_start, recorded }
}

#[test]
fn area_mode_reactions() {
    let c = PainterController::new(Mode::Area);
    assert_eq!(c.mode, Mode::Area);
    let idle = state(false, false, 0);
    assert_eq!(
        c.event(PointerInput::Down { right: true }, idle),
        Reaction { effect: Effect::Leave, forward: false }
    );
    assert_eq!(
        c.event(PointerInput::Down { right: false }, idle),
        Reaction { effect: Effect::BeginArea, forward: true }
    );
    let dragging = state(true, true, 0);
    assert_eq!(c.event(PointerInput::Moved { left: true }, dragging).effect, Effect::ExtendArea);
    assert_eq!(c.event(PointerInput::Moved { left: false }, dragging).effect, Effect::Ignore);
    assert_eq!(c.event(PointerInput::Moved { left: true }, idle).effect, Effect::Ignore);
    assert_eq!(c.event(PointerInput::Moved { left: true }, state(true, false, 0)).effect, Effect::Ignore);
    assert_eq!(c.event(PointerInput::Up, dragging).effect, Effect::Release);
    assert_eq!(c.event(PointerInput::Up, idle).effect, Effect::Ignore);
    assert_eq!(
        c.event(PointerInput::Other, dragging),
        Reaction { effect: Effect::Ignore, forward: true }
    );
}

#[test]
fn palette_mode_reactions() {
    let c = PainterController::new(Mode::Palette);
    assert_eq!(
        c.event(PointerInput::Down { right: false }, state(false, false, 17)),
        Reaction { effect: Effect::RecordSwatch, forward: true }
    );
    assert_eq!(
        c.event(PointerInput::Down { right: false }, state(false, false, MAX_SWATCHES)),
        Reaction { effect: Effect::SaveAndLeave, forward: false }
    );
    assert_eq!(
        c.event(PointerInput::Down { right: true }, state(false, false, 3)),
        Reaction { effect: Effect::SaveAndLeave, forward: false }
    );
    assert_eq!(c.event(PointerInput::Up, state(true, false, 3)).effect, Effect::Ignore);
    assert_eq!(c.event(PointerInput::Moved { left: true }, state(true, true, 3)).effect, Effect::Ignore);
}

#[test]
fn effects_change_the_state() {
    let s = state(false, false, 4);
    assert_eq!(PainterController::apply(Effect::Leave, ViewStatus::Area, s), (ViewStatus::Default, s));
    assert_eq!(
        PainterController::apply(Effect::SaveAndLeave, ViewStatus::Palette, s),
        (ViewStatus::Default, s)
    );
    assert_eq!(
        PainterController::apply(Effect::BeginArea, ViewStatus::Area, s),
        (ViewStatus::Area, state(true, true, 4))
    );
    assert_eq!(
        PainterController::apply(Effect::RecordSwatch, ViewStatus::Palette, s),
        (ViewStatus::Palette, state(true, false, 5))
    );
    assert_eq!(
        PainterController::apply(Effect::Release, ViewStatus::Area, state(true, true, 0)),
        (ViewStatus::Area, state(false, true, 0))
    );
    assert_eq!(PainterController::apply(Effect::Ignore, ViewStatus::Default, s), (ViewStatus::Default, s));
    assert_eq!(PainterController::apply(Effect::ExtendArea, ViewStatus::Area, s), (ViewStatus::Area, s));
}

#[test]
fn recording_stops_at_the_limit() {
    let c = PainterController::new(Mode::Palette);
    let mut s = state(false, false, 0);
    let mut view = ViewStatus::Palette;
    for _ in 0..40 {
        let r = c.event(PointerInput::Down { right: false }, s);
        let next = PainterController::apply(r.effect, view, s);
        view = next.0;
        s = next.1;
    }
    assert_eq!(s.recorded, 18);
    assert_eq!(view, ViewStatus::Default);
}

#[test]
fn drag_follows_moves_only() {
    let d = DragController;
    assert!(d.event(PointerInput::Moved { left: false }));
    assert!(d.event(PointerInput::Moved { left: true }));
    assert!(!d.event(PointerInput::Down { right: false }));
    assert!(!d.event(PointerInput::Up));
    assert!(!d.event(PointerInput::Other));
}

#[test]
fn area_size_is_the_span_of_the_corners() {
    let a = Point { x: 100, y: 400 };
    let b = Point { x: 340, y: 250 };
    assert_eq!(area_size(a, b), (240, 150));
    assert_eq!(area_size(b, a), (240, 150));
    assert_eq!(area_size(a, a), (0, 0));
    let far = Point { x: i64::MAX, y: i64::MIN };
    let back = Point { x: i64::MIN, y: i64::MAX };
    assert_eq!(area_size(far, back), (u32::MAX, u32::MAX));
}
