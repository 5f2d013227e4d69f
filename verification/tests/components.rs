use imagine::delegate::{Delegate, DelegateEvent, OpenFileCommand};
use imagine::geom::{ImageSize, Rect, Size, Vec2};
use imagine::image::{FitOutcome, ImageState};
use imagine::rational::Frac;
use imagine::ui::build_ui;
use imagine::view::{paint_offset, widget_update, ImageView, ViewEvent};
use imagine::{AppState, KeyState};

fn whole(n: i64) -> Frac {
    Frac { num: n, den: 1 }
}

fn window_1200x800() -> Size {
    Size {
        width: whole(1200),
        height: whole(800),
    }
}

fn fitted_state() -> ImageState {
    let mut state = ImageState::default();
    let outcome = state.change_image(
        String::from("asset.png"),
        Some(ImageSize { width: 2400, height: 800 }),
        window_1200x800(),
    );
    assert_eq!(outcome, FitOutcome::Fitted);
    state
}

#[test]
fn build_ui_starts_without_ctrl() {
    let view = build_ui();
    assert!(!view.ctrl_pressed);
}

#[test]
fn ctrl_latch_flips_and_swallows() {
    let mut view = ImageView::new();
    let mut data = ImageState::default();
    let r = view.event(
        &mut data,
        &ViewEvent::CtrlChanged { pressed: true },
        window_1200x800(),
    );
    assert!(view.ctrl_pressed);
    assert!(r.scroll_to.is_none());
    assert!(!r.forward_to_inner);
}

#[test]
fn mouse_move_updates_cursor_and_forwards() {
    let mut view = ImageView::new();
    let mut data = ImageState::default();
    let pos = Vec2 { x: whole(33), y: whole(44) };
    let r = view.event(&mut data, &ViewEvent::MouseMove { pos }, window_1200x800());
    assert_eq!(data.mouse_pos, pos);
    assert!(r.scroll_to.is_none());
    assert!(r.forward_to_inner);
}

#[test]
fn wheel_scrolls_without_ctrl_and_zooms_with_it() {
    let mut view = ImageView::new();
    let mut data = fitted_state();
    data.set_mouse_pos(Vec2 { x: whole(600), y: whole(400) });
    let wheel = ViewEvent::Wheel {
        wheel_delta: Vec2 { x: whole(0), y: whole(-500) },
    };
    let r = view.event(&mut data, &wheel, window_1200x800());
    assert!(r.scroll_to.is_none());
    assert_eq!(data.zoom, Frac { num: 1, den: 2 });
    view.event(
        &mut data,
        &ViewEvent::CtrlChanged { pressed: true },
        window_1200x800(),
    );
    // with ctrl held the wheel zooms by -delta.y / 1000 = +1/2
    let r = view.event(&mut data, &wheel, window_1200x800());
    assert_eq!(data.zoom, Frac { num: 1, den: 1 });
    assert_eq!(
        r.scroll_to,
        Some(Vec2 { x: whole(600), y: whole(0) })
    );
    assert!(r.forward_to_inner);
}

#[test]
fn zoom_event_applies_and_reports_scroll_target() {
    let mut view = ImageView::new();
    let mut data = fitted_state();
    data.set_mouse_pos(Vec2 { x: whole(600), y: whole(400) });
    let r = view.event(
        &mut data,
        &ViewEvent::Zoom { delta: Frac { num: 1, den: 2 } },
        window_1200x800(),
    );
    assert_eq!(r.scroll_to, Some(Vec2 { x: whole(600), y: whole(0) }));
    assert_eq!(data.center, Vec2 { x: whole(1200), y: whole(400) });
}

#[test]
fn rejected_zoom_event_pushes_no_scroll() {
    let mut view = ImageView::new();
    let mut data = fitted_state();
    let before = data.clone();
    let r = view.event(
        &mut data,
        &ViewEvent::Zoom { delta: Frac { num: -9, den: 20 } },
        window_1200x800(),
    );
    assert!(r.scroll_to.is_none());
    assert_eq!(data.zoom, before.zoom);
    assert_eq!(data.center, before.center);
}

#[test]
fn widget_update_reacts_to_path_and_zoom() {
    let a = fitted_state();
    let mut b = a.clone();
    let r = widget_update(&a, &b);
    assert!(!r.clear_cache && !r.request_paint && !r.request_layout);
    b.zoom = Frac { num: 2, den: 1 };
    let r = widget_update(&a, &b);
    assert!(!r.clear_cache && !r.request_paint && r.request_layout);
    b.path = String::from("other.png");
    let r = widget_update(&a, &b);
    assert!(r.clear_cache && r.request_paint && r.request_layout);
}

#[test]
fn paint_offset_centers_the_smaller_axis() {
    let rect = Rect {
        x0: whole(0),
        y0: whole(0),
        x1: whole(1000),
        y1: whole(800),
    };
    let off = paint_offset(&rect, window_1200x800()).unwrap();
    assert_eq!(off.x, whole(100));
    assert_eq!(off.y, whole(0));
}

#[test]
fn delegate_routes_window_events() {
    let mut d = Delegate::default();
    let r = d.event(&DelegateEvent::WindowConnected);
    assert!(r.show_open_panel && r.hide_window && r.pass_event_on);
    let r = d.event(&DelegateEvent::WindowSizeChanged { size: window_1200x800() });
    assert_eq!(d.window_size, window_1200x800());
    assert!(r.pass_event_on);
    let r = d.event(&DelegateEvent::CtrlKeyDown);
    assert_eq!(r.ctrl_command, Some(true));
    assert!(!r.pass_event_on);
    let r = d.event(&DelegateEvent::CtrlKeyUp);
    assert_eq!(r.ctrl_command, Some(false));
}

#[test]
fn delegate_command_loads_the_chosen_file() {
    let mut d = Delegate::default();
    d.event(&DelegateEvent::WindowSizeChanged { size: window_1200x800() });
    let mut app = AppState {
        image_state: ImageState::default(),
        text: String::from("Hello World!"),
        window_size: window_1200x800(),
        key_state: KeyState::default(),
    };
    let r = d.command(
        &mut app,
        Some(OpenFileCommand {
            path: String::from("asset.png"),
            decoded: Some(ImageSize { width: 2400, height: 800 }),
        }),
    );
    assert_eq!(r, Some(FitOutcome::Fitted));
    assert_eq!(app.image_state.zoom, Frac { num: 1, den: 2 });
    let r = d.command(&mut app, None);
    assert_eq!(r, None);
}

#[test]
fn fraction_arithmetic_is_exact_and_reduced() {
    let half = Frac { num: 1, den: 2 };
    let third = Frac { num: 1, den: 3 };
    assert_eq!(half.plus(third), Some(Frac { num: 5, den: 6 }));
    assert_eq!(half.minus(third), Some(Frac { num: 1, den: 6 }));
    assert_eq!(half.times(third), Some(Frac { num: 1, den: 6 }));
    assert_eq!(half.over(third), Some(Frac { num: 3, den: 2 }));
    assert_eq!(Frac::new(50, 100), Some(Frac { num: 1, den: 2 }));
    assert_eq!(Frac::new(1, 0), None);
    assert!(third.lt(half));
    assert!(third.le(half));
    assert_eq!(half.min_with(third), third);
}
