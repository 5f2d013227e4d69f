use imagine::geom::{ImageSize, Size, Vec2};
use imagine::image::{FitOutcome, ImageState, ZoomOutcome};
use imagine::rational::Frac;

fn whole(n: i64) -> Frac {
    Frac { num: n, den: 1 }
}

fn window_1200x800() -> Size {
    Size {
        width: whole(1200),
        height: whole(800),
    }
}

fn fitted_2400x800() -> ImageState {
    let mut state = ImageState::default();
    let outcome = state.change_image(
        String::from("asset.png"),
        Some(ImageSize {
            width: 2400,
            height: 800,
        }),
        window_1200x800(),
    );
    assert_eq!(outcome, FitOutcome::Fitted);
    state
}

#[test]
fn default_state() {
    let state = ImageState::default();
    assert_eq!(state.zoom, Frac { num: 1, den: 1 });
    assert_eq!(state.min_zoom, Frac { num: 1, den: 5 });
    assert_eq!(state.center, Vec2 { x: whole(0), y: whole(0) });
    assert_eq!(state.mouse_pos, Vec2 { x: whole(0), y: whole(0) });
    assert_eq!(state.image_size, ImageSize { width: 0, height: 0 });
    assert_eq!(state.path, String::new());
}

#[test]
fn fit_viewport_1200x800_asset_2400x800() {
    let state = fitted_2400x800();
    assert_eq!(state.zoom, Frac { num: 1, den: 2 });
    assert_eq!(state.min_zoom, Frac { num: 1, den: 10 });
    assert_eq!(state.center, Vec2 { x: whole(600), y: whole(200) });
    assert_eq!(state.image_size, ImageSize { width: 2400, height: 800 });
    assert_eq!(state.path, String::from("asset.png"));
}

#[test]
fn fit_exact_on_awkward_ratio() {
    let mut state = ImageState::default();
    let outcome = state.change_image(
        String::from("a.png"),
        Some(ImageSize { width: 1920, height: 1080 }),
        Size { width: whole(1000), height: whole(800) },
    );
    assert_eq!(outcome, FitOutcome::Fitted);
    // min(1000/1920, 800/1080) = min(25/48, 20/27) = 25/48
    assert_eq!(state.zoom, Frac { num: 25, den: 48 });
    assert_eq!(state.min_zoom, Frac { num: 5, den: 48 });
    // center = (25/48 * 1920 / 2, 25/48 * 1080 / 2) = (500, 1125/4)
    assert_eq!(state.center, Vec2 { x: whole(500), y: Frac { num: 1125, den: 4 } });
}

#[test]
fn anchored_zoom_viewport_scenario() {
    let mut state = fitted_2400x800();
    state.set_mouse_pos(Vec2 { x: whole(600), y: whole(400) });
    let outcome = state.add_zoom(Frac { num: 1, den: 2 }, window_1200x800());
    match outcome {
        ZoomOutcome::Applied { scroll } => {
            assert_eq!(scroll, Vec2 { x: whole(600), y: whole(0) });
        }
        _ => panic!("zoom was not applied"),
    }
    assert_eq!(state.zoom, Frac { num: 1, den: 1 });
    // the doubled image exceeds the viewport width, so the center shifts by
    // the anchored formula instead of re-centering
    assert_eq!(state.center, Vec2 { x: whole(1200), y: whole(400) });
}

#[test]
fn anchor_point_is_preserved() {
    let mut state = fitted_2400x800();
    let mouse = Vec2 { x: whole(600), y: whole(400) };
    state.set_mouse_pos(mouse);
    let half_x = whole(600);
    let z0 = state.zoom;
    let c0 = state.center.x;
    let outcome = state.add_zoom(Frac { num: 1, den: 2 }, window_1200x800());
    assert!(matches!(outcome, ZoomOutcome::Applied { .. }));
    let z1 = state.zoom;
    let c1 = state.center.x;
    // image point under the cursor: (center - half + mouse) / zoom
    let before = c0
        .minus(half_x)
        .unwrap()
        .plus(mouse.x)
        .unwrap()
        .over(z0)
        .unwrap();
    let after = c1
        .minus(half_x)
        .unwrap()
        .plus(mouse.x)
        .unwrap()
        .over(z1)
        .unwrap();
    assert_eq!(before, after);
}

#[test]
fn floor_rejection_is_a_complete_no_op() {
    let mut state = fitted_2400x800();
    let snapshot = state.clone();
    // 1/2 - 9/20 = 1/20, which is below the floor 1/10: rejected
    let outcome = state.add_zoom(Frac { num: -9, den: 20 }, window_1200x800());
    assert!(matches!(outcome, ZoomOutcome::RejectedFloor));
    assert_eq!(state.zoom, snapshot.zoom);
    assert_eq!(state.min_zoom, snapshot.min_zoom);
    assert_eq!(state.center, snapshot.center);
    assert_eq!(state.mouse_pos, snapshot.mouse_pos);
    assert_eq!(state.image_size, snapshot.image_size);
    assert_eq!(state.path, snapshot.path);
}

#[test]
fn zoom_at_exact_floor_is_accepted() {
    let mut state = fitted_2400x800();
    // 1/2 - 2/5 = 1/10 == the floor: not below it, so accepted
    let outcome = state.add_zoom(Frac { num: -2, den: 5 }, window_1200x800());
    assert!(matches!(outcome, ZoomOutcome::Applied { .. }));
    assert_eq!(state.zoom, Frac { num: 1, den: 10 });
}

#[test]
fn locked_centering_when_image_fits() {
    let mut state = ImageState::default();
    let outcome = state.change_image(
        String::from("small.png"),
        Some(ImageSize { width: 100, height: 50 }),
        window_1200x800(),
    );
    assert_eq!(outcome, FitOutcome::Fitted);
    assert_eq!(state.zoom, whole(12));
    // put the cursor somewhere odd; locked centering must ignore it
    state.set_mouse_pos(Vec2 { x: whole(7), y: whole(13) });
    let outcome = state.add_zoom(whole(-2), window_1200x800());
    assert!(matches!(outcome, ZoomOutcome::Applied { .. }));
    // 10x scaled image is 1000 x 500: fits, so the center snaps to its middle
    assert_eq!(state.zoom, whole(10));
    assert_eq!(state.center, Vec2 { x: whole(500), y: whole(250) });
}

#[test]
fn sync_center_from_scroll_offset_values() {
    let mut state = fitted_2400x800();
    let offset = Vec2 { x: Frac { num: 35, den: 2 }, y: whole(10) };
    state.sync_center_from_scroll_offset(offset, window_1200x800());
    // center = offset + viewport/2 = (35/2 + 600, 10 + 400)
    assert_eq!(state.center, Vec2 { x: Frac { num: 1235, den: 2 }, y: whole(410) });
}

#[test]
fn sync_center_is_idempotent() {
    let mut state = fitted_2400x800();
    let offset = Vec2 { x: Frac { num: 35, den: 2 }, y: whole(10) };
    state.sync_center_from_scroll_offset(offset, window_1200x800());
    let first = state.center;
    state.sync_center_from_scroll_offset(offset, window_1200x800());
    assert_eq!(state.center, first);
}

#[test]
fn empty_decode_degrades_to_placeholder() {
    let mut state = fitted_2400x800();
    let outcome = state.change_image(String::from("broken.png"), None, window_1200x800());
    assert_eq!(outcome, FitOutcome::EmptyAsset);
    assert_eq!(state.image_size, ImageSize { width: 0, height: 0 });
    assert_eq!(state.path, String::from("broken.png"));
    // the zoom keeps its last valid value; the center parks at the origin
    assert_eq!(state.zoom, Frac { num: 1, den: 2 });
    assert_eq!(state.center, Vec2 { x: whole(0), y: whole(0) });
}

#[test]
fn degenerate_window_changes_no_view_state() {
    let mut state = fitted_2400x800();
    let before_zoom = state.zoom;
    let before_center = state.center;
    let outcome = state.change_image(
        String::from("next.png"),
        Some(ImageSize { width: 10, height: 10 }),
        Size { width: whole(0), height: whole(800) },
    );
    assert_eq!(outcome, FitOutcome::NoViewport);
    assert_eq!(state.zoom, before_zoom);
    assert_eq!(state.center, before_center);
    assert_eq!(state.path, String::from("next.png"));
}

#[test]
fn get_rect_scales_the_image() {
    let state = fitted_2400x800();
    let rect = state.get_rect().unwrap();
    assert_eq!(rect.x0, whole(0));
    assert_eq!(rect.y0, whole(0));
    assert_eq!(rect.x1, whole(1200));
    assert_eq!(rect.y1, whole(400));
}

#[test]
fn set_and_get_center() {
    let mut state = ImageState::default();
    let c = Vec2 { x: whole(42), y: Frac { num: 7, den: 3 } };
    state.set_center(c);
    assert_eq!(state.get_center(), c);
}
