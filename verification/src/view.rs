//! The interactive view around the engine: it routes decoded input events to
//! the engine's operations and decides what the surrounding scrollable
//! container and the painting widget should do next.

use vstd::prelude::*;

verus! {

use crate::geom::{Rect, Size, Vec2};
use crate::image::{zoom_applied, zoom_inputs_modest, ImageState, ZoomOutcome};
use crate::rational::{norm, reduce_i128, Frac, Rat, FRAC_LIMIT};
use vstd::math::abs;

/// A decoded input event, as the window system hands it to the view.
pub enum ViewEvent {
    /// A pinch or gesture zoom, with a pre-scaled zoom increment.
    Zoom { delta: Frac },
    /// The control key was pressed or released.
    CtrlChanged { pressed: bool },
    /// A wheel movement; with control held it zooms, otherwise it scrolls.
    Wheel { wheel_delta: Vec2 },
    /// The pointer moved to this viewport position.
    MouseMove { pos: Vec2 },
    /// Any other event; it only concerns the scroll container.
    Other,
}

impl ViewEvent {
    pub open spec fn wf(self) -> bool {
        match self {
            ViewEvent::Zoom { delta } => delta.wf(),
            ViewEvent::CtrlChanged { .. } => true,
            ViewEvent::Wheel { wheel_delta } => wheel_delta.wf(),
            ViewEvent::MouseMove { pos } => pos.wf(),
            ViewEvent::Other => true,
        }
    }
}

/// What the surrounding widget should do after an event: scroll somewhere,
/// and possibly hand the event on to the inner scroll container.
pub struct EventResponse {
    pub scroll_to: Option<Vec2>,
    pub forward_to_inner: bool,
}

/// The view component: the control-key latch that decides whether wheel
/// events zoom or scroll. The engine state itself lives in the app data.
pub struct ImageView {
    pub ctrl_pressed: bool,
}

/// The zoom increment a wheel movement stands for: `-delta.y / 1000`.
pub open spec fn wheel_zoom_delta(delta: Vec2) -> Rat {
    delta.y.rat().times(Rat { n: -1, d: 1000 })
}

/// How a zoom event leaves the engine: either it was applied, with the
/// returned scroll target obeying `zoom_applied`, or nothing moved; a zoom
/// below the floor never moves anything, and a modest one at or above the
/// floor is always applied.
pub open spec fn zoom_event_post(
    pre: ImageState,
    post: ImageState,
    delta: Frac,
    vp: Size,
    scroll_to: Option<Vec2>,
) -> bool {
    &&& (scroll_to matches Some(s) ==> zoom_applied(pre, post, delta, vp, s))
    &&& (scroll_to is None ==> post == pre)
    &&& (pre.zoom.rat().plus(delta.rat()).lt(pre.min_zoom.rat()) ==> scroll_to is None)
    &&& (zoom_inputs_modest(pre, delta, vp) && !pre.zoom.rat().plus(delta.rat()).lt(
        pre.min_zoom.rat(),
    ) ==> scroll_to is Some)
}

impl ImageView {
    /// A fresh view: no control key held.
    pub fn new() -> (r: ImageView)
        ensures
            r.ctrl_pressed == false,
    {
        ImageView { ctrl_pressed: false }
    }

    /// Route one event. Zoom gestures — and wheel movements while control is
    /// held — go to the engine's `add_zoom` and yield a scroll target;
    /// pointer moves update the cursor for later anchoring; control changes
    /// flip the latch; everything else is left to the scroll container.
    pub fn event(&mut self, data: &mut ImageState, ev: &ViewEvent, viewport: Size) -> (r:
        EventResponse)
        requires
            old(data).wf(),
            ev.wf(),
            viewport.wf(),
        ensures
            final(data).wf(),
            match *ev {
                ViewEvent::Zoom { delta } => {
                    &&& *final(self) == *old(self)
                    &&& zoom_event_post(*old(data), *final(data), delta, viewport, r.scroll_to)
                    &&& r.forward_to_inner
                },
                ViewEvent::CtrlChanged { pressed } => {
                    &&& final(self).ctrl_pressed == pressed
                    &&& *final(data) == *old(data)
                    &&& r.scroll_to is None
                    &&& !r.forward_to_inner
                },
                ViewEvent::Wheel { wheel_delta } => {
                    &&& *final(self) == *old(self)
                    &&& r.forward_to_inner
                    &&& if old(self).ctrl_pressed {
                        match norm(wheel_zoom_delta(wheel_delta)) {
                            Some(d) => zoom_event_post(
                                *old(data),
                                *final(data),
                                d,
                                viewport,
                                r.scroll_to,
                            ),
                            None => *final(data) == *old(data) && r.scroll_to is None,
                        }
                    } else {
                        *final(data) == *old(data) && r.scroll_to is None
                    }
                },
                ViewEvent::MouseMove { pos } => {
                    &&& *final(self) == *old(self)
                    &&& final(data).mouse_pos == pos
                    &&& final(data).zoom == old(data).zoom
                    &&& final(data).min_zoom == old(data).min_zoom
                    &&& final(data).center == old(data).center
                    &&& final(data).image_size == old(data).image_size
                    &&& final(data).path == old(data).path
                    &&& r.scroll_to is None
                    &&& r.forward_to_inner
                },
                ViewEvent::Other => {
                    &&& *final(self) == *old(self)
                    &&& *final(data) == *old(data)
                    &&& r.scroll_to is None
                    &&& r.forward_to_inner
                },
            },
    {
        match ev {
            ViewEvent::Zoom { delta } => {
                let outcome = data.add_zoom(*delta, viewport);
                match outcome {
                    ZoomOutcome::Applied { scroll } => EventResponse {
                        scroll_to: Some(scroll),
                        forward_to_inner: true,
                    },
                    _ => EventResponse { scroll_to: None, forward_to_inner: true },
                }
            },
            ViewEvent::CtrlChanged { pressed } => {
                self.ctrl_pressed = *pressed;
                EventResponse { scroll_to: None, forward_to_inner: false }
            },
            ViewEvent::Wheel { wheel_delta } => {
                if self.ctrl_pressed {
                    match wheel_delta.y.times(Frac { num: -1, den: 1000 }) {
                        Some(d) => {
                            let outcome = data.add_zoom(d, viewport);
                            match outcome {
                                ZoomOutcome::Applied { scroll } => EventResponse {
                                    scroll_to: Some(scroll),
                                    forward_to_inner: true,
                                },
                                _ => EventResponse { scroll_to: None, forward_to_inner: true },
                            }
                        },
                        None => EventResponse { scroll_to: None, forward_to_inner: true },
                    }
                } else {
                    EventResponse { scroll_to: None, forward_to_inner: true }
                }
            },
            ViewEvent::MouseMove { pos } => {
                data.set_mouse_pos(*pos);
                EventResponse { scroll_to: None, forward_to_inner: true }
            },
            ViewEvent::Other => {
                EventResponse { scroll_to: None, forward_to_inner: true }
            },
        }
    }
}

/// Centering translation for painting along one axis: `(extent - side) / 2`.
pub open spec fn centered_axis(extent: Frac, side: Frac) -> Rat {
    extent.rat().minus(side.rat()).over(Rat::whole(2))
}

/// Compute `(extent - side) / 2` exactly, in lowest terms.
fn centered_axis_exec(extent: Frac, side: Frac) -> (r: Option<Frac>)
    requires
        extent.wf(),
        side.wf(),
    ensures
        r == norm(centered_axis(extent, side)),
{
    proof {
        crate::rational::lemma_prod_bound(
            extent.num as int,
            side.den as int,
            FRAC_LIMIT as int,
            FRAC_LIMIT as int,
        );
        crate::rational::lemma_prod_bound(
            side.num as int,
            extent.den as int,
            FRAC_LIMIT as int,
            FRAC_LIMIT as int,
        );
        crate::rational::lemma_prod_bound(
            extent.den as int,
            side.den as int,
            FRAC_LIMIT as int,
            FRAC_LIMIT as int,
        );
    }
    let n: i128 = extent.num as i128 * side.den as i128 - side.num as i128 * extent.den as i128;
    let d: i128 = (extent.den as i128 * side.den as i128) * 2;
    proof {
        assert(centered_axis(extent, side) == Rat {
            n: (extent.num as int * side.den as int - side.num as int * extent.den as int) * 1,
            d: (extent.den as int * side.den as int) * 2,
        });
    }
    reduce_i128(n, d)
}

/// Where painting should place the scaled image inside the viewport: an axis
/// on which the image is smaller than the viewport is centered, the other
/// left at the origin. `None` when a centering offset leaves the
/// representable range.
pub fn paint_offset(image_rect: &Rect, viewport: Size) -> (r: Option<Vec2>)
    requires
        image_rect.wf(),
        viewport.wf(),
    ensures
        ({
            let ox = if image_rect.x1.rat().lt(viewport.width.rat()) {
                norm(centered_axis(viewport.width, image_rect.x1))
            } else {
                Some(Frac { num: 0, den: 1 })
            };
            let oy = if image_rect.y1.rat().lt(viewport.height.rat()) {
                norm(centered_axis(viewport.height, image_rect.y1))
            } else {
                Some(Frac { num: 0, den: 1 })
            };
            if ox is Some && oy is Some {
                &&& r == Some(Vec2 { x: ox->0, y: oy->0 })
                &&& (image_rect.x1.rat().lt(viewport.width.rat()) ==> ox->0.rat().eqv(
                    centered_axis(viewport.width, image_rect.x1),
                ))
                &&& (image_rect.y1.rat().lt(viewport.height.rat()) ==> oy->0.rat().eqv(
                    centered_axis(viewport.height, image_rect.y1),
                ))
            } else {
                r is None
            }
        }),
{
    proof {
        lemma_centered_axis_exact(viewport.width, image_rect.x1);
        lemma_centered_axis_exact(viewport.height, image_rect.y1);
    }
    let ox = if image_rect.x1.lt(viewport.width) {
        centered_axis_exec(viewport.width, image_rect.x1)
    } else {
        Some(Frac { num: 0, den: 1 })
    };
    let oy = if image_rect.y1.lt(viewport.height) {
        centered_axis_exec(viewport.height, image_rect.y1)
    } else {
        Some(Frac { num: 0, den: 1 })
    };
    match (ox, oy) {
        (Some(x), Some(y)) => Some(Vec2 { x, y }),
        _ => None,
    }
}

/// A reduced centering offset is exact.
proof fn lemma_centered_axis_exact(extent: Frac, side: Frac)
    requires
        extent.wf(),
        side.wf(),
    ensures
        match norm(centered_axis(extent, side)) {
            Some(c) => c.wf() && c.rat().eqv(centered_axis(extent, side)),
            None => true,
        },
{
    crate::rational::lemma_minus_bound(
        extent.rat(),
        side.rat(),
        abs(extent.num as int) as int,
        extent.den as int,
        abs(side.num as int) as int,
        side.den as int,
    );
    crate::rational::lemma_over_bound(
        extent.rat().minus(side.rat()),
        Rat::whole(2),
        abs(extent.num as int * side.den as int - side.num as int * extent.den as int) as int,
        extent.den as int * side.den as int,
        2,
        1,
    );
    crate::rational::lemma_norm(centered_axis(extent, side));
}

/// What the painting widget must refresh after the app data changed: a new
/// image drops the cached texture and repaints; a zoom change re-layouts.
pub struct RenderRequest {
    pub clear_cache: bool,
    pub request_paint: bool,
    pub request_layout: bool,
}

/// Decide the refresh work from the previous and the new engine state.
pub fn widget_update(prev: &ImageState, new: &ImageState) -> (r: RenderRequest)
    ensures
        r.clear_cache == (prev.path@ != new.path@),
        r.request_paint == (prev.path@ != new.path@),
        r.request_layout == (prev.path@ != new.path@ || prev.zoom != new.zoom),
{
    let path_changed = !(prev.path == new.path);
    let zoom_changed = !(prev.zoom == new.zoom);
    RenderRequest {
        clear_cache: path_changed,
        request_paint: path_changed,
        request_layout: path_changed || zoom_changed,
    }
}

} // verus!
