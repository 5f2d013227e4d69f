//! The viewport engine: the state of the current view and the operations
//! that mutate it — fit-to-window on load, cursor-anchored zoom, and
//! reconciliation with the scrollable container's own offset.

use vstd::prelude::*;

verus! {

use crate::geom::{ImageSize, Rect, Size, Vec2};
use crate::rational::{
    Frac,
    Rat,
    norm,
    lemma_norm,
    lemma_eqv_trans,
    lemma_plus_congr,
    lemma_minus_congr,
    lemma_times_congr,
    lemma_over_congr,
    lemma_cmp_congr,
    lemma_sign_congr,
    FRAC_LIMIT,
    reduce_i128,
};
use vstd::math::abs;

/// The authoritative record of the current view: scale factor, the point the
/// viewport's center looks at (in scaled image coordinates), the zoom floor,
/// the last cursor position (in viewport coordinates), and the identity and
/// pixel size of the loaded image.
#[derive(Clone, Debug)]
pub struct ImageState {
    pub zoom: Frac,
    pub min_zoom: Frac,
    pub center: Vec2,
    pub mouse_pos: Vec2,
    pub image_size: ImageSize,
    pub path: String,
}

impl ImageState {
    /// The state invariant: zoom and its floor are positive, the floor never
    /// exceeds the zoom, and every stored rational is well formed.
    pub open spec fn wf(self) -> bool {
        &&& self.zoom.wf()
        &&& self.zoom.pos()
        &&& self.min_zoom.wf()
        &&& self.min_zoom.pos()
        &&& self.min_zoom.rat().le(self.zoom.rat())
        &&& self.center.wf()
        &&& self.mouse_pos.wf()
    }

    /// Record the latest cursor position; nothing else moves.
    pub fn set_mouse_pos(&mut self, mouse_pos: Vec2)
        requires
            mouse_pos.wf(),
        ensures
            final(self).mouse_pos == mouse_pos,
            final(self).zoom == old(self).zoom,
            final(self).min_zoom == old(self).min_zoom,
            final(self).center == old(self).center,
            final(self).image_size == old(self).image_size,
            final(self).path == old(self).path,
            old(self).wf() ==> final(self).wf(),
    {
        self.mouse_pos = mouse_pos;
    }

    /// The point the viewport center is looking at.
    pub fn get_center(&self) -> (r: Vec2)
        ensures
            r == self.center,
    {
        self.center
    }

    /// Overwrite the view center; nothing else moves.
    pub fn set_center(&mut self, center: Vec2)
        requires
            center.wf(),
        ensures
            final(self).center == center,
            final(self).zoom == old(self).zoom,
            final(self).min_zoom == old(self).min_zoom,
            final(self).mouse_pos == old(self).mouse_pos,
            final(self).image_size == old(self).image_size,
            final(self).path == old(self).path,
            old(self).wf() ==> final(self).wf(),
    {
        self.center = center;
    }
}

/// The reconciled view center along one axis: `offset + extent / 2`.
pub open spec fn sync_axis(offset: Frac, extent: Frac) -> Rat {
    offset.rat().plus(extent.rat().over(Rat::whole(2)))
}

/// How the center moves under reconciliation: to the reduced form of
/// `offset + viewport/2` per axis when both axes are representable, else not
/// at all. The new center depends on the arguments alone.
pub open spec fn sync_center_post(old_center: Vec2, new_center: Vec2, offset: Vec2, vp: Size) -> bool {
    let cx = norm(sync_axis(offset.x, vp.width));
    let cy = norm(sync_axis(offset.y, vp.height));
    if cx is Some && cy is Some {
        new_center == (Vec2 { x: cx->0, y: cy->0 })
    } else {
        new_center == old_center
    }
}

/// Compute `offset + extent / 2` exactly, in lowest terms.
fn sync_axis_exec(offset: Frac, extent: Frac) -> (r: Option<Frac>)
    requires
        offset.wf(),
        extent.wf(),
    ensures
        r == norm(sync_axis(offset, extent)),
{
    proof {
        crate::rational::lemma_prod_bound(
            offset.num as int,
            2 * extent.den as int,
            FRAC_LIMIT as int,
            2 * FRAC_LIMIT as int,
        );
        crate::rational::lemma_prod_bound(
            extent.num as int,
            offset.den as int,
            FRAC_LIMIT as int,
            FRAC_LIMIT as int,
        );
        crate::rational::lemma_prod_bound(
            offset.den as int,
            2 * extent.den as int,
            FRAC_LIMIT as int,
            2 * FRAC_LIMIT as int,
        );
    }
    let bd: i128 = 2 * extent.den as i128;
    let n: i128 = offset.num as i128 * bd + extent.num as i128 * offset.den as i128;
    let d: i128 = offset.den as i128 * bd;
    proof {
        assert(extent.rat().over(Rat::whole(2)) == Rat {
            n: extent.num as int,
            d: extent.den as int * 2,
        }) by {
            assert(extent.num as int * 1 == extent.num as int);
        }
        assert(n as int == sync_axis(offset, extent).n);
        assert(d as int == sync_axis(offset, extent).d);
    }
    reduce_i128(n, d)
}

impl ImageState {
    /// Make the container's own scroll offset the source of truth again:
    /// recompute `center = scrollOffset + viewportSize / 2`. The result is a
    /// function of the two arguments alone, so repeating the call with the
    /// same arguments leaves the same center. When either axis would leave
    /// the representable range, the center keeps its previous value.
    pub fn sync_center_from_scroll_offset(&mut self, scroll_offset: Vec2, viewport_size: Size)
        requires
            old(self).wf(),
            scroll_offset.wf(),
            viewport_size.wf(),
        ensures
            final(self).zoom == old(self).zoom,
            final(self).min_zoom == old(self).min_zoom,
            final(self).mouse_pos == old(self).mouse_pos,
            final(self).image_size == old(self).image_size,
            final(self).path == old(self).path,
            sync_center_post(old(self).center, final(self).center, scroll_offset, viewport_size),
            ({
                let cx = norm(sync_axis(scroll_offset.x, viewport_size.width));
                let cy = norm(sync_axis(scroll_offset.y, viewport_size.height));
                if cx is Some && cy is Some {
                    &&& final(self).center == (Vec2 { x: cx->0, y: cy->0 })
                    &&& final(self).center.x.rat().eqv(
                        sync_axis(scroll_offset.x, viewport_size.width),
                    )
                    &&& final(self).center.y.rat().eqv(
                        sync_axis(scroll_offset.y, viewport_size.height),
                    )
                    &&& final(self).wf()
                } else {
                    final(self).center == old(self).center
                }
            }),
            scroll_offset.x.within(1_000_000, 10) && scroll_offset.y.within(1_000_000, 10)
                && viewport_size.width.within(1_000_000, 10) && viewport_size.height.within(
                1_000_000,
                10,
            ) ==> norm(sync_axis(scroll_offset.x, viewport_size.width)) is Some && norm(
                sync_axis(scroll_offset.y, viewport_size.height),
            ) is Some,
    {
        proof {
            lemma_sync_axis_in_range(scroll_offset.x, viewport_size.width);
            lemma_sync_axis_in_range(scroll_offset.y, viewport_size.height);
        }
        let cx = sync_axis_exec(scroll_offset.x, viewport_size.width);
        let cy = sync_axis_exec(scroll_offset.y, viewport_size.height);
        match (cx, cy) {
            (Some(x), Some(y)) => {
                self.center = Vec2 { x, y };
            },
            _ => {},
        }
    }
}

/// On modest inputs the reconciled center is representable, and it is always
/// well formed and exact when it is.
proof fn lemma_sync_axis_in_range(offset: Frac, extent: Frac)
    requires
        offset.wf(),
        extent.wf(),
    ensures
        match norm(sync_axis(offset, extent)) {
            Some(c) => c.wf() && c.rat().eqv(sync_axis(offset, extent)),
            None => true,
        },
        offset.within(1_000_000, 10) && extent.within(1_000_000, 10) ==> norm(
            sync_axis(offset, extent),
        ) is Some,
{
    let two = Rat::whole(2);
    let half = extent.rat().over(two);
    crate::rational::lemma_over_bound(
        extent.rat(),
        two,
        abs(extent.num as int) as int,
        extent.den as int,
        2,
        1,
    );
    crate::rational::lemma_plus_bound(
        offset.rat(),
        half,
        abs(offset.num as int) as int,
        offset.den as int,
        abs(extent.num as int) as int,
        2 * extent.den as int,
    );
    lemma_norm(sync_axis(offset, extent));
    if offset.within(1_000_000, 10) && extent.within(1_000_000, 10) {
        crate::rational::lemma_over_bound(extent.rat(), two, 1_000_000, 10, 2, 1);
        crate::rational::lemma_plus_bound(offset.rat(), half, 1_000_000, 10, 1_000_000, 20);
    }
}

/// What `change_image` reports.
#[derive(Clone, Copy, PartialEq, Eq, Structural, Debug)]
pub enum FitOutcome {
    /// The image was fitted to the window and the view reset.
    Fitted,
    /// No decoded image (or one with a zero side): the placeholder was kept
    /// and the zoom left alone.
    EmptyAsset,
    /// The window has no positive extent, so no fit zoom exists.
    NoViewport,
    /// A fit value would leave the representable range; the view is unchanged.
    OutOfRange,
}

/// The fit zoom: `min(viewportWidth / imageWidth, viewportHeight / imageHeight)`.
pub open spec fn fit_zoom_rat(vp: Size, dims: ImageSize) -> Rat {
    vp.width.rat().over(Rat::whole(dims.width as int)).min_with(
        vp.height.rat().over(Rat::whole(dims.height as int)),
    )
}

/// The scaled image's geometric center along one axis: `z * count / 2`.
pub open spec fn scaled_center_axis(z: Rat, count: u32) -> Rat {
    z.times(Rat::whole(count as int)).over(Rat::whole(2))
}

/// Compute `z * count / 2` exactly, in lowest terms.
fn scaled_center_exec(z: Frac, count: u32) -> (r: Option<Frac>)
    requires
        z.wf(),
    ensures
        r == norm(scaled_center_axis(z.rat(), count)),
{
    proof {
        crate::rational::lemma_prod_bound(
            z.num as int,
            count as int,
            FRAC_LIMIT as int,
            0x1_0000_0000,
        );
    }
    let n: i128 = z.num as i128 * count as i128;
    let d: i128 = z.den as i128 * 2;
    proof {
        assert(scaled_center_axis(z.rat(), count) == Rat {
            n: (z.num as int * count as int) * 1,
            d: (z.den as int * 1) * 2,
        });
        assert(n as int == scaled_center_axis(z.rat(), count).n);
        assert(d as int == scaled_center_axis(z.rat(), count).d);
    }
    reduce_i128(n, d)
}

/// The stored results of a successful fit — zoom, zoom floor and center,
/// each in lowest terms; `None` when one of them leaves the range.
pub open spec fn fit_spec(vp: Size, dims: ImageSize) -> Option<(Frac, Frac, Vec2)> {
    let zx = norm(vp.width.rat().over(Rat::whole(dims.width as int)));
    let zy = norm(vp.height.rat().over(Rat::whole(dims.height as int)));
    if zx is Some && zy is Some {
        let z = if zx->0.rat().le(zy->0.rat()) {
            zx->0
        } else {
            zy->0
        };
        let mz = norm(z.rat().over(Rat::whole(5)));
        let cx = norm(scaled_center_axis(z.rat(), dims.width));
        let cy = norm(scaled_center_axis(z.rat(), dims.height));
        if mz is Some && cx is Some && cy is Some {
            Some((z, mz->0, Vec2 { x: cx->0, y: cy->0 }))
        } else {
            None
        }
    } else {
        None
    }
}

/// The image size a decode result stands for: its dimensions, or the empty
/// placeholder when decoding failed.
pub open spec fn decoded_dims(decoded: Option<ImageSize>) -> ImageSize {
    match decoded {
        Some(d) => d,
        None => ImageSize { width: 0, height: 0 },
    }
}

/// Everything `change_image` guarantees, over the state before and after:
/// identity and dimensions always change together; an empty decode keeps the
/// zoom and parks the center at the origin; a degenerate window changes the
/// view not at all; otherwise the fit either succeeds with the fit law —
/// `zoom = min(vw/w, vh/h)`, `minZoom = zoom/5`, `center` the scaled image's
/// geometric center — or, out of range, leaves the view unchanged. On a
/// modest positive window a nonempty image always fits.
pub open spec fn change_image_post(
    pre: ImageState,
    post: ImageState,
    path: String,
    decoded: Option<ImageSize>,
    window_size: Size,
    r: FitOutcome,
) -> bool {
    &&& post.wf()
    &&& post.mouse_pos == pre.mouse_pos
    &&& post.image_size == decoded_dims(decoded)
    &&& post.path == path
    &&& ({
        let dims = decoded_dims(decoded);
        if !dims.nonempty() {
            &&& r == FitOutcome::EmptyAsset
            &&& post.zoom == pre.zoom
            &&& post.min_zoom == pre.min_zoom
            &&& post.center == (Vec2 { x: Frac { num: 0, den: 1 }, y: Frac { num: 0, den: 1 } })
        } else if !window_size.pos() {
            &&& r == FitOutcome::NoViewport
            &&& post.zoom == pre.zoom
            &&& post.min_zoom == pre.min_zoom
            &&& post.center == pre.center
        } else {
            match fit_spec(window_size, dims) {
                Some(fitted) => {
                    &&& r == FitOutcome::Fitted
                    &&& post.zoom == fitted.0
                    &&& post.min_zoom == fitted.1
                    &&& post.center == fitted.2
                    &&& post.zoom.rat().eqv(fit_zoom_rat(window_size, dims))
                    &&& post.min_zoom.rat().eqv(
                        fit_zoom_rat(window_size, dims).over(Rat::whole(5)),
                    )
                    &&& post.center.x.rat().eqv(
                        scaled_center_axis(fit_zoom_rat(window_size, dims), dims.width),
                    )
                    &&& post.center.y.rat().eqv(
                        scaled_center_axis(fit_zoom_rat(window_size, dims), dims.height),
                    )
                },
                None => {
                    &&& r == FitOutcome::OutOfRange
                    &&& post.zoom == pre.zoom
                    &&& post.min_zoom == pre.min_zoom
                    &&& post.center == pre.center
                },
            }
        }
    })
    &&& (decoded_dims(decoded).nonempty() && window_size.pos() && window_size.width.within(
        1_000_000,
        10,
    ) && window_size.height.within(1_000_000, 10) ==> r == FitOutcome::Fitted)
}

impl ImageState {
    /// Load a new image and reset the view to show all of it: the zoom
    /// becomes the fit zoom, the floor a fifth of it, and the center the
    /// scaled image's geometric center. The image identity and dimensions
    /// change together, whatever the outcome; a failed decode degrades to the
    /// empty placeholder and the viewer stays usable.
    pub fn change_image(
        &mut self,
        path: String,
        decoded: Option<ImageSize>,
        window_size: Size,
    ) -> (r: FitOutcome)
        requires
            old(self).wf(),
            window_size.wf(),
        ensures
            change_image_post(*old(self), *final(self), path, decoded, window_size, r),
    {
        let dims = match decoded {
            Some(d) => d,
            None => ImageSize::empty(),
        };
        self.image_size = dims;
        self.path = path;
        if dims.width == 0 || dims.height == 0 {
            self.center = Vec2::zero();
            return FitOutcome::EmptyAsset;
        }
        if window_size.width.num <= 0 || window_size.height.num <= 0 {
            return FitOutcome::NoViewport;
        }
        let ghost ax = window_size.width.rat().over(Rat::whole(dims.width as int));
        let ghost ay = window_size.height.rat().over(Rat::whole(dims.height as int));
        proof {
            crate::rational::lemma_over_bound(
                window_size.width.rat(),
                Rat::whole(dims.width as int),
                abs(window_size.width.num as int) as int,
                window_size.width.den as int,
                dims.width as int,
                1,
            );
            crate::rational::lemma_over_bound(
                window_size.height.rat(),
                Rat::whole(dims.height as int),
                abs(window_size.height.num as int) as int,
                window_size.height.den as int,
                dims.height as int,
                1,
            );
            lemma_norm(ax);
            lemma_norm(ay);
            if window_size.width.within(1_000_000, 10) && window_size.height.within(
                1_000_000,
                10,
            ) {
                crate::rational::lemma_over_bound(
                    window_size.width.rat(),
                    Rat::whole(dims.width as int),
                    1_000_000,
                    10,
                    0x1_0000_0000,
                    1,
                );
                crate::rational::lemma_over_bound(
                    window_size.height.rat(),
                    Rat::whole(dims.height as int),
                    1_000_000,
                    10,
                    0x1_0000_0000,
                    1,
                );
                assert(norm(ax) is Some && norm(ay) is Some);
            }
        }
        let zx = match window_size.width.over(Frac::of_u32(dims.width)) {
            Some(v) => v,
            None => {
                return FitOutcome::OutOfRange;
            },
        };
        let zy = match window_size.height.over(Frac::of_u32(dims.height)) {
            Some(v) => v,
            None => {
                return FitOutcome::OutOfRange;
            },
        };
        proof {
            lemma_cmp_congr(zx.rat(), ax, zy.rat(), ay);
        }
        let z = zx.min_with(zy);
        proof {
            assert(z.rat().eqv(fit_zoom_rat(window_size, dims)));
            crate::rational::lemma_over_bound(
                z.rat(),
                Rat::whole(5),
                abs(z.num as int) as int,
                z.den as int,
                5,
                1,
            );
            lemma_norm(z.rat().over(Rat::whole(5)));
            if window_size.width.within(1_000_000, 10) && window_size.height.within(
                1_000_000,
                10,
            ) {
                crate::rational::lemma_prod_bound(
                    window_size.width.den as int,
                    dims.width as int,
                    10,
                    0x1_0000_0000,
                );
                crate::rational::lemma_prod_bound(
                    window_size.height.den as int,
                    dims.height as int,
                    10,
                    0x1_0000_0000,
                );
                assert(abs(z.num as int) <= 1_000_000 && z.den <= 42_949_672_960);
                assert(norm(z.rat().over(Rat::whole(5))) is Some);
                crate::rational::lemma_prod_bound(
                    z.num as int,
                    dims.width as int,
                    1_000_000,
                    0x1_0000_0000,
                );
                crate::rational::lemma_prod_bound(
                    z.num as int,
                    dims.height as int,
                    1_000_000,
                    0x1_0000_0000,
                );
                lemma_norm(scaled_center_axis(z.rat(), dims.width));
                lemma_norm(scaled_center_axis(z.rat(), dims.height));
                assert(norm(scaled_center_axis(z.rat(), dims.width)) is Some && norm(
                    scaled_center_axis(z.rat(), dims.height),
                ) is Some);
            }
        }
        let mz = match z.over(Frac { num: 5, den: 1 }) {
            Some(v) => v,
            None => {
                return FitOutcome::OutOfRange;
            },
        };
        proof {
            lemma_scaled_center_wf(z, dims.width);
            lemma_scaled_center_wf(z, dims.height);
        }
        let cx = match scaled_center_exec(z, dims.width) {
            Some(v) => v,
            None => {
                return FitOutcome::OutOfRange;
            },
        };
        let cy = match scaled_center_exec(z, dims.height) {
            Some(v) => v,
            None => {
                return FitOutcome::OutOfRange;
            },
        };
        proof {
            lemma_fit_post(*old(self), window_size, dims, zx, zy, z, mz, cx, cy);
        }
        self.zoom = z;
        self.min_zoom = mz;
        self.center = Vec2 { x: cx, y: cy };
        FitOutcome::Fitted
    }
}

/// The scaled-center expression is well formed and its reduction exact.
proof fn lemma_scaled_center_wf(z: Frac, count: u32)
    requires
        z.wf(),
        count > 0,
    ensures
        scaled_center_axis(z.rat(), count).wf(),
        match norm(scaled_center_axis(z.rat(), count)) {
            Some(c) => c.wf() && c.rat().eqv(scaled_center_axis(z.rat(), count)),
            None => true,
        },
{
    crate::rational::lemma_times_bound(
        z.rat(),
        Rat::whole(count as int),
        abs(z.num as int) as int,
        z.den as int,
        count as int,
        1,
    );
    crate::rational::lemma_over_bound(
        z.rat().times(Rat::whole(count as int)),
        Rat::whole(2),
        abs(z.num as int * count as int) as int,
        z.den as int,
        2,
        1,
    );
    lemma_norm(scaled_center_axis(z.rat(), count));
}

/// After a successful fit the new state is well formed and obeys the fit law.
proof fn lemma_fit_post(
    pre: ImageState,
    vp: Size,
    dims: ImageSize,
    zx: Frac,
    zy: Frac,
    z: Frac,
    mz: Frac,
    cx: Frac,
    cy: Frac,
)
    requires
        pre.wf(),
        vp.wf(),
        vp.pos(),
        dims.nonempty(),
        Some(zx) == norm(vp.width.rat().over(Rat::whole(dims.width as int))),
        Some(zy) == norm(vp.height.rat().over(Rat::whole(dims.height as int))),
        z == if zx.rat().le(zy.rat()) {
            zx
        } else {
            zy
        },
        Some(mz) == norm(z.rat().over(Rat::whole(5))),
        Some(cx) == norm(scaled_center_axis(z.rat(), dims.width)),
        Some(cy) == norm(scaled_center_axis(z.rat(), dims.height)),
    ensures
        fit_spec(vp, dims) == Some((z, mz, Vec2 { x: cx, y: cy })),
        z.wf() && z.pos(),
        mz.wf() && mz.pos(),
        mz.rat().le(z.rat()),
        cx.wf() && cy.wf(),
        z.rat().eqv(fit_zoom_rat(vp, dims)),
        mz.rat().eqv(fit_zoom_rat(vp, dims).over(Rat::whole(5))),
        cx.rat().eqv(scaled_center_axis(fit_zoom_rat(vp, dims), dims.width)),
        cy.rat().eqv(scaled_center_axis(fit_zoom_rat(vp, dims), dims.height)),
{
    let ax = vp.width.rat().over(Rat::whole(dims.width as int));
    let ay = vp.height.rat().over(Rat::whole(dims.height as int));
    let fz = fit_zoom_rat(vp, dims);
    crate::rational::lemma_over_bound(
        vp.width.rat(),
        Rat::whole(dims.width as int),
        abs(vp.width.num as int) as int,
        vp.width.den as int,
        dims.width as int,
        1,
    );
    crate::rational::lemma_over_bound(
        vp.height.rat(),
        Rat::whole(dims.height as int),
        abs(vp.height.num as int) as int,
        vp.height.den as int,
        dims.height as int,
        1,
    );
    lemma_norm(ax);
    lemma_norm(ay);
    lemma_cmp_congr(zx.rat(), ax, zy.rat(), ay);
    assert(z.rat().eqv(fz));
    assert(z.pos()) by {
        assert(ax.n > 0 && ay.n > 0) by (nonlinear_arith)
            requires
                vp.width.num > 0,
                vp.height.num > 0,
                dims.width > 0,
                dims.height > 0,
                ax == vp.width.rat().over(Rat::whole(dims.width as int)),
                ay == vp.height.rat().over(Rat::whole(dims.height as int)),
        ;
        lemma_sign_congr(zx.rat(), ax);
        lemma_sign_congr(zy.rat(), ay);
    }
    crate::rational::lemma_over_bound(
        z.rat(),
        Rat::whole(5),
        abs(z.num as int) as int,
        z.den as int,
        5,
        1,
    );
    lemma_norm(z.rat().over(Rat::whole(5)));
    assert(mz.pos()) by {
        assert(z.rat().over(Rat::whole(5)).n == z.num as int * 1);
        lemma_sign_congr(mz.rat(), z.rat().over(Rat::whole(5)));
    }
    assert(mz.rat().le(z.rat())) by {
        assert(z.rat().over(Rat::whole(5)).le(z.rat())) by (nonlinear_arith)
            requires
                z.num > 0,
                z.den > 0,
                z.rat().over(Rat::whole(5)) == (Rat { n: z.num as int * 1, d: z.den as int * 5 }),
        ;
        lemma_cmp_congr(mz.rat(), z.rat().over(Rat::whole(5)), z.rat(), z.rat());
    }
    assert(mz.rat().eqv(fz.over(Rat::whole(5)))) by {
        lemma_over_congr(z.rat(), fz, Rat::whole(5), Rat::whole(5));
        lemma_eqv_trans(mz.rat(), z.rat().over(Rat::whole(5)), fz.over(Rat::whole(5)));
    }
    lemma_scaled_center_wf(z, dims.width);
    lemma_scaled_center_wf(z, dims.height);
    assert(cx.rat().eqv(scaled_center_axis(fz, dims.width))) by {
        lemma_times_congr(z.rat(), fz, Rat::whole(dims.width as int), Rat::whole(dims.width as int));
        lemma_over_congr(
            z.rat().times(Rat::whole(dims.width as int)),
            fz.times(Rat::whole(dims.width as int)),
            Rat::whole(2),
            Rat::whole(2),
        );
        lemma_eqv_trans(
            cx.rat(),
            scaled_center_axis(z.rat(), dims.width),
            scaled_center_axis(fz, dims.width),
        );
    }
    assert(cy.rat().eqv(scaled_center_axis(fz, dims.height))) by {
        lemma_times_congr(
            z.rat(),
            fz,
            Rat::whole(dims.height as int),
            Rat::whole(dims.height as int),
        );
        lemma_over_congr(
            z.rat().times(Rat::whole(dims.height as int)),
            fz.times(Rat::whole(dims.height as int)),
            Rat::whole(2),
            Rat::whole(2),
        );
        lemma_eqv_trans(
            cy.rat(),
            scaled_center_axis(z.rat(), dims.height),
            scaled_center_axis(fz, dims.height),
        );
    }
}

/// Whether the image scaled by `z` fits inside the viewport on both axes.
pub open spec fn fits_in(z: Rat, dims: ImageSize, vp: Size) -> bool {
    &&& z.times(Rat::whole(dims.width as int)).le(vp.width.rat())
    &&& z.times(Rat::whole(dims.height as int)).le(vp.height.rat())
}

/// Half the viewport extent along one axis.
pub open spec fn half_axis(extent: Frac) -> Rat {
    extent.rat().over(Rat::whole(2))
}

/// The cursor-anchored center along one axis after an accepted zoom:
/// `c + (c - h + m) * (delta / z0)`, which keeps the image point under the
/// cursor at the same viewport pixel.
pub open spec fn anchored_axis(c: Rat, h: Rat, m: Rat, z0: Rat, delta: Rat) -> Rat {
    c.plus(c.minus(h).plus(m).times(delta.over(z0)))
}

/// Compute `c + ((c - h) + m) * q` exactly; `None` when a step leaves the
/// representable range.
fn anchored_axis_exec(c: Frac, h: Frac, m: Frac, q: Frac) -> (r: Option<Frac>)
    requires
        c.wf(),
        h.wf(),
        m.wf(),
        q.wf(),
    ensures
        r matches Some(v) ==> v.wf() && v.rat().eqv(
            c.rat().plus(c.rat().minus(h.rat()).plus(m.rat()).times(q.rat())),
        ),
        c.within(1_000_000, 10) && h.within(1_000_000, 20) && m.within(1_000_000, 10)
            && q.within(10_000_000, 10_000_000) ==> r is Some && (r matches Some(v)
            ==> v.within(70_000_000_000_000_000, 200_000_000_000)),
{
    let ghost modest = c.within(1_000_000, 10) && h.within(1_000_000, 20) && m.within(
        1_000_000,
        10,
    ) && q.within(10_000_000, 10_000_000);
    let ghost tr = c.rat().minus(h.rat());
    proof {
        crate::rational::lemma_minus_bound(
            c.rat(),
            h.rat(),
            abs(c.num as int) as int,
            c.den as int,
            abs(h.num as int) as int,
            h.den as int,
        );
        lemma_norm(tr);
        if modest {
            crate::rational::lemma_minus_bound(c.rat(), h.rat(), 1_000_000, 10, 1_000_000, 20);
        }
    }
    let t = match c.minus(h) {
        Some(v) => v,
        None => {
            return None;
        },
    };
    let ghost pr = t.rat().plus(m.rat());
    proof {
        crate::rational::lemma_plus_bound(
            t.rat(),
            m.rat(),
            abs(t.num as int) as int,
            t.den as int,
            abs(m.num as int) as int,
            m.den as int,
        );
        lemma_norm(pr);
        if modest {
            crate::rational::lemma_plus_bound(t.rat(), m.rat(), 30_000_000, 200, 1_000_000, 10);
        }
    }
    let p = match t.plus(m) {
        Some(v) => v,
        None => {
            return None;
        },
    };
    let ghost sr = p.rat().times(q.rat());
    proof {
        crate::rational::lemma_times_bound(
            p.rat(),
            q.rat(),
            abs(p.num as int) as int,
            p.den as int,
            abs(q.num as int) as int,
            q.den as int,
        );
        lemma_norm(sr);
        if modest {
            crate::rational::lemma_times_bound(
                p.rat(),
                q.rat(),
                500_000_000,
                2_000,
                10_000_000,
                10_000_000,
            );
        }
    }
    let s = match p.times(q) {
        Some(v) => v,
        None => {
            return None;
        },
    };
    let ghost nr = c.rat().plus(s.rat());
    proof {
        crate::rational::lemma_plus_bound(
            c.rat(),
            s.rat(),
            abs(c.num as int) as int,
            c.den as int,
            abs(s.num as int) as int,
            s.den as int,
        );
        lemma_norm(nr);
        if modest {
            crate::rational::lemma_plus_bound(
                c.rat(),
                s.rat(),
                1_000_000,
                10,
                5_000_000_000_000_000,
                20_000_000_000,
            );
        }
    }
    let n = match c.plus(s) {
        Some(v) => v,
        None => {
            return None;
        },
    };
    proof {
        let exact = c.rat().plus(c.rat().minus(h.rat()).plus(m.rat()).times(q.rat()));
        lemma_plus_congr(t.rat(), tr, m.rat(), m.rat());
        lemma_plus_congr(tr, tr, m.rat(), m.rat());
        lemma_eqv_trans(p.rat(), t.rat().plus(m.rat()), tr.plus(m.rat()));
        lemma_times_congr(p.rat(), tr.plus(m.rat()), q.rat(), q.rat());
        lemma_times_congr(tr.plus(m.rat()), tr.plus(m.rat()), q.rat(), q.rat());
        lemma_eqv_trans(s.rat(), p.rat().times(q.rat()), tr.plus(m.rat()).times(q.rat()));
        lemma_plus_congr(c.rat(), c.rat(), s.rat(), tr.plus(m.rat()).times(q.rat()));
        lemma_plus_congr(
            c.rat(),
            c.rat(),
            tr.plus(m.rat()).times(q.rat()),
            tr.plus(m.rat()).times(q.rat()),
        );
        lemma_eqv_trans(n.rat(), c.rat().plus(s.rat()), exact);
    }
    Some(n)
}

/// What `add_zoom` reports.
pub enum ZoomOutcome {
    /// The zoom was accepted; push this offset to the scroll container.
    Applied { scroll: Vec2 },
    /// `zoom + delta` would fall below the zoom floor: a complete no-op.
    RejectedFloor,
    /// A value would leave the representable range: a complete no-op.
    OutOfRange,
}

/// Everything an accepted zoom guarantees. With `z1 = zoom + delta`: the
/// floor was respected, the zoom became `z1`; if the newly scaled image fits
/// the viewport the center snaps to the scaled image's geometric center,
/// otherwise it shifts so that the image point under the cursor keeps its
/// viewport position; and the returned scroll target is `center - half`.
pub open spec fn zoom_applied(
    pre: ImageState,
    post: ImageState,
    delta: Frac,
    vp: Size,
    scroll: Vec2,
) -> bool {
    let z0 = pre.zoom.rat();
    let z1 = z0.plus(delta.rat());
    &&& post.wf()
    &&& post.min_zoom == pre.min_zoom
    &&& post.mouse_pos == pre.mouse_pos
    &&& post.image_size == pre.image_size
    &&& post.path == pre.path
    &&& post.zoom.rat().eqv(z1)
    &&& pre.min_zoom.rat().le(z1)
    &&& (if fits_in(z1, pre.image_size, vp) {
        &&& post.center.x.rat().eqv(scaled_center_axis(z1, pre.image_size.width))
        &&& post.center.y.rat().eqv(scaled_center_axis(z1, pre.image_size.height))
    } else {
        &&& post.center.x.rat().eqv(
            anchored_axis(
                pre.center.x.rat(),
                half_axis(vp.width),
                pre.mouse_pos.x.rat(),
                z0,
                delta.rat(),
            ),
        )
        &&& post.center.y.rat().eqv(
            anchored_axis(
                pre.center.y.rat(),
                half_axis(vp.height),
                pre.mouse_pos.y.rat(),
                z0,
                delta.rat(),
            ),
        )
    })
    &&& scroll.wf()
    &&& scroll.x.rat().eqv(post.center.x.rat().minus(half_axis(vp.width)))
    &&& scroll.y.rat().eqv(post.center.y.rat().minus(half_axis(vp.height)))
}

/// Inputs on which an accepted zoom is guaranteed not to run out of range:
/// positions within a million pixels at hundredth-pixel grain or coarser,
/// zoom and delta within ten thousand at thousandth grain or coarser.
pub open spec fn zoom_inputs_modest(pre: ImageState, delta: Frac, vp: Size) -> bool {
    &&& pre.center.x.within(1_000_000, 10)
    &&& pre.center.y.within(1_000_000, 10)
    &&& pre.mouse_pos.x.within(1_000_000, 10)
    &&& pre.mouse_pos.y.within(1_000_000, 10)
    &&& vp.width.within(1_000_000, 10)
    &&& vp.height.within(1_000_000, 10)
    &&& pre.zoom.within(10_000, 1_000)
    &&& delta.within(10_000, 1_000)
}

impl ImageState {
    /// Add `zoom_delta` to the zoom, anchored at the cursor. If the new zoom
    /// would fall below the floor the whole call is a no-op; so is a call
    /// whose arithmetic would leave the representable range. Otherwise the
    /// zoom and center move as `zoom_applied` states and the new scroll
    /// target is returned for the container.
    pub fn add_zoom(&mut self, zoom_delta: Frac, parent_size: Size) -> (r: ZoomOutcome)
        requires
            old(self).wf(),
            zoom_delta.wf(),
            parent_size.wf(),
        ensures
            !(r is Applied) ==> *final(self) == *old(self),
            (r matches ZoomOutcome::Applied { scroll } ==> zoom_applied(
                *old(self),
                *final(self),
                zoom_delta,
                parent_size,
                scroll,
            )),
            (r is RejectedFloor) <==> (norm(old(self).zoom.rat().plus(zoom_delta.rat())) is Some
                && old(self).zoom.rat().plus(zoom_delta.rat()).lt(old(self).min_zoom.rat())),
            old(self).zoom.rat().plus(zoom_delta.rat()).lt(old(self).min_zoom.rat()) ==> !(
            r is Applied),
            zoom_inputs_modest(*old(self), zoom_delta, parent_size) && !old(
                self,
            ).zoom.rat().plus(zoom_delta.rat()).lt(old(self).min_zoom.rat()) ==> r is Applied,
    {
        let ghost pre = *old(self);
        let ghost z1r = pre.zoom.rat().plus(zoom_delta.rat());
        let ghost modest = zoom_inputs_modest(pre, zoom_delta, parent_size);
        proof {
            crate::rational::lemma_plus_bound(
                self.zoom.rat(),
                zoom_delta.rat(),
                abs(self.zoom.num as int) as int,
                self.zoom.den as int,
                abs(zoom_delta.num as int) as int,
                zoom_delta.den as int,
            );
            lemma_norm(z1r);
            if modest {
                crate::rational::lemma_plus_bound(
                    self.zoom.rat(),
                    zoom_delta.rat(),
                    10_000,
                    1_000,
                    10_000,
                    1_000,
                );
            }
        }
        let z1 = match self.zoom.plus(zoom_delta) {
            Some(v) => v,
            None => {
                return ZoomOutcome::OutOfRange;
            },
        };
        proof {
            lemma_cmp_congr(z1.rat(), z1r, self.min_zoom.rat(), self.min_zoom.rat());
        }
        if z1.lt(self.min_zoom) {
            return ZoomOutcome::RejectedFloor;
        }
        let w = self.image_size.width;
        let h = self.image_size.height;
        let ghost swr = z1.rat().times(Rat::whole(w as int));
        let ghost shr = z1.rat().times(Rat::whole(h as int));
        proof {
            crate::rational::lemma_times_bound(
                z1.rat(),
                Rat::whole(w as int),
                abs(z1.num as int) as int,
                z1.den as int,
                w as int,
                1,
            );
            crate::rational::lemma_times_bound(
                z1.rat(),
                Rat::whole(h as int),
                abs(z1.num as int) as int,
                z1.den as int,
                h as int,
                1,
            );
            lemma_norm(swr);
            lemma_norm(shr);
            if modest {
                crate::rational::lemma_times_bound(
                    z1.rat(),
                    Rat::whole(w as int),
                    20_000_000,
                    1_000_000,
                    0x1_0000_0000,
                    1,
                );
                crate::rational::lemma_times_bound(
                    z1.rat(),
                    Rat::whole(h as int),
                    20_000_000,
                    1_000_000,
                    0x1_0000_0000,
                    1,
                );
            }
        }
        let sw = match z1.times(Frac::of_u32(w)) {
            Some(v) => v,
            None => {
                return ZoomOutcome::OutOfRange;
            },
        };
        let sh = match z1.times(Frac::of_u32(h)) {
            Some(v) => v,
            None => {
                return ZoomOutcome::OutOfRange;
            },
        };
        let ghost hxr = half_axis(parent_size.width);
        let ghost hyr = half_axis(parent_size.height);
        proof {
            crate::rational::lemma_over_bound(
                parent_size.width.rat(),
                Rat::whole(2),
                abs(parent_size.width.num as int) as int,
                parent_size.width.den as int,
                2,
                1,
            );
            crate::rational::lemma_over_bound(
                parent_size.height.rat(),
                Rat::whole(2),
                abs(parent_size.height.num as int) as int,
                parent_size.height.den as int,
                2,
                1,
            );
            lemma_norm(hxr);
            lemma_norm(hyr);
            if modest {
                crate::rational::lemma_over_bound(
                    parent_size.width.rat(),
                    Rat::whole(2),
                    1_000_000,
                    10,
                    2,
                    1,
                );
                crate::rational::lemma_over_bound(
                    parent_size.height.rat(),
                    Rat::whole(2),
                    1_000_000,
                    10,
                    2,
                    1,
                );
            }
        }
        let hx = match parent_size.width.over(Frac { num: 2, den: 1 }) {
            Some(v) => v,
            None => {
                return ZoomOutcome::OutOfRange;
            },
        };
        let hy = match parent_size.height.over(Frac { num: 2, den: 1 }) {
            Some(v) => v,
            None => {
                return ZoomOutcome::OutOfRange;
            },
        };
        proof {
            lemma_times_congr(z1.rat(), z1r, Rat::whole(w as int), Rat::whole(w as int));
            lemma_eqv_trans(sw.rat(), swr, z1r.times(Rat::whole(w as int)));
            lemma_cmp_congr(
                sw.rat(),
                z1r.times(Rat::whole(w as int)),
                parent_size.width.rat(),
                parent_size.width.rat(),
            );
            lemma_times_congr(z1.rat(), z1r, Rat::whole(h as int), Rat::whole(h as int));
            lemma_eqv_trans(sh.rat(), shr, z1r.times(Rat::whole(h as int)));
            lemma_cmp_congr(
                sh.rat(),
                z1r.times(Rat::whole(h as int)),
                parent_size.height.rat(),
                parent_size.height.rat(),
            );
        }
        let fits = sw.le(parent_size.width) && sh.le(parent_size.height);
        proof {
            assert(fits == fits_in(z1r, pre.image_size, parent_size));
        }
        let new_center: Vec2;
        if fits {
            let ghost cxr = sw.rat().over(Rat::whole(2));
            let ghost cyr = sh.rat().over(Rat::whole(2));
            proof {
                crate::rational::lemma_over_bound(
                    sw.rat(),
                    Rat::whole(2),
                    abs(sw.num as int) as int,
                    sw.den as int,
                    2,
                    1,
                );
                crate::rational::lemma_over_bound(
                    sh.rat(),
                    Rat::whole(2),
                    abs(sh.num as int) as int,
                    sh.den as int,
                    2,
                    1,
                );
                lemma_norm(cxr);
                lemma_norm(cyr);
                if modest {
                    crate::rational::lemma_over_bound(
                        sw.rat(),
                        Rat::whole(2),
                        86_000_000_000_000_000,
                        1_000_000,
                        2,
                        1,
                    );
                    crate::rational::lemma_over_bound(
                        sh.rat(),
                        Rat::whole(2),
                        86_000_000_000_000_000,
                        1_000_000,
                        2,
                        1,
                    );
                }
            }
            let cx = match sw.over(Frac { num: 2, den: 1 }) {
                Some(v) => v,
                None => {
                    return ZoomOutcome::OutOfRange;
                },
            };
            let cy = match sh.over(Frac { num: 2, den: 1 }) {
                Some(v) => v,
                None => {
                    return ZoomOutcome::OutOfRange;
                },
            };
            proof {
                lemma_over_congr(
                    sw.rat(),
                    z1r.times(Rat::whole(w as int)),
                    Rat::whole(2),
                    Rat::whole(2),
                );
                lemma_eqv_trans(cx.rat(), cxr, scaled_center_axis(z1r, w));
                lemma_over_congr(
                    sh.rat(),
                    z1r.times(Rat::whole(h as int)),
                    Rat::whole(2),
                    Rat::whole(2),
                );
                lemma_eqv_trans(cy.rat(), cyr, scaled_center_axis(z1r, h));
            }
            new_center = Vec2 { x: cx, y: cy };
        } else {
            let ghost qr = zoom_delta.rat().over(pre.zoom.rat());
            proof {
                crate::rational::lemma_over_bound(
                    zoom_delta.rat(),
                    self.zoom.rat(),
                    abs(zoom_delta.num as int) as int,
                    zoom_delta.den as int,
                    abs(self.zoom.num as int) as int,
                    self.zoom.den as int,
                );
                lemma_norm(qr);
                if modest {
                    crate::rational::lemma_over_bound(
                        zoom_delta.rat(),
                        self.zoom.rat(),
                        10_000,
                        1_000,
                        10_000,
                        1_000,
                    );
                }
            }
            let q = match zoom_delta.over(self.zoom) {
                Some(v) => v,
                None => {
                    return ZoomOutcome::OutOfRange;
                },
            };
            let cx = match anchored_axis_exec(self.center.x, hx, self.mouse_pos.x, q) {
                Some(v) => v,
                None => {
                    return ZoomOutcome::OutOfRange;
                },
            };
            let cy = match anchored_axis_exec(self.center.y, hy, self.mouse_pos.y, q) {
                Some(v) => v,
                None => {
                    return ZoomOutcome::OutOfRange;
                },
            };
            proof {
                lemma_anchored_congr(
                    self.center.x,
                    hx,
                    self.mouse_pos.x,
                    q,
                    cx,
                    hxr,
                    qr,
                    pre.zoom.rat(),
                    zoom_delta.rat(),
                );
                lemma_anchored_congr(
                    self.center.y,
                    hy,
                    self.mouse_pos.y,
                    q,
                    cy,
                    hyr,
                    qr,
                    pre.zoom.rat(),
                    zoom_delta.rat(),
                );
            }
            new_center = Vec2 { x: cx, y: cy };
        }
        let ghost sxr = new_center.x.rat().minus(hx.rat());
        let ghost syr = new_center.y.rat().minus(hy.rat());
        proof {
            crate::rational::lemma_minus_bound(
                new_center.x.rat(),
                hx.rat(),
                abs(new_center.x.num as int) as int,
                new_center.x.den as int,
                abs(hx.num as int) as int,
                hx.den as int,
            );
            crate::rational::lemma_minus_bound(
                new_center.y.rat(),
                hy.rat(),
                abs(new_center.y.num as int) as int,
                new_center.y.den as int,
                abs(hy.num as int) as int,
                hy.den as int,
            );
            lemma_norm(sxr);
            lemma_norm(syr);
            if modest {
                crate::rational::lemma_minus_bound(
                    new_center.x.rat(),
                    hx.rat(),
                    86_000_000_000_000_000,
                    200_000_000_000,
                    1_000_000,
                    20,
                );
                crate::rational::lemma_minus_bound(
                    new_center.y.rat(),
                    hy.rat(),
                    86_000_000_000_000_000,
                    200_000_000_000,
                    1_000_000,
                    20,
                );
            }
        }
        let sx = match new_center.x.minus(hx) {
            Some(v) => v,
            None => {
                return ZoomOutcome::OutOfRange;
            },
        };
        let sy = match new_center.y.minus(hy) {
            Some(v) => v,
            None => {
                return ZoomOutcome::OutOfRange;
            },
        };
        proof {
            assert(z1.pos()) by {
                assert(z1.num > 0) by (nonlinear_arith)
                    requires
                        pre.min_zoom.num > 0,
                        pre.min_zoom.den > 0,
                        z1.den > 0,
                        pre.min_zoom.rat().le(z1.rat()),
                        pre.min_zoom.rat() == (Rat {
                            n: pre.min_zoom.num as int,
                            d: pre.min_zoom.den as int,
                        }),
                        z1.rat() == (Rat { n: z1.num as int, d: z1.den as int }),
                ;
            }
            lemma_minus_congr(new_center.x.rat(), new_center.x.rat(), hx.rat(), hxr);
            lemma_minus_congr(new_center.x.rat(), new_center.x.rat(), hxr, hxr);
            lemma_eqv_trans(sx.rat(), sxr, new_center.x.rat().minus(hxr));
            lemma_minus_congr(new_center.y.rat(), new_center.y.rat(), hy.rat(), hyr);
            lemma_minus_congr(new_center.y.rat(), new_center.y.rat(), hyr, hyr);
            lemma_eqv_trans(sy.rat(), syr, new_center.y.rat().minus(hyr));
        }
        self.zoom = z1;
        self.center = new_center;
        ZoomOutcome::Applied { scroll: Vec2 { x: sx, y: sy } }
    }
}

/// Carry the anchored-center equation from the stored half-extent and ratio
/// over to the specification's exact ones.
proof fn lemma_anchored_congr(
    c: Frac,
    hf: Frac,
    m: Frac,
    q: Frac,
    out: Frac,
    hr: Rat,
    qr: Rat,
    z0: Rat,
    delta: Rat,
)
    requires
        c.wf(),
        hf.wf(),
        m.wf(),
        q.wf(),
        out.wf(),
        hr.wf(),
        z0.wf(),
        z0.n > 0,
        delta.wf(),
        hf.rat().eqv(hr),
        qr == delta.over(z0),
        q.rat().eqv(qr),
        out.rat().eqv(c.rat().plus(c.rat().minus(hf.rat()).plus(m.rat()).times(q.rat()))),
    ensures
        out.rat().eqv(anchored_axis(c.rat(), hr, m.rat(), z0, delta)),
{
    let e1 = c.rat().plus(c.rat().minus(hf.rat()).plus(m.rat()).times(q.rat()));
    let e2 = anchored_axis(c.rat(), hr, m.rat(), z0, delta);
    assert(qr.wf()) by (nonlinear_arith)
        requires
            delta.d > 0,
            z0.n > 0,
            qr == delta.over(z0),
    ;
    lemma_minus_congr(c.rat(), c.rat(), hf.rat(), hr);
    lemma_minus_congr(c.rat(), c.rat(), hr, hr);
    lemma_plus_congr(c.rat().minus(hf.rat()), c.rat().minus(hr), m.rat(), m.rat());
    lemma_plus_congr(c.rat().minus(hr), c.rat().minus(hr), m.rat(), m.rat());
    lemma_times_congr(
        c.rat().minus(hf.rat()).plus(m.rat()),
        c.rat().minus(hr).plus(m.rat()),
        q.rat(),
        qr,
    );
    lemma_times_congr(
        c.rat().minus(hr).plus(m.rat()),
        c.rat().minus(hr).plus(m.rat()),
        qr,
        qr,
    );
    lemma_plus_congr(
        c.rat(),
        c.rat(),
        c.rat().minus(hf.rat()).plus(m.rat()).times(q.rat()),
        c.rat().minus(hr).plus(m.rat()).times(delta.over(z0)),
    );
    lemma_plus_congr(
        c.rat(),
        c.rat(),
        c.rat().minus(hr).plus(m.rat()).times(delta.over(z0)),
        c.rat().minus(hr).plus(m.rat()).times(delta.over(z0)),
    );
    lemma_eqv_trans(out.rat(), e1, e2);
}

impl ImageState {
    /// The scaled image rectangle at the current zoom: `(0, 0)` through
    /// `(width * zoom, height * zoom)`; `None` when a side leaves the
    /// representable range.
    pub fn get_rect(&self) -> (r: Option<Rect>)
        requires
            self.wf(),
        ensures
            ({
                let sx = norm(self.zoom.rat().times(Rat::whole(self.image_size.width as int)));
                let sy = norm(self.zoom.rat().times(Rat::whole(self.image_size.height as int)));
                if sx is Some && sy is Some {
                    &&& r == Some(
                        Rect {
                            x0: Frac { num: 0, den: 1 },
                            y0: Frac { num: 0, den: 1 },
                            x1: sx->0,
                            y1: sy->0,
                        },
                    )
                    &&& sx->0.rat().eqv(
                        self.zoom.rat().times(Rat::whole(self.image_size.width as int)),
                    )
                    &&& sy->0.rat().eqv(
                        self.zoom.rat().times(Rat::whole(self.image_size.height as int)),
                    )
                } else {
                    r is None
                }
            }),
    {
        proof {
            crate::rational::lemma_times_bound(
                self.zoom.rat(),
                Rat::whole(self.image_size.width as int),
                abs(self.zoom.num as int) as int,
                self.zoom.den as int,
                self.image_size.width as int,
                1,
            );
            crate::rational::lemma_times_bound(
                self.zoom.rat(),
                Rat::whole(self.image_size.height as int),
                abs(self.zoom.num as int) as int,
                self.zoom.den as int,
                self.image_size.height as int,
                1,
            );
            lemma_norm(self.zoom.rat().times(Rat::whole(self.image_size.width as int)));
            lemma_norm(self.zoom.rat().times(Rat::whole(self.image_size.height as int)));
        }
        let sx = match self.zoom.times(Frac::of_u32(self.image_size.width)) {
            Some(v) => v,
            None => {
                return None;
            },
        };
        let sy = match self.zoom.times(Frac::of_u32(self.image_size.height)) {
            Some(v) => v,
            None => {
                return None;
            },
        };
        Some(
            Rect {
                x0: Frac { num: 0, den: 1 },
                y0: Frac { num: 0, den: 1 },
                x1: sx,
                y1: sy,
            },
        )
    }
}

impl Default for ImageState {
    /// The state before any image is loaded: unit zoom, floor a fifth of it,
    /// center and cursor at the origin, no image.
    fn default() -> (r: ImageState)
        ensures
            r.zoom == (Frac { num: 1, den: 1 }),
            r.min_zoom == (Frac { num: 1, den: 5 }),
            r.center == (Vec2 { x: Frac { num: 0, den: 1 }, y: Frac { num: 0, den: 1 } }),
            r.mouse_pos == (Vec2 { x: Frac { num: 0, den: 1 }, y: Frac { num: 0, den: 1 } }),
            r.image_size == (ImageSize { width: 0, height: 0 }),
            r.path@ == Seq::<char>::empty(),
            r.wf(),
    {
        ImageState {
            zoom: Frac { num: 1, den: 1 },
            min_zoom: Frac { num: 1, den: 5 },
            center: Vec2::zero(),
            mouse_pos: Vec2::zero(),
            image_size: ImageSize::empty(),
            path: String::new(),
        }
    }
}

} // verus!
