//! The engine's laws, proved once and for all: the cursor-anchor invariant
//! of an accepted zoom, and the idempotence of scroll reconciliation.

use vstd::prelude::*;

verus! {

use crate::geom::{Size, Vec2};
use crate::image::{
    anchored_axis,
    fits_in,
    half_axis,
    sync_center_post,
    zoom_applied,
    ImageState,
};
use crate::rational::{
    lemma_minus_is_plus_neg,
    lemma_plus_assoc,
    lemma_plus_comm,
    neg_rat,
    lemma_eqv_trans,
    lemma_minus_congr,
    lemma_over_congr,
    lemma_plus_congr,
    lemma_times_congr,
    Frac,
    Rat,
};

/// The unscaled image point that a viewport position `m` looks at, for a view
/// with center `c`, half viewport extent `h` and zoom `z`: `(c - h + m) / z`.
pub open spec fn image_point(c: Rat, h: Rat, m: Rat, z: Rat) -> Rat {
    c.minus(h).plus(m).over(z)
}

/// One axis of the anchor law, as pure rational algebra: if the new center
/// `c1` equals `c + (c - h + m) * (delta / z0)` and the new zoom is
/// `z1 = z0 + delta`, both positive, then the image point under the cursor
/// is unchanged.
pub proof fn lemma_anchor_axis(c: Rat, h: Rat, m: Rat, z0: Rat, delta: Rat, c1: Rat)
    requires
        c.wf(),
        h.wf(),
        m.wf(),
        z0.wf(),
        delta.wf(),
        c1.wf(),
        z0.n > 0,
        z0.plus(delta).n > 0,
        c1.eqv(anchored_axis(c, h, m, z0, delta)),
    ensures
        image_point(c1, h, m, z0.plus(delta)).eqv(image_point(c, h, m, z0)),
{
    let p0 = c.minus(h).plus(m);
    let q = delta.over(z0);
    let z1 = z0.plus(delta);
    let s = p0.times(q);
    let nh = neg_rat(h);
    let one = Rat::whole(1);
    assert(q.wf() && s.wf() && z1.wf() && p0.wf() && c.plus(s).wf() && nh.wf()
        && one.plus(q).wf() && z1.over(z0).wf() && p0.times(z1.over(z0)).wf() && p0.over(
        z0,
    ).wf()) by (nonlinear_arith)
        requires
            c.d > 0,
            h.d > 0,
            m.d > 0,
            z0.d > 0,
            z0.n > 0,
            delta.d > 0,
            p0 == c.minus(h).plus(m),
            q == delta.over(z0),
            z1 == z0.plus(delta),
            s == p0.times(q),
            nh == neg_rat(h),
            one == Rat::whole(1),
    ;
    // p1 relates to the anchored expression by congruence
    let p1 = c1.minus(h).plus(m);
    lemma_minus_congr(c1, c.plus(s), h, h);
    lemma_minus_congr(c.plus(s), c.plus(s), h, h);
    lemma_plus_congr(c1.minus(h), c.plus(s).minus(h), m, m);
    // rearrangement by shuffling sums: ((c + s) - h) + m == ((c - h) + m) + s
    assert(c.plus(s).minus(h).plus(m) == p0.plus(s)) by {
        lemma_minus_is_plus_neg(c.plus(s), h);
        lemma_minus_is_plus_neg(c, h);
        lemma_plus_assoc(c, s, nh);
        lemma_plus_comm(s, nh);
        lemma_plus_assoc(c, nh, s);
        // now (c + s) + nh == (c + nh) + s
        lemma_plus_assoc(c.plus(nh), s, m);
        lemma_plus_comm(s, m);
        lemma_plus_assoc(c.plus(nh), m, s);
        // now ((c + nh) + s) + m == ((c + nh) + m) + s
    }
    lemma_plus_congr(p0, p0, s, s);
    lemma_eqv_trans(p1, c.plus(s).minus(h).plus(m), p0.plus(s));
    // distributivity: p0 + p0 * q == p0 * (1 + q)
    assert(p0.plus(s).eqv(p0.times(one.plus(q)))) by (nonlinear_arith)
        requires
            p0.d > 0,
            q.d > 0,
            s == p0.times(q),
            one == Rat::whole(1),
    ;
    // 1 + delta/z0 == (z0 + delta) / z0
    assert(one.plus(q).eqv(z1.over(z0))) by (nonlinear_arith)
        requires
            z0.d > 0,
            z0.n > 0,
            delta.d > 0,
            q == delta.over(z0),
            z1 == z0.plus(delta),
            one == Rat::whole(1),
    ;
    lemma_times_congr(p0, p0, one.plus(q), z1.over(z0));
    assert(p0.times(one.plus(q)).wf()) by (nonlinear_arith)
        requires
            p0.d > 0,
            q.d > 0,
            one == Rat::whole(1),
    ;
    lemma_eqv_trans(p0.plus(s), p0.times(one.plus(q)), p0.times(z1.over(z0)));
    lemma_eqv_trans(p1, p0.plus(s), p0.times(z1.over(z0)));
    // divide both sides by z1
    lemma_over_congr(p1, p0.times(z1.over(z0)), z1, z1);
    // cancellation: (p0 * (z1 / z0)) / z1 == p0 / z0
    assert(p0.times(z1.over(z0)).over(z1).eqv(p0.over(z0)) && p0.times(z1.over(z0)).over(
        z1,
    ).wf()) by (nonlinear_arith)
        requires
            p0.d > 0,
            z0.d > 0,
            z0.n > 0,
            z1.d > 0,
            z1.n > 0,
    ;
    lemma_eqv_trans(p1.over(z1), p0.times(z1.over(z0)).over(z1), p0.over(z0));
}

/// ANCHOR INVARIANT. For any well-formed state, viewport and accepted zoom
/// that left the image larger than the viewport (the free-pan branch of
/// `add_zoom`), the image-space coordinate under the cursor before the call
/// equals the one under the cursor after the call — exactly, on both axes.
pub proof fn lemma_zoom_anchor(
    pre: ImageState,
    post: ImageState,
    delta: Frac,
    vp: Size,
    scroll: Vec2,
)
    requires
        pre.wf(),
        delta.wf(),
        vp.wf(),
        zoom_applied(pre, post, delta, vp, scroll),
        !fits_in(pre.zoom.rat().plus(delta.rat()), pre.image_size, vp),
    ensures
        ({
            let z0 = pre.zoom.rat();
            let z1 = z0.plus(delta.rat());
            let hx = half_axis(vp.width);
            let hy = half_axis(vp.height);
            &&& image_point(post.center.x.rat(), hx, pre.mouse_pos.x.rat(), z1).eqv(
                image_point(pre.center.x.rat(), hx, pre.mouse_pos.x.rat(), z0),
            )
            &&& image_point(post.center.y.rat(), hy, pre.mouse_pos.y.rat(), z1).eqv(
                image_point(pre.center.y.rat(), hy, pre.mouse_pos.y.rat(), z0),
            )
        }),
{
    let z0 = pre.zoom.rat();
    let z1 = z0.plus(delta.rat());
    assert(z1.d > 0) by (nonlinear_arith)
        requires
            pre.zoom.den > 0,
            delta.den > 0,
            z1 == pre.zoom.rat().plus(delta.rat()),
    ;
    // the new zoom is positive: it sits at or above the positive floor
    assert(z1.n > 0) by (nonlinear_arith)
        requires
            pre.min_zoom.num > 0,
            pre.min_zoom.den > 0,
            z1.d > 0,
            pre.min_zoom.rat().le(z1),
            pre.min_zoom.rat() == (Rat { n: pre.min_zoom.num as int, d: pre.min_zoom.den as int }),
    ;
    assert(half_axis(vp.width).wf() && half_axis(vp.height).wf());
    lemma_anchor_axis(
        pre.center.x.rat(),
        half_axis(vp.width),
        pre.mouse_pos.x.rat(),
        z0,
        delta.rat(),
        post.center.x.rat(),
    );
    lemma_anchor_axis(
        pre.center.y.rat(),
        half_axis(vp.height),
        pre.mouse_pos.y.rat(),
        z0,
        delta.rat(),
        post.center.y.rat(),
    );
}

/// RECONCILIATION IDEMPOTENCE. The center that
/// `sync_center_from_scroll_offset` computes is a function of the scroll
/// offset and the viewport size alone; running the reconciliation a second
/// time with the same arguments leaves the center exactly as it was.
pub proof fn lemma_sync_idempotent(c0: Vec2, c1: Vec2, c2: Vec2, offset: Vec2, vp: Size)
    requires
        sync_center_post(c0, c1, offset, vp),
        sync_center_post(c1, c2, offset, vp),
    ensures
        c2 == c1,
{
}

} // verus!
