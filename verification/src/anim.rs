//! Named entrance animations: `anim="rise|fade|pop"`, and their easing curves.
//!
//! Every animation is an entrance: it plays over the first frames of the
//! element's resolved span and then holds at identity for the rest. All values
//! are exact fractions, so that every worker computes the same curve.

use vstd::prelude::*;

use crate::scene::AnimKind;

verus! {

/// `num / den`.
#[derive(Debug, Clone, Copy, PartialEq, Eq, Structural)]
pub struct Ratio {
    pub num: i128,
    pub den: i128,
}

/// Per-frame presentation offset, applied about the rect's centre: pixels and
/// a scale factor.
#[derive(Debug, Clone, Copy, PartialEq, Eq, Structural)]
pub struct Transform {
    pub dx: Ratio,
    pub dy: Ratio,
    pub scale: Ratio,
}

/// An animation never takes more than this many frames (half a second at 30
/// frames per second).
pub const ENTRANCE_CAP_FRAMES: u32 = 15;

/// Pixels a `rise` travels while coming in.
pub const RISE_TRAVEL_PX: i128 = 64;

pub open spec fn whole(n: int) -> Ratio {
    Ratio { num: n as i128, den: 1 }
}

pub open spec fn identity() -> Transform {
    Transform { dx: whole(0), dy: whole(0), scale: whole(1) }
}

impl Ratio {
    pub open spec fn is(self, n: int) -> bool {
        self.den > 0 && self.num == n * self.den
    }

    /// Between zero and one.
    pub open spec fn is_portion(self) -> bool {
        self.den > 0 && 0 <= self.num <= self.den
    }
}

impl Transform {
    pub open spec fn settled(self) -> bool {
        self.dx.is(0) && self.dy.is(0) && self.scale.is(1)
    }

    /// No offset and no scaling.
    pub fn is_identity(self) -> (r: bool)
        ensures
            r == self.settled(),
    {
        self.dx.den > 0 && self.dx.num == 0 && self.dy.den > 0 && self.dy.num == 0
            && self.scale.den > 0 && self.scale.num == self.scale.den
    }
}

/// The numerator of `t`, clamped so that the fraction lies in `0..=1`.
pub open spec fn clamped(t: Ratio) -> int {
    if t.num < 0 {
        0
    } else if t.num > t.den {
        t.den as int
    } else {
        t.num as int
    }
}

/// `1 - (1 - t)^3`.
pub open spec fn out_cubic(p: int, q: int) -> (int, int) {
    (q * q * q - (q - p) * (q - p) * (q - p), q * q * q)
}

/// `t^2 (3 - 2t)`.
pub open spec fn in_out(p: int, q: int) -> (int, int) {
    (p * p * (3 * q - 2 * p), q * q * q)
}

/// `1 + c3 (t - 1)^3 + c1 (t - 1)^2` with `c1 = 1.70158` and `c3 = c1 + 1`.
pub open spec fn out_back(p: int, q: int) -> (int, int) {
    (
        100000 * (q * q * q) - 270158 * ((q - p) * (q - p) * (q - p)) + 170158 * ((q - p) * (q - p)
            * q),
        100000 * (q * q * q),
    )
}

proof fn lemma_cubes(p: int, q: int)
    requires
        0 <= p <= q <= u32::MAX,
    ensures
        0 <= p * p <= 0xffff_ffff * 0xffff_ffff,
        0 <= p * p * p <= q * q * q,
        q * q * q <= 0xffff_ffff * 0xffff_ffff * 0xffff_ffff,
        0 <= p * p * q <= q * q * q,
        q > 0 ==> q * q * q > 0,
{
    assert(0 <= p * p <= q * q) by (nonlinear_arith)
        requires
            0 <= p <= q,
    ;
    assert(q * q <= 0xffff_ffff * 0xffff_ffff) by (nonlinear_arith)
        requires
            0 <= q <= 0xffff_ffff,
    ;
    let a = p * p;
    let b = q * q;
    assert(0 <= a * p <= b * q) by (nonlinear_arith)
        requires
            0 <= a <= b,
            0 <= p <= q,
    ;
    assert(0 <= a * q <= b * q) by (nonlinear_arith)
        requires
            0 <= a <= b,
            0 <= q,
    ;
    assert(b * q <= 0xffff_ffff * 0xffff_ffff * 0xffff_ffff) by (nonlinear_arith)
        requires
            0 <= b <= 0xffff_ffff * 0xffff_ffff,
            0 <= q <= 0xffff_ffff,
    ;
    if q > 0 {
        assert(q * q * q > 0) by (nonlinear_arith)
            requires
                q > 0,
        ;
    }
}

fn clamp(t: Ratio) -> (r: i128)
    requires
        t.den > 0,
    ensures
        r == clamped(t),
        0 <= r <= t.den,
{
    if t.num < 0 {
        0
    } else if t.num > t.den {
        t.den
    } else {
        t.num
    }
}

/// Decelerating approach: fast start, settles into place.
pub fn ease_out_cubic(t: Ratio) -> (r: Ratio)
    requires
        0 < t.den <= u32::MAX,
    ensures
        (r.num as int, r.den as int) == out_cubic(clamped(t), t.den as int),
        r.is_portion(),
{
    let p = clamp(t);
    let q = t.den;
    let u: i128 = q - p;
    proof {
        lemma_cubes(u as int, q as int);
        lemma_cubes(q as int, q as int);
    }
    Ratio { num: q * q * q - u * u * u, den: q * q * q }
}

/// Gentle ramp in both directions, the fade curve.
pub fn ease_in_out(t: Ratio) -> (r: Ratio)
    requires
        0 < t.den <= u32::MAX,
    ensures
        (r.num as int, r.den as int) == in_out(clamped(t), t.den as int),
        r.is_portion(),
{
    let p = clamp(t);
    let q = t.den;
    let u: i128 = q - p;
    let w: i128 = 3 * q - 2 * p;
    proof {
        lemma_cubes(p as int, q as int);
        lemma_cubes(u as int, q as int);
        lemma_cubes(q as int, q as int);
        let (pi, qi) = (p as int, q as int);
        // q^3 - p^2 (3q - 2p) = (q - p)^2 (q + 2p)
        assert(pi * pi * (3 * qi - 2 * pi) == qi * qi * qi - (qi - pi) * (qi - pi) * (qi + 2 * pi))
            by (nonlinear_arith);
        assert((qi - pi) * (qi - pi) >= 0) by (nonlinear_arith);
        let sq = (qi - pi) * (qi - pi);
        assert(sq * (qi + 2 * pi) >= 0) by (nonlinear_arith)
            requires
                sq >= 0,
                qi + 2 * pi >= 0,
        ;
        let pp = pi * pi;
        let wi = 3 * qi - 2 * pi;
        assert(pp * wi >= 0) by (nonlinear_arith)
            requires
                pp >= 0,
                wi >= 0,
        ;
    }
    Ratio { num: p * p * w, den: q * q * q }
}

/// Overshoot and settle: passes one, then comes back. Both ends are exact.
pub fn ease_out_back(t: Ratio) -> (r: Ratio)
    requires
        0 < t.den <= u32::MAX,
    ensures
        (r.num as int, r.den as int) == out_back(clamped(t), t.den as int),
        r.den > 0,
        clamped(t) == 0 ==> r.is(0),
        clamped(t) == t.den ==> r.is(1),
{
    let p = clamp(t);
    let q = t.den;
    let u: i128 = q - p;
    proof {
        lemma_cubes(u as int, q as int);
        lemma_cubes(q as int, q as int);
    }
    proof {
        if u == 0 {
            assert(u * u * u == 0 && u * u * q == 0) by (nonlinear_arith)
                requires
                    u == 0,
            ;
        }
    }
    let q3: i128 = q * q * q;
    let u3: i128 = u * u * u;
    let u2: i128 = u * u * q;
    Ratio { num: 100000 * q3 - 270158 * u3 + 170158 * u2, den: 100000 * q3 }
}

/// Frames the entrance occupies: the shorter of the cap and the element's own
/// span, at least one.
pub open spec fn entrance(span_len: u32) -> u32 {
    if span_len < 1 {
        1
    } else if span_len > ENTRANCE_CAP_FRAMES {
        ENTRANCE_CAP_FRAMES
    } else {
        span_len
    }
}

pub fn entrance_frames(span_len: u32) -> (r: u32)
    ensures
        r == entrance(span_len),
        1 <= r <= ENTRANCE_CAP_FRAMES,
{
    if span_len < 1 {
        1
    } else if span_len > ENTRANCE_CAP_FRAMES {
        ENTRANCE_CAP_FRAMES
    } else {
        span_len
    }
}

pub open spec fn least(a: int, b: int) -> int {
    if a <= b {
        a
    } else {
        b
    }
}

pub open spec fn ratio(p: (int, int)) -> Ratio {
    Ratio { num: p.0 as i128, den: p.1 as i128 }
}

/// Opacity and transform at progress `p / q` of an entrance.
pub open spec fn presented(kind: AnimKind, p: int, q: int) -> (Ratio, Transform) {
    match kind {
        AnimKind::Fade => (ratio(in_out(p, q)), identity()),
        AnimKind::Rise => (
            // The fade leads the travel: 1.6 t, at most one.
            ratio((least(8 * p, 5 * q), 5 * q)),
            Transform {
                dy: ratio(
                    (
                        RISE_TRAVEL_PX * (out_cubic(p, q).1 - out_cubic(p, q).0),
                        out_cubic(p, q).1,
                    ),
                ),
                ..identity()
            },
        ),
        AnimKind::Pop => (
            ratio((least(2 * p, q), q)),
            Transform {
                // From seven tenths to one.
                scale: ratio(
                    (7 * out_back(p, q).1 + 3 * out_back(p, q).0, 10 * out_back(p, q).1),
                ),
                ..identity()
            },
        ),
    }
}

/// The progress of an entrance at a frame of a span.
pub open spec fn progress(local_frame: u32, len: u32) -> int {
    least(local_frame as int, entrance(len) as int)
}

/// Opacity and transform at `local_frame` within a span of `len` frames.
pub open spec fn animated(kind: AnimKind, local_frame: u32, len: u32) -> (Ratio, Transform) {
    presented(kind, progress(local_frame, len), entrance(len) as int)
}

/// Evaluate an animation at `local_frame` within a span of `len` frames:
/// opacity, which multiplies the element's, and transform.
pub fn evaluate(kind: AnimKind, local_frame: u32, len: u32) -> (r: (Ratio, Transform))
    ensures
        r == animated(kind, local_frame, len),
        r.0.is_portion(),
{
    let q: u32 = entrance_frames(len);
    let p: u32 = if local_frame <= q {
        local_frame
    } else {
        q
    };
    let t = Ratio { num: p as i128, den: q as i128 };
    let zero = Ratio { num: 0, den: 1 };
    let one = Ratio { num: 1, den: 1 };
    proof {
        lemma_cubes(p as int, q as int);
        lemma_cubes((q - p) as int, q as int);
        lemma_small(q as int);
    }
    match kind {
        AnimKind::Fade => (ease_in_out(t), Transform { dx: zero, dy: zero, scale: one }),
        AnimKind::Rise => {
            let e = ease_out_cubic(t);
            let a: i128 = 8 * (p as i128);
            let b: i128 = 5 * (q as i128);
            let opacity = Ratio {
                num: if a <= b {
                    a
                } else {
                    b
                },
                den: b,
            };
            let dy = Ratio { num: RISE_TRAVEL_PX * (e.den - e.num), den: e.den };
            (opacity, Transform { dx: zero, dy, scale: one })
        },
        AnimKind::Pop => {
            let e = ease_out_back(t);
            let a: i128 = 2 * (p as i128);
            let b: i128 = q as i128;
            let opacity = Ratio {
                num: if a <= b {
                    a
                } else {
                    b
                },
                den: b,
            };
            let scale = Ratio { num: 7 * e.den + 3 * e.num, den: 10 * e.den };
            (opacity, Transform { dx: zero, dy: zero, scale })
        },
    }
}

proof fn lemma_small(q: int)
    requires
        0 <= q <= 15,
    ensures
        q * q * q <= 3375,
{
    assert(q * q * q <= 15 * 15 * 15) by (nonlinear_arith)
        requires
            0 <= q <= 15,
    ;
}

/// Once its entrance is over, an animation is gone: full opacity and no
/// transform, for the rest of the span.
pub proof fn entrance_settles(kind: AnimKind, local_frame: u32, len: u32)
    requires
        local_frame >= entrance(len),
    ensures
        animated(kind, local_frame, len).0.is(1),
        animated(kind, local_frame, len).1.settled(),
{
    let q = entrance(len) as int;
    lemma_cubes(q, q);
    lemma_small(q);
    assert(q * q * (3 * q - 2 * q) == q * q * q) by (nonlinear_arith);
    assert((q - q) * (q - q) * (q - q) == 0) by (nonlinear_arith);
    assert((q - q) * (q - q) * q == 0) by (nonlinear_arith);
}

/// Every entrance starts from nothing: its first frame has no opacity.
pub proof fn entrance_starts_hidden(kind: AnimKind, len: u32)
    ensures
        animated(kind, 0, len).0.is(0),
{
    let q = entrance(len) as int;
    lemma_cubes(q, q);
    lemma_small(q);
    assert(0 * 0 * (3 * q - 2 * 0) == 0) by (nonlinear_arith);
}

} // verus!
