//! How each entrance looks, frame by frame.

use vstd::prelude::*;

use crate::anim::Ratio;
use crate::scene::AnimKind;

verus! {

/// The fraction `num / den`.
pub open spec fn equals(r: Ratio, num: int, den: int) -> bool {
    r.den > 0 && den > 0 && r.num * den == num * r.den
}

/// The frames that an entrance takes: those of its element, but no more than
/// fifteen.
pub open spec fn steps(len: u32) -> int {
    if len == 0 {
        1
    } else if len < 15 {
        len as int
    } else {
        15
    }
}

/// The frames of the entrance that are behind at a frame.
pub open spec fn done(frame: u32, len: u32) -> int {
    if frame < steps(len) {
        frame as int
    } else {
        steps(len)
    }
}

proof fn lemma_cube(p: int, q: int)
    requires
        0 <= p <= q,
        0 < q <= 15,
    ensures
        0 < q * q * q <= 3375,
        0 <= p * p * p <= q * q * q,
        0 <= (q - p) * (q - p) * (q - p) <= q * q * q,
        0 <= (q - p) * (q - p) * q <= q * q * q,
        0 <= p * p * (3 * q - 2 * p) <= 3 * 3375,
{
    assert(0 < q * q <= 225) by (nonlinear_arith)
        requires
            0 < q <= 15,
    ;
    assert(0 <= p * p <= q * q) by (nonlinear_arith)
        requires
            0 <= p <= q,
    ;
    let r = q - p;
    assert(0 <= r * r <= q * q) by (nonlinear_arith)
        requires
            0 <= r <= q,
    ;
    lemma_product(q * q, q, q * q, q, 225);
    lemma_product(p * p, p, q * q, q, 225);
    lemma_product(r * r, r, q * q, q, 225);
    lemma_product(r * r, q, q * q, q, 225);
    let w = 3 * q - 2 * p;
    let s = p * p;
    assert(0 <= s * w <= 225 * 45) by (nonlinear_arith)
        requires
            0 <= s <= 225,
            0 <= w <= 45,
    ;
}

proof fn lemma_product(a: int, b: int, c: int, d: int, top: int)
    requires
        0 <= a <= c <= top,
        0 <= b <= d <= 15,
    ensures
        0 <= a * b <= c * d <= top * 15,
        a > 0 && b > 0 ==> a * b > 0,
{
    assert(0 <= a * b <= c * d <= top * 15) by (nonlinear_arith)
        requires
            0 <= a <= c <= top,
            0 <= b <= d <= 15,
    ;
    if a > 0 && b > 0 {
        assert(a * b > 0) by (nonlinear_arith)
            requires
                a > 0,
                b > 0,
        ;
    }
}

/// Fading in changes nothing but the opacity, which follows `t^2 (3 - 2t)`.
pub proof fn fades_only_fade(frame: u32, len: u32)
    ensures
        ({
            let (opacity, t) = crate::anim::animated(AnimKind::Fade, frame, len);
            let p = done(frame, len);
            let q = steps(len);
            &&& equals(opacity, p * p * (3 * q - 2 * p), q * q * q)
            &&& equals(t.dx, 0, 1) && equals(t.dy, 0, 1) && equals(t.scale, 1, 1)
        }),
{
    let p = done(frame, len);
    let q = steps(len);
    lemma_cube(p, q);
}

/// Rising comes from 64 pixels below, `64 (1 - t)^3` of them left, and is
/// fully there after five eighths of its time.
pub proof fn rises_come_from_below(frame: u32, len: u32)
    ensures
        ({
            let (opacity, t) = crate::anim::animated(AnimKind::Rise, frame, len);
            let p = done(frame, len);
            let q = steps(len);
            &&& 8 * p <= 5 * q ==> equals(opacity, 8 * p, 5 * q)
            &&& 8 * p >= 5 * q ==> equals(opacity, 1, 1)
            &&& equals(t.dy, 64 * ((q - p) * (q - p) * (q - p)), q * q * q)
            &&& equals(t.dx, 0, 1) && equals(t.scale, 1, 1)
        }),
{
    let p = done(frame, len);
    let q = steps(len);
    lemma_cube(p, q);
}

/// Popping grows from seven tenths, `0.3 (1 + c3 (t - 1)^3 + c1 (t - 1)^2)`
/// more, with `c1 = 1.70158` and `c3 = c1 + 1`, and is fully there at half of
/// its time.
pub proof fn pops_grow(frame: u32, len: u32)
    ensures
        ({
            let (opacity, t) = crate::anim::animated(AnimKind::Pop, frame, len);
            let p = done(frame, len);
            let q = steps(len);
            let left = q - p;
            &&& 2 * p <= q ==> equals(opacity, 2 * p, q)
            &&& 2 * p >= q ==> equals(opacity, 1, 1)
            &&& equals(
                t.scale,
                1000000 * (q * q * q) - 810474 * (left * left * left) + 510474 * (left * left
                    * q),
                1000000 * (q * q * q),
            )
            &&& equals(t.dx, 0, 1) && equals(t.dy, 0, 1)
        }),
{
    let p = done(frame, len);
    let q = steps(len);
    let left = q - p;
    lemma_cube(p, q);
    let (opacity, t) = crate::anim::animated(AnimKind::Pop, frame, len);
    let q3 = q * q * q;
    let u3 = left * left * left;
    let u2 = left * left * q;
    assert(crate::anim::out_back(p, q) == (
        100000 * q3 - 270158 * u3 + 170158 * u2,
        100000 * q3,
    ));
    let num = 7 * (100000 * q3) + 3 * (100000 * q3 - 270158 * u3 + 170158 * u2);
    let den = 10 * (100000 * q3);
    assert(t.scale.num == num && t.scale.den == den);
    assert(num == 1000000 * q3 - 810474 * u3 + 510474 * u2);
    assert(den == 1000000 * q3);
}

} // verus!
