//! What a cut is: a score that stands out from the footage around it.

use vstd::prelude::*;

use crate::scene::Rational;

verus! {

/// How many values lie below `m`.
pub open spec fn below(s: Seq<u64>, m: u64) -> int
    decreases s.len(),
{
    if s.len() == 0 {
        0
    } else {
        below(s.drop_last(), m) + if s.last() < m {
            1int
        } else {
            0int
        }
    }
}

/// How many values lie above `m`.
pub open spec fn above(s: Seq<u64>, m: u64) -> int
    decreases s.len(),
{
    if s.len() == 0 {
        0
    } else {
        above(s.drop_last(), m) + if s.last() > m {
            1int
        } else {
            0int
        }
    }
}

/// The upper median: a value with at most half of the others below it and
/// less than half above it.
pub open spec fn is_median(s: Seq<u64>, m: u64) -> bool {
    &&& s.contains(m)
    &&& 2 * below(s, m) <= s.len()
    &&& 2 * above(s, m) < s.len()
}

/// How far each value lies from `m`.
pub open spec fn gaps(s: Seq<u64>, m: u64) -> Seq<u64> {
    Seq::new(
        s.len(),
        |i: int|
            if s[i] < m {
                (m - s[i]) as u64
            } else {
                (s[i] - m) as u64
            },
    )
}

/// Frame `f` may be a cut: the score before it exceeds eight, and the median
/// `m` by more than six times the median gap `d`.
pub open spec fn stands_out(s: Seq<u64>, scale: u64, m: u64, d: u64, f: int) -> bool {
    1 <= f <= s.len() && s[f - 1] > 8 * scale && s[f - 1] > m + 6 * d
}

/// Two frames lie less than the shortest shot apart.
pub open spec fn near(f: int, g: int, fps: Rational, min_shot_ms: u32) -> bool {
    let apart = if f <= g {
        g - f
    } else {
        f - g
    };
    apart * 1000 * fps.denominator < min_shot_ms * fps.numerator
}

/// `g` takes the place of `f`: it is near and stronger, or as strong and
/// earlier.
pub open spec fn outdoes(
    s: Seq<u64>,
    g: int,
    f: int,
    fps: Rational,
    min_shot_ms: u32,
) -> bool {
    near(f, g, fps, min_shot_ms) && (s[g - 1] > s[f - 1] || g < f && s[g - 1] == s[f - 1])
}

// Medians.

proof fn lemma_put_counts(s: Seq<u64>, x: u64, m: u64)
    ensures
        below(crate::shots::put(s, x), m) == below(s, m) + if x < m {
            1int
        } else {
            0int
        },
        above(crate::shots::put(s, x), m) == above(s, m) + if x > m {
            1int
        } else {
            0int
        },
    decreases s.len(),
{
    let p = crate::shots::put(s, x);
    if s.len() == 0 || s.last() <= x {
        assert(p.drop_last() =~= s);
    } else {
        lemma_put_counts(s.drop_last(), x, m);
        assert(p.drop_last() =~= crate::shots::put(s.drop_last(), x));
    }
}

proof fn lemma_sorted_counts(s: Seq<u64>, m: u64)
    ensures
        below(crate::shots::ascending(s), m) == below(s, m),
        above(crate::shots::ascending(s), m) == above(s, m),
    decreases s.len(),
{
    if s.len() > 0 {
        lemma_sorted_counts(s.drop_last(), m);
        lemma_put_counts(crate::shots::ascending(s.drop_last()), s.last(), m);
    }
}

/// The first `k` values may lie below, and no others.
proof fn lemma_below_at_most(s: Seq<u64>, m: u64, k: int)
    requires
        0 <= k,
        forall|i: int| k <= i < s.len() ==> #[trigger] s[i] >= m,
    ensures
        0 <= below(s, m) <= k,
        below(s, m) <= s.len(),
    decreases s.len(),
{
    if s.len() > 0 {
        let rest = s.drop_last();
        if s.len() <= k {
            lemma_below_at_most(rest, m, k - 1);
        } else {
            lemma_below_at_most(rest, m, k);
        }
    }
}

/// The values after the first `k` may lie above, and no others.
proof fn lemma_above_at_most(s: Seq<u64>, m: u64, k: int)
    requires
        0 <= k <= s.len(),
        forall|i: int| 0 <= i < k ==> #[trigger] s[i] <= m,
    ensures
        0 <= above(s, m) <= s.len() - k,
    decreases s.len(),
{
    if s.len() > 0 {
        let rest = s.drop_last();
        if s.len() == k {
            lemma_above_at_most(rest, m, k - 1);
        } else {
            lemma_above_at_most(rest, m, k);
        }
    }
}

proof fn lemma_median_is(s: Seq<u64>)
    requires
        s.len() > 0,
    ensures
        is_median(s, crate::shots::median(s)),
{
    broadcast use vstd::seq_lib::group_to_multiset_ensures;

    let a = crate::shots::ascending(s);
    let k = s.len() as int / 2;
    let m = a[k];
    crate::shots::ascending_is_sorted(s);
    lemma_sorted_counts(s, m);
    lemma_below_at_most(a, m, k);
    lemma_above_at_most(a, m, k + 1);
    assert(a.to_multiset().contains(m));
    assert(s.contains(m));
}

/// All that lies below the smaller of two values, or above the greater, and
/// the values themselves.
proof fn lemma_between(s: Seq<u64>, m: u64, n: u64)
    requires
        m < n,
    ensures
        below(s, n) + above(s, m) >= s.len(),
        below(s, n) >= below(s, m),
    decreases s.len(),
{
    if s.len() > 0 {
        lemma_between(s.drop_last(), m, n);
    }
}

/// A list has one median, and it is there to be found.
pub proof fn medians_are_unique(s: Seq<u64>)
    requires
        s.len() > 0,
    ensures
        exists|m: u64| is_median(s, m),
        forall|m: u64, n: u64| #[trigger] is_median(s, m) && #[trigger] is_median(s, n) ==> m == n,
{
    lemma_median_is(s);
    assert forall|m: u64, n: u64| #[trigger] is_median(s, m) && #[trigger] is_median(
        s,
        n,
    ) implies m == n by {
        if m < n {
            lemma_between(s, m, n);
        } else if n < m {
            lemma_between(s, n, m);
        }
    }
}

// Cuts.

/// Frames that stand out among the first `n` are kept or outdone.
proof fn lemma_spikes_kept(s: Seq<u64>, t: int, fps: Rational, min_shot_ms: u32, n: int)
    requires
        s.len() <= u64::MAX,
        0 <= n <= s.len(),
    ensures
        ({
            let k = crate::shots::spikes(s, t, fps, min_shot_ms, n);
            &&& forall|i: int|
                0 <= i < k.len() ==> 1 <= (#[trigger] k[i]).frame <= n && k[i].score == s[k[i].frame
                    - 1] && k[i].score > t
            &&& forall|f: int|
                1 <= f <= n && #[trigger] s[f - 1] > t ==> kept(k, f) || exists|g: int|
                    1 <= g <= n && s[g - 1] > t && #[trigger] outdoes(s, g, f, fps, min_shot_ms)
        }),
    decreases n,
{
    if n > 0 {
        lemma_spikes_kept(s, t, fps, min_shot_ms, n - 1);
        let before = crate::shots::spikes(s, t, fps, min_shot_ms, n - 1);
        let after = crate::shots::spikes(s, t, fps, min_shot_ms, n);
        assert forall|f: int| 1 <= f <= n && #[trigger] s[f - 1] > t implies kept(after, f)
            || exists|g: int|
            1 <= g <= n && s[g - 1] > t && #[trigger] outdoes(s, g, f, fps, min_shot_ms) by {
            if f == n {
                if after.len() > 0 && after.last().frame == n {
                    assert(after[after.len() - 1].frame == f);
                } else {
                    let g = before.last().frame as int;
                    assert(before[before.len() - 1].frame == g);
                    assert(outdoes(s, g, f, fps, min_shot_ms));
                }
            } else if kept(before, f) {
                let i = choose|i: int| 0 <= i < before.len() && (#[trigger] before[i]).frame == f;
                if i < after.len() && after[i] == before[i] {
                    assert(after[i].frame == f);
                } else {
                    assert(i == before.len() - 1);
                    assert(s[n - 1] > t);
                    assert(outdoes(s, n, f, fps, min_shot_ms));
                }
            } else {
                let g = choose|g: int|
                    1 <= g <= n - 1 && s[g - 1] > t && #[trigger] outdoes(
                        s,
                        g,
                        f,
                        fps,
                        min_shot_ms,
                    );
                assert(outdoes(s, g, f, fps, min_shot_ms));
            }
        }
        assert forall|i: int| 0 <= i < after.len() implies 1 <= (#[trigger] after[i]).frame <= n
            && after[i].score == s[after[i].frame - 1] && after[i].score > t by {
            if i < before.len() && after[i] == before[i] {
            }
        }
    }
}

spec fn kept(k: Seq<crate::shots::Spike>, f: int) -> bool {
    exists|i: int| 0 <= i < k.len() && (#[trigger] k[i]).frame == f
}

/// A cut is called exactly at frames that stand out, by the median `m` of the
/// scores and the median `d` of their gaps to it; a frame that stands out and
/// is no cut is outdone by another that stands out.
pub proof fn cuts_stand_out(
    s: Seq<u64>,
    scale: u64,
    fps: Rational,
    min_shot_ms: u32,
    m: u64,
    d: u64,
)
    requires
        2 <= s.len() <= u64::MAX,
        fps.numerator > 0,
        fps.denominator > 0,
        is_median(s, m),
        is_median(gaps(s, m), d),
    ensures
        ({
            let c = crate::shots::cut_frames(s, scale, fps, min_shot_ms);
            &&& forall|i: int|
                0 <= i < c.len() ==> stands_out(s, scale, m, d, #[trigger] c[i] as int)
            &&& forall|i: int, j: int|
                0 <= i < j < c.len() ==> #[trigger] c[i] < #[trigger] c[j] && !near(
                    c[i] as int,
                    c[j] as int,
                    fps,
                    min_shot_ms,
                )
            &&& forall|f: int| #[trigger]
                stands_out(s, scale, m, d, f) ==> c.contains(f as u64) || exists|g: int|
                    stands_out(s, scale, m, d, g) && #[trigger] outdoes(
                        s,
                        g,
                        f,
                        fps,
                        min_shot_ms,
                    )
        }),
{
    medians_are_unique(s);
    lemma_median_is(s);
    assert(m == crate::shots::median(s));
    let dev = gaps(s, m);
    assert(dev =~= crate::shots::deviations(s));
    medians_are_unique(dev);
    lemma_median_is(dev);
    assert(d == crate::shots::median(dev));
    let t = crate::shots::threshold(s, scale);
    let k = crate::shots::spikes(s, t, fps, min_shot_ms, s.len() as int);
    let c = crate::shots::cut_frames(s, scale, fps, min_shot_ms);
    lemma_spikes_kept(s, t, fps, min_shot_ms, s.len() as int);
    crate::shots::cuts_are_spaced(s, scale, fps, min_shot_ms);
    assert forall|f: int| #[trigger] stands_out(s, scale, m, d, f) implies c.contains(f as u64)
        || exists|g: int|
        stands_out(s, scale, m, d, g) && #[trigger] outdoes(s, g, f, fps, min_shot_ms) by {
        assert(s[f - 1] > t);
        if kept(k, f) {
            let i = choose|i: int| 0 <= i < k.len() && (#[trigger] k[i]).frame == f;
            assert(c[i] == f as u64);
        } else {
            let g = choose|g: int|
                1 <= g <= s.len() && s[g - 1] > t && #[trigger] outdoes(
                    s,
                    g,
                    f,
                    fps,
                    min_shot_ms,
                );
            assert(stands_out(s, scale, m, d, g));
        }
    }
    assert forall|i: int, j: int| 0 <= i < j < c.len() implies #[trigger] c[i] < #[trigger] c[j]
        && !near(c[i] as int, c[j] as int, fps, min_shot_ms) by {
        assert(!crate::shots::too_close(c[i], c[j], fps, min_shot_ms));
    }
}

/// How many values equal `v`.
pub open spec fn equals(s: Seq<u64>, v: u64) -> int
    decreases s.len(),
{
    if s.len() == 0 {
        0
    } else {
        equals(s.drop_last(), v) + if s.last() == v {
            1int
        } else {
            0int
        }
    }
}

proof fn lemma_parts(s: Seq<u64>, v: u64)
    ensures
        below(s, v) + equals(s, v) + above(s, v) == s.len(),
        0 <= below(s, v),
        0 <= equals(s, v),
        0 <= above(s, v),
        equals(s, v) > 0 ==> s.contains(v),
    decreases s.len(),
{
    if s.len() > 0 {
        lemma_parts(s.drop_last(), v);
        if s.last() == v {
            assert(s[s.len() - 1] == v);
        } else if equals(s, v) > 0 {
            let i = choose|i: int| 0 <= i < s.drop_last().len() && s.drop_last()[i] == v;
            assert(s[i] == v);
        }
    }
}

proof fn lemma_gap_zero(s: Seq<u64>, v: u64, full: Seq<u64>)
    requires
        full =~= gaps(s, v),
    ensures
        equals(full, 0) == equals(s, v),
    decreases s.len(),
{
    if s.len() > 0 {
        lemma_gap_zero(s.drop_last(), v, full.drop_last());
    }
}

/// Spikes do not hide themselves: where more than half of the scores are one
/// and the same and no more than eight, every score above eight stands out,
/// and is a cut unless another outdoes it.
pub proof fn spikes_in_still_footage_are_cuts(
    s: Seq<u64>,
    scale: u64,
    fps: Rational,
    min_shot_ms: u32,
    v: u64,
    f: int,
)
    requires
        2 <= s.len() <= u64::MAX,
        fps.numerator > 0,
        fps.denominator > 0,
        2 * equals(s, v) > s.len(),
        v <= 8 * scale,
        1 <= f <= s.len(),
        s[f - 1] > 8 * scale,
    ensures
        crate::shots::cut_frames(s, scale, fps, min_shot_ms).contains(f as u64) || exists|g: int|
            1 <= g <= s.len() && s[g - 1] > 8 * scale && #[trigger] outdoes(
                s,
                g,
                f,
                fps,
                min_shot_ms,
            ),
{
    lemma_parts(s, v);
    assert(is_median(s, v));
    let dev = gaps(s, v);
    lemma_gap_zero(s, v, dev);
    lemma_parts(dev, 0);
    assert(is_median(dev, 0));
    cuts_stand_out(s, scale, fps, min_shot_ms, v, 0);
    assert(stands_out(s, scale, v, 0, f));
}

// Frame differences.

proof fn lemma_difference(a: Seq<u8>, b: Seq<u8>, n: int)
    requires
        0 <= n <= a.len(),
        a.len() == b.len(),
    ensures
        crate::shots::difference(a, b, n) == crate::shots::difference(b, a, n),
        crate::shots::difference(a, b, n) >= 0,
        crate::shots::difference(a, b, n) == 0 <==> (forall|i: int|
            0 <= i < n ==> #[trigger] a[i] == b[i]),
    decreases n,
{
    if n > 0 {
        lemma_difference(a, b, n - 1);
    }
}

/// The difference of two frames is the same either way round, nothing exactly
/// where they are the same, and grows by what a further byte differs.
pub proof fn differences_add_up(a: Seq<u8>, b: Seq<u8>, x: u8, y: u8)
    requires
        a.len() == b.len(),
    ensures
        crate::shots::difference(a, b, a.len() as int) == crate::shots::difference(
            b,
            a,
            a.len() as int,
        ),
        crate::shots::difference(a, b, a.len() as int) == 0 <==> a == b,
        crate::shots::difference(a.push(x), b.push(y), (a.len() + 1) as int) == crate::shots::difference(
            a,
            b,
            a.len() as int,
        ) + if x < y {
            y - x
        } else {
            x - y
        },
{
    lemma_difference(a, b, a.len() as int);
    lemma_difference_prefix(a, b, x, y, a.len() as int);
    if crate::shots::difference(a, b, a.len() as int) == 0 {
        assert(a =~= b);
    }
}

proof fn lemma_difference_prefix(a: Seq<u8>, b: Seq<u8>, x: u8, y: u8, n: int)
    requires
        0 <= n <= a.len(),
        a.len() == b.len(),
    ensures
        crate::shots::difference(a.push(x), b.push(y), n) == crate::shots::difference(a, b, n),
    decreases n,
{
    if n > 0 {
        lemma_difference_prefix(a, b, x, y, n - 1);
    }
}

} // verus!
