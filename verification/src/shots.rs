//! Shot detection on thinned-out frames: score each consecutive pair by mean
//! absolute pixel difference and call a cut where the score spikes.
//!
//! Scores are integers over a common scale, so that thresholds are exact.

use vstd::prelude::*;

use crate::scene::Rational;

verus! {

/// A mean: `sum / count`.
#[derive(Debug, Clone, Copy, PartialEq, Eq, Structural)]
pub struct Mean {
    pub sum: u64,
    pub count: u64,
}

pub open spec fn distance(a: u8, b: u8) -> int {
    if a >= b {
        a - b
    } else {
        b - a
    }
}

/// The summed byte differences of the first `n` positions.
pub open spec fn difference(a: Seq<u8>, b: Seq<u8>, n: int) -> int
    decreases n,
{
    if n <= 0 {
        0
    } else {
        difference(a, b, n - 1) + distance(a[n - 1], b[n - 1])
    }
}

/// Mean absolute byte difference between two frames of one size; `None` for
/// mismatched or empty buffers.
pub fn frame_diff(a: &[u8], b: &[u8]) -> (r: Option<Mean>)
    requires
        a@.len() <= 0x00ff_ffff_ffff_ffff,
    ensures
        match r {
            Some(m) => {
                &&& a@.len() == b@.len() > 0
                &&& m.count == a@.len()
                &&& m.sum == difference(a@, b@, a@.len() as int)
                &&& m.sum <= 255 * m.count
            },
            None => a@.len() != b@.len() || a@.len() == 0,
        },
{
    if a.len() != b.len() || a.len() == 0 {
        return None;
    }
    let mut sum: u64 = 0;
    let mut i: usize = 0;
    while i < a.len()
        invariant
            i <= a@.len() == b@.len(),
            a@.len() <= 0x00ff_ffff_ffff_ffff,
            sum == difference(a@, b@, i as int),
            sum <= 255 * i,
        decreases a@.len() - i,
    {
        let d: u8 = if a[i] >= b[i] {
            a[i] - b[i]
        } else {
            b[i] - a[i]
        };
        sum = sum + d as u64;
        i = i + 1;
    }
    Some(Mean { sum, count: a.len() as u64 })
}

// Sorting.

/// `x` put in its place in a sorted list.
pub open spec fn put(s: Seq<u64>, x: u64) -> Seq<u64>
    decreases s.len(),
{
    if s.len() == 0 || s.last() <= x {
        s.push(x)
    } else {
        put(s.drop_last(), x).push(s.last())
    }
}

/// The values in ascending order.
pub open spec fn ascending(s: Seq<u64>) -> Seq<u64>
    decreases s.len(),
{
    if s.len() == 0 {
        s
    } else {
        put(ascending(s.drop_last()), s.last())
    }
}

pub open spec fn is_ascending(s: Seq<u64>) -> bool {
    forall|i: int, j: int| 0 <= i < j < s.len() ==> s[i] <= s[j]
}

proof fn lemma_put(s: Seq<u64>, x: u64)
    ensures
        put(s, x).len() == s.len() + 1,
        put(s, x).to_multiset() == s.to_multiset().insert(x),
        is_ascending(s) ==> is_ascending(put(s, x)),
    decreases s.len(),
{
    broadcast use vstd::seq_lib::group_to_multiset_ensures;

    if s.len() > 0 && s.last() > x {
        let rest = s.drop_last();
        lemma_put(rest, x);
        let head = put(rest, x);
        assert(s =~= rest.push(s.last()));
        assert(rest.to_multiset().insert(x).insert(s.last()) =~= rest.to_multiset().insert(
            s.last(),
        ).insert(x));
        if is_ascending(s) {
            assert(is_ascending(rest));
            assert forall|i: int| 0 <= i < head.len() implies #[trigger] head[i] <= s.last() by {
                assert(head.to_multiset().contains(head[i]));
                if head[i] != x {
                    assert(rest.to_multiset().contains(head[i]));
                    assert(rest.contains(head[i]));
                    let k = choose|k: int| 0 <= k < rest.len() && rest[k] == head[i];
                    assert(s[k] <= s[s.len() - 1]);
                }
            }
        }
    }
}

/// Sorting keeps the values and puts them in order.
pub proof fn ascending_is_sorted(s: Seq<u64>)
    ensures
        ascending(s).len() == s.len(),
        ascending(s).to_multiset() == s.to_multiset(),
        is_ascending(ascending(s)),
    decreases s.len(),
{
    broadcast use vstd::seq_lib::group_to_multiset_ensures;

    if s.len() > 0 {
        ascending_is_sorted(s.drop_last());
        lemma_put(ascending(s.drop_last()), s.last());
        assert(s =~= s.drop_last().push(s.last()));
    }
}

fn insert(s: &mut Vec<u64>, x: u64)
    ensures
        final(s)@ == put(old(s)@, x),
{
    let ghost all = s@;
    let n = s.len();
    let mut i: usize = n;
    assert(all.take(n as int) =~= all);
    assert(put(all.take(n as int), x) + all.skip(n as int) =~= put(all, x));
    while i > 0 && s[i - 1] > x
        invariant
            i <= n == s@.len(),
            s@ == all,
            put(all, x) == put(all.take(i as int), x) + all.skip(i as int),
        decreases i,
    {
        proof {
            let head = all.take(i as int);
            assert(head.last() == all[i - 1]);
            assert(head.drop_last() =~= all.take(i - 1));
            assert(put(all.take(i - 1), x).push(all[i - 1]) + all.skip(i as int) =~= put(
                all.take(i - 1),
                x,
            ) + all.skip(i - 1));
        }
        i = i - 1;
    }
    proof {
        if i > 0 {
            assert(all.take(i as int).last() == all[i - 1]);
        }
        assert(put(all.take(i as int), x) == all.take(i as int).push(x));
    }
    s.insert(i, x);
    assert(s@ =~= all.take(i as int).push(x) + all.skip(i as int));
}

pub fn sort(s: &Vec<u64>) -> (r: Vec<u64>)
    ensures
        r@ == ascending(s@),
{
    let mut out: Vec<u64> = Vec::new();
    let mut i: usize = 0;
    assert(out@ =~= ascending(s@.take(0)));
    while i < s.len()
        invariant
            i <= s@.len(),
            out@ == ascending(s@.take(i as int)),
        decreases s@.len() - i,
    {
        assert(s@.take(i + 1).drop_last() =~= s@.take(i as int));
        insert(&mut out, s[i]);
        i = i + 1;
    }
    assert(s@.take(s@.len() as int) =~= s@);
    out
}

// Cuts.

/// The upper median.
pub open spec fn median(s: Seq<u64>) -> u64 {
    ascending(s)[s.len() as int / 2]
}

pub open spec fn deviations(s: Seq<u64>) -> Seq<u64> {
    let m = median(s);
    Seq::new(
        s.len(),
        |i: int|
            if s[i] >= m {
                (s[i] - m) as u64
            } else {
                (m - s[i]) as u64
            },
    )
}

/// The score that a cut must exceed: the median plus six median deviations,
/// and at least eight, so that static footage never cuts. Spikes do not move
/// it. `scale` is what a score of one counts as.
pub open spec fn threshold(s: Seq<u64>, scale: u64) -> int {
    let t = median(s) + 6 * median(deviations(s));
    if t >= 8 * scale {
        t
    } else {
        8 * scale
    }
}

/// A candidate cut.
#[derive(Debug, Clone, Copy, PartialEq, Eq, Structural)]
pub struct Spike {
    pub frame: u64,
    pub score: u64,
}

/// Whether two frames are less than the minimum shot apart.
pub open spec fn too_close(from: u64, to: u64, fps: Rational, min_shot_ms: u32) -> bool {
    (to - from) * 1000 * fps.denominator < min_shot_ms * fps.numerator
}

/// The spikes of the first `n` scores; of two that are too close the stronger
/// one stays.
pub open spec fn spikes(
    s: Seq<u64>,
    t: int,
    fps: Rational,
    min_shot_ms: u32,
    n: int,
) -> Seq<Spike>
    decreases n,
{
    if n <= 0 || n > s.len() {
        Seq::empty()
    } else {
        let before = spikes(s, t, fps, min_shot_ms, n - 1);
        let this = Spike { frame: n as u64, score: s[n - 1] };
        if s[n - 1] <= t {
            before
        } else if before.len() > 0 && too_close(before.last().frame, this.frame, fps, min_shot_ms) {
            if this.score > before.last().score {
                before.drop_last().push(this)
            } else {
                before
            }
        } else {
            before.push(this)
        }
    }
}

pub open spec fn frames_of(s: Seq<Spike>) -> Seq<u64> {
    Seq::new(s.len(), |i: int| s[i].frame)
}

/// The frames at which cuts are called.
pub open spec fn cut_frames(
    s: Seq<u64>,
    scale: u64,
    fps: Rational,
    min_shot_ms: u32,
) -> Seq<u64> {
    if s.len() < 2 || fps.numerator == 0 || fps.denominator == 0 {
        Seq::empty()
    } else {
        frames_of(spikes(s, threshold(s, scale), fps, min_shot_ms, s.len() as int))
    }
}

fn abs_deviations(s: &Vec<u64>, m: u64) -> (r: Vec<u64>)
    requires
        m == median(s@),
    ensures
        r@ == deviations(s@),
{
    let mut out: Vec<u64> = Vec::new();
    let mut i: usize = 0;
    while i < s.len()
        invariant
            i <= s@.len(),
            m == median(s@),
            out@.len() == i,
            forall|k: int| 0 <= k < i ==> #[trigger] out@[k] == deviations(s@)[k],
        decreases s@.len() - i,
    {
        out.push(
            if s[i] >= m {
                s[i] - m
            } else {
                m - s[i]
            },
        );
        i = i + 1;
    }
    assert(out@ =~= deviations(s@));
    out
}

/// Every spike is the frame after a score above the threshold, in order.
proof fn lemma_spikes(s: Seq<u64>, t: int, fps: Rational, min_shot_ms: u32, n: int)
    requires
        s.len() <= u64::MAX,
        0 <= n <= s.len(),
    ensures
        ({
            let k = spikes(s, t, fps, min_shot_ms, n);
            &&& k.len() <= n
            &&& forall|i: int|
                0 <= i < k.len() ==> 1 <= (#[trigger] k[i]).frame <= n && k[i].score == s[k[i].frame
                    - 1] && k[i].score > t
            &&& forall|i: int, j: int|
                0 <= i < j < k.len() ==> (#[trigger] k[i]).frame < (#[trigger] k[j]).frame
            &&& forall|i: int, j: int|
                0 <= i < j < k.len() ==> !too_close(
                    (#[trigger] k[i]).frame,
                    (#[trigger] k[j]).frame,
                    fps,
                    min_shot_ms,
                )
        }),
    decreases n,
{
    if n > 0 {
        lemma_spikes(s, t, fps, min_shot_ms, n - 1);
        let before = spikes(s, t, fps, min_shot_ms, n - 1);
        let after = spikes(s, t, fps, min_shot_ms, n);
        let this = Spike { frame: n as u64, score: s[n - 1] };
        if s[n - 1] > t {
            assert forall|i: int| 0 <= i < after.len() implies 1 <= (#[trigger] after[i]).frame <= n
                && after[i].score == s[after[i].frame - 1] && after[i].score > t by {
                if i < before.len() && after[i] != this {
                    assert(after[i] == before[i]);
                }
            }
            assert forall|i: int, j: int| 0 <= i < j < after.len() implies (
            #[trigger] after[i]).frame < (#[trigger] after[j]).frame && !too_close(
                after[i].frame,
                after[j].frame,
                fps,
                min_shot_ms,
            ) by {
                assert(after[i] == before[i]);
                if j < before.len() && after[j] != this {
                    assert(after[j] == before[j]);
                } else {
                    // The new spike: at least as far off as the one before it.
                    assert(after[j] == this);
                    let prev = before.last();
                    if i < before.len() - 1 {
                        assert(before[i].frame < before[before.len() - 1].frame);
                        assert(!too_close(before[i].frame, prev.frame, fps, min_shot_ms));
                        lemma_further(before[i].frame, prev.frame, this.frame, fps, min_shot_ms);
                    }
                }
            }
        }
    }
}

proof fn lemma_further(from: u64, mid: u64, to: u64, fps: Rational, min_shot_ms: u32)
    requires
        from <= mid <= to,
        !too_close(from, mid, fps, min_shot_ms),
    ensures
        !too_close(from, to, fps, min_shot_ms),
{
    let d = fps.denominator as int;
    let a = (mid - from) * 1000;
    let b = (to - from) * 1000;
    assert(a * d <= b * d) by (nonlinear_arith)
        requires
            a <= b,
            d >= 0,
    ;
}

/// Cuts are ascending, at least the minimum shot apart, and each stands at a
/// score above the threshold.
pub proof fn cuts_are_spaced(s: Seq<u64>, scale: u64, fps: Rational, min_shot_ms: u32)
    requires
        s.len() <= u64::MAX,
    ensures
        ({
            let c = cut_frames(s, scale, fps, min_shot_ms);
            &&& forall|i: int|
                0 <= i < c.len() ==> 1 <= #[trigger] c[i] <= s.len() && s[c[i] - 1] > threshold(
                    s,
                    scale,
                )
            &&& forall|i: int, j: int|
                0 <= i < j < c.len() ==> #[trigger] c[i] < #[trigger] c[j] && !too_close(
                    c[i],
                    c[j],
                    fps,
                    min_shot_ms,
                )
        }),
{
    if !(s.len() < 2 || fps.numerator == 0 || fps.denominator == 0) {
        let k = spikes(s, threshold(s, scale), fps, min_shot_ms, s.len() as int);
        lemma_spikes(s, threshold(s, scale), fps, min_shot_ms, s.len() as int);
        let c = cut_frames(s, scale, fps, min_shot_ms);
        assert forall|i: int| 0 <= i < c.len() implies 1 <= #[trigger] c[i] <= s.len() && s[c[i]
            - 1] > threshold(s, scale) by {
            assert(c[i] == k[i].frame);
        }
        assert forall|i: int, j: int| 0 <= i < j < c.len() implies #[trigger] c[i]
            < #[trigger] c[j] && !too_close(c[i], c[j], fps, min_shot_ms) by {
            assert(c[i] == k[i].frame && c[j] == k[j].frame);
        }
    }
}

proof fn lemma_no_spikes(s: Seq<u64>, t: int, fps: Rational, min_shot_ms: u32, n: int)
    requires
        forall|i: int| 0 <= i < s.len() ==> #[trigger] s[i] <= t,
    ensures
        spikes(s, t, fps, min_shot_ms, n).len() == 0,
    decreases n,
{
    if 0 < n <= s.len() {
        lemma_no_spikes(s, t, fps, min_shot_ms, n - 1);
    }
}

/// Footage whose scores never exceed the floor of eight never cuts, and
/// neither does footage that changes by the same amount throughout.
pub proof fn flat_footage_never_cuts(s: Seq<u64>, scale: u64, fps: Rational, min_shot_ms: u32)
    requires
        (forall|i: int| 0 <= i < s.len() ==> #[trigger] s[i] <= 8 * scale) || (forall|
            i: int,
            j: int,
        |
            0 <= i < s.len() && 0 <= j < s.len() ==> s[i] == s[j]),
    ensures
        cut_frames(s, scale, fps, min_shot_ms).len() == 0,
{
    if s.len() >= 2 {
        let t = threshold(s, scale);
        assert forall|i: int| 0 <= i < s.len() implies #[trigger] s[i] <= t by {
            ascending_is_sorted(s);
            broadcast use vstd::seq_lib::group_to_multiset_ensures;

            let m = s.len() as int / 2;
            assert(ascending(s).to_multiset().contains(ascending(s)[m]));
            assert(s.to_multiset().contains(ascending(s)[m]));
            assert(s.contains(ascending(s)[m]));
            let k = choose|k: int| 0 <= k < s.len() && s[k] == ascending(s)[m];
            assert(median(s) == s[k]);
        }
        lemma_no_spikes(s, t, fps, min_shot_ms, s.len() as int);
    }
}

/// Pick cut points from the scores of consecutive frame pairs sampled at
/// `fps`: the numbers of the frames at which a shot starts. A score counts in
/// units of `1 / scale`; shots are at least `min_shot_ms` long.
pub fn detect_cuts(scores: &Vec<u64>, scale: u64, fps: Rational, min_shot_ms: u32) -> (r: Vec<u64>)
    ensures
        r@ == cut_frames(scores@, scale, fps, min_shot_ms),
{
    if scores.len() < 2 || fps.numerator == 0 || fps.denominator == 0 {
        let none: Vec<u64> = Vec::new();
        assert(none@ =~= Seq::<u64>::empty());
        return none;
    }
    proof {
        ascending_is_sorted(scores@);
        ascending_is_sorted(deviations(scores@));
    }
    let ordered = sort(scores);
    let mid: u64 = ordered[ordered.len() / 2];
    let dev = sort(&abs_deviations(scores, mid));
    let mad: u64 = dev[dev.len() / 2];
    let raw: u128 = mid as u128 + 6 * (mad as u128);
    let floor: u128 = 8 * (scale as u128);
    let limit: u128 = if raw >= floor {
        raw
    } else {
        floor
    };
    let ghost t = threshold(scores@, scale);
    assert(limit == t);
    let mut found: Vec<Spike> = Vec::new();
    let mut i: usize = 0;
    assert(found@ =~= spikes(scores@, t, fps, min_shot_ms, 0));
    while i < scores.len()
        invariant
            i <= scores@.len(),
            limit == t,
            found@ == spikes(scores@, t, fps, min_shot_ms, i as int),
        decreases scores@.len() - i,
    {
        let score: u64 = scores[i];
        proof {
            lemma_spikes(scores@, t, fps, min_shot_ms, i as int);
        }
        if score as u128 > limit {
            let this = Spike { frame: (i + 1) as u64, score };
            let count = found.len();
            if count > 0 && close(found[count - 1].frame, this.frame, fps, min_shot_ms) {
                if score > found[count - 1].score {
                    let ghost before = found@;
                    found.pop();
                    found.push(this);
                    assert(found@ =~= before.drop_last().push(this));
                }
            } else {
                found.push(this);
            }
        }
        i = i + 1;
    }
    let mut out: Vec<u64> = Vec::new();
    let mut k: usize = 0;
    while k < found.len()
        invariant
            k <= found@.len(),
            out@.len() == k,
            forall|j: int| 0 <= j < k ==> #[trigger] out@[j] == found@[j].frame,
        decreases found@.len() - k,
    {
        out.push(found[k].frame);
        k = k + 1;
    }
    assert(out@ =~= frames_of(found@));
    out
}

fn close(from: u64, to: u64, fps: Rational, min_shot_ms: u32) -> (r: bool)
    requires
        from <= to,
    ensures
        r == too_close(from, to, fps, min_shot_ms),
{
    let d: u128 = (to - from) as u128;
    let q: u128 = fps.denominator as u128;
    let gap: u64 = min_shot_ms as u64;
    let n: u64 = fps.numerator as u64;
    proof {
        assert(d * 1000 * q <= 0xffff_ffff_ffff_ffff * 1000 * 0xffff_ffff) by (nonlinear_arith)
            requires
                d <= 0xffff_ffff_ffff_ffff,
                q <= 0xffff_ffff,
        ;
        assert(gap * n <= 0xffff_ffff * 0xffff_ffff) by (nonlinear_arith)
            requires
                gap <= 0xffff_ffff,
                n <= 0xffff_ffff,
        ;
    }
    d * 1000 * q < (gap * n) as u128
}

} // verus!
