//! What collapsing a path does: a step up undoes the step down before it, a
//! step that stays does nothing, and everything else stays as it is.

use vstd::prelude::*;

use crate::paths::PartView;

verus! {

/// Paths that collapse to the same stay so with the same steps after them.
proof fn lemma_same_after(a: Seq<PartView>, b: Seq<PartView>, t: Seq<PartView>, k: int)
    requires
        0 <= k <= t.len(),
        crate::paths::collapsed(a, a.len() as int) == crate::paths::collapsed(b, b.len() as int),
    ensures
        crate::paths::collapsed(a + t, a.len() + k) == crate::paths::collapsed(b + t, b.len() + k),
    decreases k,
{
    if k == 0 {
        lemma_prefix(a, t, a.len() as int);
        lemma_prefix(b, t, b.len() as int);
    } else {
        lemma_same_after(a, b, t, k - 1);
        assert((a + t)[a.len() + k - 1] == t[k - 1]);
        assert((b + t)[b.len() + k - 1] == t[k - 1]);
    }
}

proof fn lemma_prefix(a: Seq<PartView>, t: Seq<PartView>, n: int)
    requires
        0 <= n <= a.len(),
    ensures
        crate::paths::collapsed(a + t, n) == crate::paths::collapsed(a, n),
        crate::paths::cleaned(a + t, n) == crate::paths::cleaned(a, n),
    decreases n,
{
    if n > 0 {
        lemma_prefix(a, t, n - 1);
        assert((a + t)[n - 1] == a[n - 1]);
    }
}

proof fn lemma_same_cleaned(a: Seq<PartView>, b: Seq<PartView>, t: Seq<PartView>, k: int)
    requires
        0 <= k <= t.len(),
        crate::paths::cleaned(a, a.len() as int) == crate::paths::cleaned(b, b.len() as int),
    ensures
        crate::paths::cleaned(a + t, a.len() + k) == crate::paths::cleaned(b + t, b.len() + k),
    decreases k,
{
    if k == 0 {
        lemma_prefix(a, t, a.len() as int);
        lemma_prefix(b, t, b.len() as int);
    } else {
        lemma_same_cleaned(a, b, t, k - 1);
        assert((a + t)[a.len() + k - 1] == t[k - 1]);
        assert((b + t)[b.len() + k - 1] == t[k - 1]);
    }
}

/// Going down and up again is going nowhere, wherever it is done.
pub proof fn up_undoes_down(s: Seq<PartView>, name: Seq<char>, t: Seq<PartView>)
    ensures
        crate::paths::normal(s + seq![PartView::Name(name), PartView::Up] + t)
            == crate::paths::normal(s + t),
        crate::paths::clean(s + seq![PartView::Name(name), PartView::Up] + t)
            == crate::paths::clean(s + t),
{
    let step = seq![PartView::Name(name), PartView::Up];
    let a = s + step;
    let n = s.len() as int;
    lemma_prefix(s, step, n);
    assert(a[n] == PartView::Name(name) && a[n + 1] == PartView::Up);
    let before = crate::paths::collapsed(s, n);
    assert(crate::paths::collapsed(a, n + 1) == before.push(PartView::Name(name)));
    assert(crate::paths::collapsed(a, n + 2) =~= before);
    let kept = crate::paths::cleaned(s, n);
    assert(crate::paths::cleaned(a, n + 1) == kept.push(PartView::Name(name)));
    assert(crate::paths::cleaned(a, n + 2) =~= kept);
    lemma_same_after(a, s, t, t.len() as int);
    lemma_same_cleaned(a, s, t, t.len() as int);
}

/// A step that stays does nothing, wherever it is done.
pub proof fn here_is_nowhere(s: Seq<PartView>, t: Seq<PartView>)
    ensures
        crate::paths::normal(s + seq![PartView::Here] + t) == crate::paths::normal(s + t),
        crate::paths::clean(s + seq![PartView::Here] + t) == crate::paths::clean(s + t),
{
    let step = seq![PartView::Here];
    let a = s + step;
    let n = s.len() as int;
    lemma_prefix(s, step, n);
    assert(a[n] == PartView::Here);
    assert(crate::paths::collapsed(a, n + 1) == crate::paths::collapsed(s, n));
    assert(crate::paths::cleaned(a, n + 1) == crate::paths::cleaned(s, n));
    lemma_same_after(a, s, t, t.len() as int);
    lemma_same_cleaned(a, s, t, t.len() as int);
}

/// Going up from a root, or from nowhere, stays there.
pub proof fn roots_have_nothing_above(anchor: PartView, t: Seq<PartView>)
    requires
        anchor is Anchor,
    ensures
        crate::paths::normal(seq![anchor, PartView::Up] + t) == crate::paths::normal(
            seq![anchor] + t,
        ),
        crate::paths::normal(seq![PartView::Up] + t) == crate::paths::normal(t),
{
    let a = seq![anchor, PartView::Up];
    let b = seq![anchor];
    assert(crate::paths::collapsed(b, 0) =~= Seq::empty());
    assert(crate::paths::collapsed(b, 1) =~= b);
    assert(crate::paths::collapsed(a, 0) =~= Seq::empty());
    assert(crate::paths::collapsed(a, 1) =~= b);
    assert(crate::paths::collapsed(a, 2) =~= b);
    lemma_same_after(a, b, t, t.len() as int);
    let up = seq![PartView::Up];
    let none = Seq::<PartView>::empty();
    assert(crate::paths::collapsed(up, 0) =~= none);
    assert(crate::paths::collapsed(up, 1) =~= none);
    assert(crate::paths::collapsed(none, 0) =~= none);
    lemma_same_after(up, none, t, t.len() as int);
    assert(none + t =~= t);
}

/// A path that only goes down is collapsed already.
pub proof fn plain_paths_stay(s: Seq<PartView>, n: int)
    requires
        0 <= n <= s.len(),
        forall|i: int| 0 <= i < s.len() ==> #[trigger] s[i] is Name || s[i] is Anchor,
    ensures
        crate::paths::collapsed(s, n) == s.take(n),
        crate::paths::cleaned(s, n) == s.take(n),
    decreases n,
{
    if n > 0 {
        plain_paths_stay(s, n - 1);
        assert(s[n - 1] is Name || s[n - 1] is Anchor);
        assert(s.take(n) =~= s.take(n - 1).push(s[n - 1]));
    } else {
        assert(s.take(0) =~= Seq::empty());
    }
}

/// A path is at or below a root exactly where it is the root with steps after
/// it.
pub proof fn below_is_after(path: Seq<PartView>, root: Seq<PartView>)
    ensures
        crate::paths::is_under(path, root) <==> exists|rest: Seq<PartView>|
            path == #[trigger] (root + rest),
{
    if crate::paths::is_under(path, root) {
        let rest = path.skip(root.len() as int);
        assert(path =~= root + rest);
    }
    if exists|rest: Seq<PartView>| path == #[trigger] (root + rest) {
        let rest = choose|rest: Seq<PartView>| path == #[trigger] (root + rest);
        assert((root + rest).take(root.len() as int) =~= root);
    }
}

} // verus!
