//! Which members of a list stay, and in what order.

use vstd::prelude::*;

verus! {

/// `at` names, in ascending order, exactly those of the first `n` positions
/// that are to be kept.
pub open spec fn selects(at: Seq<int>, n: int, keep: spec_fn(int) -> bool) -> bool {
    &&& forall|k: int| 0 <= k < at.len() ==> 0 <= #[trigger] at[k] < n && keep(at[k])
    &&& forall|j: int, k: int| 0 <= j < k < at.len() ==> #[trigger] at[j] < #[trigger] at[k]
    &&& forall|i: int| 0 <= i < n && #[trigger] keep(i) ==> at.contains(i)
}

/// Nothing is kept of nothing.
pub proof fn lemma_select_none(keep: spec_fn(int) -> bool)
    ensures
        selects(Seq::empty(), 0, keep),
{
}

/// The next position is not kept.
pub proof fn lemma_select_skip(at: Seq<int>, n: int, keep: spec_fn(int) -> bool)
    requires
        n > 0,
        selects(at, n - 1, keep),
        !keep(n - 1),
    ensures
        selects(at, n, keep),
{
    assert forall|i: int| 0 <= i < n && #[trigger] keep(i) implies at.contains(i) by {
        assert(i != n - 1);
    }
}

/// The next position is kept.
pub proof fn lemma_select_take(at: Seq<int>, n: int, keep: spec_fn(int) -> bool)
    requires
        n > 0,
        selects(at, n - 1, keep),
        keep(n - 1),
    ensures
        selects(at.push(n - 1), n, keep),
{
    let all = at.push(n - 1);
    assert forall|i: int| 0 <= i < n && #[trigger] keep(i) implies all.contains(i) by {
        if i == n - 1 {
            assert(all[at.len() as int] == i);
        } else {
            let k = choose|k: int| 0 <= k < at.len() && at[k] == i;
            assert(all[k] == i);
        }
    }
}

/// What is kept depends on the first `n` positions alone.
pub proof fn lemma_select_same(
    at: Seq<int>,
    n: int,
    keep: spec_fn(int) -> bool,
    other: spec_fn(int) -> bool,
)
    requires
        selects(at, n, keep),
        forall|i: int| 0 <= i < n ==> #[trigger] keep(i) == other(i),
    ensures
        selects(at, n, other),
{
    assert forall|k: int| 0 <= k < at.len() implies 0 <= #[trigger] at[k] < n && other(at[k]) by {
        assert(keep(at[k]));
    }
    assert forall|i: int| 0 <= i < n && #[trigger] other(i) implies at.contains(i) by {
        assert(keep(i));
    }
}

} // verus!
