//! Frames picked out of a sequence by a test, listed in increasing order.

use vstd::prelude::*;

verus! {

/// The frames `i` in `0..n` that pass `keep`, in increasing order.
pub open spec fn picked(n: int, keep: spec_fn(int) -> bool) -> Seq<usize>
    decreases n,
{
    if n <= 0 {
        Seq::empty()
    } else if keep(n - 1) {
        picked(n - 1, keep).push((n - 1) as usize)
    } else {
        picked(n - 1, keep)
    }
}

/// The frames picked below `n` are exactly those that pass the test, each
/// listed once, in increasing order; so there are at most `n` of them.
pub proof fn lemma_picked(n: int, keep: spec_fn(int) -> bool)
    requires
        0 <= n <= usize::MAX + 1,
    ensures
        picked(n, keep).len() <= n,
        forall|j: int|
            0 <= j < picked(n, keep).len() ==> {
                &&& keep(#[trigger] picked(n, keep)[j] as int)
                &&& picked(n, keep)[j] < n
            },
        forall|j: int, k: int|
            0 <= j < k < picked(n, keep).len() ==> #[trigger] picked(n, keep)[j] < #[trigger] picked(
                n,
                keep,
            )[k],
        forall|i: int| 0 <= i < n && #[trigger] keep(i) ==> picked(n, keep).contains(i as usize),
    decreases n,
{
    if n > 0 {
        lemma_picked(n - 1, keep);
        let prev = picked(n - 1, keep);
        let cur = picked(n, keep);
        if keep(n - 1) {
            assert(cur[cur.len() - 1] == (n - 1) as usize);
            assert forall|j: int, k: int| 0 <= j < k < cur.len() implies #[trigger] cur[j] < #[trigger] cur[k] by {
                if k == cur.len() - 1 {
                    assert(cur[j] == prev[j]);
                } else {
                    assert(cur[j] == prev[j] && cur[k] == prev[k]);
                }
            }
        }
        assert forall|i: int| 0 <= i < n && #[trigger] keep(i) implies cur.contains(i as usize) by {
            if i < n - 1 {
                let j = choose|j: int| 0 <= j < prev.len() && prev[j] == i as usize;
                if keep(n - 1) {
                    assert(cur[j] == prev[j]);
                }
            } else {
                assert(cur[cur.len() - 1] == i as usize);
            }
        }
    }
}

} // verus!
