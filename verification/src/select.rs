//! Choosing and counting indices.
use vstd::prelude::*;

verus! {

/// The indices below `n` that satisfy `keep`, in ascending order.
pub open spec fn selected(n: nat, keep: spec_fn(int) -> bool) -> Seq<usize>
    decreases n,
{
    if n == 0 {
        Seq::empty()
    } else if keep(n - 1) {
        selected((n - 1) as nat, keep).push((n - 1) as usize)
    } else {
        selected((n - 1) as nat, keep)
    }
}

/// How many indices below `n` satisfy `keep`.
pub open spec fn count(n: nat, keep: spec_fn(int) -> bool) -> nat
    decreases n,
{
    if n == 0 {
        0
    } else {
        count((n - 1) as nat, keep) + if keep(n - 1) {
            1nat
        } else {
            0nat
        }
    }
}

/// [`selected`] lists exactly the indices that satisfy `keep`, each once and
/// in ascending order.
pub proof fn lemma_selected(n: nat, keep: spec_fn(int) -> bool)
    requires
        n <= usize::MAX,
    ensures
        selected(n, keep).len() == count(n, keep),
        count(n, keep) <= n,
        forall|k: int|
            0 <= k < selected(n, keep).len() ==> (#[trigger] selected(n, keep)[k]) < n && keep(
                selected(n, keep)[k] as int,
            ),
        forall|k: int, l: int|
            0 <= k < l < selected(n, keep).len() ==> selected(n, keep)[k] < selected(n, keep)[l],
        forall|x: usize|
            #[trigger] selected(n, keep).contains(x) <==> (x < n && keep(x as int)),
    decreases n,
{
    if n > 0 {
        let before = selected((n - 1) as nat, keep);
        lemma_selected((n - 1) as nat, keep);
        let now = selected(n, keep);
        assert forall|x: usize| #[trigger] now.contains(x) <==> (x < n && keep(x as int)) by {
            if keep(n - 1) {
                if x == n - 1 {
                    assert(now[now.len() - 1] == x);
                } else if before.contains(x) {
                    let k = before.index_of(x);
                    assert(now[k] == x);
                }
                if now.contains(x) {
                    let k = now.index_of(x);
                    assert(now[k] == x);
                    if k < before.len() {
                        assert(before[k] == x);
                        assert(before.contains(x));
                    }
                }
            } else {
                assert(now == before);
                assert(before.contains(x) <==> (x < n - 1 && keep(x as int)));
            }
        }
    }
}

/// Predicates that agree below `n` select alike.
pub proof fn lemma_selected_agree(n: nat, p: spec_fn(int) -> bool, q: spec_fn(int) -> bool)
    requires
        forall|i: int| 0 <= i < n ==> #[trigger] p(i) == q(i),
    ensures
        crate::select::selected(n, p) == crate::select::selected(n, q),
    decreases n,
{
    if n > 0 {
        lemma_selected_agree((n - 1) as nat, p, q);
        assert(p(n - 1) == q(n - 1));
    }
}

/// Predicates that agree below `n` count alike.
pub proof fn lemma_count_agree(n: nat, p: spec_fn(int) -> bool, q: spec_fn(int) -> bool)
    requires
        forall|i: int| 0 <= i < n ==> #[trigger] p(i) == q(i),
    ensures
        count(n, p) == count(n, q),
    decreases n,
{
    if n > 0 {
        lemma_count_agree((n - 1) as nat, p, q);
        assert(p(n - 1) == q(n - 1));
    }
}

/// Counting a range is counting its two parts.
pub proof fn lemma_count_split(a: nat, b: nat, p: spec_fn(int) -> bool)
    ensures
        count(a + b, p) == count(a, p) + count(b, |i: int| p(a + i)),
    decreases b,
{
    if b > 0 {
        lemma_count_split(a, (b - 1) as nat, p);
        assert((a + b - 1) as nat == a + (b - 1) as nat);
    }
}

/// A count is at most the number of indices.
pub proof fn lemma_count_bound(n: nat, p: spec_fn(int) -> bool)
    ensures
        count(n, p) <= n,
    decreases n,
{
    if n > 0 {
        lemma_count_bound((n - 1) as nat, p);
    }
}

/// A count is the size of the set of indices that are counted.
pub proof fn count_is_cardinality(n: nat, keep: spec_fn(int) -> bool)
    ensures
        Set::new(|i: int| 0 <= i < n && keep(i)).finite(),
        Set::new(|i: int| 0 <= i < n && keep(i)).len() == count(n, keep),
    decreases n,
{
    let all = Set::new(|i: int| 0 <= i < n && keep(i));
    if n == 0 {
        assert(all =~= Set::<int>::empty());
    } else {
        let last = n - 1;
        let fewer = Set::new(|i: int| 0 <= i < last && keep(i));
        count_is_cardinality(last as nat, keep);
        assert(fewer =~= Set::new(|i: int| 0 <= i < last as nat && keep(i)));
        if keep(last) {
            assert(all =~= fewer.insert(last));
        } else {
            assert(all =~= fewer);
        }
    }
}

} // verus!
