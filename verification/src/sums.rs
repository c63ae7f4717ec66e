//! Sums over indices, and reordering them.
use vstd::prelude::*;

verus! {

/// The sum of `f` over the indices below `n`.
pub open spec fn total(n: nat, f: spec_fn(int) -> nat) -> nat
    decreases n,
{
    if n == 0 {
        0
    } else {
        total((n - 1) as nat, f) + f(n - 1)
    }
}

/// Larger terms have a larger sum.
pub proof fn lemma_total_at_most(n: nat, f: spec_fn(int) -> nat, g: spec_fn(int) -> nat)
    requires
        forall|p: int| 0 <= p < n ==> #[trigger] f(p) <= g(p),
    ensures
        total(n, f) <= total(n, g),
    decreases n,
{
    if n > 0 {
        lemma_total_at_most((n - 1) as nat, f, g);
        assert(f(n - 1) <= g(n - 1));
    }
}

/// Equal terms have equal sums.
pub proof fn lemma_total_agree(n: nat, f: spec_fn(int) -> nat, g: spec_fn(int) -> nat)
    requires
        forall|p: int| 0 <= p < n ==> #[trigger] f(p) == g(p),
    ensures
        total(n, f) == total(n, g),
    decreases n,
{
    if n > 0 {
        lemma_total_agree((n - 1) as nat, f, g);
        assert(f(n - 1) == g(n - 1));
    }
}

/// Constant terms.
pub proof fn lemma_total_constant(n: nat, f: spec_fn(int) -> nat, c: nat)
    requires
        forall|p: int| 0 <= p < n ==> #[trigger] f(p) == c,
    ensures
        total(n, f) == n * c,
    decreases n,
{
    if n > 0 {
        lemma_total_constant((n - 1) as nat, f, c);
        assert(f(n - 1) == c);
        assert((n - 1) * c + c == n * c) by (nonlinear_arith);
    } else {
        assert(0 * c == 0);
    }
}

/// `there` maps the indices below `n` one to one onto themselves, and `back` is
/// its inverse.
pub open spec fn is_relabeling(
    n: int,
    there: spec_fn(int) -> int,
    back: spec_fn(int) -> int,
) -> bool {
    &&& forall|i: int| 0 <= i < n ==> 0 <= #[trigger] there(i) < n && back(there(i)) == i
    &&& forall|j: int| 0 <= j < n ==> 0 <= #[trigger] back(j) < n && there(back(j)) == j
}

/// Changing a function at one index changes its sum by the difference.
pub proof fn lemma_total_changed(n: nat, f: spec_fn(int) -> nat, g: spec_fn(int) -> nat, at: int)
    requires
        0 <= at < n,
        forall|i: int| 0 <= i < n && i != at ==> #[trigger] f(i) == g(i),
    ensures
        total(n, f) + g(at) == total(n, g) + f(at),
    decreases n,
{
    if at == n - 1 {
        lemma_total_agree((n - 1) as nat, f, g);
    } else {
        lemma_total_changed((n - 1) as nat, f, g, at);
        assert(f(n - 1) == g(n - 1));
    }
}

/// A sum does not depend on the order of its terms.
pub proof fn lemma_total_relabeled(
    n: nat,
    f: spec_fn(int) -> nat,
    there: spec_fn(int) -> int,
    back: spec_fn(int) -> int,
)
    requires
        is_relabeling(n as int, there, back),
    ensures
        total(n, |i: int| f(there(i))) == total(n, f),
    decreases n,
{
    if n > 0 {
        let m = (n - 1) as nat;
        let j = there(m as int);
        let k = back(m as int);
        let shorter = |i: int|
            if there(i) == m {
                j
            } else {
                there(i)
            };
        let shorter_back = |y: int|
            if y == j {
                k
            } else {
                back(y)
            };
        assert(back(j) == m);
        assert(there(k) == m);
        assert forall|i: int| 0 <= i < m implies 0 <= #[trigger] shorter(i) < m && shorter_back(
            shorter(i),
        ) == i by {
            assert(0 <= there(i) < n && back(there(i)) == i);
            if j == m {
                assert(k == m);
            }
        }
        assert forall|y: int| 0 <= y < m implies 0 <= #[trigger] shorter_back(y) < m && shorter(
            shorter_back(y),
        ) == y by {
            assert(0 <= back(y) < n && there(back(y)) == y);
        }
        lemma_total_relabeled(m, f, shorter, shorter_back);
        let moved = |i: int| f(there(i));
        let kept = |i: int| f(shorter(i));
        if j == m {
            assert forall|i: int| 0 <= i < m implies #[trigger] moved(i) == kept(i) by {
                assert(back(there(i)) == i);
            }
            lemma_total_agree(m, moved, kept);
        } else {
            assert forall|i: int| 0 <= i < m && i != k implies #[trigger] moved(i) == kept(i) by {
                assert(back(there(i)) == i);
            }
            lemma_total_changed(m, moved, kept, k);
        }
    }
}

/// The sum over a selection is the sum over all indices, with zero for those
/// left out.
pub proof fn lemma_total_selected(n: nat, keep: spec_fn(int) -> bool, f: spec_fn(int) -> nat)
    requires
        n <= usize::MAX,
    ensures
        total(
            crate::select::selected(n, keep).len(),
            |p: int| f(crate::select::selected(n, keep)[p] as int),
        ) == total(
            n,
            |u: int|
                if keep(u) {
                    f(u)
                } else {
                    0
                },
        ),
    decreases n,
{
    let now = crate::select::selected(n, keep);
    let terms = |p: int| f(now[p] as int);
    let all = |u: int|
        if keep(u) {
            f(u)
        } else {
            0
        };
    if n > 0 {
        let m = (n - 1) as nat;
        lemma_total_selected(m, keep, f);
        let before = crate::select::selected(m, keep);
        let old_terms = |p: int| f(before[p] as int);
        assert forall|p: int| 0 <= p < before.len() implies #[trigger] terms(p) == old_terms(p) by {
            assert(now[p] == before[p]);
        }
        lemma_total_agree(before.len(), terms, old_terms);
        if keep(m as int) {
            assert(now.len() == before.len() + 1);
            assert(terms(before.len() as int) == f(m as int));
        }
    }
}

/// A count is a sum of ones.
proof fn lemma_count_is_total(n: nat, keep: spec_fn(int) -> bool)
    ensures
        crate::select::count(n, keep) == total(
            n,
            |i: int|
                if keep(i) {
                    1
                } else {
                    0
                },
        ),
    decreases n,
{
    if n > 0 {
        lemma_count_is_total((n - 1) as nat, keep);
    }
}

/// A count does not depend on the order in which indices are visited.
pub proof fn lemma_count_relabeled(
    n: nat,
    keep: spec_fn(int) -> bool,
    there: spec_fn(int) -> int,
    back: spec_fn(int) -> int,
)
    requires
        is_relabeling(n as int, there, back),
    ensures
        crate::select::count(n, |i: int| keep(there(i))) == crate::select::count(n, keep),
{
    let one = |i: int|
        if keep(i) {
            1nat
        } else {
            0nat
        };
    let moved = |i: int| keep(there(i));
    let moved_one = |i: int|
        if moved(i) {
            1nat
        } else {
            0nat
        };
    lemma_count_is_total(n, keep);
    lemma_count_is_total(n, moved);
    lemma_total_relabeled(n, one, there, back);
    lemma_total_agree(n, moved_one, |i: int| one(there(i)));
}

/// A sum over no indices is zero, and one more index adds its term.
pub proof fn sums_grow_term_by_term(n: nat, f: spec_fn(int) -> nat)
    ensures
        total(0, f) == 0,
        total(n + 1, f) == total(n, f) + f(n as int),
{
}

/// A common factor of the terms is a factor of the sum.
pub proof fn lemma_total_scaled(
    n: nat,
    f: spec_fn(int) -> nat,
    g: spec_fn(int) -> nat,
    c: nat,
)
    requires
        forall|i: int| 0 <= i < n ==> #[trigger] g(i) == f(i) * c,
    ensures
        total(n, g) == total(n, f) * c,
    decreases n,
{
    if n > 0 {
        lemma_total_scaled((n - 1) as nat, f, g, c);
        assert(g(n - 1) == f(n - 1) * c);
        let (x, y) = (total((n - 1) as nat, f), f(n - 1));
        assert((x + y) * c == x * c + y * c) by (nonlinear_arith);
    } else {
        assert(0 * c == 0);
    }
}

/// One term is at most the sum.
pub proof fn lemma_term_at_most_total(n: nat, f: spec_fn(int) -> nat, i: int)
    requires
        0 <= i < n,
    ensures
        f(i) <= total(n, f),
    decreases n,
{
    if i < n - 1 {
        lemma_term_at_most_total((n - 1) as nat, f, i);
    }
}

} // verus!
