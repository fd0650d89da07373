//! Counting the indices below a bound that satisfy a predicate.
use vstd::prelude::*;

verus! {

/// The number of indices `i` with `0 <= i < n` for which `f(i)` holds.
pub open spec fn count_in(n: int, f: spec_fn(int) -> bool) -> nat
    decreases n,
{
    if n <= 0 {
        0
    } else {
        count_in(n - 1, f) + if f(n - 1) {
            1nat
        } else {
            0nat
        }
    }
}

/// Two predicates that agree below `n` count alike.
pub proof fn lemma_count_ext(n: int, f: spec_fn(int) -> bool, g: spec_fn(int) -> bool)
    requires
        forall|i: int| 0 <= i < n ==> #[trigger] f(i) == g(i),
    ensures
        count_in(n, f) == count_in(n, g),
    decreases n,
{
    if n > 0 {
        lemma_count_ext(n - 1, f, g);
    }
}

/// A count never exceeds the bound.
pub proof fn lemma_count_bound(n: int, f: spec_fn(int) -> bool)
    requires
        n >= 0,
    ensures
        count_in(n, f) <= n,
    decreases n,
{
    if n > 0 {
        lemma_count_bound(n - 1, f);
    }
}

/// A count is zero exactly when no index below the bound satisfies the predicate.
pub proof fn lemma_count_positive(n: int, f: spec_fn(int) -> bool)
    ensures
        count_in(n, f) > 0 <==> exists|i: int| 0 <= i < n && #[trigger] f(i),
    decreases n,
{
    if n > 0 {
        lemma_count_positive(n - 1, f);
        if count_in(n - 1, f) > 0 {
            let i = choose|i: int| 0 <= i < n - 1 && #[trigger] f(i);
            assert(0 <= i < n && f(i));
        }
        if exists|i: int| 0 <= i < n && #[trigger] f(i) {
            let i = choose|i: int| 0 <= i < n && #[trigger] f(i);
            if i < n - 1 {
                assert(exists|i: int| 0 <= i < n - 1 && #[trigger] f(i));
            }
        }
    }
}

/// Counting over a range in which nothing holds adds nothing.
pub proof fn lemma_count_gap(a: int, b: int, f: spec_fn(int) -> bool)
    requires
        0 <= a <= b,
        forall|i: int| a <= i < b ==> !#[trigger] f(i),
    ensures
        count_in(b, f) == count_in(a, f),
    decreases b - a,
{
    if a < b {
        lemma_count_gap(a, b - 1, f);
    }
}

/// A count splits along a second predicate: `fg` holds where both hold, `fng` where only `f` does.
pub proof fn lemma_count_split(
    n: int,
    f: spec_fn(int) -> bool,
    g: spec_fn(int) -> bool,
    fg: spec_fn(int) -> bool,
    fng: spec_fn(int) -> bool,
)
    requires
        forall|i: int| 0 <= i < n ==> #[trigger] fg(i) == (f(i) && g(i)),
        forall|i: int| 0 <= i < n ==> #[trigger] fng(i) == (f(i) && !g(i)),
    ensures
        count_in(n, f) == count_in(n, fg) + count_in(n, fng),
    decreases n,
{
    if n > 0 {
        lemma_count_split(n - 1, f, g, fg, fng);
    }
}

/// Turning one index from false to true adds one to the count.
pub proof fn lemma_count_flip(n: int, f: spec_fn(int) -> bool, g: spec_fn(int) -> bool, k: int)
    requires
        0 <= k < n,
        !f(k),
        g(k),
        forall|i: int| 0 <= i < n && i != k ==> #[trigger] f(i) == g(i),
    ensures
        count_in(n, g) == count_in(n, f) + 1,
    decreases n,
{
    if n - 1 == k {
        lemma_count_ext(n - 1, f, g);
    } else {
        lemma_count_flip(n - 1, f, g, k);
    }
}

/// An index that holds is counted beyond every index below it.
pub proof fn lemma_count_strict(n: int, f: spec_fn(int) -> bool, k: int)
    requires
        0 <= k < n,
        f(k),
    ensures
        count_in(k, f) < count_in(n, f),
    decreases n,
{
    if n - 1 > k {
        lemma_count_strict(n - 1, f, k);
    }
}

} // verus!
