//! Counting the indices at which a property holds.

use vstd::prelude::*;

verus! {

/// The number of indices below `n` at which `p` holds.
pub open spec fn count(n: nat, p: spec_fn(int) -> bool) -> nat
    decreases n,
{
    if n == 0 {
        0
    } else {
        count((n - 1) as nat, p) + if p(n - 1) {
            1nat
        } else {
            0nat
        }
    }
}

/// Properties that agree below `n` have the same count.
pub proof fn lemma_count_agree(n: nat, p: spec_fn(int) -> bool, q: spec_fn(int) -> bool)
    requires
        forall|i: int| 0 <= i < n ==> #[trigger] p(i) == q(i),
    ensures
        count(n, p) == count(n, q),
    decreases n,
{
    if n > 0 {
        lemma_count_agree((n - 1) as nat, p, q);
    }
}

/// A count is at most the number of indices, and zero exactly when the
/// property holds nowhere.
pub proof fn lemma_count_bounds(n: nat, p: spec_fn(int) -> bool)
    ensures
        count(n, p) <= n,
        count(n, p) == 0 <==> forall|i: int| 0 <= i < n ==> !#[trigger] p(i),
    decreases n,
{
    if n > 0 {
        lemma_count_bounds((n - 1) as nat, p);
    }
}

/// Counting up to `n + m` is counting up to `n` and then the `m` indices after it.
pub proof fn lemma_count_split(n: nat, m: nat, p: spec_fn(int) -> bool)
    ensures
        count(n + m, p) == count(n, p) + count(m, |i: int| p(n + i)),
    decreases m,
{
    if m > 0 {
        lemma_count_split(n, (m - 1) as nat, p);
    }
}

/// A property that holds at each index of an increasing list has at least as
/// large a count as the list is long.
pub proof fn lemma_count_at_least(n: nat, p: spec_fn(int) -> bool, at: Seq<int>)
    requires
        forall|i: int, j: int| 0 <= i < j < at.len() ==> at[i] < at[j],
        forall|i: int| 0 <= i < at.len() ==> 0 <= #[trigger] at[i] < n && p(at[i]),
    ensures
        count(n, p) >= at.len(),
    decreases n,
{
    if at.len() > 0 {
        assert(0 <= at.last() < n);
        if at.last() == n - 1 {
            lemma_count_at_least((n - 1) as nat, p, at.drop_last());
        } else {
            lemma_count_at_least((n - 1) as nat, p, at);
        }
    }
}

/// A count is the size of the set of indices at which the property holds.
pub proof fn law_count_is_size(n: nat, p: spec_fn(int) -> bool)
    ensures
        Set::new(|i: int| 0 <= i < n && p(i)).finite(),
        count(n, p) == Set::new(|i: int| 0 <= i < n && p(i)).len(),
    decreases n,
{
    let all = Set::new(|i: int| 0 <= i < n && p(i));
    if n == 0 {
        assert(all =~= Set::empty());
    } else {
        let m = (n - 1) as nat;
        let fewer = Set::new(|i: int| 0 <= i < m && p(i));
        law_count_is_size(m, p);
        if p(n - 1) {
            assert(all =~= fewer.insert(n - 1));
        } else {
            assert(all =~= fewer);
        }
    }
}

} // verus!
