//! The subsets of `k - 1` parties that index the shares of a replicated sharing.
use super::helper::binom;
use itertools::Itertools;
use vstd::prelude::*;

verus! {

/// The parties `1..=n`.
pub open spec fn parties_seq(n: nat) -> Seq<usize> {
    Seq::new(n, |i: int| (i + 1) as usize)
}

/// All `r`-combinations of the elements of `s`, each in the order of `s`,
/// listed in lexicographic order of their positions in `s`.
pub open spec fn combos(s: Seq<usize>, r: nat) -> Seq<Seq<usize>>
    decreases s.len(),
{
    if r == 0 {
        seq![Seq::empty()]
    } else if s.len() == 0 {
        Seq::empty()
    } else {
        combos(s.drop_first(), (r - 1) as nat).map_values(|c: Seq<usize>| seq![s[0]] + c) + combos(
            s.drop_first(),
            r,
        )
    }
}

/// The subsets of `k - 1` parties among `1..=n`, in the order that indexes
/// the shares of a replicated sharing.
pub open spec fn subsets_spec(k: nat, n: nat) -> Seq<Seq<usize>> {
    combos(parties_seq(n), (k - 1) as nat)
}

/// Calls itertools' `combinations` on the range `1..n + 1`, which lists the
/// `r`-combinations of the parties `1..=n` in lexicographic order.
#[verifier::external_body]
pub(crate) fn combinations_of_parties(n: usize, r: usize) -> (res: Vec<Vec<usize>>)
    requires
        n < usize::MAX,
    ensures
        res.deep_view() == combos(parties_seq(n as nat), r as nat),
{
    (1..n + 1).combinations(r).collect()
}

/// There are `binom(s.len(), r)` combinations of `r` elements of `s`.
pub proof fn lemma_combos_len(s: Seq<usize>, r: nat)
    ensures
        combos(s, r).len() == binom(s.len(), r),
    decreases s.len(),
{
    if r == 0 {
    } else if s.len() == 0 {
    } else {
        lemma_combos_len(s.drop_first(), (r - 1) as nat);
        lemma_combos_len(s.drop_first(), r);
    }
}

/// A k-of-n scheme has `binom(n, k - 1)` subsets: as many as `n_choose_k(n, k - 1)` counts.
pub proof fn lemma_subsets_count(k: nat, n: nat)
    ensures
        subsets_spec(k, n).len() == binom(n, (k - 1) as nat),
{
    lemma_combos_len(parties_seq(n), (k - 1) as nat);
}

/// `s` is strictly increasing.
pub open spec fn increasing(s: Seq<usize>) -> bool {
    forall|i: int, j: int| 0 <= i < j < s.len() ==> s[i] < s[j]
}

/// Every combination of `s` takes `r` elements of `s`, in increasing order when `s` is.
pub proof fn lemma_combos_shape(s: Seq<usize>, r: nat)
    ensures
        forall|j: int|
            0 <= j < combos(s, r).len() ==> {
                &&& (#[trigger] combos(s, r)[j]).len() == r
                &&& forall|x: usize| combos(s, r)[j].contains(x) ==> s.contains(x)
                &&& increasing(s) ==> increasing(combos(s, r)[j])
            },
    decreases s.len(),
{
    if r == 0 {
    } else if s.len() == 0 {
    } else {
        let t = s.drop_first();
        lemma_combos_shape(t, (r - 1) as nat);
        lemma_combos_shape(t, r);
        let left = combos(t, (r - 1) as nat).map_values(|c: Seq<usize>| seq![s[0]] + c);
        let right = combos(t, r);
        assert forall|j: int| 0 <= j < combos(s, r).len() implies {
            &&& (#[trigger] combos(s, r)[j]).len() == r
            &&& forall|x: usize| combos(s, r)[j].contains(x) ==> s.contains(x)
            &&& increasing(s) ==> increasing(combos(s, r)[j])
        } by {
            if j < left.len() {
                let c = combos(t, (r - 1) as nat)[j];
                assert(combos(s, r)[j] == seq![s[0]] + c);
                assert forall|x: usize| (seq![s[0]] + c).contains(x) implies s.contains(x) by {
                    let i = choose|i: int| 0 <= i < (seq![s[0]] + c).len() && (seq![s[0]] + c)[i] == x;
                    if i > 0 {
                        assert(c[i - 1] == x);
                        assert(c.contains(x));
                        assert(t.contains(x));
                        let m = choose|m: int| 0 <= m < t.len() && t[m] == x;
                        assert(s[m + 1] == x);
                    } else {
                        assert(s[0] == x);
                    }
                }
                if increasing(s) {
                    assert(increasing(t));
                    assert forall|a: int, b: int| 0 <= a < b < (seq![s[0]] + c).len() implies (seq![s[0]] + c)[a] < (seq![s[0]] + c)[b] by {
                        if a == 0 {
                            assert(c.contains(c[b - 1]));
                            assert(t.contains(c[b - 1]));
                            let m = choose|m: int| 0 <= m < t.len() && t[m] == c[b - 1];
                            assert(s[m + 1] == c[b - 1]);
                            assert((seq![s[0]] + c)[b] == c[b - 1]);
                        } else {
                            assert((seq![s[0]] + c)[b] == c[b - 1]);
                            assert((seq![s[0]] + c)[a] == c[a - 1]);
                        }
                    }
                }
            } else {
                let c = right[j - left.len()];
                assert(combos(s, r)[j] == c);
                assert forall|x: usize| c.contains(x) implies s.contains(x) by {
                    assert(combos(t, r)[j - left.len()].contains(x));
                    assert(t.contains(x));
                    let m = choose|m: int| 0 <= m < t.len() && t[m] == x;
                    assert(s[m + 1] == x);
                }
                if increasing(s) {
                    assert(increasing(t));
                }
            }
        }
    }
}

/// Every increasing sequence of elements of an increasing `s` is one of its combinations.
pub proof fn lemma_combos_complete(s: Seq<usize>, c: Seq<usize>)
    requires
        increasing(s),
        increasing(c),
        forall|x: usize| c.contains(x) ==> s.contains(x),
    ensures
        combos(s, c.len()).contains(c),
    decreases s.len(),
{
    let r = c.len();
    if r == 0 {
        assert(combos(s, 0)[0] =~= c);
    } else {
        assert(c.contains(c[0]));
        let t = s.drop_first();
        assert(increasing(t));
        let left = combos(t, (r - 1) as nat).map_values(|d: Seq<usize>| seq![s[0]] + d);
        let right = combos(t, r);
        assert(combos(s, r) == left + right);
        if c[0] == s[0] {
            let d = c.drop_first();
            assert(increasing(d));
            assert forall|x: usize| d.contains(x) implies t.contains(x) by {
                let i = choose|i: int| 0 <= i < d.len() && d[i] == x;
                assert(c[i + 1] == x);
                assert(c.contains(x));
                let j = choose|j: int| 0 <= j < s.len() && s[j] == x;
                if j == 0 {
                    assert(c[0] < c[i + 1]);
                }
                assert(t[j - 1] == x);
            }
            lemma_combos_complete(t, d);
            let i = choose|i: int| 0 <= i < combos(t, d.len()).len() && combos(t, d.len())[i] == d;
            assert(d.len() == (r - 1) as nat);
            assert(left[i] == seq![s[0]] + d);
            assert(seq![s[0]] + d =~= c);
            assert((left + right)[i] == c);
        } else {
            assert forall|x: usize| c.contains(x) implies t.contains(x) by {
                let i = choose|i: int| 0 <= i < c.len() && c[i] == x;
                let j = choose|j: int| 0 <= j < s.len() && s[j] == x;
                if j == 0 {
                    let j0 = choose|j0: int| 0 <= j0 < s.len() && s[j0] == c[0];
                    if j0 != 0 {
                        assert(s[0] < s[j0]);
                    }
                    if i > 0 {
                        assert(c[0] < c[i]);
                    }
                }
                assert(t[j - 1] == x);
            }
            lemma_combos_complete(t, c);
            let i = choose|i: int| 0 <= i < right.len() && right[i] == c;
            assert((left + right)[left.len() + i] == c);
        }
    }
}

/// A scheme with no more than `n` parties per subset has a subset.
pub proof fn lemma_subsets_nonempty(k: nat, n: nat)
    requires
        k >= 1,
        k - 1 <= n,
        n <= usize::MAX,
    ensures
        subsets_spec(k, n).len() > 0,
{
    let c = parties_seq((k - 1) as nat);
    assert(increasing(parties_seq(n)));
    assert forall|x: usize| c.contains(x) implies parties_seq(n).contains(x) by {
        let i = choose|i: int| 0 <= i < c.len() && c[i] == x;
        assert(parties_seq(n)[i] == x);
    }
    lemma_combos_complete(parties_seq(n), c);
}

/// The combinations of an increasing `s` are pairwise distinct.
pub proof fn lemma_combos_distinct(s: Seq<usize>, r: nat)
    requires
        increasing(s),
    ensures
        forall|i: int, j: int|
            0 <= i < j < combos(s, r).len() ==> #[trigger] combos(s, r)[i] != #[trigger] combos(s, r)[j],
    decreases s.len(),
{
    if r == 0 {
    } else if s.len() == 0 {
    } else {
        let t = s.drop_first();
        assert(increasing(t));
        lemma_combos_distinct(t, (r - 1) as nat);
        lemma_combos_distinct(t, r);
        lemma_combos_shape(t, r);
        let left = combos(t, (r - 1) as nat).map_values(|c: Seq<usize>| seq![s[0]] + c);
        let right = combos(t, r);
        assert(combos(s, r) == left + right);
        assert forall|i: int, j: int| 0 <= i < j < combos(s, r).len() implies #[trigger] combos(s, r)[i]
            != #[trigger] combos(s, r)[j] by {
            if j < left.len() {
                let ci = combos(t, (r - 1) as nat)[i];
                let cj = combos(t, (r - 1) as nat)[j];
                assert(combos(s, r)[i] == seq![s[0]] + ci);
                assert(combos(s, r)[j] == seq![s[0]] + cj);
                if combos(s, r)[i] == combos(s, r)[j] {
                    assert((seq![s[0]] + ci).drop_first() =~= ci);
                    assert((seq![s[0]] + cj).drop_first() =~= cj);
                }
            } else if i >= left.len() {
                assert(combos(s, r)[i] == right[i - left.len()]);
                assert(combos(s, r)[j] == right[j - left.len()]);
            } else {
                let ci = combos(t, (r - 1) as nat)[i];
                let d = right[j - left.len()];
                assert(combos(s, r)[i] == seq![s[0]] + ci);
                assert(combos(s, r)[j] == d);
                if combos(s, r)[i] == d {
                    assert(d[0] == s[0]);
                    assert(d.contains(s[0]));
                    assert(t.contains(s[0]));
                    let m = choose|m: int| 0 <= m < t.len() && t[m] == s[0];
                    assert(s[m + 1] == s[0]);
                }
            }
        }
    }
}

} // verus!
