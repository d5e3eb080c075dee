//! Greedy assignment of work items to parties, and what it means for sums.
use crate::sharing::{lemma_sum_concat, lemma_sum_push, lemma_sum_scale, lemma_sum_update_add, seq_sum, PartyID, Sharing};
use vstd::prelude::*;

verus! {

/// The first party from `p` to `n` that can take `it`, or 0 if none can.
pub open spec fn first_taker<I>(pred: spec_fn(PartyID, I) -> bool, it: I, p: nat, n: nat) -> nat
    decreases n + 1 - p,
{
    if p > n {
        0
    } else if pred(p as PartyID, it) {
        p
    } else {
        first_taker(pred, it, p + 1, n)
    }
}

/// The party that greedy assignment gives `it` to: the first of `1..=n`
/// that can take it, or 0 if none can.
pub open spec fn owner<I>(pred: spec_fn(PartyID, I) -> bool, n: nat, it: I) -> nat {
    first_taker(pred, it, 1, n)
}

/// The first taker is a party that can take the item, and no party before it can.
pub proof fn lemma_first_taker<I>(pred: spec_fn(PartyID, I) -> bool, it: I, p: nat, n: nat)
    requires
        p >= 1,
    ensures
        first_taker(pred, it, p, n) == 0 || (p <= first_taker(pred, it, p, n) <= n && pred(
            first_taker(pred, it, p, n) as PartyID,
            it,
        )),
        forall|q: PartyID| p <= q < first_taker(pred, it, p, n) ==> !#[trigger] pred(q, it),
        first_taker(pred, it, p, n) == 0 ==> forall|q: PartyID| p <= q <= n ==> !#[trigger] pred(q, it),
    decreases n + 1 - p,
{
    if p <= n && !pred(p as PartyID, it) {
        lemma_first_taker(pred, it, p + 1, n);
        assert forall|q: PartyID| p <= q < first_taker(pred, it, p, n) implies !#[trigger] pred(q, it) by {
            if q > p {
            }
        }
    }
}

/// The items, in order, whose owner is `p`.
pub open spec fn owned_by<I>(items: Seq<I>, own: spec_fn(I) -> nat, p: nat) -> Seq<I>
    decreases items.len(),
{
    if items.len() == 0 {
        Seq::empty()
    } else if own(items.last()) == p {
        owned_by(items.drop_last(), own, p).push(items.last())
    } else {
        owned_by(items.drop_last(), own, p)
    }
}

/// The parties `1..=n` that own some item, each with the items it owns, in order of the parties.
pub open spec fn assignment_spec<I>(items: Seq<I>, own: spec_fn(I) -> nat, n: nat) -> Seq<
    (PartyID, Seq<I>),
>
    decreases n,
{
    if n == 0 {
        Seq::empty()
    } else {
        let prev = assignment_spec(items, own, (n - 1) as nat);
        let l = owned_by(items, own, n);
        if l.len() > 0 {
            prev.push((n as PartyID, l))
        } else {
            prev
        }
    }
}

/// Every item owned by `p` has owner `p`.
pub proof fn lemma_owned_by<I>(items: Seq<I>, own: spec_fn(I) -> nat, p: nat)
    ensures
        forall|t: int| 0 <= t < owned_by(items, own, p).len() ==> own(#[trigger] owned_by(items, own, p)[t]) == p,
        owned_by(items, own, p).len() <= items.len(),
    decreases items.len(),
{
    if items.len() > 0 {
        lemma_owned_by(items.drop_last(), own, p);
    }
}

/// The entries of an assignment belong to distinct parties of `1..=n`, in
/// increasing order, and hold nonempty lists of the items those parties own.
pub proof fn lemma_assignment_entries<I>(items: Seq<I>, own: spec_fn(I) -> nat, n: nat)
    requires
        n <= usize::MAX,
    ensures
        forall|e: int|
            0 <= e < assignment_spec(items, own, n).len() ==> {
                let (p, l) = #[trigger] assignment_spec(items, own, n)[e];
                &&& 1 <= p <= n
                &&& l == owned_by(items, own, p as nat)
                &&& l.len() > 0
            },
        forall|e: int, d: int|
            0 <= e < d < assignment_spec(items, own, n).len() ==> (#[trigger] assignment_spec(
                items,
                own,
                n,
            )[e]).0 < (#[trigger] assignment_spec(items, own, n)[d]).0,
    decreases n,
{
    if n > 0 {
        let n1 = (n - 1) as nat;
        lemma_assignment_entries(items, own, n1);
        let prev = assignment_spec(items, own, n1);
        let l = owned_by(items, own, n);
        let cur = assignment_spec(items, own, n);
        if l.len() > 0 {
            assert(cur == prev.push((n as PartyID, l)));
            assert forall|e: int| 0 <= e < cur.len() implies {
                let (p, l) = #[trigger] cur[e];
                &&& 1 <= p <= n
                &&& l == owned_by(items, own, p as nat)
                &&& l.len() > 0
            } by {
                if e < prev.len() {
                    assert(cur[e] == prev[e]);
                }
            }
            assert forall|e: int, d: int| 0 <= e < d < cur.len() implies (#[trigger] cur[e]).0 < (
            #[trigger] cur[d]).0 by {
                assert(cur[e] == prev[e]);
                if d < prev.len() {
                    assert(cur[d] == prev[d]);
                }
            }
        } else {
            assert(cur == prev);
        }
    }
}

/// The sum of `f` over a sequence.
pub open spec fn sum_of<T: Sharing, I>(s: Seq<I>, f: spec_fn(I) -> T::Share) -> T::Share {
    seq_sum::<T>(s.map_values(f))
}

/// Sums of two functions that agree on every item are equal.
pub proof fn lemma_sum_of_ext<T: Sharing, I>(s: Seq<I>, f1: spec_fn(I) -> T::Share, f2: spec_fn(I) -> T::Share)
    requires
        forall|t: int| 0 <= t < s.len() ==> f1(#[trigger] s[t]) == f2(s[t]),
    ensures
        sum_of::<T, I>(s, f1) == sum_of::<T, I>(s, f2),
{
    assert(s.map_values(f1) =~= s.map_values(f2));
}

/// The sums of `f` over the items that each party `1..=n` owns.
pub open spec fn party_sums<T: Sharing, I>(
    items: Seq<I>,
    own: spec_fn(I) -> nat,
    f: spec_fn(I) -> T::Share,
    n: nat,
) -> Seq<T::Share> {
    Seq::new(n, |i: int| sum_of::<T, I>(owned_by(items, own, (i + 1) as nat), f))
}

pub proof fn lemma_sum_of_push<T: Sharing, I>(s: Seq<I>, x: I, f: spec_fn(I) -> T::Share)
    ensures
        sum_of::<T, I>(s.push(x), f) == T::add_spec(sum_of::<T, I>(s, f), f(x)),
{
    assert(s.push(x).map_values(f) =~= s.map_values(f).push(f(x)));
    lemma_sum_push::<T>(s.map_values(f), f(x));
}

/// Summing over the items by owner: the items without owner, then each party's.
pub proof fn lemma_sum_by_owner<T: Sharing, I>(
    items: Seq<I>,
    own: spec_fn(I) -> nat,
    f: spec_fn(I) -> T::Share,
    n: nat,
)
    requires
        forall|t: int| 0 <= t < items.len() ==> own(#[trigger] items[t]) <= n,
    ensures
        sum_of::<T, I>(items, f) == T::add_spec(
            sum_of::<T, I>(owned_by(items, own, 0), f),
            seq_sum::<T>(party_sums::<T, I>(items, own, f, n)),
        ),
    decreases items.len(),
{
    if items.len() == 0 {
        let z = party_sums::<T, I>(items, own, f, n);
        assert forall|i: int| 0 <= i < z.len() implies z[i] == T::zero_spec() by {
            assert(owned_by(items, own, (i + 1) as nat).map_values(f) =~= Seq::<T::Share>::empty());
        }
        crate::sharing::lemma_sum_zeros::<T>(z);
        assert(owned_by(items, own, 0).map_values(f) =~= Seq::<T::Share>::empty());
        T::lemma_ring(T::zero_spec(), T::zero_spec(), T::zero_spec());
    } else {
        let s = items.drop_last();
        let x = items.last();
        assert(items =~= s.push(x));
        lemma_sum_by_owner::<T, I>(s, own, f, n);
        lemma_sum_of_push::<T, I>(s, x, f);
        let z0 = sum_of::<T, I>(owned_by(s, own, 0), f);
        let ps = party_sums::<T, I>(s, own, f, n);
        let q = own(x);
        if q == 0 {
            lemma_sum_of_push::<T, I>(owned_by(s, own, 0), x, f);
            assert(party_sums::<T, I>(items, own, f, n) =~= ps);
            // (z0 + P) + f(x) == (z0 + f(x)) + P
            T::lemma_ring(z0, seq_sum::<T>(ps), f(x));
            T::lemma_ring(seq_sum::<T>(ps), f(x), z0);
            T::lemma_ring(z0, f(x), seq_sum::<T>(ps));
        } else {
            let j = (q - 1) as int;
            lemma_sum_of_push::<T, I>(owned_by(s, own, q), x, f);
            assert(party_sums::<T, I>(items, own, f, n) =~= ps.update(j, T::add_spec(ps[j], f(x))));
            lemma_sum_update_add::<T>(ps, j, f(x));
            assert(owned_by(items, own, 0) =~= owned_by(s, own, 0));
            T::lemma_ring(z0, seq_sum::<T>(ps), f(x));
        }
    }
}

/// The sums over the entries of an assignment add up to the sums of all parties.
pub proof fn lemma_sum_assignment<T: Sharing, I>(
    items: Seq<I>,
    own: spec_fn(I) -> nat,
    f: spec_fn(I) -> T::Share,
    n: nat,
)
    ensures
        seq_sum::<T>(
            assignment_spec(items, own, n).map_values(
                |e: (PartyID, Seq<I>)| sum_of::<T, I>(e.1, f),
            ),
        ) == seq_sum::<T>(party_sums::<T, I>(items, own, f, n)),
    decreases n,
{
    let g = |e: (PartyID, Seq<I>)| sum_of::<T, I>(e.1, f);
    if n == 0 {
        assert(assignment_spec(items, own, n).map_values(g) =~= Seq::<T::Share>::empty());
        assert(party_sums::<T, I>(items, own, f, n) =~= Seq::<T::Share>::empty());
    } else {
        let n1 = (n - 1) as nat;
        lemma_sum_assignment::<T, I>(items, own, f, n1);
        let prev = assignment_spec(items, own, n1);
        let l = owned_by(items, own, n);
        assert(party_sums::<T, I>(items, own, f, n) =~= party_sums::<T, I>(items, own, f, n1).push(
            sum_of::<T, I>(l, f),
        ));
        lemma_sum_push::<T>(party_sums::<T, I>(items, own, f, n1), sum_of::<T, I>(l, f));
        if l.len() > 0 {
            assert(assignment_spec(items, own, n).map_values(g) =~= prev.map_values(g).push(
                sum_of::<T, I>(l, f),
            ));
            lemma_sum_push::<T>(prev.map_values(g), sum_of::<T, I>(l, f));
        } else {
            assert(l.map_values(f) =~= Seq::<T::Share>::empty());
            T::lemma_ring(seq_sum::<T>(party_sums::<T, I>(items, own, f, n1)), T::zero_spec(), T::zero_spec());
        }
    }
}

/// All pairs `(a, b)` of positions below `m` with `a < r`, row by row.
pub open spec fn cross_pairs(r: nat, m: nat) -> Seq<(usize, usize)>
    decreases r,
{
    if r == 0 {
        Seq::empty()
    } else {
        cross_pairs((r - 1) as nat, m) + Seq::new(m, |b: int| ((r - 1) as usize, b as usize))
    }
}

/// The pairs of `cross_pairs(r, m)` are below `(r, m)`.
pub proof fn lemma_cross_pairs_bounds(r: nat, m: nat)
    requires
        r <= usize::MAX,
        m <= usize::MAX,
    ensures
        cross_pairs(r, m).len() == r * m,
        forall|t: int|
            0 <= t < cross_pairs(r, m).len() ==> (#[trigger] cross_pairs(r, m)[t]).0 < r && cross_pairs(
                r,
                m,
            )[t].1 < m,
    decreases r,
{
    if r > 0 {
        let r1 = (r - 1) as nat;
        lemma_cross_pairs_bounds(r1, m);
        assert(r * m == r1 * m + m) by (nonlinear_arith)
            requires
                r1 + 1 == r,
        ;
        assert forall|t: int| 0 <= t < cross_pairs(r, m).len() implies (#[trigger] cross_pairs(r, m)[t]).0 < r
            && cross_pairs(r, m)[t].1 < m by {
            if t >= cross_pairs(r1, m).len() {
                let b = t - cross_pairs(r1, m).len();
                assert(cross_pairs(r, m)[t] == ((r - 1) as usize, b as usize));
            } else {
                assert(cross_pairs(r, m)[t] == cross_pairs(r1, m)[t]);
            }
        }
    } else {
        assert(0 * m == 0);
    }
}

/// No item is owned by `p` when no item has owner `p`.
pub proof fn lemma_owned_by_none<I>(items: Seq<I>, own: spec_fn(I) -> nat, p: nat)
    requires
        forall|t: int| 0 <= t < items.len() ==> own(#[trigger] items[t]) != p,
    ensures
        owned_by(items, own, p) == Seq::<I>::empty(),
    decreases items.len(),
{
    if items.len() > 0 {
        lemma_owned_by_none(items.drop_last(), own, p);
        assert(own(items[items.len() - 1]) != p);
    }
}

/// The product of the values at a pair of positions.
pub open spec fn pair_product<T: Sharing>(va: Seq<T::Share>, vb: Seq<T::Share>) -> spec_fn(
    (usize, usize),
) -> T::Share {
    |t: (usize, usize)| T::mul_spec(va[t.0 as int], vb[t.1 as int])
}

/// The sum of all cross products is the product of the sums.
pub proof fn lemma_cross_sum<T: Sharing>(va: Seq<T::Share>, vb: Seq<T::Share>, r: nat)
    requires
        r <= va.len(),
        va.len() <= usize::MAX,
        vb.len() <= usize::MAX,
    ensures
        sum_of::<T, (usize, usize)>(cross_pairs(r, vb.len()), pair_product::<T>(va, vb))
            == T::mul_spec(seq_sum::<T>(va.take(r as int)), seq_sum::<T>(vb)),
    decreases r,
{
    let f = pair_product::<T>(va, vb);
    let sb = seq_sum::<T>(vb);
    if r == 0 {
        assert(cross_pairs(0, vb.len()).map_values(f) =~= Seq::<T::Share>::empty());
        assert(va.take(0) =~= Seq::<T::Share>::empty());
        T::lemma_ring(sb, T::zero_spec(), T::zero_spec());
    } else {
        let r1 = (r - 1) as nat;
        lemma_cross_sum::<T>(va, vb, r1);
        let x = va[r1 as int];
        let row = Seq::new(vb.len(), |b: int| (r1 as usize, b as usize));
        assert((cross_pairs(r1, vb.len()) + row).map_values(f) =~= cross_pairs(r1, vb.len()).map_values(f)
            + row.map_values(f));
        lemma_sum_concat::<T>(cross_pairs(r1, vb.len()).map_values(f), row.map_values(f));
        assert(row.map_values(f) =~= vb.map_values(|y: T::Share| T::mul_spec(x, y)));
        lemma_sum_scale::<T>(x, vb);
        assert(va.take(r as int) =~= va.take(r1 as int).push(x));
        lemma_sum_push::<T>(va.take(r1 as int), x);
        let s1 = seq_sum::<T>(va.take(r1 as int));
        // (s1 * sb) + (x * sb) == (s1 + x) * sb
        T::lemma_ring(sb, s1, x);
        T::lemma_ring(s1, sb, sb);
        T::lemma_ring(x, sb, sb);
        T::lemma_ring(T::add_spec(s1, x), sb, sb);
    }
}

/// An item is in the list of the party that owns it.
pub proof fn lemma_owned_by_contains<I>(items: Seq<I>, own: spec_fn(I) -> nat, t: int)
    requires
        0 <= t < items.len(),
    ensures
        owned_by(items, own, own(items[t])).contains(items[t]),
    decreases items.len(),
{
    let p = own(items[t]);
    let last = items.len() - 1;
    if t == last {
        assert(owned_by(items, own, p) == owned_by(items.drop_last(), own, p).push(items[t]));
        assert(owned_by(items, own, p)[owned_by(items.drop_last(), own, p).len() as int] == items[t]);
    } else {
        assert(items.drop_last()[t] == items[t]);
        lemma_owned_by_contains(items.drop_last(), own, t);
        let prev = owned_by(items.drop_last(), own, p);
        let i = choose|i: int| 0 <= i < prev.len() && prev[i] == items[t];
        if own(items.last()) == p {
            assert(owned_by(items, own, p) == prev.push(items.last()));
            assert(owned_by(items, own, p)[i] == items[t]);
        } else {
            assert(owned_by(items, own, p) == prev);
        }
    }
}

/// A party of `1..=n` that owns some item has an entry, with the items it owns.
pub proof fn lemma_assignment_has<I>(items: Seq<I>, own: spec_fn(I) -> nat, n: nat, p: nat)
    requires
        1 <= p <= n,
        n <= usize::MAX,
        owned_by(items, own, p).len() > 0,
    ensures
        exists|e: int|
            0 <= e < assignment_spec(items, own, n).len() && #[trigger] assignment_spec(items, own, n)[e]
                == (p as PartyID, owned_by(items, own, p)),
    decreases n,
{
    let prev = assignment_spec(items, own, (n - 1) as nat);
    let l = owned_by(items, own, n);
    if p == n {
        assert(assignment_spec(items, own, n) == prev.push((n as PartyID, l)));
        assert(assignment_spec(items, own, n)[prev.len() as int] == (p as PartyID, l));
    } else {
        lemma_assignment_has(items, own, (n - 1) as nat, p);
        let e = choose|e: int|
            0 <= e < prev.len() && #[trigger] prev[e] == (p as PartyID, owned_by(items, own, p));
        if l.len() > 0 {
            assert(assignment_spec(items, own, n) == prev.push((n as PartyID, l)));
            assert(assignment_spec(items, own, n)[e] == prev[e]);
        } else {
            assert(assignment_spec(items, own, n) == prev);
        }
    }
}

/// When every party of `1..=n` owns some item, the `e`-th entry is party `e + 1`'s.
pub proof fn lemma_assignment_full<I>(items: Seq<I>, own: spec_fn(I) -> nat, n: nat)
    requires
        n <= usize::MAX,
        forall|p: nat| 1 <= p <= n ==> #[trigger] owned_by(items, own, p).len() > 0,
    ensures
        assignment_spec(items, own, n).len() == n,
        forall|e: int|
            0 <= e < n ==> #[trigger] assignment_spec(items, own, n)[e] == ((e + 1) as PartyID, owned_by(
                items,
                own,
                (e + 1) as nat,
            )),
    decreases n,
{
    if n > 0 {
        let n1 = (n - 1) as nat;
        lemma_assignment_full(items, own, n1);
        let prev = assignment_spec(items, own, n1);
        assert(owned_by(items, own, n).len() > 0);
        assert(assignment_spec(items, own, n) == prev.push((n as PartyID, owned_by(items, own, n))));
        assert forall|e: int| 0 <= e < n implies #[trigger] assignment_spec(items, own, n)[e] == (
            (e + 1) as PartyID,
            owned_by(items, own, (e + 1) as nat),
        ) by {
            if e < n1 {
                assert(assignment_spec(items, own, n)[e] == prev[e]);
            }
        }
    }
}

/// Every pair of positions below `(r, m)` is one of `cross_pairs(r, m)`.
pub proof fn lemma_cross_pairs_contains(r: nat, m: nat, a: nat, b: nat)
    requires
        a < r,
        b < m,
        r <= usize::MAX,
    ensures
        cross_pairs(r, m).contains((a as usize, b as usize)),
    decreases r,
{
    let r1 = (r - 1) as nat;
    let row = Seq::new(m, |c: int| (r1 as usize, c as usize));
    assert(cross_pairs(r, m) == cross_pairs(r1, m) + row);
    if a == r1 {
        assert(cross_pairs(r, m)[(cross_pairs(r1, m).len() + b) as int] == (a as usize, b as usize));
    } else {
        lemma_cross_pairs_contains(r1, m, a, b);
        let t = choose|t: int| 0 <= t < cross_pairs(r1, m).len() && cross_pairs(r1, m)[t] == (a as usize, b as usize);
        assert(cross_pairs(r, m)[t] == (a as usize, b as usize));
    }
}

} // verus!
