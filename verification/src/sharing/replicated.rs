//! k-of-n replicated secret sharing.
//!
//! A secret is split into one value per subset of `k - 1` parties, and every
//! party holds the values of all subsets that it is not a member of. The
//! subsets are those of `ReplicatedSharing::all_subsets(k, n, None)`, and a
//! party's shares are indexed by the position of their subset in that list.
use super::subsets::{
    combinations_of_parties, combos, increasing, lemma_combos_complete, lemma_combos_shape, parties_seq,
    subsets_spec,
};
use super::{lemma_sub_unique, lemma_sum_push, lemma_sum_update_add, seq_sum, Sharing, PartyID};
use crate::error::Error;
use crate::randomness::OsSource;
use rand::rngs::SysRng;
use vstd::prelude::*;

verus! {

/// The shares that one party holds: `shares[j]` is its share for the `j`-th
/// subset, or `None` where the party belongs to that subset.
#[derive(Clone, Debug)]
pub struct PartyShares<S> {
    pub id: PartyID,
    pub shares: Vec<Option<S>>,
}

/// The shares of all parties of a replicated sharing.
pub type Shares<S> = Vec<PartyShares<S>>;

/// Party `p` holds the value `v[j]` for every subset `subs[j]` it is not in, and nothing else.
pub open spec fn holds<S>(p: PartyShares<S>, subs: Seq<Seq<PartyID>>, v: Seq<S>) -> bool {
    &&& p.shares@.len() == subs.len()
    &&& forall|j: int|
        0 <= j < subs.len() ==> #[trigger] p.shares@[j] == if subs[j].contains(p.id) {
            None
        } else {
            Some(v[j])
        }
}

/// The parties of `sh` hold the sharing whose subset values are `v`.
pub open spec fn represents<S>(sh: Seq<PartyShares<S>>, subs: Seq<Seq<PartyID>>, v: Seq<S>) -> bool {
    &&& v.len() == subs.len()
    &&& forall|i: int| 0 <= i < sh.len() ==> holds(#[trigger] sh[i], subs, v)
}

/// The parties of `sh` hold a sharing of `secret`.
pub open spec fn shares_secret<T: Sharing>(
    sh: Seq<PartyShares<T::Share>>,
    subs: Seq<Seq<PartyID>>,
    secret: T::Share,
) -> bool {
    exists|v: Seq<T::Share>| represents(sh, subs, v) && seq_sum::<T>(v) == secret
}

/// No two parties of `sh` have the same id.
pub open spec fn distinct_ids<S>(sh: Seq<PartyShares<S>>) -> bool {
    forall|i: int, j: int| 0 <= i < sh.len() && 0 <= j < sh.len() && i != j ==> sh[i].id != sh[j].id
}

/// The parties of `sub` are among those of `sh`.
pub open spec fn sub_sharing<S>(sub: Seq<PartyShares<S>>, sh: Seq<PartyShares<S>>) -> bool {
    forall|i: int| 0 <= i < sub.len() ==> sh.contains(#[trigger] sub[i])
}

/// The position of the first party of `sh` that is not in `subset`, or `sh.len()`.
pub open spec fn first_outside<S>(sh: Seq<PartyShares<S>>, subset: Seq<PartyID>) -> int
    decreases sh.len(),
{
    if sh.len() == 0 {
        0
    } else if !subset.contains(sh[0].id) {
        0
    } else {
        1 + first_outside(sh.drop_first(), subset)
    }
}

/// The share that reconstruction takes for the `j`-th subset: that of the
/// first party outside the subset, or nothing (zero) if no party is outside.
pub open spec fn picked<T: Sharing>(
    sh: Seq<PartyShares<T::Share>>,
    subs: Seq<Seq<PartyID>>,
    j: int,
) -> T::Share {
    let i = first_outside(sh, subs[j]);
    if i < sh.len() {
        match sh[i].shares@[j] {
            Some(x) => x,
            None => T::zero_spec(),
        }
    } else {
        T::zero_spec()
    }
}

/// What reconstruction returns: the sum of the picked shares.
pub open spec fn reconstructed<T: Sharing>(
    sh: Seq<PartyShares<T::Share>>,
    subs: Seq<Seq<PartyID>>,
) -> T::Share {
    seq_sum::<T>(Seq::new(subs.len(), |j: int| picked::<T>(sh, subs, j)))
}

/// For every subset, the first party outside it holds a share for it.
pub open spec fn can_reconstruct<S>(sh: Seq<PartyShares<S>>, subs: Seq<Seq<PartyID>>) -> bool {
    forall|j: int|
        0 <= j < subs.len() && first_outside(sh, #[trigger] subs[j]) < sh.len() ==> {
            let p = sh[first_outside(sh, subs[j])];
            j < p.shares@.len() && p.shares@[j] is Some
        }
}

/// Some party of `sh` is not in `subset`.
pub open spec fn has_outside<S>(sh: Seq<PartyShares<S>>, subset: Seq<PartyID>) -> bool {
    exists|i: int| 0 <= i < sh.len() && !subset.contains(sh[i].id)
}

/// Every subset leaves some party of `sh` outside.
pub open spec fn covers<S>(sh: Seq<PartyShares<S>>, subs: Seq<Seq<PartyID>>) -> bool {
    forall|j: int| 0 <= j < subs.len() ==> has_outside(sh, #[trigger] subs[j])
}

/// `first_outside` is the first position outside the subset.
pub proof fn lemma_first_outside<S>(sh: Seq<PartyShares<S>>, subset: Seq<PartyID>)
    ensures
        0 <= first_outside(sh, subset) <= sh.len(),
        forall|i: int| 0 <= i < first_outside(sh, subset) ==> subset.contains(#[trigger] sh[i].id),
        first_outside(sh, subset) < sh.len() ==> !subset.contains(sh[first_outside(sh, subset)].id),
    decreases sh.len(),
{
    if sh.len() > 0 && subset.contains(sh[0].id) {
        lemma_first_outside(sh.drop_first(), subset);
        assert forall|i: int| 0 <= i < first_outside(sh, subset) implies subset.contains(
            #[trigger] sh[i].id,
        ) by {
            if i > 0 {
                assert(sh[i] == sh.drop_first()[i - 1]);
            }
        }
    }
}

/// A sharing that represents `v` and leaves a party outside every subset
/// reconstructs to the sum of `v`.
pub proof fn lemma_reconstruct_represents<T: Sharing>(
    sh: Seq<PartyShares<T::Share>>,
    subs: Seq<Seq<PartyID>>,
    v: Seq<T::Share>,
)
    requires
        represents(sh, subs, v),
        covers(sh, subs),
    ensures
        can_reconstruct(sh, subs),
        reconstructed::<T>(sh, subs) == seq_sum::<T>(v),
{
    assert forall|j: int| 0 <= j < subs.len() implies picked::<T>(sh, subs, j) == v[j]
        && first_outside(sh, subs[j]) < sh.len() by {
        lemma_first_outside(sh, subs[j]);
        let i = choose|i: int| 0 <= i < sh.len() && !subs[j].contains(sh[i].id);
        assert(holds(sh[first_outside(sh, subs[j])], subs, v));
    }
    assert forall|j: int|
        0 <= j < subs.len() && first_outside(sh, #[trigger] subs[j]) < sh.len() implies {
        let p = sh[first_outside(sh, subs[j])];
        j < p.shares@.len() && p.shares@[j] is Some
    } by {
        lemma_first_outside(sh, subs[j]);
        assert(holds(sh[first_outside(sh, subs[j])], subs, v));
    }
    assert(Seq::new(subs.len(), |j: int| picked::<T>(sh, subs, j)) =~= v);
}

/// Some party of `sh` is outside `subset` when `sh` has more distinct ids than `subset` has members.
pub proof fn lemma_party_outside<S>(sh: Seq<PartyShares<S>>, subset: Seq<PartyID>) -> (i: int)
    requires
        distinct_ids(sh),
        sh.len() > subset.len(),
    ensures
        0 <= i < sh.len(),
        !subset.contains(sh[i].id),
{
    if forall|i: int| 0 <= i < sh.len() ==> subset.contains(#[trigger] sh[i].id) {
        let ids = sh.map_values(|p: PartyShares<S>| p.id);
        assert(ids.no_duplicates());
        ids.unique_seq_to_set();
        subset.lemma_cardinality_of_set();
        assert forall|x: PartyID| ids.to_set().contains(x) implies subset.to_set().contains(x) by {
            let a = choose|a: int| 0 <= a < ids.len() && ids[a] == x;
            assert(subset.contains(sh[a].id));
        }
        vstd::set_lib::lemma_len_subset(ids.to_set(), subset.to_set());
        assert(false);
    }
    choose|i: int| 0 <= i < sh.len() && !subset.contains(sh[i].id)
}

/// When `2(k - 1) < n`, some party of `1..=n` is in neither of two subsets of `k - 1` parties.
pub proof fn lemma_outside_both(a: Seq<PartyID>, b: Seq<PartyID>, k: nat, n: nat) -> (id: PartyID)
    requires
        a.len() == k - 1,
        b.len() == k - 1,
        k >= 1,
        2 * (k - 1) < n,
        n <= usize::MAX,
    ensures
        1 <= id <= n,
        !a.contains(id),
        !b.contains(id),
{
    let ps = parties_seq(n);
    assert(ps.no_duplicates());
    ps.unique_seq_to_set();
    a.lemma_cardinality_of_set();
    b.lemma_cardinality_of_set();
    let u = a.to_set().union(b.to_set());
    vstd::set_lib::lemma_len_union(a.to_set(), b.to_set());
    if forall|x: PartyID| ps.to_set().contains(x) ==> u.contains(x) {
        vstd::set_lib::lemma_len_subset(ps.to_set(), u);
        assert(false);
    }
    let x = choose|x: PartyID| ps.to_set().contains(x) && !u.contains(x);
    let i = choose|i: int| 0 <= i < ps.len() && ps[i] == x;
    x
}

/// A sharing where every subset leaves a party outside represents only one sequence of values.
pub proof fn lemma_represents_unique<S>(
    sh: Seq<PartyShares<S>>,
    subs: Seq<Seq<PartyID>>,
    v1: Seq<S>,
    v2: Seq<S>,
)
    requires
        covers(sh, subs),
        represents(sh, subs, v1),
        represents(sh, subs, v2),
    ensures
        v1 == v2,
{
    assert forall|j: int| 0 <= j < subs.len() implies v1[j] == v2[j] by {
        assert(has_outside(sh, subs[j]));
        let i = choose|i: int| 0 <= i < sh.len() && !subs[j].contains(sh[i].id);
        assert(holds(sh[i], subs, v1));
        assert(holds(sh[i], subs, v2));
        assert(sh[i].shares@[j] == Some(v1[j]));
    }
    assert(v1 =~= v2);
}

/// Any `k` parties with distinct ids leave a party outside each subset of `k - 1` parties.
pub proof fn lemma_k_parties_cover<S>(sh: Seq<PartyShares<S>>, subs: Seq<Seq<PartyID>>, k: nat)
    requires
        distinct_ids(sh),
        sh.len() >= k,
        forall|j: int| 0 <= j < subs.len() ==> (#[trigger] subs[j]).len() == k - 1,
    ensures
        covers(sh, subs),
{
    assert forall|j: int| 0 <= j < subs.len() implies has_outside(sh, #[trigger] subs[j]) by {
        let i = lemma_party_outside(sh, subs[j]);
        assert(0 <= i < sh.len() && !subs[j].contains(sh[i].id));
    }
}

/// `first_outside` is the position `i` where all parties before `i` are in
/// `subset` and party `i` is not, or where no party is left.
pub proof fn lemma_first_outside_at<S>(sh: Seq<PartyShares<S>>, subset: Seq<PartyID>, i: int)
    requires
        0 <= i <= sh.len(),
        forall|a: int| 0 <= a < i ==> subset.contains(#[trigger] sh[a].id),
        i < sh.len() ==> !subset.contains(sh[i].id),
    ensures
        first_outside(sh, subset) == i,
{
    lemma_first_outside(sh, subset);
    let f = first_outside(sh, subset);
    if f < i {
        assert(subset.contains(sh[f].id));
    }
    if f > i {
        assert(subset.contains(sh[i].id));
    }
}

/// The parties are `1..=n`, in order.
pub open spec fn dealt_to_all<S>(sh: Seq<PartyShares<S>>, n: nat) -> bool {
    &&& sh.len() == n
    &&& forall|i: int| 0 <= i < n ==> (#[trigger] sh[i]).id == i + 1
}

/// Parties that hold a sharing of `secret` under the subsets of a k-of-n
/// scheme reconstruct `secret` from any `k` or more of them with distinct ids.
pub proof fn lemma_reconstruct_any_k<T: Sharing>(
    sh: Seq<PartyShares<T::Share>>,
    sub: Seq<PartyShares<T::Share>>,
    k: nat,
    n: nat,
    secret: T::Share,
)
    requires
        k >= 1,
        shares_secret::<T>(sh, subsets_spec(k, n), secret),
        sub_sharing(sub, sh),
        distinct_ids(sub),
        sub.len() >= k,
    ensures
        can_reconstruct(sub, subsets_spec(k, n)),
        reconstructed::<T>(sub, subsets_spec(k, n)) == secret,
{
    let subs = subsets_spec(k, n);
    let v = choose|v: Seq<T::Share>| represents(sh, subs, v) && seq_sum::<T>(v) == secret;
    assert forall|i: int| 0 <= i < sub.len() implies holds(#[trigger] sub[i], subs, v) by {
        assert(sh.contains(sub[i]));
        let a = choose|a: int| 0 <= a < sh.len() && sh[a] == sub[i];
        assert(holds(sh[a], subs, v));
    }
    lemma_combos_shape(parties_seq(n), (k - 1) as nat);
    lemma_k_parties_cover(sub, subs, k);
    lemma_reconstruct_represents::<T>(sub, subs, v);
}

/// No `k - 1` parties hold every share: the subset made of exactly them is one
/// of the scheme's, and none of them holds its share.
pub proof fn lemma_coalition_misses_a_share<S>(
    sh: Seq<PartyShares<S>>,
    k: nat,
    n: nat,
    v: Seq<S>,
    coalition: Seq<PartyID>,
)
    requires
        k >= 1,
        n <= usize::MAX,
        represents(sh, subsets_spec(k, n), v),
        coalition.len() == k - 1,
        increasing(coalition),
        forall|x: PartyID| coalition.contains(x) ==> 1 <= x <= n,
    ensures
        exists|j: int|
            0 <= j < subsets_spec(k, n).len() && subsets_spec(k, n)[j] == coalition && forall|i: int|
                0 <= i < sh.len() && coalition.contains(sh[i].id) ==> (#[trigger] sh[i].shares@[j]) is None,
{
    let subs = subsets_spec(k, n);
    let ps = parties_seq(n);
    assert(increasing(ps));
    assert forall|x: PartyID| coalition.contains(x) implies ps.contains(x) by {
        assert(ps[x - 1] == x);
    }
    lemma_combos_complete(ps, coalition);
    let j = choose|j: int| 0 <= j < subs.len() && subs[j] == coalition;
    assert forall|i: int| 0 <= i < sh.len() && coalition.contains(sh[i].id) implies (
    #[trigger] sh[i].shares@[j]) is None by {
        assert(holds(sh[i], subs, v));
    }
}

/// The subset values dealt for `secret` with `randoms`: the randoms, then the
/// value that makes them add up to `secret` (as `share_with_randoms` deals them).
pub open spec fn dealt_values<T: Sharing>(randoms: Seq<T::Share>, secret: T::Share) -> Seq<T::Share> {
    randoms.push(T::sub_spec(secret, seq_sum::<T>(randoms)))
}

/// No `k - 1` parties learn anything of the secret: whatever the randoms that
/// deal `secret`, some randoms deal `other` so that each of these parties
/// holds exactly the same shares. Returns those randoms.
pub proof fn lemma_coalition_learns_nothing<T: Sharing>(
    k: nat,
    n: nat,
    coalition: Seq<PartyID>,
    randoms: Seq<T::Share>,
    secret: T::Share,
    other: T::Share,
) -> (randoms2: Seq<T::Share>)
    requires
        k >= 1,
        n <= usize::MAX,
        coalition.len() == k - 1,
        increasing(coalition),
        forall|x: PartyID| coalition.contains(x) ==> 1 <= x <= n,
        randoms.len() + 1 == subsets_spec(k, n).len(),
    ensures
        randoms2.len() == randoms.len(),
        seq_sum::<T>(dealt_values::<T>(randoms2, other)) == other,
        forall|p1: PartyShares<T::Share>, p2: PartyShares<T::Share>|
            #![trigger holds(p1, subsets_spec(k, n), dealt_values::<T>(randoms, secret)), holds(p2, subsets_spec(k, n), dealt_values::<T>(randoms2, other))]
            holds(p1, subsets_spec(k, n), dealt_values::<T>(randoms, secret)) && holds(
                p2,
                subsets_spec(k, n),
                dealt_values::<T>(randoms2, other),
            ) && p1.id == p2.id && coalition.contains(p1.id) ==> p1.shares@ == p2.shares@,
{
    let subs = subsets_spec(k, n);
    let m = subs.len();
    let ps = parties_seq(n);
    assert(increasing(ps));
    assert forall|x: PartyID| coalition.contains(x) implies ps.contains(x) by {
        assert(ps[x - 1] == x);
    }
    lemma_combos_complete(ps, coalition);
    let c = choose|c: int| 0 <= c < subs.len() && subs[c] == coalition;
    let d1 = dealt_values::<T>(randoms, secret);
    let delta = T::sub_spec(other, secret);
    let d2 = d1.update(c, T::add_spec(d1[c], delta));
    // d1 adds up to `secret`, so d2 adds up to `other`.
    lemma_sum_push::<T>(randoms, T::sub_spec(secret, seq_sum::<T>(randoms)));
    T::lemma_ring(secret, seq_sum::<T>(randoms), seq_sum::<T>(randoms));
    T::lemma_ring(seq_sum::<T>(randoms), T::sub_spec(secret, seq_sum::<T>(randoms)), seq_sum::<T>(randoms));
    lemma_sum_update_add::<T>(d1, c, delta);
    T::lemma_ring(other, secret, secret);
    T::lemma_ring(secret, delta, secret);
    let randoms2 = d2.drop_last();
    // The last value of d2 is the one that makes randoms2 add up to `other`.
    assert(d2 =~= randoms2.push(d2.last()));
    lemma_sum_push::<T>(randoms2, d2.last());
    T::lemma_ring(seq_sum::<T>(randoms2), d2.last(), d2.last());
    lemma_sub_unique::<T>(d2.last(), other, seq_sum::<T>(randoms2));
    assert(dealt_values::<T>(randoms2, other) =~= d2);
    assert forall|p1: PartyShares<T::Share>, p2: PartyShares<T::Share>|
        #![trigger holds(p1, subs, d1), holds(p2, subs, dealt_values::<T>(randoms2, other))]
        holds(p1, subs, d1) && holds(p2, subs, dealt_values::<T>(randoms2, other)) && p1.id == p2.id
            && coalition.contains(p1.id) implies p1.shares@ == p2.shares@ by {
        assert forall|j: int| 0 <= j < subs.len() implies p1.shares@[j] == p2.shares@[j] by {
            assert(p1.shares@[j] == if subs[j].contains(p1.id) { None } else { Some(d1[j]) });
            assert(p2.shares@[j] == if subs[j].contains(p2.id) { None } else { Some(d2[j]) });
        }
        assert(p1.shares@ =~= p2.shares@);
    }
    randoms2
}

/// No `k - 1` parties learn anything of the secret of any sharing, however it
/// was made (dealt, added or multiplied): whatever subset values `v` they
/// hold shares of, other values that add up to `other` give each of them
/// exactly the same shares. Returns those values.
pub proof fn lemma_sharing_hides_secret<T: Sharing>(
    k: nat,
    n: nat,
    coalition: Seq<PartyID>,
    v: Seq<T::Share>,
    other: T::Share,
) -> (v2: Seq<T::Share>)
    requires
        k >= 1,
        n <= usize::MAX,
        coalition.len() == k - 1,
        increasing(coalition),
        forall|x: PartyID| coalition.contains(x) ==> 1 <= x <= n,
        v.len() == subsets_spec(k, n).len(),
    ensures
        v2.len() == v.len(),
        seq_sum::<T>(v2) == other,
        forall|p1: PartyShares<T::Share>, p2: PartyShares<T::Share>|
            #![trigger holds(p1, subsets_spec(k, n), v), holds(p2, subsets_spec(k, n), v2)]
            holds(p1, subsets_spec(k, n), v) && holds(p2, subsets_spec(k, n), v2) && p1.id == p2.id
                && coalition.contains(p1.id) ==> p1.shares@ == p2.shares@,
{
    let ps = parties_seq(n);
    assert(increasing(ps));
    assert forall|x: PartyID| coalition.contains(x) implies ps.contains(x) by {
        assert(ps[x - 1] == x);
    }
    lemma_combos_complete(ps, coalition);
    let randoms = v.drop_last();
    let secret = seq_sum::<T>(v);
    assert(v =~= randoms.push(v.last()));
    lemma_sum_push::<T>(randoms, v.last());
    T::lemma_ring(seq_sum::<T>(randoms), v.last(), v.last());
    lemma_sub_unique::<T>(v.last(), secret, seq_sum::<T>(randoms));
    assert(dealt_values::<T>(randoms, secret) =~= v);
    let randoms2 = lemma_coalition_learns_nothing::<T>(k, n, coalition, randoms, secret, other);
    dealt_values::<T>(randoms2, other)
}

/// A sharing dealt to all `n >= k` parties of a k-of-n scheme reconstructs
/// to the sum of the values it represents.
pub proof fn lemma_dealt_reconstructs<T: Sharing>(
    sh: Seq<PartyShares<T::Share>>,
    k: nat,
    n: nat,
    v: Seq<T::Share>,
)
    requires
        k >= 1,
        n >= k,
        dealt_to_all(sh, n),
        represents(sh, subsets_spec(k, n), v),
    ensures
        can_reconstruct(sh, subsets_spec(k, n)),
        reconstructed::<T>(sh, subsets_spec(k, n)) == seq_sum::<T>(v),
{
    lemma_dealt_distinct(sh, n);
    lemma_combos_shape(parties_seq(n), (k - 1) as nat);
    lemma_k_parties_cover(sh, subsets_spec(k, n), k);
    lemma_reconstruct_represents::<T>(sh, subsets_spec(k, n), v);
}

/// A sharing dealt to the parties `1..=n` holds distinct ids.
pub proof fn lemma_dealt_distinct<S>(sh: Seq<PartyShares<S>>, n: nat)
    requires
        dealt_to_all(sh, n),
    ensures
        distinct_ids(sh),
{
    assert forall|i: int, j: int| 0 <= i < sh.len() && 0 <= j < sh.len() && i != j implies sh[i].id != sh[j].id by {
        assert(sh[i].id == i + 1);
        assert(sh[j].id == j + 1);
    }
}

/// Gives each party `1..=n` the values of the subsets that it is not in.
pub(crate) fn deal<S: Copy>(values: &Vec<S>, subsets: &Vec<Vec<PartyID>>, n: usize) -> (sh: Shares<S>)
    requires
        values.len() == subsets.len(),
    ensures
        dealt_to_all(sh@, n as nat),
        represents(sh@, subsets.deep_view(), values@),
{
    let ghost subs = subsets.deep_view();
    let mut sh: Shares<S> = Vec::new();
    let mut i: usize = 0;
    while i < n
        invariant
            i <= n,
            values.len() == subsets.len(),
            subs == subsets.deep_view(),
            sh.len() == i,
            forall|a: int| 0 <= a < i ==> (#[trigger] sh@[a]).id == a + 1,
            forall|a: int| 0 <= a < i ==> holds(#[trigger] sh@[a], subs, values@),
        decreases n - i,
    {
        let id = i + 1;
        let mut shares: Vec<Option<S>> = Vec::new();
        let mut j: usize = 0;
        while j < subsets.len()
            invariant
                j <= subsets.len(),
                values.len() == subsets.len(),
                subs == subsets.deep_view(),
                shares.len() == j,
                forall|b: int|
                    0 <= b < j ==> #[trigger] shares@[b] == if subs[b].contains(id) {
                        None
                    } else {
                        Some(values@[b])
                    },
            decreases subsets.len() - j,
        {
            proof {
                assert(subsets[j as int].deep_view() =~= subsets[j as int]@);
            }
            if contains_party(&subsets[j], id) {
                shares.push(None);
            } else {
                shares.push(Some(values[j]));
            }
            j = j + 1;
        }
        sh.push(PartyShares { id, shares });
        i = i + 1;
    }
    sh
}

/// Two sharings whose parties have the same ids and shares, in the same order.
pub open spec fn same_shares<S>(a: Seq<PartyShares<S>>, b: Seq<PartyShares<S>>) -> bool {
    &&& a.len() == b.len()
    &&& forall|i: int|
        0 <= i < a.len() ==> (#[trigger] a[i]).id == b[i].id && a[i].shares@ == b[i].shares@
}

/// Sharings with the same ids and shares satisfy the same predicates and
/// reconstruct to the same value.
pub proof fn lemma_same_shares<T: Sharing>(
    a: Seq<PartyShares<T::Share>>,
    b: Seq<PartyShares<T::Share>>,
    subs: Seq<Seq<PartyID>>,
)
    requires
        same_shares(a, b),
    ensures
        forall|v: Seq<T::Share>| represents(a, subs, v) <==> #[trigger] represents(b, subs, v),
        forall|n: nat| dealt_to_all(a, n) <==> #[trigger] dealt_to_all(b, n),
        distinct_ids(a) <==> distinct_ids(b),
        can_reconstruct(a, subs) <==> can_reconstruct(b, subs),
        reconstructed::<T>(a, subs) == reconstructed::<T>(b, subs),
        covers(a, subs) <==> covers(b, subs),
{
    assert forall|v: Seq<T::Share>| represents(a, subs, v) <==> #[trigger] represents(b, subs, v) by {
        if represents(a, subs, v) {
            assert forall|i: int| 0 <= i < b.len() implies holds(#[trigger] b[i], subs, v) by {
                assert(holds(a[i], subs, v));
            }
        }
        if represents(b, subs, v) {
            assert forall|i: int| 0 <= i < a.len() implies holds(#[trigger] a[i], subs, v) by {
                assert(holds(b[i], subs, v));
            }
        }
    }
    assert forall|j: int| 0 <= j < subs.len() implies #[trigger] picked::<T>(a, subs, j) == picked::<T>(b, subs, j) by {
        lemma_same_first_outside(a, b, subs[j]);
        let i = first_outside(a, subs[j]);
        lemma_first_outside(a, subs[j]);
        if i < a.len() {
            assert(a[i].shares@ == b[i].shares@);
            assert(a[i].shares@[j] == b[i].shares@[j]);
        }
    }
    assert forall|j: int|
        0 <= j < subs.len() && first_outside(a, #[trigger] subs[j]) < a.len() implies {
        let p = a[first_outside(a, subs[j])];
        let q = b[first_outside(b, subs[j])];
        p.shares@ == q.shares@
    } by {
        lemma_same_first_outside(a, b, subs[j]);
        lemma_first_outside(a, subs[j]);
        let i = first_outside(a, subs[j]);
        assert(a[i].shares@ == b[i].shares@);
    }
    assert forall|j: int| 0 <= j < subs.len() implies first_outside(a, #[trigger] subs[j]) == first_outside(b, subs[j]) by {
        lemma_same_first_outside(a, b, subs[j]);
    }
    assert(Seq::new(subs.len(), |j: int| picked::<T>(a, subs, j)) =~= Seq::new(
        subs.len(),
        |j: int| picked::<T>(b, subs, j),
    ));
    if distinct_ids(a) {
        assert forall|i: int, j: int| 0 <= i < b.len() && 0 <= j < b.len() && i != j implies b[i].id != b[j].id by {
            assert(a[i].id == b[i].id);
            assert(a[j].id == b[j].id);
        }
    }
    if distinct_ids(b) {
        assert forall|i: int, j: int| 0 <= i < a.len() && 0 <= j < a.len() && i != j implies a[i].id != a[j].id by {
            assert(a[i].id == b[i].id);
            assert(a[j].id == b[j].id);
        }
    }
    if covers(a, subs) {
        assert forall|j: int| 0 <= j < subs.len() implies has_outside(b, #[trigger] subs[j]) by {
            assert(has_outside(a, subs[j]));
            let i = choose|i: int| 0 <= i < a.len() && !subs[j].contains(a[i].id);
            assert(!subs[j].contains(b[i].id));
        }
    }
    if covers(b, subs) {
        assert forall|j: int| 0 <= j < subs.len() implies has_outside(a, #[trigger] subs[j]) by {
            assert(has_outside(b, subs[j]));
            let i = choose|i: int| 0 <= i < b.len() && !subs[j].contains(b[i].id);
            assert(!subs[j].contains(a[i].id));
        }
    }
    assert forall|n: nat| dealt_to_all(a, n) <==> #[trigger] dealt_to_all(b, n) by {
        if dealt_to_all(a, n) {
            assert forall|i: int| 0 <= i < n implies (#[trigger] b[i]).id == i + 1 by {
                assert(a[i].id == i + 1);
            }
        }
        if dealt_to_all(b, n) {
            assert forall|i: int| 0 <= i < n implies (#[trigger] a[i]).id == i + 1 by {
                assert(b[i].id == i + 1);
            }
        }
    }
}

/// Sharings with the same ids have the same first party outside a subset.
pub proof fn lemma_same_first_outside<S>(a: Seq<PartyShares<S>>, b: Seq<PartyShares<S>>, subset: Seq<PartyID>)
    requires
        same_shares(a, b),
    ensures
        first_outside(a, subset) == first_outside(b, subset),
{
    lemma_first_outside(a, subset);
    lemma_first_outside(b, subset);
    let fa = first_outside(a, subset);
    let fb = first_outside(b, subset);
    if fa < fb {
        assert(a[fa].id == b[fa].id);
        assert(subset.contains(b[fa].id));
    }
    if fb < fa {
        assert(a[fb].id == b[fb].id);
        assert(subset.contains(a[fb].id));
    }
}

/// A copy of the shares of one party.
pub(crate) fn copy_party<S: Copy>(p: &PartyShares<S>) -> (r: PartyShares<S>)
    ensures
        r.id == p.id,
        r.shares@ == p.shares@,
{
    let mut shares: Vec<Option<S>> = Vec::new();
    let mut j: usize = 0;
    while j < p.shares.len()
        invariant
            j <= p.shares.len(),
            shares@ == p.shares@.take(j as int),
        decreases p.shares.len() - j,
    {
        shares.push(p.shares[j]);
        j = j + 1;
        proof {
            assert(shares@ =~= p.shares@.take(j as int));
        }
    }
    proof {
        assert(shares@ =~= p.shares@);
    }
    PartyShares { id: p.id, shares }
}

/// A copy of all shares.
pub(crate) fn copy_shares<S: Copy>(sh: &Shares<S>) -> (r: Shares<S>)
    ensures
        same_shares(r@, sh@),
{
    let mut r: Shares<S> = Vec::new();
    let mut i: usize = 0;
    while i < sh.len()
        invariant
            i <= sh.len(),
            r.len() == i,
            forall|a: int|
                0 <= a < i ==> (#[trigger] r@[a]).id == sh@[a].id && r@[a].shares@ == sh@[a].shares@,
        decreases sh.len() - i,
    {
        r.push(copy_party(&sh[i]));
        i = i + 1;
    }
    r
}

/// The position of the first party of `shares` outside `subset`, or `shares.len()`.
fn find_outside<S>(shares: &Shares<S>, subset: &Vec<PartyID>) -> (i: usize)
    ensures
        i == first_outside(shares@, subset@),
{
    let mut i: usize = 0;
    while i < shares.len()
        invariant
            i <= shares.len(),
            forall|a: int| 0 <= a < i ==> subset@.contains(#[trigger] shares@[a].id),
        decreases shares.len() - i,
    {
        if !contains_party(subset, shares[i].id) {
            proof {
                lemma_first_outside_at(shares@, subset@, i as int);
            }
            return i;
        }
        i = i + 1;
    }
    proof {
        lemma_first_outside_at(shares@, subset@, i as int);
    }
    i
}

/// The subsets that do not hold party `x`.
pub open spec fn avoids(x: PartyID) -> spec_fn(Seq<PartyID>) -> bool {
    |c: Seq<PartyID>| !c.contains(x)
}

/// Whether `id` is a member of `subset`.
pub(crate) fn contains_party(subset: &Vec<PartyID>, id: PartyID) -> (r: bool)
    ensures
        r == subset@.contains(id),
{
    let mut i: usize = 0;
    while i < subset.len()
        invariant
            i <= subset.len(),
            forall|j: int| 0 <= j < i ==> subset@[j] != id,
        decreases subset.len() - i,
    {
        if subset[i] == id {
            return true;
        }
        i = i + 1;
    }
    false
}

/// Replicated secret sharing over the ring of `T`.
pub struct ReplicatedSharing<T: Sharing> {
    _sharing: core::marker::PhantomData<T>,
}

impl<T: Sharing> ReplicatedSharing<T> {
    /// Returns `n` shares of `secret`, where the values of all subsets but
    /// the last are `randoms` and the last one makes them add up to `secret`.
    pub fn share_with_randoms(randoms: &Vec<T::Share>, secret: T::Share, k: usize, n: usize) -> (r:
        Result<Shares<T::Share>, Error>)
        requires
            k >= 1,
            n < usize::MAX,
            subsets_spec(k as nat, n as nat).len() == 0 || randoms.len() + 1 == subsets_spec(
                k as nat,
                n as nat,
            ).len(),
        ensures
            r is Err <==> subsets_spec(k as nat, n as nat).len() == 0,
            r matches Err(e) ==> e == Error::NoSubsets,
            r matches Ok(sh) ==> {
                &&& dealt_to_all(sh@, n as nat)
                &&& represents(sh@, subsets_spec(k as nat, n as nat), dealt_values::<T>(randoms@, secret))
                &&& shares_secret::<T>(sh@, subsets_spec(k as nat, n as nat), secret)
            },
    {
        let subsets = Self::all_subsets(k, n, None);
        if subsets.len() == 0 {
            return Err(Error::NoSubsets);
        }
        let a_sum = super::sum::<T>(randoms.as_slice());
        let mut values: Vec<T::Share> = Vec::new();
        let mut i: usize = 0;
        while i < randoms.len()
            invariant
                i <= randoms.len(),
                values@ == randoms@.take(i as int),
            decreases randoms.len() - i,
        {
            values.push(randoms[i]);
            i = i + 1;
            proof {
                assert(values@ =~= randoms@.take(i as int));
            }
        }
        let last = T::sub(secret, a_sum);
        values.push(last);
        proof {
            assert(values@ =~= randoms@.push(last));
            lemma_sum_push::<T>(randoms@, last);
            T::lemma_ring(secret, a_sum, a_sum);
            T::lemma_ring(a_sum, last, a_sum);
        }
        let sh = deal(&values, &subsets, n);
        Ok(sh)
    }

    /// Returns `n` shares from a given secret
    ///
    /// `SysRng` is a handle to the operating system's source and holds no
    /// state: the values are drawn from that source through an `OsSource`
    /// of this call's own, so whether a draw failed is not visible to the
    /// caller. `share_from` states when the sharing fails.
    pub fn share(_rng: &mut SysRng, secret: T::Share, k: usize, n: usize) -> (r: Result<
        Shares<T::Share>,
        Error,
    >)
        requires
            k >= 1,
            n < usize::MAX,
        ensures
            subsets_spec(k as nat, n as nat).len() == 0 <==> r == Err::<Shares<T::Share>, Error>(
                Error::NoSubsets,
            ),
            r matches Err(e) ==> e == Error::NoSubsets || e == Error::Rng,
            subsets_spec(k as nat, n as nat).len() == 1 ==> r is Ok,
            r matches Ok(sh) ==> {
                &&& dealt_to_all(sh@, n as nat)
                &&& shares_secret::<T>(sh@, subsets_spec(k as nat, n as nat), secret)
            },
    {
        let mut src = OsSource::new();
        Self::share_from(&mut src, secret, k, n)
    }

    /// Returns `n` shares of `secret`, the values of all subsets but the last
    /// drawn from `src`. With some subset, it fails exactly when a draw fails,
    /// whatever the secret.
    pub fn share_from(src: &mut OsSource, secret: T::Share, k: usize, n: usize) -> (r: Result<
        Shares<T::Share>,
        Error,
    >)
        requires
            k >= 1,
            n < usize::MAX,
        ensures
            subsets_spec(k as nat, n as nat).len() == 0 <==> r == Err::<Shares<T::Share>, Error>(
                Error::NoSubsets,
            ),
            subsets_spec(k as nat, n as nat).len() > 0 ==> (r is Ok <==> final(src).failures() == old(
                src,
            ).failures()),
            final(src).failures() >= old(src).failures(),
            subsets_spec(k as nat, n as nat).len() <= 1 ==> final(src).failures() == old(src).failures(),
            r matches Err(e) ==> e == Error::NoSubsets || e == Error::Rng,
            r matches Ok(sh) ==> {
                &&& dealt_to_all(sh@, n as nat)
                &&& shares_secret::<T>(sh@, subsets_spec(k as nat, n as nat), secret)
            },
    {
        let subsets = Self::all_subsets(k, n, None);
        proof {
            assert(subsets.deep_view().len() == subsets@.len());
        }
        if subsets.len() == 0 {
            return Err(Error::NoSubsets);
        }
        let mut randoms: Vec<T::Share> = Vec::new();
        let mut i: usize = 0;
        while i < subsets.len() - 1
            invariant
                i <= subsets.len() - 1,
                randoms.len() == i,
                subsets.deep_view() == subsets_spec(k as nat, n as nat),
                subsets.len() > 0,
                src.failures() == old(src).failures(),
            decreases subsets.len() - 1 - i,
        {
            let a = T::random_share_from(src)?;
            randoms.push(a);
            i = i + 1;
        }
        Self::share_with_randoms(&randoms, secret, k, n)
    }

    /// Given at least `k` shares, returns a reconstructed secret
    pub fn reconstruct(shares: &Shares<T::Share>, k: usize, n: usize) -> (r: T::Share)
        requires
            k >= 1,
            n < usize::MAX,
            shares.len() >= k,
            can_reconstruct(shares@, subsets_spec(k as nat, n as nat)),
        ensures
            r == reconstructed::<T>(shares@, subsets_spec(k as nat, n as nat)),
    {
        let subsets = Self::all_subsets(k, n, None);
        let ghost subs = subsets.deep_view();
        let ghost picks = Seq::new(subs.len(), |j: int| picked::<T>(shares@, subs, j));
        let mut reconstructed_s = T::zero();
        let mut j: usize = 0;
        while j < subsets.len()
            invariant
                j <= subsets.len(),
                subs == subsets.deep_view(),
                subs == subsets_spec(k as nat, n as nat),
                can_reconstruct(shares@, subs),
                picks == Seq::new(subs.len(), |j: int| picked::<T>(shares@, subs, j)),
                reconstructed_s == seq_sum::<T>(picks.take(j as int)),
            decreases subsets.len() - j,
        {
            proof {
                assert(subsets[j as int].deep_view() =~= subsets[j as int]@);
                assert(picks.take(j + 1).drop_last() =~= picks.take(j as int));
            }
            let i = find_outside(shares, &subsets[j]);
            proof {
                assert(subsets[j as int]@ == subs[j as int]);
                assert(i == first_outside(shares@, subs[j as int]));
            }
            if i < shares.len() {
                let a = match shares[i].shares[j] {
                    Some(a) => a,
                    None => T::zero(),
                };
                reconstructed_s = T::add(reconstructed_s, a);
            } else {
                let zero = T::zero();
                proof {
                    T::lemma_ring(reconstructed_s, zero, zero);
                }
                reconstructed_s = T::add(reconstructed_s, zero);
            }
            j = j + 1;
        }
        proof {
            assert(picks.take(j as int) =~= picks);
        }
        reconstructed_s
    }

    /// Returns all replicated secret sharing subsets of a k-of-n scheme,
    /// or, given `id`, those that do not hold party `id`.
    pub fn all_subsets(k: usize, n: usize, id: Option<PartyID>) -> (r: Vec<Vec<PartyID>>)
        requires
            k >= 1,
            n < usize::MAX,
        ensures
            r.deep_view() == match id {
                None => subsets_spec(k as nat, n as nat),
                Some(x) => subsets_spec(k as nat, n as nat).filter(avoids(x)),
            },
    {
        let all_subsets = combinations_of_parties(n, k - 1);
        let x = match id {
            None => {
                return all_subsets;
            },
            Some(x) => x,
        };
        let ghost all = all_subsets.deep_view();
        let mut r: Vec<Vec<PartyID>> = Vec::new();
        let mut i: usize = 0;
        while i < all_subsets.len()
            invariant
                i <= all_subsets.len(),
                all == all_subsets.deep_view(),
                r.deep_view() == all.take(i as int).filter(avoids(x)),
            decreases all_subsets.len() - i,
        {
            let ghost t = all.take(i + 1);
            proof {
                assert(t.drop_last() =~= all.take(i as int));
                assert(t.last() == all[i as int]);
                assert(all_subsets[i as int].deep_view() == all[i as int]);
                assert(all_subsets[i as int].deep_view() =~= all_subsets[i as int]@);
            }
            if !contains_party(&all_subsets[i], x) {
                let c = all_subsets[i].clone();
                proof {
                    assert(c@ == all[i as int]);
                }
                r.push(c);
                proof {
                    reveal_with_fuel(Seq::filter, 1);
                    assert(avoids(x)(t.last()));
                    assert(t.filter(avoids(x)) == t.drop_last().filter(avoids(x)).push(t.last()));
                    assert(r.deep_view() =~= t.filter(avoids(x)));
                }
            } else {
                proof {
                    reveal_with_fuel(Seq::filter, 1);
                    assert(!avoids(x)(t.last()));
                    assert(t.filter(avoids(x)) == t.drop_last().filter(avoids(x)));
                }
            }
            i = i + 1;
        }
        proof {
            assert(all.take(i as int) =~= all);
        }
        r
    }
}

} // verus!
