//! This module contains a MPC struct that simulates k-of-n RSS MPC, with the following:
//! - Creation + deletion of "variables" (automatically RSS shared with a given secret value)
//! - Secure MPC addition and (asymmetric) multiplication operations between variables
//! - MPC MSB extraction of a variable, with PRNG and bit adder call optimization
use crate::assignment::{
    assignment_spec, cross_pairs, first_taker, lemma_assignment_entries, lemma_cross_pairs_bounds,
    lemma_sum_of_push, owned_by, owner, pair_product, sum_of,
};
use crate::error::Error;
use crate::prng::PRNG;
use crate::randomness::{chacha20_next, OsSource};
use crate::sharing::replicated::{
    copy_shares, dealt_to_all, lemma_dealt_distinct, lemma_dealt_reconstructs,
    lemma_k_parties_cover, lemma_represents_unique, lemma_same_shares, reconstructed, represents,
    same_shares, shares_secret, PartyShares, Shares,
};
use crate::sharing::subsets::{lemma_combos_shape, parties_seq, subsets_spec};
use crate::sharing::bitadder::{full_adder, parallel_prefix, BitAdder, BitOps};
use crate::sharing::bits::bit_of;
use crate::sharing::{
    add_pointwise, lemma_sum_pointwise, seq_sum, ArithRepSharing, ArithShare, Arithmetic,
    ArithmeticShares, BinaryShares, Binary, BitRepSharing, PartyID, Sharing,
};
use rand::rngs::ChaCha20Rng;
use vstd::prelude::*;

verus! {

/// The parties hold a replicated sharing of some values under the subsets of
/// a k-of-n scheme, and they are the parties `1..=n`.
pub open spec fn valid_sharing<S>(sh: Seq<PartyShares<S>>, k: nat, n: nat) -> bool {
    &&& dealt_to_all(sh, n)
    &&& exists|v: Seq<S>| represents(sh, subsets_spec(k, n), v)
}

/// The value that opening an arithmetic sharing gives.
pub open spec fn opened(sh: Seq<PartyShares<ArithShare>>, k: nat, n: nat) -> ArithShare {
    reconstructed::<Arithmetic>(sh, subsets_spec(k, n))
}

/// The entry of the variable named `name`, if any.
pub open spec fn lookup(vars: Seq<(String, ArithmeticShares)>, name: Seq<char>) -> Option<int> {
    if exists|i: int| 0 <= i < vars.len() && (#[trigger] vars[i]).0@ == name {
        Some(choose|i: int| 0 <= i < vars.len() && (#[trigger] vars[i]).0@ == name)
    } else {
        None
    }
}

/// No two variables have the same name.
pub open spec fn unique_names(vars: Seq<(String, ArithmeticShares)>) -> bool {
    forall|i: int, j: int|
        0 <= i < vars.len() && 0 <= j < vars.len() && i != j ==> (#[trigger] vars[i]).0@ != (
        #[trigger] vars[j]).0@
}

/// With unique names, the entry of `name` is the one at `i`.
proof fn lemma_lookup_at(vars: Seq<(String, ArithmeticShares)>, name: Seq<char>, i: int)
    requires
        unique_names(vars),
        0 <= i < vars.len(),
        vars[i].0@ == name,
    ensures
        lookup(vars, name) == Some(i),
{
}

/// `i` is the position of the first party of `sh` with id `id`.
pub open spec fn first_with<S>(sh: Seq<PartyShares<S>>, id: PartyID, i: int) -> bool {
    &&& 0 <= i < sh.len()
    &&& sh[i].id == id
    &&& forall|a: int| 0 <= a < i ==> (#[trigger] sh[a]).id != id
}

/// The position of the first party of `sh` with id `id`, or -1 if no party has it.
pub open spec fn pos_of<S>(sh: Seq<PartyShares<S>>, id: PartyID) -> int {
    if exists|i: int| first_with(sh, id, i) {
        choose|i: int| first_with(sh, id, i)
    } else {
        -1
    }
}

/// `pos_of` is the first position with the id, when there is one.
proof fn lemma_pos_of<S>(sh: Seq<PartyShares<S>>, id: PartyID, i: int)
    requires
        first_with(sh, id, i),
    ensures
        pos_of(sh, id) == i,
{
    let j = choose|j: int| first_with(sh, id, j);
    if j < i {
        assert(sh[j].id != id);
    } else if i < j {
        assert(sh[i].id != id);
    }
}

/// In a sharing dealt to `1..=n`, party `id` is at position `id - 1`.
proof fn lemma_pos_dealt<S>(sh: Seq<PartyShares<S>>, n: nat, id: PartyID)
    requires
        dealt_to_all(sh, n),
        1 <= id <= n,
    ensures
        pos_of(sh, id) == id - 1,
{
    assert forall|a: int| 0 <= a < id - 1 implies (#[trigger] sh[a]).id != id by {
        assert(sh[a].id == a + 1);
    }
    assert(sh[id - 1].id == id);
    lemma_pos_of(sh, id, id - 1);
}

/// The position of the first party with id `id`.
fn find_party<S>(sh: &Shares<S>, id: PartyID) -> (r: Option<usize>)
    ensures
        r matches Some(i) ==> i < sh.len() && sh@[i as int].id == id && forall|a: int|
            0 <= a < i ==> (#[trigger] sh@[a]).id != id,
        r is None ==> forall|a: int| 0 <= a < sh.len() ==> (#[trigger] sh@[a]).id != id,
        r matches Some(i) ==> i == pos_of(sh@, id),
        r is None <==> pos_of(sh@, id) == -1,
{
    let mut i: usize = 0;
    while i < sh.len()
        invariant
            i <= sh.len(),
            forall|a: int| 0 <= a < i ==> (#[trigger] sh@[a]).id != id,
        decreases sh.len() - i,
    {
        if sh[i].id == id {
            proof {
                lemma_pos_of(sh@, id, i as int);
            }
            return Some(i);
        }
        i = i + 1;
    }
    proof {
        if exists|j: int| first_with(sh@, id, j) {
            let j = choose|j: int| first_with(sh@, id, j);
            assert(sh@[j].id == id);
        }
    }
    None
}

/// In a sharing dealt to `1..=n`, party `id` is at position `id - 1`.
proof fn lemma_find_dealt<S>(sh: Seq<PartyShares<S>>, n: nat, id: PartyID, r: Option<usize>)
    requires
        dealt_to_all(sh, n),
        1 <= id <= n,
        r matches Some(i) ==> i < sh.len() && sh[i as int].id == id && forall|a: int|
            0 <= a < i ==> (#[trigger] sh[a]).id != id,
        r is None ==> forall|a: int| 0 <= a < sh.len() ==> (#[trigger] sh[a]).id != id,
    ensures
        r == Some((id - 1) as usize),
{
    assert(sh[id - 1].id == id);
    if let Some(i) = r {
        assert(sh[i as int].id == i + 1);
        if i < id - 1 {
        }
    }
}

/// Every subset share that `pa` holds, `pb` holds too.
pub open spec fn shares_addable<S>(pa: PartyShares<S>, pb: PartyShares<S>) -> bool {
    forall|j: int|
        0 <= j < pa.shares@.len() && pa.shares@[j] is Some ==> j < pb.shares@.len() && pb.shares@[j] is Some
}

/// The shares of `pa` with those of `pb` added, subset by subset.
pub open spec fn added_shares<T: Sharing>(pa: Seq<Option<T::Share>>, pb: Seq<Option<T::Share>>) -> Seq<
    Option<T::Share>,
> {
    Seq::new(
        pa.len(),
        |j: int|
            match pa[j] {
                None => None,
                Some(x) => Some(T::add_spec(x, pb[j]->0)),
            },
    )
}

/// Party `id` is in both sharings and can add its shares.
pub open spec fn party_addable<S>(a: Seq<PartyShares<S>>, b: Seq<PartyShares<S>>, id: PartyID) -> bool {
    &&& pos_of(a, id) >= 0
    &&& pos_of(b, id) >= 0
    &&& shares_addable(a[pos_of(a, id)], b[pos_of(b, id)])
}

/// In two valid sharings every party of `1..=n` can add its shares.
proof fn lemma_valid_addable<S>(a: Seq<PartyShares<S>>, b: Seq<PartyShares<S>>, k: nat, n: nat, id: PartyID)
    requires
        valid_sharing(a, k, n),
        valid_sharing(b, k, n),
        1 <= id <= n,
    ensures
        party_addable(a, b, id),
{
    let subs = subsets_spec(k, n);
    lemma_pos_dealt(a, n, id);
    lemma_pos_dealt(b, n, id);
    let va = choose|v: Seq<S>| represents(a, subs, v);
    let vb = choose|v: Seq<S>| represents(b, subs, v);
    assert(crate::sharing::replicated::holds(a[id - 1], subs, va));
    assert(crate::sharing::replicated::holds(b[id - 1], subs, vb));
    assert(a[id - 1].id == id && b[id - 1].id == id);
    assert forall|j: int|
        0 <= j < a[id - 1].shares@.len() && (#[trigger] a[id - 1].shares@[j]) is Some implies j < b[id - 1].shares@.len()
            && b[id - 1].shares@[j] is Some by {
        assert(a[id - 1].shares@[j] == (if subs[j].contains(id) { None } else { Some(va[j]) }));
        assert(b[id - 1].shares@[j] == (if subs[j].contains(id) { None } else { Some(vb[j]) }));
    }
}

/// Every party `1..=n` is in both sharings and can add its shares.
pub open spec fn addable<S>(a: Seq<PartyShares<S>>, b: Seq<PartyShares<S>>, n: nat) -> bool {
    forall|id: PartyID| 1 <= id <= n ==> #[trigger] party_addable(a, b, id)
}

/// Party `id` adds its shares of `a` and `b`, subset by subset.
fn add_party<T: Sharing>(pa: &PartyShares<T::Share>, pb: &PartyShares<T::Share>, id: PartyID) -> (r:
    Result<PartyShares<T::Share>, Error>)
    ensures
        r matches Ok(pc) ==> {
            &&& pc.id == id
            &&& pc.shares@.len() == pa.shares@.len()
            &&& pc.shares@ == added_shares::<T>(pa.shares@, pb.shares@)
            &&& forall|j: int|
                0 <= j < pa.shares@.len() ==> #[trigger] pc.shares@[j] == match pa.shares@[j] {
                    None => None,
                    Some(x) => Some(T::add_spec(x, pb.shares@[j]->0)),
                }
        },
        r is Ok <==> shares_addable(*pa, *pb),
        r matches Err(e) ==> e == Error::MissingShare,
{
    let mut c: Vec<Option<T::Share>> = Vec::new();
    let mut j: usize = 0;
    while j < pa.shares.len()
        invariant
            j <= pa.shares.len(),
            c.len() == j,
            forall|b: int|
                0 <= b < j && pa.shares@[b] is Some ==> b < pb.shares@.len() && pb.shares@[b] is Some,
            forall|b: int|
                0 <= b < j ==> #[trigger] c@[b] == match pa.shares@[b] {
                    None => None,
                    Some(x) => Some(T::add_spec(x, pb.shares@[b]->0)),
                },
        decreases pa.shares.len() - j,
    {
        match pa.shares[j] {
            None => c.push(None),
            Some(x) => {
                if j >= pb.shares.len() {
                    return Err(Error::MissingShare);
                }
                match pb.shares[j] {
                    Some(y) => c.push(Some(T::add(x, y))),
                    None => {
                        return Err(Error::MissingShare);
                    },
                }
            },
        }
        j = j + 1;
    }
    proof {
        assert(c@ =~= added_shares::<T>(pa.shares@, pb.shares@));
    }
    Ok(PartyShares { id, shares: c })
}

/// The positions below `j` of the subsets that do not hold `id`, in increasing order.
pub open spec fn avoiding_positions(subs: Seq<Seq<PartyID>>, id: PartyID, j: nat) -> Seq<usize>
    decreases j,
{
    if j == 0 {
        Seq::empty()
    } else {
        let p = avoiding_positions(subs, id, (j - 1) as nat);
        if !subs[j - 1].contains(id) {
            p.push((j - 1) as usize)
        } else {
            p
        }
    }
}

/// The positions of `avoiding_positions` are exactly those below `j` whose
/// subset does not hold `id`, in strictly increasing order.
proof fn lemma_avoiding_positions(subs: Seq<Seq<PartyID>>, id: PartyID, j: nat)
    requires
        j <= subs.len(),
        j <= usize::MAX,
    ensures
        forall|a: int|
            0 <= a < avoiding_positions(subs, id, j).len() ==> #[trigger] avoiding_positions(subs, id, j)[a]
                < j && !subs[avoiding_positions(subs, id, j)[a] as int].contains(id),
        forall|a: int, b: int|
            0 <= a < b < avoiding_positions(subs, id, j).len() ==> #[trigger] avoiding_positions(subs, id, j)[a]
                < #[trigger] avoiding_positions(subs, id, j)[b],
        forall|x: int| 0 <= x < j && !subs[x].contains(id) ==> avoiding_positions(subs, id, j).contains(x as usize),
    decreases j,
{
    if j > 0 {
        let j1 = (j - 1) as nat;
        lemma_avoiding_positions(subs, id, j1);
        let p = avoiding_positions(subs, id, j1);
        if !subs[j1 as int].contains(id) {
            assert(avoiding_positions(subs, id, j) == p.push(j1 as usize));
            assert forall|x: int| 0 <= x < j && !subs[x].contains(id) implies avoiding_positions(subs, id, j).contains(
                x as usize,
            ) by {
                if x < j1 {
                    let a = choose|a: int| 0 <= a < p.len() && p[a] == x as usize;
                    assert(avoiding_positions(subs, id, j)[a] == x as usize);
                } else {
                    assert(avoiding_positions(subs, id, j)[p.len() as int] == x as usize);
                }
            }
        }
    }
}

/// The share that the next word of the generator `g` stands for.
pub open spec fn drawn_share<T: Sharing>(g: ChaCha20Rng) -> T::Share {
    T::from_word_spec(chacha20_next(g).0)
}

/// The subset values `vals` after adding each correction `(j, x)` of `c`, in
/// order, to the value of subset `j`.
pub open spec fn apply_corrections<T: Sharing>(vals: Seq<T::Share>, c: Seq<(usize, T::Share)>) -> Seq<T::Share>
    decreases c.len(),
{
    if c.len() == 0 {
        vals
    } else {
        let v = apply_corrections::<T>(vals, c.drop_last());
        let e = c.last();
        v.update(e.0 as int, T::add_spec(v[e.0 as int], e.1))
    }
}

/// The sum of the values that are still to be sent as corrections.
pub open spec fn pending<T: Sharing>(c: Seq<(usize, T::Share)>) -> T::Share {
    seq_sum::<T>(c.map_values(|e: (usize, T::Share)| e.1))
}

proof fn lemma_pending_push<T: Sharing>(c: Seq<(usize, T::Share)>, e: (usize, T::Share))
    ensures
        pending::<T>(c.push(e)) == T::add_spec(pending::<T>(c), e.1),
{
    assert(c.push(e).map_values(|e: (usize, T::Share)| e.1) =~= c.map_values(
        |e: (usize, T::Share)| e.1,
    ).push(e.1));
    crate::sharing::lemma_sum_push::<T>(c.map_values(|e: (usize, T::Share)| e.1), e.1);
}

/// Resharing `secret` with randoms that add up to `r` and a correction of
/// `secret - r` keeps the books: (s0 + r) + (p0 + (secret - r)) == (s0 + p0) + secret.
proof fn lemma_reshare_books<T: Sharing>(s0: T::Share, r: T::Share, p0: T::Share, secret: T::Share)
    ensures
        T::add_spec(T::add_spec(s0, r), T::add_spec(p0, T::sub_spec(secret, r))) == T::add_spec(
            T::add_spec(s0, p0),
            secret,
        ),
{
    let d = T::sub_spec(secret, r);
    // (s0 + r) + (p0 + d) == s0 + (r + (p0 + d)) == s0 + (p0 + (d + r)) == s0 + (p0 + secret)
    T::lemma_ring(s0, r, T::add_spec(p0, d));
    T::lemma_ring(r, p0, d);
    T::lemma_ring(p0, r, d);
    T::lemma_ring(r, p0, p0);
    T::lemma_ring(p0, d, r);
    T::lemma_ring(r, d, d);
    T::lemma_ring(secret, r, r);
    T::lemma_ring(s0, p0, secret);
    assert(T::add_spec(r, T::add_spec(p0, d)) == T::add_spec(p0, T::add_spec(r, d)));
    assert(T::add_spec(r, d) == T::add_spec(d, r));
}

/// The shares of a sharing as a map from (party, subset position) to the
/// share: the shares of the first party with each id.
pub open spec fn share_map<S>(sh: Seq<PartyShares<S>>) -> Map<(PartyID, int), S> {
    Map::new(
        |key: (PartyID, int)|
            pos_of(sh, key.0) >= 0 && 0 <= key.1 < sh[pos_of(sh, key.0)].shares@.len() && sh[pos_of(
                sh,
                key.0,
            )].shares@[key.1] is Some,
        |key: (PartyID, int)| sh[pos_of(sh, key.0)].shares@[key.1]->0,
    )
}

/// `m` after every party of `1..=n` outside `subset` adds `x` to its share
/// for subset position `j`, or takes `x` as that share if it has none.
pub open spec fn add_for_subset<T: Sharing>(
    m: Map<(PartyID, int), T::Share>,
    subset: Seq<PartyID>,
    j: int,
    x: T::Share,
    n: nat,
) -> Map<(PartyID, int), T::Share> {
    Map::new(
        |key: (PartyID, int)| m.contains_key(key) || (1 <= key.0 <= n && !subset.contains(key.0) && key.1 == j),
        |key: (PartyID, int)|
            if 1 <= key.0 <= n && !subset.contains(key.0) && key.1 == j {
                if m.contains_key(key) {
                    T::add_spec(m[key], x)
                } else {
                    x
                }
            } else {
                m[key]
            },
    )
}

/// `m` after `add_for_subset` with `draw(j)` for each position `j` of `rest`, in order.
pub open spec fn reshared_map<T: Sharing>(
    m: Map<(PartyID, int), T::Share>,
    subs: Seq<Seq<PartyID>>,
    rest: Seq<usize>,
    draw: spec_fn(usize) -> T::Share,
    n: nat,
) -> Map<(PartyID, int), T::Share>
    decreases rest.len(),
{
    if rest.len() == 0 {
        m
    } else {
        let j = rest.last();
        add_for_subset::<T>(reshared_map::<T>(m, subs, rest.drop_last(), draw, n), subs[j as int], j as int, draw(j), n)
    }
}

/// `m` after `add_for_subset` with each correction `(j, x)` of `c`, in order.
pub open spec fn corrected_map<T: Sharing>(
    m: Map<(PartyID, int), T::Share>,
    subs: Seq<Seq<PartyID>>,
    c: Seq<(usize, T::Share)>,
    n: nat,
) -> Map<(PartyID, int), T::Share>
    decreases c.len(),
{
    if c.len() == 0 {
        m
    } else {
        let e = c.last();
        add_for_subset::<T>(corrected_map::<T>(m, subs, c.drop_last(), n), subs[e.0 as int], e.0 as int, e.1, n)
    }
}

/// The share map of the zero sharing dealt to `1..=n`: every party holds zero
/// for every subset it is not in.
pub open spec fn zero_map<T: Sharing>(subs: Seq<Seq<PartyID>>, n: nat) -> Map<(PartyID, int), T::Share> {
    Map::new(
        |key: (PartyID, int)| 1 <= key.0 <= n && 0 <= key.1 < subs.len() && !subs[key.1].contains(key.0),
        |key: (PartyID, int)| T::zero_spec(),
    )
}

/// A zero sharing dealt to `1..=n` has the share map `zero_map`.
proof fn lemma_zero_map<T: Sharing>(sh: Seq<PartyShares<T::Share>>, subs: Seq<Seq<PartyID>>, n: nat, v: Seq<T::Share>)
    requires
        dealt_to_all(sh, n),
        represents(sh, subs, v),
        forall|j: int| 0 <= j < v.len() ==> v[j] == T::zero_spec(),
    ensures
        share_map(sh) == zero_map::<T>(subs, n),
{
    assert forall|key: (PartyID, int)| #[trigger] share_map(sh).contains_key(key) == zero_map::<T>(subs, n).contains_key(key)
        && (share_map(sh).contains_key(key) ==> share_map(sh)[key] == zero_map::<T>(subs, n)[key]) by {
        if 1 <= key.0 <= n {
            lemma_pos_dealt(sh, n, key.0);
            assert(crate::sharing::replicated::holds(sh[key.0 - 1], subs, v));
            assert(sh[key.0 - 1].id == key.0);
        } else if exists|i: int| first_with(sh, key.0, i) {
            let i = choose|i: int| first_with(sh, key.0, i);
            assert(sh[i].id == i + 1);
        }
    }
    assert(share_map(sh) =~= zero_map::<T>(subs, n));
}

/// One party's resharing of `secret`: every subset without it but the last
/// gains the next draw of its generator, which advances; the last subset's
/// correction, `secret` less those draws, is queued.
pub open spec fn reshare_step<T: Sharing>(
    st: (Map<(PartyID, int), T::Share>, Seq<ChaCha20Rng>, Seq<(usize, T::Share)>),
    subs: Seq<Seq<PartyID>>,
    n: nat,
    sender: PartyID,
    secret: T::Share,
) -> (Map<(PartyID, int), T::Share>, Seq<ChaCha20Rng>, Seq<(usize, T::Share)>) {
    let pos = avoiding_positions(subs, sender, subs.len());
    let rest = pos.drop_last();
    let draw = |j: usize| drawn_share::<T>(st.1[j as int]);
    (
        reshared_map::<T>(st.0, subs, rest, draw, n),
        Seq::new(
            st.1.len(),
            |j: int|
                if rest.contains(j as usize) {
                    chacha20_next(st.1[j]).1
                } else {
                    st.1[j]
                },
        ),
        st.2.push((pos.last(), T::sub_spec(secret, seq_sum::<T>(rest.map_values(draw))))),
    )
}

/// The resharing of every `(sender, secret)` of `senders`, in order.
pub open spec fn reshare_all<T: Sharing>(
    st: (Map<(PartyID, int), T::Share>, Seq<ChaCha20Rng>, Seq<(usize, T::Share)>),
    subs: Seq<Seq<PartyID>>,
    n: nat,
    senders: Seq<(PartyID, T::Share)>,
) -> (Map<(PartyID, int), T::Share>, Seq<ChaCha20Rng>, Seq<(usize, T::Share)>)
    decreases senders.len(),
{
    if senders.len() == 0 {
        st
    } else {
        let last = senders.last();
        reshare_step::<T>(reshare_all::<T>(st, subs, n, senders.drop_last()), subs, n, last.0, last.1)
    }
}

/// Replacing a party by one with the same id moves no first position.
proof fn lemma_pos_of_update<S>(sh: Seq<PartyShares<S>>, i: int, p: PartyShares<S>, id: PartyID)
    requires
        0 <= i < sh.len(),
        p.id == sh[i].id,
    ensures
        pos_of(sh.update(i, p), id) == pos_of(sh, id),
{
    let u = sh.update(i, p);
    if exists|a: int| first_with(sh, id, a) {
        let a = choose|a: int| first_with(sh, id, a);
        assert forall|b: int| 0 <= b < a implies (#[trigger] u[b]).id != id by {
            assert(sh[b].id != id);
        }
        assert(first_with(u, id, a));
        lemma_pos_of(u, id, a);
    } else if exists|a: int| first_with(u, id, a) {
        let a = choose|a: int| first_with(u, id, a);
        assert forall|b: int| 0 <= b < a implies (#[trigger] sh[b]).id != id by {
            assert(u[b].id != id);
        }
        assert(first_with(sh, id, a));
    }
}

/// A party with `id` at position `b` means some position is the first with `id`.
proof fn lemma_first_exists<S>(sh: Seq<PartyShares<S>>, id: PartyID, b: int)
    requires
        0 <= b < sh.len(),
        sh[b].id == id,
    ensures
        exists|a: int| first_with(sh, id, a),
    decreases b,
{
    if exists|c: int| 0 <= c < b && sh[c].id == id {
        let c = choose|c: int| 0 <= c < b && sh[c].id == id;
        lemma_first_exists(sh, id, c);
    } else {
        assert(first_with(sh, id, b));
    }
}

/// Appending a party whose id is not yet there makes it the first with that
/// id, and moves no other first position.
proof fn lemma_pos_of_push<S>(sh: Seq<PartyShares<S>>, p: PartyShares<S>, id: PartyID)
    requires
        pos_of(sh, p.id) == -1,
    ensures
        pos_of(sh.push(p), id) == if id == p.id {
            sh.len() as int
        } else {
            pos_of(sh, id)
        },
{
    let u = sh.push(p);
    if id == p.id {
        assert forall|b: int| 0 <= b < sh.len() implies (#[trigger] u[b]).id != id by {
            if sh[b].id == id {
                lemma_first_exists(sh, id, b);
            }
        }
        assert(first_with(u, id, sh.len() as int));
        lemma_pos_of(u, id, sh.len() as int);
    } else {
        if exists|a: int| first_with(sh, id, a) {
            let a = choose|a: int| first_with(sh, id, a);
            assert(first_with(u, id, a));
            lemma_pos_of(u, id, a);
        } else if exists|a: int| first_with(u, id, a) {
            let a = choose|a: int| first_with(u, id, a);
            assert(a < sh.len());
            assert(u[a] == sh[a]);
            assert forall|b: int| 0 <= b < a implies (#[trigger] sh[b]).id != id by {
                assert(u[b] == sh[b]);
            }
            assert(first_with(sh, id, a));
        }
    }
}

/// Every party of `1..=n` outside `subset` adds `x` to its share for subset
/// position `j`, or takes `x` as that share if it has none; a party that is
/// missing is added.
fn add_to_subset<T: Sharing>(
    out: &mut Shares<T::Share>,
    subset: &Vec<PartyID>,
    j: usize,
    x: T::Share,
    n: usize,
    Ghost(subs): Ghost<Seq<Seq<PartyID>>>,
    Ghost(vals): Ghost<Seq<T::Share>>,
)
    requires
        n < usize::MAX,
        j < usize::MAX,
    ensures
        share_map(final(out)@) == add_for_subset::<T>(share_map(old(out)@), subset@, j as int, x, n as nat),
        dealt_to_all(old(out)@, n as nat) && represents(old(out)@, subs, vals) && j < subs.len() && subset@
            == subs[j as int] ==> dealt_to_all(final(out)@, n as nat) && represents(
            final(out)@,
            subs,
            vals.update(j as int, T::add_spec(vals[j as int], x)),
        ),
{
    let ghost m0 = share_map(out@);
    let ghost nv = vals.update(j as int, T::add_spec(vals[j as int], x));
    let ghost valid = dealt_to_all(out@, n as nat) && represents(out@, subs, vals) && j < subs.len() && subset@
        == subs[j as int];
    let mut id: usize = 1;
    proof {
        assert(share_map(out@) =~= add_for_subset::<T>(m0, subset@, j as int, x, 0));
    }
    while id <= n
        invariant
            1 <= id <= n + 1,
            n < usize::MAX,
            j < usize::MAX,
            m0 == share_map(old(out)@),
            share_map(out@) == add_for_subset::<T>(m0, subset@, j as int, x, (id - 1) as nat),
            nv == vals.update(j as int, T::add_spec(vals[j as int], x)),
            valid == (dealt_to_all(old(out)@, n as nat) && represents(old(out)@, subs, vals) && j < subs.len()
                && subset@ == subs[j as int]),
            valid ==> dealt_to_all(out@, n as nat),
            valid ==> vals.len() == subs.len(),
            valid ==> forall|a: int|
                0 <= a < id - 1 ==> crate::sharing::replicated::holds(#[trigger] out@[a], subs, nv),
            valid ==> forall|a: int|
                id - 1 <= a < out.len() ==> crate::sharing::replicated::holds(#[trigger] out@[a], subs, vals),
        decreases n + 1 - id,
    {
        let ghost before = out@;
        let ghost mb = share_map(before);
        if !crate::sharing::replicated::contains_party(subset, id) {
            match find_party(out, id) {
                None => {
                    let mut shares: Vec<Option<T::Share>> = Vec::new();
                    let mut t: usize = 0;
                    while t < j
                        invariant
                            t <= j,
                            shares@ == Seq::new(t as nat, |u: int| None::<T::Share>),
                        decreases j - t,
                    {
                        shares.push(None);
                        t = t + 1;
                        proof {
                            assert(shares@ =~= Seq::new(t as nat, |u: int| None::<T::Share>));
                        }
                    }
                    shares.push(Some(x));
                    let p = PartyShares { id, shares };
                    out.push(p);
                    proof {
                        if valid {
                            lemma_pos_dealt(before, n as nat, id);
                        }
                        assert forall|key: (PartyID, int)| #[trigger] share_map(out@).contains_key(key) == add_for_subset::<T>(
                            m0,
                            subset@,
                            j as int,
                            x,
                            id as nat,
                        ).contains_key(key) && (share_map(out@).contains_key(key) ==> share_map(out@)[key]
                            == add_for_subset::<T>(m0, subset@, j as int, x, id as nat)[key]) by {
                            lemma_pos_of_push(before, p, key.0);
                            let prev = add_for_subset::<T>(m0, subset@, j as int, x, (id - 1) as nat);
                            assert(share_map(before) == prev);
                            if key.0 == id {
                                assert(!share_map(before).contains_key(key));
                                assert(!prev.contains_key(key));
                                assert(!m0.contains_key(key));
                                assert(out@[before.len() as int] == p);
                                if key.1 == j as int {
                                    assert(p.shares@[j as int] == Some(x));
                                } else if 0 <= key.1 < p.shares@.len() {
                                    assert(p.shares@[key.1] is None);
                                }
                            } else {
                                let q = pos_of(before, key.0);
                                if q >= 0 {
                                    assert(out@[q] == before[q]);
                                }
                                assert(share_map(before).contains_key(key) == prev.contains_key(key));
                                if prev.contains_key(key) {
                                    assert(share_map(before)[key] == prev[key]);
                                }
                            }
                        }
                        assert(share_map(out@) =~= add_for_subset::<T>(m0, subset@, j as int, x, id as nat));
                    }
                },
                Some(i) => {
                    let mut p = out.remove(i);
                    let ghost p0 = p;
                    proof {
                        if valid {
                            lemma_pos_dealt(before, n as nat, id);
                            assert(crate::sharing::replicated::holds(before[i as int], subs, vals));
                        }
                    }
                    while p.shares.len() <= j
                        invariant
                            p.id == p0.id,
                            p0.shares@.len() <= p.shares@.len(),
                            p0.shares@.len() > j ==> p.shares@ == p0.shares@,
                            forall|u: int| 0 <= u < p0.shares@.len() ==> p.shares@[u] == p0.shares@[u],
                            forall|u: int| p0.shares@.len() <= u < p.shares@.len() ==> p.shares@[u] is None,
                        decreases j + 1 - p.shares.len(),
                    {
                        p.shares.push(None);
                    }
                    let ghost p1 = p;
                    let new = match p.shares[j] {
                        Some(s) => Some(T::add(s, x)),
                        None => Some(x),
                    };
                    p.shares.set(j, new);
                    out.insert(i, p);
                    proof {
                        assert(out@ =~= before.update(i as int, p));
                        assert forall|key: (PartyID, int)| #[trigger] share_map(out@).contains_key(key) == add_for_subset::<T>(
                            m0,
                            subset@,
                            j as int,
                            x,
                            id as nat,
                        ).contains_key(key) && (share_map(out@).contains_key(key) ==> share_map(out@)[key]
                            == add_for_subset::<T>(m0, subset@, j as int, x, id as nat)[key]) by {
                            lemma_pos_of_update(before, i as int, p, key.0);
                            let prev = add_for_subset::<T>(m0, subset@, j as int, x, (id - 1) as nat);
                            assert(share_map(before) == prev);
                            assert(share_map(before).contains_key(key) == prev.contains_key(key));
                            if prev.contains_key(key) {
                                assert(share_map(before)[key] == prev[key]);
                            }
                            if key.0 == id {
                                assert(pos_of(before, id) == i);
                                assert(out@[i as int] == p);
                                assert(before[i as int] == p0);
                                if key.1 == j as int {
                                    assert(p.shares@[j as int] == new);
                                    if j < p0.shares@.len() {
                                        assert(p1.shares@[j as int] == p0.shares@[j as int]);
                                    } else {
                                        assert(p1.shares@[j as int] is None);
                                    }
                                } else if 0 <= key.1 < p.shares@.len() {
                                    assert(p.shares@[key.1] == p1.shares@[key.1]);
                                    if key.1 < p0.shares@.len() {
                                        assert(p1.shares@[key.1] == p0.shares@[key.1]);
                                    } else {
                                        assert(p1.shares@[key.1] is None);
                                    }
                                } else {
                                    assert(key.1 < 0 || key.1 >= p0.shares@.len());
                                }
                            } else {
                                let q = pos_of(before, key.0);
                                if q >= 0 {
                                    assert(before[q].id == key.0);
                                    assert(q != i);
                                    assert(out@[q] == before[q]);
                                }
                            }
                        }
                        assert(share_map(out@) =~= add_for_subset::<T>(m0, subset@, j as int, x, id as nat));
                        if valid {
                            assert forall|b: int| 0 <= b < subs.len() implies #[trigger] p.shares@[b] == if subs[b].contains(p.id) {
                                None
                            } else {
                                Some(nv[b])
                            } by {
                                assert(before[i as int].shares@[b] == if subs[b].contains(p.id) {
                                    None
                                } else {
                                    Some(vals[b])
                                });
                            }
                            assert forall|a: int| 0 <= a < n implies (#[trigger] out@[a]).id == a + 1 by {
                                assert(before[a].id == a + 1);
                            }
                            assert(crate::sharing::replicated::holds(p, subs, nv));
                            assert forall|a: int| 0 <= a < id implies crate::sharing::replicated::holds(
                                #[trigger] out@[a],
                                subs,
                                nv,
                            ) by {
                                if a < i {
                                    assert(out@[a] == before[a]);
                                }
                            }
                            assert forall|a: int| id <= a < out.len() implies crate::sharing::replicated::holds(
                                #[trigger] out@[a],
                                subs,
                                vals,
                            ) by {
                                assert(out@[a] == before[a]);
                            }
                        }
                    }
                },
            }
        } else {
            proof {
                assert(share_map(out@) =~= add_for_subset::<T>(m0, subset@, j as int, x, id as nat));
                if valid {
                    let p = out@[id - 1];
                    assert(crate::sharing::replicated::holds(p, subs, vals));
                    assert(p.id == id);
                    assert forall|b: int| 0 <= b < subs.len() implies #[trigger] p.shares@[b] == if subs[b].contains(
                        p.id,
                    ) {
                        None
                    } else {
                        Some(nv[b])
                    } by {
                        if b == j {
                            assert(subs[b].contains(p.id));
                        }
                    }
                }
            }
        }
        id = id + 1;
    }
}

/// Party `id` holds neither subset of the crossterm `t` (positions in `subs`).
pub open spec fn crossterm_pred(subs: Seq<Seq<PartyID>>) -> spec_fn(PartyID, (usize, usize)) -> bool {
    |id: PartyID, t: (usize, usize)|
        t.0 < subs.len() && t.1 < subs.len() && !subs[t.0 as int].contains(id) && !subs[
            t.1 as int
        ].contains(id)
}

/// The greedy assignment of all crossterms of a k-of-n scheme: each goes to the
/// first party of `1..=n` that holds neither of its subsets.
pub open spec fn crossterm_assignment(k: nat, n: nat) -> Seq<(PartyID, Seq<(usize, usize)>)> {
    let subs = subsets_spec(k, n);
    let m = subs.len();
    assignment_spec(cross_pairs(m, m), |it: (usize, usize)| owner(crossterm_pred(subs), n, it), n)
}

/// When `2(k - 1) < n`, every crossterm is assigned, to a party that holds
/// neither of its subsets.
pub proof fn lemma_crossterms_all_assigned(k: nat, n: nat)
    requires
        k >= 1,
        2 * (k - 1) < n,
        n <= usize::MAX,
        subsets_spec(k, n).len() <= usize::MAX,
    ensures
        ({
            let subs = subsets_spec(k, n);
            let items = cross_pairs(subs.len(), subs.len());
            forall|t: int|
                #![trigger items[t]]
                0 <= t < items.len() ==> exists|e: int|
                    #![trigger crossterm_assignment(k, n)[e]]
                    0 <= e < crossterm_assignment(k, n).len() && crossterm_assignment(k, n)[e].1.contains(
                        items[t],
                    ) && crossterm_pred(subs)(crossterm_assignment(k, n)[e].0, items[t])
        }),
{
    let subs = subsets_spec(k, n);
    let m = subs.len();
    let items = cross_pairs(m, m);
    let pred = crossterm_pred(subs);
    let own = |it: (usize, usize)| owner(pred, n, it);
    lemma_cross_pairs_bounds(m, m);
    lemma_combos_shape(parties_seq(n), (k - 1) as nat);
    assert forall|t: int| #![trigger items[t]] 0 <= t < items.len() implies exists|e: int|
        #![trigger crossterm_assignment(k, n)[e]]
        0 <= e < crossterm_assignment(k, n).len() && crossterm_assignment(k, n)[e].1.contains(items[t])
            && crossterm_pred(subs)(crossterm_assignment(k, n)[e].0, items[t]) by {
        let it = items[t];
        let x = crate::sharing::replicated::lemma_outside_both(subs[it.0 as int], subs[it.1 as int], k, n);
        assert(pred(x, it));
        crate::assignment::lemma_first_taker(pred, it, 1, n);
        let p = own(it);
        assert(1 <= p <= n && pred(p as PartyID, it));
        crate::assignment::lemma_owned_by_contains(items, own, t);
        crate::assignment::lemma_assignment_has(items, own, n, p);
        assert(crossterm_assignment(k, n) == assignment_spec(items, own, n));
        let e = choose|e: int|
            0 <= e < assignment_spec(items, own, n).len() && #[trigger] assignment_spec(items, own, n)[e]
                == (p as PartyID, owned_by(items, own, p));
        assert(crossterm_assignment(k, n)[e] == (p as PartyID, owned_by(items, own, p)));
    }
}

/// When `n = 2(k - 1) + 1`, each party of `1..=n` has a crossterm that it alone can compute.
pub proof fn lemma_private_crossterm(k: nat, n: nat, p: PartyID) -> (ab: (usize, usize))
    requires
        k >= 1,
        n == 2 * (k - 1) + 1,
        n < usize::MAX,
        subsets_spec(k, n).len() <= usize::MAX,
        1 <= p <= n,
    ensures
        ab.0 < subsets_spec(k, n).len(),
        ab.1 < subsets_spec(k, n).len(),
        forall|q: PartyID| 1 <= q <= n ==> (#[trigger] crossterm_pred(subsets_spec(k, n))(q, ab) <==> q == p),
{
    let subs = subsets_spec(k, n);
    let ps = parties_seq(n);
    let h = (k - 1) as nat;
    // The other parties, in increasing order.
    let others = Seq::new((n - 1) as nat, |i: int| if i + 1 < p { (i + 1) as usize } else { (i + 2) as usize });
    let a = others.take(h as int);
    let b = others.skip(h as int);
    assert(crate::sharing::subsets::increasing(ps));
    assert(crate::sharing::subsets::increasing(a));
    assert(crate::sharing::subsets::increasing(b));
    assert forall|x: usize| others.contains(x) implies ps.contains(x) && x != p by {
        let i = choose|i: int| 0 <= i < others.len() && others[i] == x;
        assert(ps[x - 1] == x);
    }
    assert forall|x: usize| a.contains(x) implies ps.contains(x) by {
        let i = choose|i: int| 0 <= i < a.len() && a[i] == x;
        assert(others[i] == x);
    }
    assert forall|x: usize| b.contains(x) implies ps.contains(x) by {
        let i = choose|i: int| 0 <= i < b.len() && b[i] == x;
        assert(others[i + h] == x);
    }
    crate::sharing::subsets::lemma_combos_complete(ps, a);
    crate::sharing::subsets::lemma_combos_complete(ps, b);
    assert(a.len() == h && b.len() == h);
    let ia = choose|i: int| 0 <= i < subs.len() && subs[i] == a;
    let ib = choose|i: int| 0 <= i < subs.len() && subs[i] == b;
    let ab = (ia as usize, ib as usize);
    assert forall|q: PartyID| 1 <= q <= n implies (#[trigger] crossterm_pred(subs)(q, ab) <==> q == p) by {
        if q == p {
            if a.contains(q) {
                let i = choose|i: int| 0 <= i < a.len() && a[i] == q;
                assert(others[i] == q);
            }
            if b.contains(q) {
                let i = choose|i: int| 0 <= i < b.len() && b[i] == q;
                assert(others[i + h] == q);
            }
        } else {
            let i: int = if q < p { q - 1 } else { q - 2 };
            assert(others[i] == q);
            if i < h {
                assert(a[i] == q);
            } else {
                assert(b[i - h] == q);
            }
        }
    }
    ab
}

/// When `n = 2(k - 1) + 1`, every party of `1..=n` is assigned some crossterm:
/// the `e`-th entry of the assignment is party `e + 1`'s.
pub proof fn lemma_every_party_assigned(k: nat, n: nat)
    requires
        k >= 1,
        n == 2 * (k - 1) + 1,
        n < usize::MAX,
        subsets_spec(k, n).len() <= usize::MAX,
    ensures
        crossterm_assignment(k, n).len() == n,
        forall|e: int| 0 <= e < n ==> (#[trigger] crossterm_assignment(k, n)[e]).0 == e + 1,
{
    let subs = subsets_spec(k, n);
    let m = subs.len();
    let items = cross_pairs(m, m);
    let pred = crossterm_pred(subs);
    let own = |it: (usize, usize)| owner(pred, n, it);
    assert forall|p: nat| 1 <= p <= n implies #[trigger] owned_by(items, own, p).len() > 0 by {
        let ab = lemma_private_crossterm(k, n, p as PartyID);
        crate::assignment::lemma_cross_pairs_contains(m, m, ab.0 as nat, ab.1 as nat);
        let t = choose|t: int| 0 <= t < items.len() && items[t] == ab;
        crate::assignment::lemma_first_taker(pred, ab, 1, n);
        assert(pred(p as PartyID, ab));
        let q = own(ab);
        if q != p {
            if q == 0 {
            } else {
                assert(pred(q as PartyID, ab));
            }
        }
        assert(own(items[t]) == p);
        crate::assignment::lemma_owned_by_contains(items, own, t);
    }
    crate::assignment::lemma_assignment_full(items, own, n);
    assert(crossterm_assignment(k, n) == assignment_spec(items, own, n));
}

/// What party `id` computes for the crossterm `t`: the product of its share
/// of `a` for subset `t.0` and its share of `b` for subset `t.1`, or
/// `MissingShare` if it lacks either.
pub open spec fn crossterm_value<T: Sharing>(
    a: Seq<PartyShares<T::Share>>,
    b: Seq<PartyShares<T::Share>>,
    id: PartyID,
    t: (usize, usize),
) -> Result<T::Share, Error> {
    let ia = pos_of(a, id);
    let ib = pos_of(b, id);
    if ia < 0 || ib < 0 {
        Err(Error::MissingShare)
    } else if t.0 < a[ia].shares@.len() && a[ia].shares@[t.0 as int] is Some && t.1 < b[ib].shares@.len()
        && b[ib].shares@[t.1 as int] is Some {
        Ok(T::mul_spec(a[ia].shares@[t.0 as int]->0, b[ib].shares@[t.1 as int]->0))
    } else {
        Err(Error::MissingShare)
    }
}

/// Every party can compute every crossterm assigned to it.
pub open spec fn crossterms_computable<T: Sharing>(
    a: Seq<PartyShares<T::Share>>,
    b: Seq<PartyShares<T::Share>>,
    k: nat,
    n: nat,
) -> bool {
    forall|e: int, t: int|
        0 <= e < crossterm_assignment(k, n).len() && 0 <= t < crossterm_assignment(k, n)[e].1.len()
            ==> (#[trigger] crossterm_value::<T>(
            a,
            b,
            crossterm_assignment(k, n)[e].0,
            crossterm_assignment(k, n)[e].1[t],
        )) is Ok
}

/// Each party of the crossterm assignment with the sum of what it computes on
/// its crossterms.
pub open spec fn crossterm_senders<T: Sharing>(
    a: Seq<PartyShares<T::Share>>,
    b: Seq<PartyShares<T::Share>>,
    k: nat,
    n: nat,
) -> Seq<(PartyID, T::Share)> {
    crossterm_assignment(k, n).map_values(
        |e: (PartyID, Seq<(usize, usize)>)|
            (e.0, sum_of::<T, (usize, usize)>(e.1, |t: (usize, usize)| crossterm_value::<T>(a, b, e.0, t)->Ok_0)),
    )
}

/// Sharings with the same ids and shares have the same first positions.
proof fn lemma_same_pos<S>(a1: Seq<PartyShares<S>>, a2: Seq<PartyShares<S>>, id: PartyID)
    requires
        same_shares(a1, a2),
    ensures
        pos_of(a1, id) == pos_of(a2, id),
{
    if exists|i: int| first_with(a1, id, i) {
        let i = choose|i: int| first_with(a1, id, i);
        assert forall|b: int| 0 <= b < i implies (#[trigger] a2[b]).id != id by {
            assert(a1[b].id != id);
        }
        assert(first_with(a2, id, i));
        lemma_pos_of(a2, id, i);
    } else if exists|i: int| first_with(a2, id, i) {
        let i = choose|i: int| first_with(a2, id, i);
        assert forall|b: int| 0 <= b < i implies (#[trigger] a1[b]).id != id by {
            assert(a2[b].id != id);
        }
        assert(first_with(a1, id, i));
    }
}

/// Sharings with the same ids and shares give the same crossterm senders.
proof fn lemma_same_senders<T: Sharing>(
    a1: Seq<PartyShares<T::Share>>,
    a2: Seq<PartyShares<T::Share>>,
    b1: Seq<PartyShares<T::Share>>,
    b2: Seq<PartyShares<T::Share>>,
    k: nat,
    n: nat,
)
    requires
        same_shares(a1, a2),
        same_shares(b1, b2),
    ensures
        crossterm_senders::<T>(a1, b1, k, n) == crossterm_senders::<T>(a2, b2, k, n),
{
    assert forall|id: PartyID, t: (usize, usize)| #[trigger] crossterm_value::<T>(a1, b1, id, t) == crossterm_value::<T>(
        a2,
        b2,
        id,
        t,
    ) by {
        lemma_same_pos(a1, a2, id);
        lemma_same_pos(b1, b2, id);
        let ia = pos_of(a1, id);
        let ib = pos_of(b1, id);
        if ia >= 0 && ib >= 0 {
            assert(a1[ia].shares@ == a2[ia].shares@);
            assert(b1[ib].shares@ == b2[ib].shares@);
        }
    }
    let ca = crossterm_assignment(k, n);
    assert forall|e: int| 0 <= e < ca.len() implies #[trigger] crossterm_senders::<T>(a1, b1, k, n)[e]
        == crossterm_senders::<T>(a2, b2, k, n)[e] by {
        assert((|t: (usize, usize)| crossterm_value::<T>(a1, b1, ca[e].0, t)->Ok_0) =~= (|t: (usize, usize)|
            crossterm_value::<T>(a2, b2, ca[e].0, t)->Ok_0));
    }
    assert(crossterm_senders::<T>(a1, b1, k, n) =~= crossterm_senders::<T>(a2, b2, k, n));
}

/// The sum, over every party of the crossterm assignment, of what it computes
/// on its crossterms.
pub open spec fn crossterm_total<T: Sharing>(
    a: Seq<PartyShares<T::Share>>,
    b: Seq<PartyShares<T::Share>>,
    k: nat,
    n: nat,
) -> T::Share {
    seq_sum::<T>(
        crossterm_assignment(k, n).map_values(
            |e: (PartyID, Seq<(usize, usize)>)|
                sum_of::<T, (usize, usize)>(e.1, |t: (usize, usize)| crossterm_value::<T>(a, b, e.0, t)->Ok_0),
        ),
    )
}

/// A party of `1..=n` with a nonempty list of cross terms that it can compute.
pub open spec fn crossterm_entry_ok(
    e: (PartyID, Vec<(usize, usize)>),
    subs: Seq<Seq<PartyID>>,
    n: nat,
) -> bool {
    &&& 1 <= e.0 <= n
    &&& e.1.len() > 0
    &&& forall|t: int|
        0 <= t < e.1.len() ==> {
            let it = #[trigger] e.1@[t];
            &&& it.0 < subs.len()
            &&& it.1 < subs.len()
            &&& !subs[it.0 as int].contains(e.0)
            &&& !subs[it.1 as int].contains(e.0)
        }
}

/// A party of `1..=n` with a nonempty list of subsets that it is not in.
pub open spec fn subset_entry_ok(e: (PartyID, Vec<usize>), subs: Seq<Seq<PartyID>>, n: nat) -> bool {
    &&& 1 <= e.0 <= n
    &&& e.1.len() > 0
    &&& forall|t: int|
        0 <= t < e.1.len() ==> {
            let it = #[trigger] e.1@[t];
            &&& it < subs.len()
            &&& !subs[it as int].contains(e.0)
        }
}

/// The greedy assignment of the subsets of a k-of-n scheme, by position: each
/// goes to the first party of `1..=n` that is not in it.
pub open spec fn subset_assignment(k: nat, n: nat) -> Seq<(PartyID, Seq<usize>)> {
    let subs = subsets_spec(k, n);
    let m = subs.len();
    assignment_spec(
        Seq::new(m, |a: int| a as usize),
        |it: usize| owner(|id: PartyID, j: usize| j < m && !subs[j as int].contains(id), n, it),
        n,
    )
}

/// The AND operations that one addition of two 16-bit vectors makes with `adder`.
pub open spec fn adder_ands(adder: BitAdder) -> nat {
    match adder {
        BitAdder::FullAdder => 16,
        BitAdder::ParallelPrefix => 61,
    }
}

/// Sixteen well-formed bit sharings of the bits of `x`, least significant first.
pub open spec fn bit_vector_of(
    bits: Seq<BinaryShares>,
    p: (usize, usize, Seq<(String, ArithmeticShares)>),
    x: ArithShare,
) -> bool {
    &&& bits.len() == 16
    &&& crate::sharing::bitadder::all_bits::<MPC>(p, bits)
    &&& crate::sharing::bitadder::values::<MPC>(p, bits) == crate::sharing::bits::low_bits(x as nat, 16)
}

/// `len` zeros.
fn zero_values<T: Sharing>(len: usize) -> (r: Vec<T::Share>)
    ensures
        r.len() == len,
        forall|a: int| 0 <= a < len ==> #[trigger] r@[a] == T::zero_spec(),
{
    let mut zeros: Vec<T::Share> = Vec::new();
    let mut j: usize = 0;
    while j < len
        invariant
            j <= len,
            zeros.len() == j,
            forall|a: int| 0 <= a < j ==> #[trigger] zeros@[a] == T::zero_spec(),
        decreases len - j,
    {
        zeros.push(T::zero());
        j = j + 1;
    }
    zeros
}

/// A simulation of k-of-n replicated secret sharing MPC over named variables.
pub struct MPC {
    prng: PRNG,
    rng: OsSource,
    shared_vars: Vec<(String, ArithmeticShares)>,
    pub k: usize,
    pub n: usize,
    /// How many secure ANDs (bit multiplications) have been made.
    ands: Ghost<nat>,
    /// How many secure XORs have been made.
    xors: Ghost<nat>,
    /// How many shared zero bits have been made.
    zeros: Ghost<nat>,
}

impl MPC {
    /// The reconstruction threshold `k`.
    pub closed spec fn threshold(&self) -> usize {
        self.k
    }

    /// The number of parties `n`.
    pub closed spec fn num_parties(&self) -> usize {
        self.n
    }

    /// The shares of the variable named `name`, if it exists.
    pub closed spec fn var(&self, name: Seq<char>) -> Option<Seq<PartyShares<ArithShare>>> {
        match lookup(self.shared_vars@, name) {
            Some(i) => Some(self.shared_vars@[i].1@),
            None => None,
        }
    }

    /// The invariant: the generators belong to the subsets of the k-of-n
    /// scheme, and every variable is a valid sharing of it.
    pub closed spec fn wf(&self) -> bool {
        &&& self.threshold() >= 1
        &&& self.num_parties() < usize::MAX
        &&& self.prng.wf(self.threshold() as nat, self.num_parties() as nat)
        &&& unique_names(self.shared_vars@)
        &&& forall|i: int|
            0 <= i < self.shared_vars.len() ==> valid_sharing(
                (#[trigger] self.shared_vars@[i]).1@,
                self.threshold() as nat,
                self.num_parties() as nat,
            )
    }

    /// How many draws from the operating system's random source have failed
    /// so far.
    pub closed spec fn os_failures(&self) -> nat {
        self.rng.failures()
    }

    /// The generators of the subsets, in the order of the subsets.
    pub closed spec fn generators(&self) -> Seq<ChaCha20Rng> {
        self.prng.generators()
    }

    /// Every subset's generator is the ChaCha20 generator seeded with that
    /// subset's seed, and has drawn nothing yet.
    pub closed spec fn generators_seeded(&self) -> bool {
        self.prng.seeded()
    }

    /// A variable that holds a sharing of `secret` opens to `secret`: what
    /// `open_var` returns after `new_secret`, when there are at least `k` parties.
    pub proof fn lemma_open_shared_secret(&self, name: Seq<char>, secret: ArithShare)
        requires
            self.wf(),
            self.num_parties() >= self.threshold(),
            self.var(name) matches Some(sh) && shares_secret::<Arithmetic>(
                sh,
                subsets_spec(self.threshold() as nat, self.num_parties() as nat),
                secret,
            ),
        ensures
            opened(self.var(name)->0, self.threshold() as nat, self.num_parties() as nat) == secret,
    {
        let (k, n) = (self.k as nat, self.n as nat);
        let sh = self.var(name)->0;
        let v = choose|v: Seq<ArithShare>| represents(sh, subsets_spec(k, n), v) && seq_sum::<Arithmetic>(v) == secret;
        lemma_dealt_reconstructs::<Arithmetic>(sh, k, n, v);
    }

    /// Every variable that exists is a valid sharing.
    pub proof fn lemma_var_valid(&self, name: Seq<char>)
        requires
            self.wf(),
        ensures
            self.var(name) matches Some(sh) ==> valid_sharing(sh, self.threshold() as nat, self.num_parties() as nat),
    {
    }

    /// A new MPC with no variables, whose generators are seeded with zeros.
    pub fn new(k: usize, n: usize) -> (r: Self)
        requires
            k >= 1,
            n < usize::MAX,
        ensures
            r.wf(),
            r.threshold() == k,
            r.num_parties() == n,
            forall|name: Seq<char>| r.var(name) is None,
    {
        let shared_vars = Vec::new();
        let rng = OsSource::new();
        let prng = PRNG::new(k, n);
        MPC { prng, rng, shared_vars, k, n, ands: Ghost(0), xors: Ghost(0), zeros: Ghost(0) }
    }

    /// Seeds all generators with fresh randomness.
    pub fn set_prng(&mut self) -> (r: Result<(), Error>)
        requires
            old(self).wf(),
            subsets_spec(old(self).threshold() as nat, old(self).num_parties() as nat).len() != 0,
        ensures
            final(self).wf(),
            final(self).threshold() == old(self).threshold(),
            final(self).num_parties() == old(self).num_parties(),
            forall|name: Seq<char>| final(self).var(name) == old(self).var(name),
            r matches Err(e) ==> e == Error::Rng,
            r is Ok <==> final(self).os_failures() == old(self).os_failures(),
            final(self).os_failures() >= old(self).os_failures(),
            r is Ok ==> final(self).generators_seeded(),
            r is Err ==> final(self).generators() == old(self).generators(),
    {
        let r = self.prng.new_seeds_from(&mut self.rng);
        proof {
            old(self).prng.lemma_generators();
            self.prng.lemma_generators();
            if r is Err {
                assert forall|j: int| 0 <= j < old(self).prng.generators().len() implies
                    self.prng.generators()[j] == old(self).prng.generators()[j] by {
                    assert(self.prng.generator(j) == old(self).prng.generator(j));
                }
                assert(self.prng.generators() =~= old(self).prng.generators());
            }
        }
        r
    }

    /// The position of the variable named `name`.
    fn find_var(&self, name: &String) -> (r: Option<usize>)
        requires
            unique_names(self.shared_vars@),
        ensures
            r == match lookup(self.shared_vars@, name@) {
                Some(i) => Some(i as usize),
                None => None::<usize>,
            },
    {
        let mut i: usize = 0;
        while i < self.shared_vars.len()
            invariant
                i <= self.shared_vars.len(),
                unique_names(self.shared_vars@),
                forall|j: int| 0 <= j < i ==> (#[trigger] self.shared_vars@[j]).0@ != name@,
            decreases self.shared_vars.len() - i,
        {
            if self.shared_vars[i].0 == *name {
                proof {
                    lemma_lookup_at(self.shared_vars@, name@, i as int);
                }
                return Some(i);
            }
            i = i + 1;
        }
        None
    }

    fn add_var(&mut self, name: &String, value: ArithmeticShares) -> (r: Result<(), Error>)
        requires
            old(self).wf(),
            valid_sharing(value@, old(self).threshold() as nat, old(self).num_parties() as nat),
        ensures
            final(self).wf(),
            final(self).threshold() == old(self).threshold(),
            final(self).num_parties() == old(self).num_parties(),
            r is Ok,
            final(self).var(name@) == Some(value@),
            forall|nm: Seq<char>| nm != name@ ==> final(self).var(nm) == old(self).var(nm),
            final(self).prng == old(self).prng,
            final(self).rng == old(self).rng,
    {
        let ghost old_vars = self.shared_vars@;
        match self.find_var(name) {
            Some(i) => {
                self.shared_vars.set(i, (name.clone(), value));
                proof {
                    lemma_lookup_at(self.shared_vars@, name@, i as int);
                    assert forall|nm: Seq<char>| nm != name@ implies self.var(nm) == old(self).var(
                        nm,
                    ) by {
                        if lookup(old_vars, nm) is Some {
                            let j = lookup(old_vars, nm)->0;
                            lemma_lookup_at(self.shared_vars@, nm, j);
                        }
                        if lookup(self.shared_vars@, nm) is Some {
                            let j = lookup(self.shared_vars@, nm)->0;
                            lemma_lookup_at(old_vars, nm, j);
                        }
                    }
                }
            },
            None => {
                self.shared_vars.push((name.clone(), value));
                proof {
                    let last = self.shared_vars.len() - 1;
                    assert forall|a: int, b: int|
                        0 <= a < self.shared_vars.len() && 0 <= b < self.shared_vars.len() && a
                            != b implies (#[trigger] self.shared_vars@[a]).0@ != (
                    #[trigger] self.shared_vars@[b]).0@ by {
                        if a == last {
                            assert(old_vars[b].0@ != name@);
                        }
                        if b == last {
                            assert(old_vars[a].0@ != name@);
                        }
                    }
                    lemma_lookup_at(self.shared_vars@, name@, last);
                    assert forall|nm: Seq<char>| nm != name@ implies self.var(nm) == old(self).var(
                        nm,
                    ) by {
                        if lookup(old_vars, nm) is Some {
                            let j = lookup(old_vars, nm)->0;
                            lemma_lookup_at(self.shared_vars@, nm, j);
                        }
                        if lookup(self.shared_vars@, nm) is Some {
                            let j = lookup(self.shared_vars@, nm)->0;
                            lemma_lookup_at(old_vars, nm, j);
                        }
                    }
                }
            },
        }
        Ok(())
    }

    /// Create a new arithmetic variable with value `secret` that is automatically shared amongst the `n` parties
    pub fn new_secret(&mut self, name: &String, secret: ArithShare) -> (r: Result<(), Error>)
        requires
            old(self).wf(),
        ensures
            final(self).wf(),
            final(self).threshold() == old(self).threshold(),
            final(self).num_parties() == old(self).num_parties(),
            subsets_spec(old(self).threshold() as nat, old(self).num_parties() as nat).len() == 0 <==> r == Err::<
                (),
                Error,
            >(Error::NoSubsets),
            r matches Err(e) ==> e == Error::NoSubsets || e == Error::Rng,
            subsets_spec(old(self).threshold() as nat, old(self).num_parties() as nat).len() == 1 ==> r is Ok,
            subsets_spec(old(self).threshold() as nat, old(self).num_parties() as nat).len() != 0 ==> (r is Ok
                <==> final(self).os_failures() == old(self).os_failures()),
            final(self).os_failures() >= old(self).os_failures(),
            r is Err ==> forall|nm: Seq<char>| final(self).var(nm) == old(self).var(nm),
            r is Ok ==> {
                &&& final(self).var(name@) matches Some(sh) && shares_secret::<Arithmetic>(
                    sh,
                    subsets_spec(old(self).threshold() as nat, old(self).num_parties() as nat),
                    secret,
                )
                &&& forall|nm: Seq<char>| nm != name@ ==> final(self).var(nm) == old(self).var(nm)
            },
    {
        let arith_shares = ArithRepSharing::share_from(&mut self.rng, secret, self.k, self.n)?;
        self.add_var(name, arith_shares)?;
        Ok(())
    }

    /// Opens a variable via replicated secret sharing reconstruction
    pub fn open_var(&self, name: &String) -> (r: Result<ArithShare, Error>)
        requires
            self.wf(),
            self.var(name@) is Some ==> self.num_parties() >= self.threshold(),
        ensures
            r is Err <==> self.var(name@) is None,
            r matches Err(e) ==> e == Error::UnknownVariable,
            r matches Ok(x) ==> x == opened(self.var(name@)->0, self.threshold() as nat, self.num_parties() as nat),
    {
        let shares = self.get_shares(name)?;
        proof {
            let sh = self.var(name@)->0;
            let v = choose|v: Seq<ArithShare>| represents(sh, subsets_spec(self.threshold() as nat, self.num_parties() as nat), v);
            lemma_same_shares::<Arithmetic>(shares@, sh, subsets_spec(self.threshold() as nat, self.num_parties() as nat));
            lemma_dealt_reconstructs::<Arithmetic>(shares@, self.threshold() as nat, self.num_parties() as nat, v);
        }
        let secret = ArithRepSharing::reconstruct(&shares, self.k, self.n);
        Ok(secret)
    }

    /// Deletes a variable
    pub fn delete_var(&mut self, name: &String) -> (r: Result<(), Error>)
        requires
            old(self).wf(),
        ensures
            final(self).wf(),
            final(self).threshold() == old(self).threshold(),
            final(self).num_parties() == old(self).num_parties(),
            r is Ok,
            final(self).var(name@) is None,
            forall|nm: Seq<char>| nm != name@ ==> final(self).var(nm) == old(self).var(nm),
    {
        let ghost old_vars = self.shared_vars@;
        if let Some(i) = self.find_var(name) {
            self.shared_vars.remove(i);
            proof {
                let vars = self.shared_vars@;
                assert forall|a: int, b: int|
                    0 <= a < vars.len() && 0 <= b < vars.len() && a != b implies (
                #[trigger] vars[a]).0@ != (#[trigger] vars[b]).0@ by {
                    let oa = if a < i { a } else { a + 1 };
                    let ob = if b < i { b } else { b + 1 };
                    assert(vars[a] == old_vars[oa]);
                    assert(vars[b] == old_vars[ob]);
                }
                if lookup(vars, name@) is Some {
                    let j = lookup(vars, name@)->0;
                    let oj = if j < i { j } else { j + 1 };
                    assert(vars[j] == old_vars[oj]);
                }
                assert forall|nm: Seq<char>| nm != name@ implies self.var(nm) == old(self).var(
                    nm,
                ) by {
                    if lookup(old_vars, nm) is Some {
                        let j = lookup(old_vars, nm)->0;
                        assert(j != i);
                        let nj = if j < i { j } else { j - 1 };
                        assert(vars[nj] == old_vars[j]);
                        lemma_lookup_at(vars, nm, nj);
                    }
                    if lookup(vars, nm) is Some {
                        let j = lookup(vars, nm)->0;
                        let oj = if j < i { j } else { j + 1 };
                        assert(vars[j] == old_vars[oj]);
                        lemma_lookup_at(old_vars, nm, oj);
                    }
                }
            }
        }
        Ok(())
    }

    /// Returns all shares of a variable given its name
    pub fn get_shares(&self, name: &String) -> (r: Result<ArithmeticShares, Error>)
        requires
            self.wf(),
        ensures
            r is Err <==> self.var(name@) is None,
            r matches Err(e) ==> e == Error::UnknownVariable,
            r matches Ok(sh) ==> same_shares(sh@, self.var(name@)->0),
    {
        match self.find_var(name) {
            Some(i) => Ok(copy_shares(&self.shared_vars[i].1)),
            None => Err(Error::UnknownVariable),
        }
    }

    /// Linearly adds: every party locally adds its shares of `shared_a` and `shared_b`.
    fn add_linear<T: Sharing>(&self, shared_a: &Shares<T::Share>, shared_b: &Shares<T::Share>) -> (r:
        Result<Shares<T::Share>, Error>)
        requires
            self.wf(),
        ensures
            shared_a.len() != shared_b.len() <==> r == Err::<Shares<T::Share>, Error>(Error::LengthMismatch),
            shared_a.len() == shared_b.len() ==> (r is Ok <==> addable(shared_a@, shared_b@, self.n as nat)),
            r matches Err(e) ==> e == Error::LengthMismatch || e == Error::MissingShare,
            r matches Ok(c) ==> {
                &&& c.len() == self.n
                &&& forall|i: int|
                    0 <= i < self.n ==> (#[trigger] c@[i]).id == i + 1 && c@[i].shares@ == added_shares::<T>(
                        shared_a@[pos_of(shared_a@, (i + 1) as PartyID)].shares@,
                        shared_b@[pos_of(shared_b@, (i + 1) as PartyID)].shares@,
                    )
            },
            valid_sharing(shared_a@, self.k as nat, self.n as nat) && valid_sharing(
                shared_b@,
                self.k as nat,
                self.n as nat,
            ) ==> (r matches Ok(c) && {
                &&& valid_sharing(c@, self.k as nat, self.n as nat)
                &&& forall|va: Seq<T::Share>, vb: Seq<T::Share>|
                    #![trigger represents(shared_a@, subsets_spec(self.k as nat, self.n as nat), va), represents(shared_b@, subsets_spec(self.k as nat, self.n as nat), vb)]
                    represents(shared_a@, subsets_spec(self.k as nat, self.n as nat), va)
                        && represents(shared_b@, subsets_spec(self.k as nat, self.n as nat), vb)
                        ==> represents(
                        c@,
                        subsets_spec(self.k as nat, self.n as nat),
                        add_pointwise::<T>(va, vb),
                    )
            }),
    {
        let ghost subs = subsets_spec(self.k as nat, self.n as nat);
        let ghost n = self.n as nat;
        if shared_a.len() != shared_b.len() {
            return Err(Error::LengthMismatch);
        }
        let mut shared_c: Shares<T::Share> = Vec::new();
        let mut i: usize = 0;
        // Every party locally adds their shares of a and b
        while i < self.n
            invariant
                self.wf(),
                n == self.n,
                subs == subsets_spec(self.k as nat, self.n as nat),
                i <= self.n,
                shared_c.len() == i,
                shared_a.len() == shared_b.len(),
                forall|id: PartyID| 1 <= id <= i ==> #[trigger] party_addable(shared_a@, shared_b@, id),
                forall|a: int|
                    0 <= a < i ==> (#[trigger] shared_c@[a]).id == a + 1 && shared_c@[a].shares@ == added_shares::<T>(
                        shared_a@[pos_of(shared_a@, (a + 1) as PartyID)].shares@,
                        shared_b@[pos_of(shared_b@, (a + 1) as PartyID)].shares@,
                    ),
            decreases self.n - i,
        {
            let id = i + 1;
            let ia = find_party(shared_a, id);
            let ib = find_party(shared_b, id);
            let (ia, ib) = match (ia, ib) {
                (Some(ia), Some(ib)) => (ia, ib),
                _ => {
                    proof {
                        assert(!party_addable(shared_a@, shared_b@, id));
                        if valid_sharing(shared_a@, self.k as nat, n) && valid_sharing(shared_b@, self.k as nat, n) {
                            lemma_valid_addable(shared_a@, shared_b@, self.k as nat, n, id);
                        }
                    }
                    return Err(Error::MissingShare);
                },
            };
            let c = match add_party::<T>(&shared_a[ia], &shared_b[ib], id) {
                Ok(c) => c,
                Err(e) => {
                    proof {
                        assert(!party_addable(shared_a@, shared_b@, id));
                        if valid_sharing(shared_a@, self.k as nat, n) && valid_sharing(shared_b@, self.k as nat, n) {
                            lemma_valid_addable(shared_a@, shared_b@, self.k as nat, n, id);
                        }
                    }
                    return Err(e);
                },
            };
            shared_c.push(c);
            proof {
                assert(party_addable(shared_a@, shared_b@, id));
            }
            i = i + 1;
        }
        proof {
            if valid_sharing(shared_a@, self.k as nat, self.n as nat) && valid_sharing(
                shared_b@,
                self.k as nat,
                self.n as nat,
            ) {
                assert forall|a: int| 0 <= a < n implies #[trigger] shared_c@[a].shares@ == added_shares::<T>(
                    shared_a@[a].shares@,
                    shared_b@[a].shares@,
                ) by {
                    lemma_pos_dealt(shared_a@, n, (a + 1) as PartyID);
                    lemma_pos_dealt(shared_b@, n, (a + 1) as PartyID);
                }
                let va0 = choose|v: Seq<T::Share>| represents(shared_a@, subs, v);
                let vb0 = choose|v: Seq<T::Share>| represents(shared_b@, subs, v);
                assert forall|va: Seq<T::Share>, vb: Seq<T::Share>|
                    represents(shared_a@, subs, va) && represents(shared_b@, subs, vb) implies represents(
                    shared_c@,
                    subs,
                    add_pointwise::<T>(va, vb),
                ) by {
                    assert forall|a: int| 0 <= a < shared_c.len() implies crate::sharing::replicated::holds(
                        #[trigger] shared_c@[a],
                        subs,
                        add_pointwise::<T>(va, vb),
                    ) by {
                        assert(crate::sharing::replicated::holds(shared_a@[a], subs, va));
                        assert(crate::sharing::replicated::holds(shared_b@[a], subs, vb));
                        assert(shared_a@[a].id == a + 1);
                        assert(shared_b@[a].id == a + 1);
                        assert(shared_c@[a].shares@ == added_shares::<T>(shared_a@[a].shares@, shared_b@[a].shares@));
                        assert forall|j: int| 0 <= j < subs.len() implies #[trigger] shared_c@[a].shares@[j] == if subs[j].contains(shared_c@[a].id) {
                            None
                        } else {
                            Some(add_pointwise::<T>(va, vb)[j])
                        } by {
                            assert(shared_a@[a].shares@[j] == (if subs[j].contains(shared_a@[a].id) { None } else { Some(va[j]) }));
                            assert(shared_b@[a].shares@[j] == (if subs[j].contains(shared_b@[a].id) { None } else { Some(vb[j]) }));
                        }
                    }
                }
                assert(represents(shared_c@, subs, add_pointwise::<T>(va0, vb0)));
            }
        }
        Ok(shared_c)
    }

    /// Computes the addition of variable `name_a` and variable `name_b`, and stores the result as variable `out_name`
    #[verifier::spinoff_prover]
    pub fn add(&mut self, name_a: &String, name_b: &String, out_name: &String) -> (r: Result<
        (),
        Error,
    >)
        requires
            old(self).wf(),
        ensures
            final(self).wf(),
            final(self).threshold() == old(self).threshold(),
            final(self).num_parties() == old(self).num_parties(),
            r is Err <==> old(self).var(name_a@) is None || old(self).var(name_b@) is None,
            r matches Err(e) ==> e == Error::UnknownVariable,
            r is Err ==> forall|nm: Seq<char>| final(self).var(nm) == old(self).var(nm),
            r is Ok ==> {
                let (k, n) = (old(self).threshold() as nat, old(self).num_parties() as nat);
                let (a, b) = (old(self).var(name_a@)->0, old(self).var(name_b@)->0);
                &&& final(self).var(out_name@) matches Some(c) && {
                    &&& forall|va: Seq<ArithShare>, vb: Seq<ArithShare>|
                        #![trigger represents(a, subsets_spec(k, n), va), represents(b, subsets_spec(k, n), vb)]
                        represents(a, subsets_spec(k, n), va) && represents(b, subsets_spec(k, n), vb)
                            ==> represents(c, subsets_spec(k, n), add_pointwise::<Arithmetic>(va, vb))
                    &&& n >= k ==> opened(c, k, n) == Arithmetic::add_spec(opened(a, k, n), opened(b, k, n))
                }
                &&& forall|nm: Seq<char>| nm != out_name@ ==> final(self).var(nm) == old(self).var(nm)
            },
    {
        let ia = self.find_var(name_a);
        let ib = self.find_var(name_b);
        let (ia, ib) = match (ia, ib) {
            (Some(ia), Some(ib)) => (ia, ib),
            _ => {
                return Err(Error::UnknownVariable);
            },
        };
        let shared_c = self.add_linear::<Arithmetic>(&self.shared_vars[ia].1, &self.shared_vars[ib].1)?;
        proof {
            let (k, n) = (self.k as nat, self.n as nat);
            let (a, b) = (self.shared_vars@[ia as int].1@, self.shared_vars@[ib as int].1@);
            if n >= k {
                let va = choose|v: Seq<ArithShare>| represents(a, subsets_spec(k, n), v);
                let vb = choose|v: Seq<ArithShare>| represents(b, subsets_spec(k, n), v);
                assert(represents(shared_c@, subsets_spec(k, n), add_pointwise::<Arithmetic>(va, vb)));
                lemma_dealt_reconstructs::<Arithmetic>(a, k, n, va);
                lemma_dealt_reconstructs::<Arithmetic>(b, k, n, vb);
                lemma_dealt_reconstructs::<Arithmetic>(shared_c@, k, n, add_pointwise::<Arithmetic>(va, vb));
                lemma_sum_pointwise::<Arithmetic>(va, vb);
            }
        }
        self.add_var(out_name, shared_c)?;
        Ok(())
    }

    /// Returns all replicated secret sharing mult crossterms: every pair of
    /// subset positions `(a, b)`, row by row.
    pub fn all_crossterms(&self) -> (r: Vec<(usize, usize)>)
        requires
            self.wf(),
        ensures
            r@ == cross_pairs(
                subsets_spec(self.threshold() as nat, self.num_parties() as nat).len(),
                subsets_spec(self.threshold() as nat, self.num_parties() as nat).len(),
            ),
    {
        let all_subsets_a = ArithRepSharing::all_subsets(self.k, self.n, None);
        let all_subsets_b = ArithRepSharing::all_subsets(self.k, self.n, None);
        let ghost m = all_subsets_b.len() as nat;
        proof {
            assert(all_subsets_a.deep_view().len() == all_subsets_a@.len());
            assert(all_subsets_b.deep_view().len() == all_subsets_b@.len());
        }
        let mut crossterms: Vec<(usize, usize)> = Vec::new();
        let mut a: usize = 0;
        while a < all_subsets_a.len()
            invariant
                a <= all_subsets_a.len(),
                all_subsets_a.len() == all_subsets_b.len(),
                m == all_subsets_b.len(),
                crossterms@ == cross_pairs(a as nat, m),
            decreases all_subsets_a.len() - a,
        {
            let ghost before = crossterms@;
            let mut b: usize = 0;
            while b < all_subsets_b.len()
                invariant
                    b <= all_subsets_b.len(),
                    a < all_subsets_a.len(),
                    m == all_subsets_b.len(),
                    crossterms@ == before + Seq::new(b as nat, |c: int| (a, c as usize)),
                decreases all_subsets_b.len() - b,
            {
                crossterms.push((a, b));
                b = b + 1;
                proof {
                    assert(crossterms@ =~= before + Seq::new(b as nat, |c: int| (a, c as usize)));
                }
            }
            proof {
                assert(crossterms@ =~= cross_pairs((a + 1) as nat, m));
            }
            a = a + 1;
        }
        crossterms
    }

    /// Greedily assigns each item to the first party of `1..=n` that `can_take` it.
    ///
    /// Returns the parties that got some item, in increasing order, each
    /// with its items in the order they were given.
    fn greedy_assign<I: Copy, F: Fn(PartyID, I) -> bool>(
        &self,
        items: Vec<I>,
        can_take: F,
        Ghost(pred): Ghost<spec_fn(PartyID, I) -> bool>,
    ) -> (r: Vec<(PartyID, Vec<I>)>)
        requires
            self.n < usize::MAX,
            forall|id: PartyID, t: int|
                1 <= id <= self.n && 0 <= t < items.len() ==> #[trigger] can_take.requires(
                    (id, items@[t]),
                ),
            forall|id: PartyID, it: I, b: bool| #[trigger] can_take.ensures((id, it), b) ==> b == pred(id, it),
        ensures
            r@.map_values(|e: (PartyID, Vec<I>)| (e.0, e.1@)) == assignment_spec(
                items@,
                |it: I| owner(pred, self.n as nat, it),
                self.n as nat,
            ),
    {
        let ghost n = self.n as nat;
        let ghost own = |it: I| owner(pred, n, it);
        let mut owners: Vec<usize> = Vec::new();
        let mut t: usize = 0;
        while t < items.len()
            invariant
                t <= items.len(),
                owners.len() == t,
                n == self.n,
                own == (|it: I| owner(pred, n, it)),
                forall|id: PartyID, t: int|
                    1 <= id <= self.n && 0 <= t < items.len() ==> #[trigger] can_take.requires(
                        (id, items@[t]),
                    ),
                forall|id: PartyID, it: I, b: bool| #[trigger] can_take.ensures((id, it), b) ==> b == pred(id, it),
                self.n < usize::MAX,
                forall|a: int| 0 <= a < t ==> owners@[a] == own(#[trigger] items@[a]),
            decreases items.len() - t,
        {
            let mut owner_id: usize = 0;
            let mut id: usize = 1;
            while id <= self.n && owner_id == 0
                invariant
                    1 <= id <= self.n + 1,
                    t < items.len(),
                    self.n < usize::MAX,
                    forall|id: PartyID, t: int|
                        1 <= id <= self.n && 0 <= t < items.len() ==> #[trigger] can_take.requires(
                            (id, items@[t]),
                        ),
                    forall|id: PartyID, it: I, b: bool| #[trigger] can_take.ensures((id, it), b) ==> b == pred(id, it),
                    first_taker(pred, items@[t as int], 1, self.n as nat) == if owner_id == 0 {
                        first_taker(pred, items@[t as int], id as nat, self.n as nat)
                    } else {
                        owner_id as nat
                    },
                decreases self.n + 1 - id + (if owner_id == 0 { 1int } else { 0int }),
            {
                if can_take(id, items[t]) {
                    owner_id = id;
                }
                id = id + 1;
            }
            owners.push(owner_id);
            t = t + 1;
        }
        let mut assignment: Vec<(PartyID, Vec<I>)> = Vec::new();
        let mut id: usize = 1;
        while id <= self.n
            invariant
                1 <= id <= self.n + 1,
                self.n < usize::MAX,
                n == self.n,
                own == (|it: I| owner(pred, n, it)),
                owners.len() == items.len(),
                forall|a: int| 0 <= a < items.len() ==> owners@[a] == own(#[trigger] items@[a]),
                assignment@.map_values(|e: (PartyID, Vec<I>)| (e.0, e.1@)) == assignment_spec(
                    items@,
                    own,
                    (id - 1) as nat,
                ),
            decreases self.n + 1 - id,
        {
            let mut list: Vec<I> = Vec::new();
            let mut t: usize = 0;
            while t < items.len()
                invariant
                    t <= items.len(),
                    owners.len() == items.len(),
                    forall|a: int| 0 <= a < items.len() ==> owners@[a] == own(#[trigger] items@[a]),
                    list@ == owned_by(items@.take(t as int), own, id as nat),
                decreases items.len() - t,
            {
                proof {
                    assert(items@.take(t + 1).drop_last() =~= items@.take(t as int));
                    assert(items@.take(t + 1).last() == items@[t as int]);
                }
                if owners[t] == id {
                    list.push(items[t]);
                }
                t = t + 1;
            }
            proof {
                assert(items@.take(t as int) =~= items@);
            }
            let ghost prev = assignment@;
            if list.len() > 0 {
                assignment.push((id, list));
                proof {
                    assert(assignment@.map_values(|e: (PartyID, Vec<I>)| (e.0, e.1@)) =~= prev.map_values(
                        |e: (PartyID, Vec<I>)| (e.0, e.1@),
                    ).push((id, owned_by(items@, own, id as nat))));
                }
            }
            id = id + 1;
        }
        assignment
    }

    /// Given an assignment and a function `compute`, returns for each party the
    /// sum of what it computes on its items.
    fn compute_assignment<T: Sharing, A: Copy, F: Fn(PartyID, A) -> Result<T::Share, Error>>(
        &self,
        assignment: &Vec<(PartyID, Vec<A>)>,
        compute: F,
        Ghost(g): Ghost<spec_fn(PartyID, A) -> Result<T::Share, Error>>,
    ) -> (r: Result<Vec<(PartyID, T::Share)>, Error>)
        requires
            forall|e: int, t: int|
                0 <= e < assignment.len() && 0 <= t < assignment@[e].1.len() ==> #[trigger] compute.requires(
                    (assignment@[e].0, assignment@[e].1@[t]),
                ),
            forall|id: PartyID, a: A, x: Result<T::Share, Error>|
                #[trigger] compute.ensures((id, a), x) ==> x == g(id, a),
        ensures
            r is Ok <==> forall|e: int, t: int|
                0 <= e < assignment.len() && 0 <= t < assignment@[e].1.len() ==> (#[trigger] g(
                    assignment@[e].0,
                    assignment@[e].1@[t],
                )) is Ok,
            r matches Err(err) ==> exists|e: int, t: int|
                0 <= e < assignment.len() && 0 <= t < assignment@[e].1.len() && #[trigger] g(
                    assignment@[e].0,
                    assignment@[e].1@[t],
                ) == Err::<T::Share, Error>(err),
            r matches Ok(out) ==> {
                &&& out.len() == assignment.len()
                &&& forall|e: int|
                    0 <= e < out.len() ==> (#[trigger] out@[e]).0 == assignment@[e].0 && out@[e].1
                        == sum_of::<T, A>(assignment@[e].1@, |x: A| g(assignment@[e].0, x)->Ok_0)
            },
    {
        let mut output: Vec<(PartyID, T::Share)> = Vec::new();
        let mut e: usize = 0;
        // Each party locally computes all assigned items and sums them to a single value
        while e < assignment.len()
            invariant
                e <= assignment.len(),
                output.len() == e,
                forall|e: int, t: int|
                    0 <= e < assignment.len() && 0 <= t < assignment@[e].1.len() ==> #[trigger] compute.requires(
                        (assignment@[e].0, assignment@[e].1@[t]),
                    ),
                forall|id: PartyID, a: A, x: Result<T::Share, Error>|
                    #[trigger] compute.ensures((id, a), x) ==> x == g(id, a),
                forall|d: int, t: int|
                    0 <= d < e && 0 <= t < assignment@[d].1.len() ==> (#[trigger] g(
                        assignment@[d].0,
                        assignment@[d].1@[t],
                    )) is Ok,
                forall|d: int|
                    0 <= d < e ==> (#[trigger] output@[d]).0 == assignment@[d].0 && output@[d].1
                        == sum_of::<T, A>(assignment@[d].1@, |x: A| g(assignment@[d].0, x)->Ok_0),
            decreases assignment.len() - e,
        {
            let id = assignment[e].0;
            let items = &assignment[e].1;
            let ghost fe = |x: A| g(id, x)->Ok_0;
            let mut c = T::zero();
            let mut t: usize = 0;
            while t < items.len()
                invariant
                    t <= items.len(),
                    e < assignment.len(),
                    id == assignment@[e as int].0,
                    *items == assignment@[e as int].1,
                    fe == (|x: A| g(id, x)->Ok_0),
                    forall|e: int, t: int|
                        0 <= e < assignment.len() && 0 <= t < assignment@[e].1.len() ==> #[trigger] compute.requires(
                            (assignment@[e].0, assignment@[e].1@[t]),
                        ),
                    forall|id: PartyID, a: A, x: Result<T::Share, Error>|
                        #[trigger] compute.ensures((id, a), x) ==> x == g(id, a),
                    forall|u: int| 0 <= u < t ==> (#[trigger] g(id, items@[u])) is Ok,
                    c == sum_of::<T, A>(items@.take(t as int), fe),
                decreases items.len() - t,
            {
                let x = match compute(id, items[t]) {
                    Ok(x) => x,
                    Err(err) => {
                        proof {
                            assert(g(assignment@[e as int].0, assignment@[e as int].1@[t as int]) == Err::<
                                T::Share,
                                Error,
                            >(err));
                        }
                        return Err(err);
                    },
                };
                proof {
                    assert(items@.take(t + 1) =~= items@.take(t as int).push(items@[t as int]));
                    lemma_sum_of_push::<T, A>(items@.take(t as int), items@[t as int], fe);
                    T::lemma_ring(x, c, c);
                }
                c = T::add(x, c);
                t = t + 1;
            }
            proof {
                assert(items@.take(t as int) =~= items@);
                assert forall|d: int, u: int|
                    0 <= d < e + 1 && 0 <= u < assignment@[d].1.len() implies (#[trigger] g(
                    assignment@[d].0,
                    assignment@[d].1@[u],
                )) is Ok by {
                    if d == e {
                        assert(g(id, items@[u]) is Ok);
                    }
                }
            }
            output.push((id, c));
            e = e + 1;
        }
        Ok(output)
    }

    /// Given party `sender_id`'s locally computed value `secret`, simulates resharing preparation using a PRNG
    ///
    /// Fills `out_sharing` with all PRNG values, and fills `communication_set` with the correction subsets that still require communication
    ///
    /// Ex: Party 1 has secret v1 -> {(2, 3): PRNG((2, 3)), (2, 4): PRNG((2, 4)), ..., (4, 5): v1 - sum of all previous PRNGS}
    /// - In this example, subset (4, 5) is the correction subset, and requires communication btw parties 1, 2, and 3
    fn prepare_party_reshare<T: Sharing>(
        &mut self,
        sender_id: PartyID,
        secret: T::Share,
        out_sharing: &mut Shares<T::Share>,
        communication_set: &mut Vec<(usize, T::Share)>,
        Ghost(vals): Ghost<Seq<T::Share>>,
    ) -> (r: Result<(), Error>)
        requires
            old(self).wf(),
            forall|c: int|
                0 <= c < old(communication_set).len() ==> (#[trigger] old(communication_set)@[c]).0
                    < subsets_spec(old(self).k as nat, old(self).n as nat).len(),
        ensures
            final(self).wf(),
            final(self).k == old(self).k,
            final(self).n == old(self).n,
            final(self).ands == old(self).ands,
            final(self).xors == old(self).xors,
            final(self).zeros == old(self).zeros,
            final(self).rng == old(self).rng,
            final(self).shared_vars == old(self).shared_vars,
            ({
                let subs = subsets_spec(old(self).k as nat, old(self).n as nat);
                avoiding_positions(subs, sender_id, subs.len()).len() == 0 <==> r == Err::<(), Error>(
                    Error::NoSubsets,
                )
            }),
            r matches Err(e) ==> e == Error::NoSubsets,
            r is Err ==> *final(self) == *old(self) && final(out_sharing)@ == old(out_sharing)@
                && final(communication_set)@ == old(communication_set)@,
            r is Ok ==> {
                let subs = subsets_spec(old(self).k as nat, old(self).n as nat);
                share_map(final(out_sharing)@) == reshared_map::<T>(
                    share_map(old(out_sharing)@),
                    subs,
                    avoiding_positions(subs, sender_id, subs.len()).drop_last(),
                    |j: usize| drawn_share::<T>(old(self).prng.generator(j as int)),
                    old(self).n as nat,
                )
            },
            dealt_to_all(old(out_sharing)@, old(self).n as nat) && represents(
                old(out_sharing)@,
                subsets_spec(old(self).k as nat, old(self).n as nat),
                vals,
            ) && r is Ok ==> dealt_to_all(final(out_sharing)@, old(self).n as nat),
            forall|c: int|
                0 <= c < final(communication_set).len() ==> (#[trigger] final(communication_set)@[c]).0
                    < subsets_spec(old(self).k as nat, old(self).n as nat).len(),
            dealt_to_all(old(out_sharing)@, old(self).n as nat) && represents(
                old(out_sharing)@,
                subsets_spec(old(self).k as nat, old(self).n as nat),
                vals,
            ) && r is Ok ==> exists|vals2: Seq<T::Share>|
                represents(final(out_sharing)@, subsets_spec(old(self).k as nat, old(self).n as nat), vals2)
                    && T::add_spec(seq_sum::<T>(vals2), pending::<T>(final(communication_set)@))
                    == T::add_spec(
                    T::add_spec(seq_sum::<T>(vals), pending::<T>(old(communication_set)@)),
                    secret,
                ),
            dealt_to_all(old(out_sharing)@, old(self).n as nat) && represents(
                old(out_sharing)@,
                subsets_spec(old(self).k as nat, old(self).n as nat),
                vals,
            ) && r is Ok ==> {
                let subs = subsets_spec(old(self).k as nat, old(self).n as nat);
                let rest = avoiding_positions(subs, sender_id, subs.len()).drop_last();
                represents(
                    final(out_sharing)@,
                    subs,
                    Seq::new(
                        subs.len(),
                        |j: int|
                            if rest.contains(j as usize) {
                                T::add_spec(vals[j], drawn_share::<T>(old(self).prng.generator(j)))
                            } else {
                                vals[j]
                            },
                    ),
                )
            },
            r is Ok ==> ({
                // Every subset without the sender but the last draws from its own generator;
                // the last one carries the secret less those draws.
                let subs = subsets_spec(old(self).k as nat, old(self).n as nat);
                let pos = avoiding_positions(subs, sender_id, subs.len());
                let rest = pos.drop_last();
                &&& pos.len() > 0
                &&& final(communication_set)@ == old(communication_set)@.push(
                    (
                        pos.last(),
                        T::sub_spec(
                            secret,
                            seq_sum::<T>(
                                rest.map_values(|j: usize| drawn_share::<T>(old(self).prng.generator(j as int))),
                            ),
                        ),
                    ),
                )
                &&& forall|j: int|
                    0 <= j < subs.len() ==> #[trigger] final(self).prng.generator(j) == if rest.contains(
                        j as usize,
                    ) {
                        chacha20_next(old(self).prng.generator(j)).1
                    } else {
                        old(self).prng.generator(j)
                    }
            }),
    {
        let ghost subs = subsets_spec(self.k as nat, self.n as nat);
        let ghost g0 = |j: int| old(self).prng.generator(j);
        let ghost f = |j: usize| drawn_share::<T>(old(self).prng.generator(j as int));
        let ghost valid = dealt_to_all(out_sharing@, self.n as nat) && represents(out_sharing@, subs, vals);
        let ghost m_init = share_map(out_sharing@);
        let subsets = crate::sharing::ReplicatedSharing::<T>::all_subsets(self.k, self.n, None);
        let mut rest: Vec<usize> = Vec::new();
        let mut j: usize = 0;
        while j < subsets.len()
            invariant
                j <= subsets.len(),
                subsets.deep_view() == subs,
                forall|a: int| 0 <= a < rest.len() ==> (#[trigger] rest@[a]) < subs.len(),
                (exists|a: int| 0 <= a < j && !(#[trigger] subs[a]).contains(sender_id)) ==> rest.len() > 0,
                rest@ == avoiding_positions(subs, sender_id, j as nat),
            decreases subsets.len() - j,
        {
            proof {
                assert(subsets[j as int].deep_view() =~= subsets[j as int]@);
            }
            if !crate::sharing::replicated::contains_party(&subsets[j], sender_id) {
                rest.push(j);
            }
            j = j + 1;
        }
        let ghost pos = rest@;
        proof {
            assert(subsets.deep_view().len() == subsets@.len());
            lemma_avoiding_positions(subs, sender_id, subs.len());
            self.prng.lemma_subsets_distinct(self.k as nat, self.n as nat);
        }
        let correction_subset = match rest.pop() {
            Some(c) => c,
            None => {
                return Err(Error::NoSubsets);
            },
        };
        let mut sum_randoms = T::zero();
        let ghost v0 = Seq::new(subs.len(), |j: int| vals[j]);
        let ghost mut cur = v0;
        proof {
            if valid {
                assert(v0 =~= vals);
            }
            T::lemma_ring(seq_sum::<T>(v0), T::zero_spec(), T::zero_spec());
            assert(rest@ == pos.drop_last());
            assert(rest@.take(0) =~= Seq::<usize>::empty());
            assert(rest@.take(0).map_values(f) =~= Seq::<T::Share>::empty());
            assert(reshared_map::<T>(m_init, subs, rest@.take(0), f, self.n as nat) == m_init);
            assert(cur =~= Seq::new(
                subs.len(),
                |j: int|
                    if rest@.take(0).contains(j as usize) {
                        T::add_spec(vals[j], drawn_share::<T>(g0(j)))
                    } else {
                        vals[j]
                    },
            ));
        }
        let mut idx: usize = 0;
        while idx < rest.len()
            invariant
                idx <= rest.len(),
                self.wf(),
                self.k == old(self).k,
                self.n == old(self).n,
                self.shared_vars == old(self).shared_vars,
                self.ands == old(self).ands,
                self.xors == old(self).xors,
                self.zeros == old(self).zeros,
                self.rng == old(self).rng,
                subsets.deep_view() == subs,
                subs == subsets_spec(self.k as nat, self.n as nat),
                forall|a: int| 0 <= a < rest.len() ==> (#[trigger] rest@[a]) < subs.len(),
                valid ==> dealt_to_all(out_sharing@, self.n as nat),
                valid ==> represents(out_sharing@, subs, cur),
                valid == (dealt_to_all(old(out_sharing)@, self.n as nat) && represents(old(out_sharing)@, subs, vals)),
                m_init == share_map(old(out_sharing)@),
                share_map(out_sharing@) == reshared_map::<T>(m_init, subs, rest@.take(idx as int), f, self.n as nat),
                seq_sum::<T>(cur) == T::add_spec(seq_sum::<T>(v0), sum_randoms),
                v0 == Seq::new(subs.len(), |j: int| vals[j]),
                valid ==> v0 == vals,
                rest@ == pos.drop_last(),
                pos.len() > 0,
                forall|a: int, b: int| 0 <= a < b < pos.len() ==> #[trigger] pos[a] < #[trigger] pos[b],
                forall|a: int, b: int|
                    0 <= a < b < self.prng.subsets().len() ==> #[trigger] self.prng.subsets()[a]
                        != #[trigger] self.prng.subsets()[b],
                g0 == (|j: int| old(self).prng.generator(j)),
                f == (|j: usize| drawn_share::<T>(old(self).prng.generator(j as int))),
                old(self).prng.subsets() == subs,
                valid ==> vals.len() == subs.len(),
                subs.len() <= usize::MAX,
                sum_randoms == seq_sum::<T>(rest@.take(idx as int).map_values(f)),
                cur == Seq::new(
                    subs.len(),
                    |j: int|
                        if rest@.take(idx as int).contains(j as usize) {
                            T::add_spec(vals[j], drawn_share::<T>(g0(j)))
                        } else {
                            vals[j]
                        },
                ),
                forall|j: int|
                    0 <= j < subs.len() ==> #[trigger] self.prng.generator(j) == if rest@.take(idx as int).contains(
                        j as usize,
                    ) {
                        chacha20_next(g0(j)).1
                    } else {
                        g0(j)
                    },
            decreases rest.len() - idx,
        {
            let j = rest[idx];
            let ghost before = rest@.take(idx as int);
            proof {
                assert(subsets[j as int].deep_view() =~= subsets[j as int]@);
                assert(self.prng.subsets()[j as int] == subsets[j as int]@);
                assert(rest@.take(idx + 1) =~= before.push(j));
                if before.contains(j) {
                    let a = choose|a: int| 0 <= a < before.len() && before[a] == j;
                    assert(pos[a] < pos[idx as int]);
                }
                assert(self.prng.generator(j as int) == g0(j as int));
            }
            let ghost gen_before = self.prng;
            // Every party who should have `random_subset` "locally" draws from the seed to get sender's share
            let random = self.prng.from_seed::<T>(&subsets[j])?;
            proof {
                let w = choose|w: int|
                    0 <= w < gen_before.subsets().len() && gen_before.subsets()[w] == subsets[j as int]@ && (forall|a: int|
                        0 <= a < w ==> gen_before.subsets()[a] != subsets[j as int]@) && random == T::from_word_spec(
                        chacha20_next(gen_before.generator(w)).0,
                    ) && self.prng.generator(w) == chacha20_next(gen_before.generator(w)).1 && (forall|i: int|
                        0 <= i < gen_before.subsets().len() && i != w ==> #[trigger] self.prng.generator(i)
                            == gen_before.generator(i));
                if w != j {
                    if w < j {
                        assert(gen_before.subsets()[w] != gen_before.subsets()[j as int]);
                    } else {
                        assert(gen_before.subsets()[j as int] != gen_before.subsets()[w]);
                    }
                }
                assert(random == f(j));
            }
            add_to_subset::<T>(
                out_sharing,
                &subsets[j],
                j,
                random,
                self.n,
                Ghost(subs),
                Ghost(cur),
            );
            proof {
                crate::sharing::lemma_sum_update_add::<T>(cur, j as int, random);
                T::lemma_ring(seq_sum::<T>(v0), sum_randoms, random);
                let old_cur = cur;
                assert(!before.contains(j));
                assert(old_cur[j as int] == vals[j as int]);
                assert(random == drawn_share::<T>(g0(j as int)));
                cur = cur.update(j as int, T::add_spec(cur[j as int], random));
                let after = rest@.take(idx + 1);
                assert(after[before.len() as int] == j);
                assert(after.drop_last() =~= before);
                assert(subsets[j as int]@ == subs[j as int]);
                assert(subsets.deep_view().len() == subsets@.len());
                assert(after.map_values(f) =~= before.map_values(f).push(f(j)));
                crate::sharing::lemma_sum_push::<T>(before.map_values(f), f(j));
                assert(cur =~= Seq::new(
                    subs.len(),
                    |x: int|
                        if after.contains(x as usize) {
                            T::add_spec(vals[x], drawn_share::<T>(g0(x)))
                        } else {
                            vals[x]
                        },
                )) by {
                    assert forall|x: int| 0 <= x < subs.len() implies #[trigger] cur[x] == if after.contains(x as usize) {
                        T::add_spec(vals[x], drawn_share::<T>(g0(x)))
                    } else {
                        vals[x]
                    } by {
                        if x == j {
                            assert(after.contains(x as usize));
                        } else {
                            assert(cur[x] == old_cur[x]);
                            if after.contains(x as usize) {
                                let a = choose|a: int| 0 <= a < after.len() && after[a] == x as usize;
                                if a == before.len() {
                                    assert(subs.len() <= usize::MAX);
                                    assert(x as usize == j);
                                    assert(x == j as int);
                                }
                                assert(a < before.len());
                                assert(before[a] == x as usize);
                            }
                            if before.contains(x as usize) {
                                let a = choose|a: int| 0 <= a < before.len() && before[a] == x as usize;
                                assert(after[a] == x as usize);
                            }
                        }
                    }
                }
                assert forall|x: int| 0 <= x < subs.len() implies #[trigger] self.prng.generator(x) == if after.contains(
                    x as usize,
                ) {
                    chacha20_next(g0(x)).1
                } else {
                    g0(x)
                } by {
                    if x == j {
                        assert(after.contains(x as usize));
                    } else {
                        assert(self.prng.generator(x) == gen_before.generator(x));
                        if after.contains(x as usize) {
                            let a = choose|a: int| 0 <= a < after.len() && after[a] == x as usize;
                            if a == before.len() {
                                assert(subs.len() <= usize::MAX);
                                assert(x as usize == j);
                                assert(x == j as int);
                            }
                            assert(a < before.len());
                            assert(before[a] == x as usize);
                        }
                        if before.contains(x as usize) {
                            let a = choose|a: int| 0 <= a < before.len() && before[a] == x as usize;
                            assert(after[a] == x as usize);
                        }
                    }
                }
            }
            sum_randoms = T::add(sum_randoms, random);
            idx = idx + 1;
        }
        proof {
            assert(rest@.take(idx as int) =~= rest@);
        }
        // Only need to communicate the correction subsets (the last shares containing the secret correction)
        let ghost old_comm = communication_set@;
        let correction = T::sub(secret, sum_randoms);
        communication_set.push((correction_subset, correction));
        proof {
            lemma_pending_push::<T>(old_comm, (correction_subset, correction));
            lemma_reshare_books::<T>(seq_sum::<T>(vals), sum_randoms, pending::<T>(old_comm), secret);
            T::lemma_ring(seq_sum::<T>(vals), sum_randoms, pending::<T>(communication_set@));
        }
        Ok(())
    }

    /// Given (assumed) PRNG-filled sharing `out_sharing` and a set of correction subsets that require communication `communication_set`, completes filling of `out_sharing` with simulated communication
    fn apply_reshare_corrections<T: Sharing>(
        &self,
        out_sharing: &mut Shares<T::Share>,
        communication_set: Vec<(usize, T::Share)>,
        Ghost(vals): Ghost<Seq<T::Share>>,
    ) -> (r: Result<(), Error>)
        requires
            self.wf(),
            forall|c: int|
                0 <= c < communication_set.len() ==> (#[trigger] communication_set@[c]).0
                    < subsets_spec(self.k as nat, self.n as nat).len(),
        ensures
            r is Ok,
            share_map(final(out_sharing)@) == corrected_map::<T>(
                share_map(old(out_sharing)@),
                subsets_spec(self.k as nat, self.n as nat),
                communication_set@,
                self.n as nat,
            ),
            dealt_to_all(old(out_sharing)@, self.n as nat) && represents(
                old(out_sharing)@,
                subsets_spec(self.k as nat, self.n as nat),
                vals,
            ) ==> dealt_to_all(final(out_sharing)@, self.n as nat) && represents(
                final(out_sharing)@,
                subsets_spec(self.k as nat, self.n as nat),
                apply_corrections::<T>(vals, communication_set@),
            ),
            dealt_to_all(old(out_sharing)@, self.n as nat) && represents(
                old(out_sharing)@,
                subsets_spec(self.k as nat, self.n as nat),
                vals,
            ) ==> exists|vals2: Seq<T::Share>|
                represents(final(out_sharing)@, subsets_spec(self.k as nat, self.n as nat), vals2)
                    && seq_sum::<T>(vals2) == T::add_spec(
                    seq_sum::<T>(vals),
                    pending::<T>(communication_set@),
                ),
    {
        let ghost subs = subsets_spec(self.k as nat, self.n as nat);
        let subsets = crate::sharing::ReplicatedSharing::<T>::all_subsets(self.k, self.n, None);
        let m_exec = subsets.len();
        proof {
            assert(subsets.deep_view().len() == subsets@.len());
            assert(subs.len() == m_exec);
        }
        let ghost mut cur = vals;
        let ghost valid = dealt_to_all(out_sharing@, self.n as nat) && represents(out_sharing@, subs, vals);
        let ghost m_init = share_map(out_sharing@);
        proof {
            assert(corrected_map::<T>(m_init, subs, communication_set@.take(0), self.n as nat) == m_init);
            assert(communication_set@.take(0) =~= Seq::<(usize, T::Share)>::empty());
            assert(communication_set@.take(0).map_values(|e: (usize, T::Share)| e.1) =~= Seq::<T::Share>::empty());
            T::lemma_ring(seq_sum::<T>(vals), T::zero_spec(), T::zero_spec());
        }
        let mut idx: usize = 0;
        while idx < communication_set.len()
            invariant
                self.wf(),
                idx <= communication_set.len(),
                subsets.deep_view() == subs,
                forall|c: int|
                    0 <= c < communication_set.len() ==> (#[trigger] communication_set@[c]).0 < subs.len(),
                subs.len() <= usize::MAX,
                valid == (dealt_to_all(old(out_sharing)@, self.n as nat) && represents(old(out_sharing)@, subs, vals)),
                m_init == share_map(old(out_sharing)@),
                share_map(out_sharing@) == corrected_map::<T>(
                    m_init,
                    subs,
                    communication_set@.take(idx as int),
                    self.n as nat,
                ),
                valid ==> dealt_to_all(out_sharing@, self.n as nat),
                valid ==> represents(out_sharing@, subs, cur),
                valid ==> seq_sum::<T>(cur) == T::add_spec(
                    seq_sum::<T>(vals),
                    pending::<T>(communication_set@.take(idx as int)),
                ),
                cur == apply_corrections::<T>(vals, communication_set@.take(idx as int)),
            decreases communication_set.len() - idx,
        {
            let (j, sender_share) = communication_set[idx];
            proof {
                assert(communication_set@.take(idx + 1).drop_last() =~= communication_set@.take(idx as int));
                assert(communication_set@.take(idx + 1).last() == communication_set@[idx as int]);
            }
            proof {
                assert(subsets.deep_view().len() == subsets@.len());
                assert(communication_set@[idx as int].0 < subs.len());
                assert(subsets[j as int].deep_view() =~= subsets[j as int]@);
            }
            add_to_subset::<T>(
                out_sharing,
                &subsets[j],
                j,
                sender_share,
                self.n,
                Ghost(subs),
                Ghost(cur),
            );
            proof {
                assert(subsets[j as int]@ == subs[j as int]);
                if valid {
                    crate::sharing::lemma_sum_update_add::<T>(cur, j as int, sender_share);
                }
                assert(communication_set@.take(idx + 1) =~= communication_set@.take(idx as int).push(
                    communication_set@[idx as int],
                ));
                lemma_pending_push::<T>(communication_set@.take(idx as int), communication_set@[idx as int]);
                T::lemma_ring(
                    seq_sum::<T>(vals),
                    pending::<T>(communication_set@.take(idx as int)),
                    sender_share,
                );
                cur = cur.update(j as int, T::add_spec(cur[j as int], sender_share));
            }
            idx = idx + 1;
        }
        proof {
            assert(communication_set@.take(idx as int) =~= communication_set@);
        }
        Ok(())
    }

    /// Assigns every crossterm `(a, b)` to the first party of `1..=n` that holds
    /// neither subset `a` nor subset `b`.
    ///
    /// Returns the parties that got some crossterm, in increasing order, each
    /// with its crossterms in the order of `all_crossterms`.
    pub fn assign_crossterms(&self) -> (r: Vec<(PartyID, Vec<(usize, usize)>)>)
        requires
            self.wf(),
        ensures
            r@.map_values(|e: (PartyID, Vec<(usize, usize)>)| (e.0, e.1@)) == crossterm_assignment(
                self.threshold() as nat,
                self.num_parties() as nat,
            ),
            forall|e: int|
                0 <= e < r.len() ==> crossterm_entry_ok(
                    #[trigger] r@[e],
                    subsets_spec(self.threshold() as nat, self.num_parties() as nat),
                    self.num_parties() as nat,
                ),
    {
        let ghost k = self.k as nat;
        let ghost n = self.n as nat;
        let ghost subs = subsets_spec(k, n);
        let ghost m = subs.len();
        let crossterms = self.all_crossterms();
        let ghost items = crossterms@;
        let subsets = ArithRepSharing::all_subsets(self.k, self.n, None);
        let m_exec = subsets.len();
        proof {
            assert(subsets.deep_view().len() == subsets@.len());
            assert(subsets.deep_view() == subs);
            assert(m == m_exec);
            lemma_combos_shape(parties_seq(n), (k - 1) as nat);
            lemma_cross_pairs_bounds(m, m);
        }
        let ghost pred = crossterm_pred(subs);
        let gsubs: Ghost<Seq<Seq<PartyID>>> = Ghost(subs);
        let can_take = |id: PartyID, t: (usize, usize)| -> (b: bool)
            requires
                t.0 < subsets.len(),
                t.1 < subsets.len(),
                subsets.deep_view() == gsubs@,
            ensures
                b == crossterm_pred(gsubs@)(id, t),
            {
                proof {
                    assert(subsets[t.0 as int].deep_view() =~= subsets[t.0 as int]@);
                    assert(subsets[t.1 as int].deep_view() =~= subsets[t.1 as int]@);
                }
                !crate::sharing::replicated::contains_party(&subsets[t.0], id)
                    && !crate::sharing::replicated::contains_party(&subsets[t.1], id)
            };
        let ghost own = |it: (usize, usize)| owner(pred, n, it);
        let assignment = self.greedy_assign(crossterms, can_take, Ghost(pred));
        let ghost spec_assignment = assignment_spec(items, own, n);
        proof {
            lemma_assignment_entries(items, own, n);
            assert(assignment@.len() == spec_assignment.len());
            assert forall|e: int, t: int|
                0 <= e < assignment.len() && 0 <= t < assignment@[e].1.len() implies 1 <= assignment@[e].0 <= n
                && (#[trigger] assignment@[e].1@[t]).0 < m && assignment@[e].1@[t].1 < m && !subs[assignment@[e].1@[t].0 as int].contains(
                assignment@[e].0,
            ) && !subs[assignment@[e].1@[t].1 as int].contains(assignment@[e].0) by {
                assert((assignment@[e].0, assignment@[e].1@) == spec_assignment[e]);
                let p = assignment@[e].0;
                crate::assignment::lemma_owned_by(items, own, p as nat);
                let it = assignment@[e].1@[t];
                assert(own(it) == p);
                crate::assignment::lemma_first_taker(pred, it, 1, n);
                assert(pred(p, it));
            }
            assert forall|e: int| 0 <= e < assignment.len() implies crossterm_entry_ok(
                #[trigger] assignment@[e],
                subs,
                n,
            ) by {
                assert((assignment@[e].0, assignment@[e].1@) == spec_assignment[e]);
                assert forall|t: int| 0 <= t < assignment@[e].1.len() implies {
                    let it = #[trigger] assignment@[e].1@[t];
                    &&& it.0 < subs.len()
                    &&& it.1 < subs.len()
                    &&& !subs[it.0 as int].contains(assignment@[e].0)
                    &&& !subs[it.1 as int].contains(assignment@[e].0)
                } by {
                    assert(assignment@[e].1@[t] == assignment@[e].1@[t]);
                }
            }
        }
        assignment
    }

    /// Computes mpc multiplication in a greedy, asymmetric way
    fn mult_greedy<T: Sharing>(&mut self, shared_a: &Shares<T::Share>, shared_b: &Shares<T::Share>) -> (r:
        Result<Shares<T::Share>, Error>)
        requires
            old(self).wf(),
        ensures
            final(self).wf(),
            final(self).k == old(self).k,
            final(self).n == old(self).n,
            final(self).ands == old(self).ands,
            final(self).xors == old(self).xors,
            final(self).zeros == old(self).zeros,
            final(self).rng == old(self).rng,
            final(self).shared_vars == old(self).shared_vars,
            shared_a.len() != shared_b.len() <==> r == Err::<Shares<T::Share>, Error>(Error::LengthMismatch),
            shared_a.len() == shared_b.len() ==> (r is Ok <==> crossterms_computable::<T>(
                shared_a@,
                shared_b@,
                old(self).k as nat,
                old(self).n as nat,
            )),
            r matches Err(e) ==> e == Error::LengthMismatch || e == Error::MissingShare,
            r matches Ok(c) ==> {
                let subs = subsets_spec(old(self).k as nat, old(self).n as nat);
                &&& valid_sharing(c@, old(self).k as nat, old(self).n as nat)
                &&& exists|vc: Seq<T::Share>|
                    represents(c@, subs, vc) && seq_sum::<T>(vc) == crossterm_total::<T>(
                        shared_a@,
                        shared_b@,
                        old(self).k as nat,
                        old(self).n as nat,
                    )
                &&& forall|vc: Seq<T::Share>|
                    old(self).n >= old(self).k && #[trigger] represents(c@, subs, vc) ==> seq_sum::<T>(vc)
                        == crossterm_total::<T>(
                        shared_a@,
                        shared_b@,
                        old(self).k as nat,
                        old(self).n as nat,
                    )
            },
            valid_sharing(shared_a@, old(self).k as nat, old(self).n as nat) && valid_sharing(
                shared_b@,
                old(self).k as nat,
                old(self).n as nat,
            ) ==> r is Ok,
            r matches Ok(c) ==> {
                let subs = subsets_spec(old(self).k as nat, old(self).n as nat);
                forall|va: Seq<T::Share>, vb: Seq<T::Share>, vc: Seq<T::Share>|
                    #![trigger represents(shared_a@, subs, va), represents(shared_b@, subs, vb), represents(c@, subs, vc)]
                    2 * (old(self).k - 1) < old(self).n && valid_sharing(
                        shared_a@,
                        old(self).k as nat,
                        old(self).n as nat,
                    ) && valid_sharing(shared_b@, old(self).k as nat, old(self).n as nat) && represents(
                        shared_a@,
                        subs,
                        va,
                    ) && represents(shared_b@, subs, vb) && represents(
                        c@,
                        subs,
                        vc,
                    ) ==> seq_sum::<T>(vc) == T::mul_spec(seq_sum::<T>(va), seq_sum::<T>(vb))
            },
            r matches Ok(c) ==> {
                let subs = subsets_spec(old(self).k as nat, old(self).n as nat);
                let st = reshare_all::<T>(
                    (
                        zero_map::<T>(subs, old(self).n as nat),
                        old(self).prng.generators(),
                        Seq::<(usize, T::Share)>::empty(),
                    ),
                    subs,
                    old(self).n as nat,
                    crossterm_senders::<T>(shared_a@, shared_b@, old(self).k as nat, old(self).n as nat),
                );
                &&& share_map(c@) == corrected_map::<T>(st.0, subs, st.2, old(self).n as nat)
                &&& final(self).prng.generators() == st.1
            },
    {
        let ghost k = self.k as nat;
        let ghost n = self.n as nat;
        let ghost subs = subsets_spec(k, n);
        let ghost m = subs.len();
        let ghost va = choose|v: Seq<T::Share>| represents(shared_a@, subs, v);
        let ghost vb = choose|v: Seq<T::Share>| represents(shared_b@, subs, v);
        if shared_a.len() != shared_b.len() {
            return Err(Error::LengthMismatch);
        }
        // Greedily assigns all crossterms
        let assignment = self.assign_crossterms();
        let ghost items = cross_pairs(m, m);
        let ghost pred = crossterm_pred(subs);
        let ghost own = |it: (usize, usize)| owner(pred, n, it);
        let ghost spec_assignment = assignment_spec(items, own, n);
        let subsets = crate::sharing::ReplicatedSharing::<T>::all_subsets(self.k, self.n, None);
        let m_exec = subsets.len();
        proof {
            assert(subsets.deep_view().len() == subsets@.len());
            assert(subsets.deep_view() == subs);
            assert(m == m_exec);
            lemma_combos_shape(parties_seq(n), (k - 1) as nat);
            lemma_cross_pairs_bounds(m, m);
            lemma_assignment_entries(items, own, n);
        }
        // Each party locally computes all crossterms and sums them to a single value each
        let ghost g = |id: PartyID, t: (usize, usize)| crossterm_value::<T>(shared_a@, shared_b@, id, t);
        let compute_crossterm = |id: PartyID, t: (usize, usize)| -> (x: Result<T::Share, Error>)
            ensures
                x == crossterm_value::<T>(shared_a@, shared_b@, id, t),
            {
                let ia = find_party(shared_a, id);
                let ib = find_party(shared_b, id);
                let (ia, ib) = match (ia, ib) {
                    (Some(ia), Some(ib)) => (ia, ib),
                    _ => {
                        return Err(Error::MissingShare);
                    },
                };
                if t.0 >= shared_a[ia].shares.len() || t.1 >= shared_b[ib].shares.len() {
                    return Err(Error::MissingShare);
                }
                let share_a = match shared_a[ia].shares[t.0] {
                    Some(x) => x,
                    None => {
                        return Err(Error::MissingShare);
                    },
                };
                let share_b = match shared_b[ib].shares[t.1] {
                    Some(x) => x,
                    None => {
                        return Err(Error::MissingShare);
                    },
                };
                Ok(T::mul(share_a, share_b))
            };
        let ghost ca = crossterm_assignment(k, n);
        proof {
            assert forall|e: int| 0 <= e < assignment.len() implies #[trigger] ca[e] == (
                assignment@[e].0,
                assignment@[e].1@,
            ) by {
                assert(assignment@.map_values(|e: (PartyID, Vec<(usize, usize)>)| (e.0, e.1@))[e] == ca[e]);
            }
            assert(ca.len() == assignment.len()) by {
                assert(assignment@.map_values(|e: (PartyID, Vec<(usize, usize)>)| (e.0, e.1@)).len() == ca.len());
            }
        }
        let computed = match self.compute_assignment::<T, _, _>(&assignment, compute_crossterm, Ghost(g)) {
            Ok(c) => c,
            Err(err) => {
                proof {
                    let (e, t) = choose|e: int, t: int|
                        0 <= e < assignment.len() && 0 <= t < assignment@[e].1.len() && #[trigger] g(
                            assignment@[e].0,
                            assignment@[e].1@[t],
                        ) == Err::<T::Share, Error>(err);
                    assert(ca[e] == (assignment@[e].0, assignment@[e].1@));
                    assert(crossterm_value::<T>(shared_a@, shared_b@, ca[e].0, ca[e].1[t]) is Err);
                    if valid_sharing(shared_a@, k, n) && valid_sharing(shared_b@, k, n) {
                        let p = assignment@[e].0;
                        let it = assignment@[e].1@[t];
                        assert(crossterm_entry_ok(assignment@[e], subs, n));
                        assert(it == assignment@[e].1@[t]);
                        assert(it.0 < subs.len() && !subs[it.0 as int].contains(p));
                        assert(it.1 < subs.len() && !subs[it.1 as int].contains(p));
                        lemma_pos_dealt(shared_a@, n, p);
                        lemma_pos_dealt(shared_b@, n, p);
                        assert(crate::sharing::replicated::holds(shared_a@[p - 1], subs, va));
                        assert(crate::sharing::replicated::holds(shared_b@[p - 1], subs, vb));
                        assert(shared_a@[p - 1].id == p);
                        assert(shared_b@[p - 1].id == p);
                        assert(shared_a@[p - 1].shares@[it.0 as int] is Some);
                        assert(shared_b@[p - 1].shares@[it.1 as int] is Some);
                    }
                }
                return Err(err);
            },
        };
        proof {
            assert forall|e: int, t: int|
                0 <= e < ca.len() && 0 <= t < ca[e].1.len() implies (#[trigger] crossterm_value::<T>(
                shared_a@,
                shared_b@,
                ca[e].0,
                ca[e].1[t],
            )) is Ok by {
                assert(ca[e] == (assignment@[e].0, assignment@[e].1@));
                assert(g(assignment@[e].0, assignment@[e].1@[t]) is Ok);
            }
        }
        let ghost secrets = computed@.map_values(|e: (PartyID, T::Share)| e.1);
        let ghost per_party = |e: (PartyID, Seq<(usize, usize)>)| sum_of::<T, (usize, usize)>(
            e.1,
            |t: (usize, usize)| crossterm_value::<T>(shared_a@, shared_b@, e.0, t)->Ok_0,
        );
        proof {
            // Each party's value is the sum of what it computes on its crossterms.
            assert(secrets =~= ca.map_values(per_party)) by {
                assert forall|e: int| 0 <= e < secrets.len() implies secrets[e] == ca.map_values(per_party)[e] by {
                    assert(ca[e] == (assignment@[e].0, assignment@[e].1@));
                    assert((|t: (usize, usize)| crossterm_value::<T>(shared_a@, shared_b@, ca[e].0, t)->Ok_0) =~= (
                    |x: (usize, usize)| g(assignment@[e].0, x)->Ok_0));
                }
            }
            assert(seq_sum::<T>(secrets) == crossterm_total::<T>(shared_a@, shared_b@, k, n));
        }
        // Using PRNG, parties "reshare" their single values without communication
        // Correction subsets (subsets that require communication & aren't PRNG) are stored in `communication_set`
        let zeros = zero_values::<T>(subsets.len());
        let mut shared_c = crate::sharing::replicated::deal(&zeros, &subsets, self.n);
        let mut communication_set: Vec<(usize, T::Share)> = Vec::new();
        let ghost mut cur = zeros@;
        let ghost init = (share_map(shared_c@), self.prng.generators(), Seq::<(usize, T::Share)>::empty());
        let ghost senders = computed@;
        proof {
            lemma_zero_map::<T>(shared_c@, subs, n, zeros@);
            assert(self.prng == old(self).prng);
            assert(senders =~= crossterm_senders::<T>(shared_a@, shared_b@, k, n)) by {
                assert forall|e: int| 0 <= e < senders.len() implies senders[e] == crossterm_senders::<T>(
                    shared_a@,
                    shared_b@,
                    k,
                    n,
                )[e] by {
                    assert(ca[e] == (assignment@[e].0, assignment@[e].1@));
                    assert(secrets[e] == per_party(ca[e]));
                }
            }
            assert(computed@.take(0) =~= Seq::<(PartyID, T::Share)>::empty());
            crate::sharing::lemma_sum_zeros::<T>(zeros@);
            assert(communication_set@.map_values(|e: (usize, T::Share)| e.1) =~= Seq::<T::Share>::empty());
            assert(secrets.take(0) =~= Seq::<T::Share>::empty());
            T::lemma_ring(T::zero_spec(), T::zero_spec(), T::zero_spec());
        }
        let mut e: usize = 0;
        while e < computed.len()
            invariant
                e <= computed.len(),
                computed.len() == assignment.len(),
                self.wf(),
                self.k == k,
                self.n == n,
                self.shared_vars == old(self).shared_vars,
                self.ands == old(self).ands,
                self.xors == old(self).xors,
                self.zeros == old(self).zeros,
                self.rng == old(self).rng,
                subs == subsets_spec(self.k as nat, self.n as nat),
                subs.len() <= usize::MAX,
                secrets == computed@.map_values(|e: (PartyID, T::Share)| e.1),
                forall|e: int| 0 <= e < computed.len() ==> (#[trigger] computed@[e]).0 == assignment@[e].0,
                forall|e: int| 0 <= e < assignment.len() ==> crossterm_entry_ok(#[trigger] assignment@[e], subs, n),
                dealt_to_all(shared_c@, n),
                represents(shared_c@, subs, cur),
                forall|c: int|
                    0 <= c < communication_set.len() ==> (#[trigger] communication_set@[c]).0 < subs.len(),
                T::add_spec(seq_sum::<T>(cur), pending::<T>(communication_set@)) == seq_sum::<T>(
                    secrets.take(e as int),
                ),
                senders == computed@,
                reshare_all::<T>(init, subs, n, computed@.take(e as int)) == (
                    share_map(shared_c@),
                    self.prng.generators(),
                    communication_set@,
                ),
            decreases computed.len() - e,
        {
            let (sender_id, secret) = computed[e];
            proof {
                assert(crossterm_entry_ok(assignment@[e as int], subs, n));
                let it = assignment@[e as int].1@[0];
                assert(it.0 < subs.len() && !subs[it.0 as int].contains(sender_id));
                lemma_avoiding_positions(subs, sender_id, subs.len());
                assert(avoiding_positions(subs, sender_id, subs.len()).contains(it.0));
            }
            let ghost before = cur;
            let ghost before_comm = communication_set@;
            let ghost st = reshare_all::<T>(init, subs, n, computed@.take(e as int));
            let ghost prng_before = self.prng;
            self.prepare_party_reshare::<T>(
                sender_id,
                secret,
                &mut shared_c,
                &mut communication_set,
                Ghost(cur),
            )?;
            proof {
                let vals2 = choose|vals2: Seq<T::Share>|
                    represents(shared_c@, subs, vals2) && T::add_spec(
                        seq_sum::<T>(vals2),
                        pending::<T>(communication_set@),
                    ) == T::add_spec(T::add_spec(seq_sum::<T>(before), pending::<T>(before_comm)), secret);
                cur = vals2;
                // The step matches one resharing of the model.
                assert(computed@.take(e + 1).drop_last() =~= computed@.take(e as int));
                assert(computed@.take(e + 1).last() == (sender_id, secret));
                prng_before.lemma_generators();
                self.prng.lemma_generators();
                let rest = avoiding_positions(subs, sender_id, subs.len()).drop_last();
                assert((|j: usize| drawn_share::<T>(prng_before.generator(j as int))) =~= (|j: usize|
                    drawn_share::<T>(st.1[j as int])));
                assert(self.prng.generators().len() == st.1.len());
                assert forall|j: int| 0 <= j < st.1.len() implies #[trigger] self.prng.generators()[j] == (if rest.contains(
                    j as usize,
                ) {
                    chacha20_next(st.1[j]).1
                } else {
                    st.1[j]
                }) by {
                    assert(self.prng.generator(j) == self.prng.generators()[j]);
                    assert(prng_before.generator(j) == prng_before.generators()[j]);
                }
                assert(self.prng.generators() =~= Seq::new(
                    st.1.len(),
                    |j: int|
                        if rest.contains(j as usize) {
                            chacha20_next(st.1[j]).1
                        } else {
                            st.1[j]
                        },
                ));
                assert(reshare_all::<T>(init, subs, n, computed@.take(e + 1)) == (
                    share_map(shared_c@),
                    self.prng.generators(),
                    communication_set@,
                ));
                assert(secrets.take(e + 1) =~= secrets.take(e as int).push(secret));
                crate::sharing::lemma_sum_push::<T>(secrets.take(e as int), secret);
            }
            e = e + 1;
        }
        // Parties then communicate to share the final correction subsets to the parties who should have them
        let ghost final_comm = communication_set@;
        proof {
            assert(computed@.take(e as int) =~= computed@);
        }
        self.apply_reshare_corrections::<T>(&mut shared_c, communication_set, Ghost(cur))?;
        proof {
            assert(secrets.take(e as int) =~= secrets);
            let vc0 = choose|vc: Seq<T::Share>|
                represents(shared_c@, subs, vc) && seq_sum::<T>(vc) == T::add_spec(
                    seq_sum::<T>(cur),
                    pending::<T>(final_comm),
                );
            if n >= k {
                lemma_dealt_distinct(shared_c@, n);
                lemma_k_parties_cover(shared_c@, subs, k);
                assert forall|vc: Seq<T::Share>| n >= k && #[trigger] represents(shared_c@, subs, vc) implies seq_sum::<
                    T,
                >(vc) == crossterm_total::<T>(shared_a@, shared_b@, k, n) by {
                    lemma_represents_unique(shared_c@, subs, vc0, vc);
                }
            }
            if valid_sharing(shared_a@, k, n) && valid_sharing(shared_b@, k, n) && 2 * (k - 1) < n {
                lemma_dealt_distinct(shared_c@, n);
                lemma_k_parties_cover(shared_c@, subs, k);
                // Every crossterm has an owner who holds both of its shares: the total is the product.
                let big_f = |t: (usize, usize)| crossterm_value::<T>(shared_a@, shared_b@, own(t) as PartyID, t)->Ok_0;
                assert forall|t: int| 0 <= t < items.len() implies own(#[trigger] items[t]) != 0 && own(items[t]) <= n
                    && pred(own(items[t]) as PartyID, items[t]) by {
                    let it = items[t];
                    let x = crate::sharing::replicated::lemma_outside_both(subs[it.0 as int], subs[it.1 as int], k, n);
                    assert(pred(x, it));
                    crate::assignment::lemma_first_taker(pred, it, 1, n);
                }
                assert forall|e: int| 0 <= e < ca.len() implies #[trigger] per_party(ca[e]) == sum_of::<
                    T,
                    (usize, usize),
                >(spec_assignment[e].1, big_f) by {
                    let p = spec_assignment[e].0;
                    assert(spec_assignment[e] == ca[e]);
                    crate::assignment::lemma_owned_by(items, own, p as nat);
                    crate::assignment::lemma_sum_of_ext::<T, (usize, usize)>(
                        spec_assignment[e].1,
                        |t: (usize, usize)| crossterm_value::<T>(shared_a@, shared_b@, ca[e].0, t)->Ok_0,
                        big_f,
                    );
                }
                crate::assignment::lemma_owned_by_none(items, own, 0);
                assert(owned_by(items, own, 0).map_values(big_f) =~= Seq::<T::Share>::empty());
                crate::assignment::lemma_sum_by_owner::<T, (usize, usize)>(items, own, big_f, n);
                crate::assignment::lemma_sum_assignment::<T, (usize, usize)>(items, own, big_f, n);
                T::lemma_ring(
                    seq_sum::<T>(crate::assignment::party_sums::<T, (usize, usize)>(items, own, big_f, n)),
                    T::zero_spec(),
                    T::zero_spec(),
                );
                T::lemma_ring(
                    T::zero_spec(),
                    seq_sum::<T>(crate::assignment::party_sums::<T, (usize, usize)>(items, own, big_f, n)),
                    T::zero_spec(),
                );
                assert(ca.map_values(per_party) =~= spec_assignment.map_values(
                    |e: (PartyID, Seq<(usize, usize)>)| sum_of::<T, (usize, usize)>(e.1, big_f),
                ));
                lemma_dealt_distinct(shared_a@, n);
                lemma_dealt_distinct(shared_b@, n);
                lemma_k_parties_cover(shared_a@, subs, k);
                lemma_k_parties_cover(shared_b@, subs, k);
                let f = pair_product::<T>(va, vb);
                assert forall|t: int| 0 <= t < items.len() implies big_f(#[trigger] items[t]) == f(items[t]) by {
                    let it = items[t];
                    let p = own(it);
                    assert(pred(p as PartyID, it));
                    lemma_pos_dealt(shared_a@, n, p as PartyID);
                    lemma_pos_dealt(shared_b@, n, p as PartyID);
                    assert(crate::sharing::replicated::holds(shared_a@[p - 1], subs, va));
                    assert(crate::sharing::replicated::holds(shared_b@[p - 1], subs, vb));
                    assert(shared_a@[p - 1].id == p);
                    assert(shared_b@[p - 1].id == p);
                }
                crate::assignment::lemma_sum_of_ext::<T, (usize, usize)>(items, big_f, f);
                crate::assignment::lemma_cross_sum::<T>(va, vb, m);
                assert(va.take(m as int) =~= va);
                assert forall|va2: Seq<T::Share>, vb2: Seq<T::Share>, vc: Seq<T::Share>|
                    represents(shared_a@, subs, va2) && represents(shared_b@, subs, vb2) && represents(
                        shared_c@,
                        subs,
                        vc,
                    ) implies seq_sum::<T>(vc) == T::mul_spec(seq_sum::<T>(va2), seq_sum::<T>(vb2)) by {
                    lemma_represents_unique(shared_a@, subs, va, va2);
                    lemma_represents_unique(shared_b@, subs, vb, vb2);
                }
            }
        }
        Ok(shared_c)
    }

    /// Computes the mpc multiplication of variable `name_a` and variable `name_b`, and stores the result as variable `out_name`
    pub fn mult(&mut self, name_a: &String, name_b: &String, out_name: &String) -> (r: Result<
        (),
        Error,
    >)
        requires
            old(self).wf(),
            2 * (old(self).threshold() - 1) <= usize::MAX,
        ensures
            final(self).wf(),
            final(self).threshold() == old(self).threshold(),
            final(self).num_parties() == old(self).num_parties(),
            ({
                let (k, n) = (old(self).threshold() as int, old(self).num_parties() as int);
                &&& (2 * (k - 1) >= n <==> r == Err::<(), Error>(Error::NoLocalCrossterm))
                &&& (2 * (k - 1) < n && n - 2 * (k - 1) > 1 <==> r == Err::<(), Error>(
                    Error::NoPrivateCrossterm,
                ))
                &&& (n - 2 * (k - 1) == 1 && (old(self).var(name_a@) is None || old(self).var(
                    name_b@,
                ) is None) <==> r == Err::<(), Error>(Error::UnknownVariable))
            }),
            r matches Err(e) ==> e == Error::NoLocalCrossterm || e == Error::NoPrivateCrossterm || e
                == Error::UnknownVariable,
            r is Err ==> forall|nm: Seq<char>| final(self).var(nm) == old(self).var(nm),
            r is Ok ==> {
                let (k, n) = (old(self).threshold() as nat, old(self).num_parties() as nat);
                let (a, b) = (old(self).var(name_a@)->0, old(self).var(name_b@)->0);
                &&& final(self).var(out_name@) matches Some(c) && opened(c, k, n)
                    == Arithmetic::mul_spec(opened(a, k, n), opened(b, k, n))
                &&& forall|nm: Seq<char>| nm != out_name@ ==> final(self).var(nm) == old(self).var(nm)
            },
            r is Ok ==> {
                // The product is reshared from the subsets' generators, then corrected.
                let (k, n) = (old(self).threshold() as nat, old(self).num_parties() as nat);
                let subs = subsets_spec(k, n);
                let st = reshare_all::<Arithmetic>(
                    (zero_map::<Arithmetic>(subs, n), old(self).generators(), Seq::<(usize, ArithShare)>::empty()),
                    subs,
                    n,
                    crossterm_senders::<Arithmetic>(
                        old(self).var(name_a@)->0,
                        old(self).var(name_b@)->0,
                        k,
                        n,
                    ),
                );
                &&& share_map(final(self).var(out_name@)->0) == corrected_map::<Arithmetic>(st.0, subs, st.2, n)
                &&& final(self).generators() == st.1
            },
    {
        if 2 * (self.k - 1) >= self.n {
            return Err(Error::NoLocalCrossterm);
        }
        if self.n - 2 * (self.k - 1) > 1 {
            return Err(Error::NoPrivateCrossterm);
        }
        // Since n - 2(k - 1) = 1, all crossterms can be computed locally by some party, and each party has a crossterm only they can compute
        // Additionally, this implies n should be odd
        let shared_a = self.get_shares(name_a)?;
        let shared_b = self.get_shares(name_b)?;
        let ghost (k, n) = (self.k as nat, self.n as nat);
        let ghost subs = subsets_spec(k, n);
        let ghost (a, b) = (self.var(name_a@)->0, self.var(name_b@)->0);
        proof {
            self.lemma_var_valid(name_a@);
            self.lemma_var_valid(name_b@);
            lemma_same_shares::<Arithmetic>(shared_a@, a, subs);
            lemma_same_shares::<Arithmetic>(shared_b@, b, subs);
        }
        let shared_c = self.mult_greedy::<Arithmetic>(&shared_a, &shared_b)?;
        proof {
            let va = choose|v: Seq<ArithShare>| represents(a, subs, v);
            let vb = choose|v: Seq<ArithShare>| represents(b, subs, v);
            let vc = choose|v: Seq<ArithShare>| represents(shared_c@, subs, v);
            assert(represents(shared_a@, subs, va));
            assert(represents(shared_b@, subs, vb));
            lemma_dealt_reconstructs::<Arithmetic>(a, k, n, va);
            lemma_dealt_reconstructs::<Arithmetic>(b, k, n, vb);
            lemma_dealt_reconstructs::<Arithmetic>(shared_c@, k, n, vc);
            lemma_same_senders::<Arithmetic>(shared_a@, a, shared_b@, b, k, n);
        }
        self.add_var(out_name, shared_c)?;
        Ok(())
    }

    /// Opens the MSB of an variable `name_a` using a given bit adder function
    /// - Optimized number of bit adder calls by having parties sum up their local shares
    pub fn get_msb(&mut self, name: &String, bit_adder: BitAdder) -> (r: Result<bool, Error>)
        requires
            old(self).wf(),
            2 * (old(self).threshold() - 1) <= old(self).num_parties(),
        ensures
            final(self).wf(),
            final(self).threshold() == old(self).threshold(),
            final(self).num_parties() == old(self).num_parties(),
            forall|nm: Seq<char>| final(self).var(nm) == old(self).var(nm),
            ({
                let (k, n) = (old(self).threshold() as int, old(self).num_parties() as int);
                &&& (n - 2 * (k - 1) != 1 <==> r == Err::<bool, Error>(Error::UnsupportedParameters))
                &&& (n - 2 * (k - 1) == 1 && old(self).var(name@) is None <==> r == Err::<bool, Error>(
                    Error::UnknownVariable,
                ))
            }),
            r matches Err(e) ==> e == Error::UnsupportedParameters || e == Error::UnknownVariable || (e
                == Error::Rng && subsets_spec(old(self).threshold() as nat, old(self).num_parties() as nat).len()
                != 1),
            final(self).os_failures() >= old(self).os_failures(),
            r == Err::<bool, Error>(Error::Rng) ==> final(self).os_failures() > old(self).os_failures(),
            old(self).num_parties() - 2 * (old(self).threshold() - 1) == 1 && old(self).var(name@) is Some
                && final(self).os_failures() == old(self).os_failures() ==> r is Ok,
            r is Ok ==> final(self).n_and() == old(self).n_and() + (subset_assignment(
                old(self).threshold() as nat,
                old(self).num_parties() as nat,
            ).len() - 1) * adder_ands(bit_adder),
            r matches Ok(msb) ==> msb == bit_of(
                opened(
                    old(self).var(name@)->0,
                    old(self).threshold() as nat,
                    old(self).num_parties() as nat,
                ) as nat,
                15,
            ),
    {
        if self.n - 2 * (self.k - 1) != 1 {
            return Err(Error::UnsupportedParameters);
        }
        let sharing = self.get_shares(name)?;
        let ghost k = self.k as nat;
        let ghost n = self.n as nat;
        let ghost subs = subsets_spec(k, n);
        let ghost m = subs.len();
        let ghost old_params = self.params();
        let ghost sh = self.var(name@)->0;
        proof {
            self.lemma_var_valid(name@);
            lemma_same_shares::<Arithmetic>(sharing@, sh, subs);
        }
        let ghost v = choose|v: Seq<ArithShare>| represents(sharing@, subs, v);
        proof {
            lemma_dealt_reconstructs::<Arithmetic>(sh, k, n, v);
            lemma_combos_shape(parties_seq(n), (k - 1) as nat);
        }
        // Optimize MSB extraction by having parties sum up their local shares
        let subsets = ArithRepSharing::all_subsets(self.k, self.n, None);
        let m_exec = subsets.len();
        proof {
            assert(m_exec == subsets@.len());
            assert(subsets.deep_view().len() == subsets@.len());
            assert(subsets.deep_view() == subs);
        }
        let mut items: Vec<usize> = Vec::new();
        let mut j: usize = 0;
        while j < subsets.len()
            invariant
                j <= subsets.len(),
                items@ == Seq::new(j as nat, |a: int| a as usize),
            decreases subsets.len() - j,
        {
            items.push(j);
            j = j + 1;
            proof {
                assert(items@ =~= Seq::new(j as nat, |a: int| a as usize));
            }
        }
        let ghost item_seq = items@;
        let ghost pred = |id: PartyID, j: usize| j < m && !subs[j as int].contains(id);
        let gsubs: Ghost<Seq<Seq<PartyID>>> = Ghost(subs);
        let gv: Ghost<Seq<ArithShare>> = Ghost(v);
        let gn: Ghost<nat> = Ghost(n);
        let can_take = |id: PartyID, j: usize| -> (b: bool)
            requires
                j < subsets.len(),
                subsets.deep_view() == gsubs@,
            ensures
                b == (j < gsubs@.len() && !gsubs@[j as int].contains(id)),
            {
                proof {
                    assert(subsets[j as int].deep_view() =~= subsets[j as int]@);
                }
                !crate::sharing::replicated::contains_party(&subsets[j], id)
            };
        let ghost own = |it: usize| owner(pred, n, it);
        let assignment = self.greedy_assign(items, can_take, Ghost(pred));
        let ghost spec_assignment = assignment_spec(item_seq, own, n);
        let ghost f = |j: usize| v[j as int];
        proof {
            lemma_assignment_entries(item_seq, own, n);
            assert(assignment@.len() == spec_assignment.len());
            assert forall|e: int| 0 <= e < assignment.len() implies subset_entry_ok(
                #[trigger] assignment@[e],
                subs,
                n,
            ) by {
                assert((assignment@[e].0, assignment@[e].1@) == spec_assignment[e]);
                let p = assignment@[e].0;
                crate::assignment::lemma_owned_by(item_seq, own, p as nat);
                assert forall|t: int| 0 <= t < assignment@[e].1.len() implies {
                    let it = #[trigger] assignment@[e].1@[t];
                    &&& it < subs.len()
                    &&& !subs[it as int].contains(assignment@[e].0)
                } by {
                    let it = assignment@[e].1@[t];
                    assert(own(it) == p);
                    crate::assignment::lemma_first_taker(pred, it, 1, n);
                    assert(pred(p, it));
                }
            }
        }
        let compute = |id: PartyID, j: usize| -> (x: Result<ArithShare, Error>)
            requires
                1 <= id <= gn@,
                j < gsubs@.len(),
                !gsubs@[j as int].contains(id),
                dealt_to_all(sharing@, gn@),
                represents(sharing@, gsubs@, gv@),
            ensures
                x == Ok::<ArithShare, Error>(gv@[j as int]),
            {
                let i = find_party(&sharing, id);
                proof {
                    lemma_find_dealt(sharing@, gn@, id, i);
                }
                let i = match i {
                    Some(i) => i,
                    None => {
                        return Err(Error::MissingShare);
                    },
                };
                match sharing[i].shares[j] {
                    Some(x) => Ok(x),
                    None => Err(Error::MissingShare),
                }
            };
        proof {
            assert forall|e: int, t: int|
                0 <= e < assignment.len() && 0 <= t < assignment@[e].1.len() implies 1 <= assignment@[e].0
                <= n && (#[trigger] assignment@[e].1@[t]) < m && !subs[assignment@[e].1@[t] as int].contains(
                assignment@[e].0,
            ) by {
                assert(subset_entry_ok(assignment@[e], subs, n));
            }
        }
        let ghost g = |id: PartyID, j: usize| Ok::<ArithShare, Error>(v[j as int]);
        let computed = self.compute_assignment::<Arithmetic, _, _>(&assignment, compute, Ghost(g))?;
        let ghost secrets = computed@.map_values(|e: (PartyID, ArithShare)| e.1);
        proof {
            assert forall|e: int| 0 <= e < computed.len() implies (#[trigger] computed@[e]).1 == sum_of::<
                Arithmetic,
                usize,
            >(assignment@[e].1@, f) by {
                crate::assignment::lemma_sum_of_ext::<Arithmetic, usize>(
                    assignment@[e].1@,
                    |x: usize| g(assignment@[e].0, x)->Ok_0,
                    f,
                );
            }
            // Every subset has an owner, so the parties' sums add up to the secret.
            assert forall|t: int| 0 <= t < item_seq.len() implies own(#[trigger] item_seq[t]) != 0 && own(item_seq[t]) <= n by {
                let it = item_seq[t];
                let x = crate::sharing::replicated::lemma_outside_both(subs[it as int], subs[it as int], k, n);
                assert(pred(x, it));
                crate::assignment::lemma_first_taker(pred, it, 1, n);
            }
            crate::assignment::lemma_owned_by_none(item_seq, own, 0);
            assert(owned_by(item_seq, own, 0).map_values(f) =~= Seq::<ArithShare>::empty());
            crate::assignment::lemma_sum_by_owner::<Arithmetic, usize>(item_seq, own, f, n);
            crate::assignment::lemma_sum_assignment::<Arithmetic, usize>(item_seq, own, f, n);
            Arithmetic::lemma_ring(
                seq_sum::<Arithmetic>(crate::assignment::party_sums::<Arithmetic, usize>(item_seq, own, f, n)),
                0,
                0,
            );
            Arithmetic::lemma_ring(
                0,
                seq_sum::<Arithmetic>(crate::assignment::party_sums::<Arithmetic, usize>(item_seq, own, f, n)),
                0,
            );
            assert(item_seq.map_values(f) =~= v);
            assert(secrets =~= spec_assignment.map_values(
                |e: (PartyID, Seq<usize>)| sum_of::<Arithmetic, usize>(e.1, f),
            ));
            assert(seq_sum::<Arithmetic>(secrets) == seq_sum::<Arithmetic>(v));
            // Some party owns a subset, so there is something to add up.
            crate::sharing::subsets::lemma_subsets_nonempty(k, n);
            crate::assignment::lemma_owned_by_contains(item_seq, own, 0);
            crate::assignment::lemma_assignment_has(item_seq, own, n, own(item_seq[0]));
            assert(computed.len() > 0);
        }
        // Each party locally turns their arithmetic sum (secret) into a vector of RSS shared bits
        // We need sum of all arithmetic shares, stored in `bit_sharings`
        let mut bit_sharings: Vec<Vec<BinaryShares>> = Vec::new();
        let mut e: usize = 0;
        while e < computed.len()
            invariant
                e <= computed.len(),
                computed.len() == assignment.len(),
                self.inv(),
                self.params() == old_params,
                old_params == old(self).params(),
                self.k == k,
                self.n == n,
                k == old(self).k,
                n == old(self).n,
                n - 2 * (k - 1) == 1,
                old(self).var(name@) is Some,
                2 * (k - 1) < n,
                subs == subsets_spec(k, n),
                secrets == computed@.map_values(|e: (PartyID, ArithShare)| e.1),
                forall|e: int| 0 <= e < computed.len() ==> (#[trigger] computed@[e]).0 == assignment@[e].0,
                forall|e: int| 0 <= e < assignment.len() ==> subset_entry_ok(#[trigger] assignment@[e], subs, n),
                bit_sharings.len() == e,
                subs.len() <= usize::MAX,
                self.n_and() == old(self).n_and(),
                self.os_failures() >= old(self).os_failures(),
                forall|d: int|
                    0 <= d < e ==> bit_vector_of(#[trigger] bit_sharings@[d]@, old_params, secrets[d]),
            decreases computed.len() - e,
        {
            let (sender_id, secret) = computed[e];
            proof {
                assert(subset_entry_ok(assignment@[e as int], subs, n));
                let it = assignment@[e as int].1@[0];
                assert(it < subs.len() && !subs[it as int].contains(sender_id));
            }
            let bits = Arithmetic::to_binary(secret);
            let mut bit_shares: Vec<BinaryShares> = Vec::new();
            let mut t: usize = 0;
            while t < bits.len()
                invariant
                    t <= bits.len() == 16,
                    bits@ == crate::sharing::bits::low_bits(secret as nat, 16),
                    self.inv(),
                    self.params() == old_params,
                    old_params == old(self).params(),
                    self.k == k,
                    self.n == n,
                    k == old(self).k,
                    n == old(self).n,
                    n - 2 * (k - 1) == 1,
                    old(self).var(name@) is Some,
                    subs == subsets_spec(k, n),
                    exists|j: int| 0 <= j < subs.len() && !(#[trigger] subs[j]).contains(sender_id),
                    subs.len() <= usize::MAX,
                    self.n_and() == old(self).n_and(),
                    self.os_failures() >= old(self).os_failures(),
                    bit_shares.len() == t,
                    forall|d: int|
                        0 <= d < t ==> <MPC as BitOps>::is_bit(old_params, #[trigger] bit_shares@[d]),
                    forall|d: int|
                        0 <= d < t ==> <MPC as BitOps>::bit_value(old_params, #[trigger] bit_shares@[d])
                            == bits@[d],
                decreases bits.len() - t,
            {
                let bit = bits[t];
                let mut shared_bit = <Self as BitOps>::zero(self)?;
                let ghost v0 = choose|v: Seq<bool>| represents(shared_bit@, subs, v);
                proof {
                    lemma_dealt_reconstructs::<Binary>(shared_bit@, k, n, v0);
                    let w = choose|j: int| 0 <= j < subs.len() && !(#[trigger] subs[j]).contains(sender_id);
                    lemma_avoiding_positions(subs, sender_id, subs.len());
                    assert(avoiding_positions(subs, sender_id, subs.len()).contains(w as usize));
                }
                let mut communication_set: Vec<(usize, bool)> = Vec::new();
                proof {
                    assert(communication_set@.map_values(|e: (usize, bool)| e.1) =~= Seq::<bool>::empty());
                }
                self.prepare_party_reshare::<Binary>(
                    sender_id,
                    bit,
                    &mut shared_bit,
                    &mut communication_set,
                    Ghost(v0),
                )?;
                let ghost v1 = choose|vals2: Seq<bool>|
                    represents(shared_bit@, subs, vals2) && Binary::add_spec(
                        seq_sum::<Binary>(vals2),
                        pending::<Binary>(communication_set@),
                    ) == Binary::add_spec(Binary::add_spec(seq_sum::<Binary>(v0), false), bit);
                let ghost comm = communication_set@;
                self.apply_reshare_corrections::<Binary>(&mut shared_bit, communication_set, Ghost(v1))?;
                proof {
                    let v2 = choose|vals2: Seq<bool>|
                        represents(shared_bit@, subs, vals2) && seq_sum::<Binary>(vals2) == Binary::add_spec(
                            seq_sum::<Binary>(v1),
                            pending::<Binary>(comm),
                        );
                    lemma_dealt_reconstructs::<Binary>(shared_bit@, k, n, v2);
                }
                bit_shares.push(shared_bit);
                t = t + 1;
            }
            proof {
                assert(crate::sharing::bitadder::values::<MPC>(old_params, bit_shares@) =~= bits@);
            }
            bit_sharings.push(bit_shares);
            e = e + 1;
        }
        // Reduce all bit sharings to a final sum bit sharing using a bit adder
        if bit_sharings.len() == 0 {
            return Err(Error::Empty);
        }
        let ghost all = bit_sharings@;
        let mut sum = bit_sharings.remove(0);
        proof {
            assert(spec_assignment == subset_assignment(k, n));
            assert(0 * adder_ands(bit_adder) == 0);
        }
        proof {
            assert(bit_sharings@ =~= all.subrange(1, all.len() as int));
            assert(bit_vector_of(all[0]@, old_params, secrets[0]));
            crate::sharing::lemma_sum_push::<Arithmetic>(secrets.take(0), secrets[0]);
            assert(secrets.take(0) =~= Seq::<ArithShare>::empty());
            assert(secrets.take(1) =~= secrets.take(0).push(secrets[0]));
            Arithmetic::lemma_ring(secrets[0], 0, 0);
            crate::sharing::bits::lemma_low_bits_value(secrets[0] as nat, 16);
            vstd::arithmetic::power2::lemma2_to64();
            vstd::arithmetic::div_mod::lemma_small_mod(secrets[0] as nat, 0x10000);
        }
        let mut e: usize = 0;
        while e < bit_sharings.len()
            invariant
                self.n_and() == old(self).n_and() + e * adder_ands(bit_adder),
                self.os_failures() >= old(self).os_failures(),
                e <= bit_sharings.len(),
                bit_sharings@ == all.subrange(1, all.len() as int),
                all.len() == secrets.len(),
                all.len() >= 1,
                forall|d: int| 0 <= d < all.len() ==> bit_vector_of(#[trigger] all[d]@, old_params, secrets[d]),
                self.inv(),
                self.params() == old_params,
                old_params == old(self).params(),
                self.k == k,
                self.n == n,
                k == old(self).k,
                n == old(self).n,
                n - 2 * (k - 1) == 1,
                old(self).var(name@) is Some,
                sum.len() == 16,
                crate::sharing::bitadder::all_bits::<MPC>(old_params, sum@),
                crate::sharing::bits::bits_value(crate::sharing::bitadder::values::<MPC>(old_params, sum@))
                    == seq_sum::<Arithmetic>(secrets.take(e + 1)),
            decreases bit_sharings.len() - e,
        {
            proof {
                assert(bit_sharings@[e as int] == all[e + 1]);
                assert(bit_vector_of(all[e + 1]@, old_params, secrets[e + 1]));
                assert(bit_sharings@[e as int]@ == all[e + 1]@);
            }
            let next = match bit_adder {
                BitAdder::FullAdder => full_adder(self, &sum, &bit_sharings[e]),
                BitAdder::ParallelPrefix => parallel_prefix(self, &sum, &bit_sharings[e]),
            };
            let next = next?;
            proof {
                let va = crate::sharing::bitadder::values::<MPC>(old_params, sum@);
                let vb = crate::sharing::bitadder::values::<MPC>(old_params, bit_sharings@[e as int]@);
                crate::sharing::bitadder::lemma_add_bits_value(va, vb);
                crate::sharing::bits::lemma_low_bits_value(secrets[e + 1] as nat, 16);
                vstd::arithmetic::power2::lemma2_to64();
                vstd::arithmetic::div_mod::lemma_small_mod(secrets[e + 1] as nat, 0x10000);
                assert(secrets.take(e + 2) =~= secrets.take(e + 1).push(secrets[e + 1]));
                crate::sharing::lemma_sum_push::<Arithmetic>(secrets.take(e + 1), secrets[e + 1]);
            }
            proof {
                let per = adder_ands(bit_adder);
                assert((e + 1) * per == e * per + per) by (nonlinear_arith);
            }
            sum = next;
            e = e + 1;
        }
        proof {
            assert(secrets.take(e + 1) =~= secrets);
        }
        if sum.len() == 0 {
            return Err(Error::Empty);
        }
        let last = &sum[sum.len() - 1];
        // Extract the MSB of the final sum bit sharing
        let ghost vals = crate::sharing::bitadder::values::<MPC>(old_params, sum@);
        proof {
            crate::sharing::bits::lemma_bits_of_value(vals);
            assert(<MPC as BitOps>::is_bit(old_params, sum@[15]));
            let vl = choose|v: Seq<bool>| represents(last@, subs, v);
            lemma_dealt_reconstructs::<Binary>(last@, k, n, vl);
        }
        let msb = BitRepSharing::reconstruct(last, self.k, self.n);
        Ok(msb)
    }

    /// Returns the range of all parties
    pub fn parties(&self) -> (r: core::ops::Range<usize>)
        requires
            self.num_parties() < usize::MAX,
        ensures
            r.start == 1,
            r.end == self.num_parties() + 1,
    {
        1..self.n + 1
    }
}

impl BitOps for MPC {
    type Bit = BinaryShares;

    type Params = (usize, usize, Seq<(String, ArithmeticShares)>);

    closed spec fn params(&self) -> (usize, usize, Seq<(String, ArithmeticShares)>) {
        (self.k, self.n, self.shared_vars@)
    }

    closed spec fn inv(&self) -> bool {
        &&& self.wf()
        &&& 2 * (self.k - 1) < self.n
    }

    closed spec fn is_bit(p: (usize, usize, Seq<(String, ArithmeticShares)>), b: BinaryShares) -> bool {
        valid_sharing(b@, p.0 as nat, p.1 as nat)
    }

    closed spec fn bit_value(p: (usize, usize, Seq<(String, ArithmeticShares)>), b: BinaryShares) -> bool {
        reconstructed::<Binary>(b@, subsets_spec(p.0 as nat, p.1 as nat))
    }

    open spec fn op_error(p: (usize, usize, Seq<(String, ArithmeticShares)>), e: Error) -> bool {
        e == Error::Rng && subsets_spec(p.0 as nat, p.1 as nat).len() != 1
    }

    closed spec fn n_and(&self) -> nat {
        self.ands@
    }

    closed spec fn n_xor(&self) -> nat {
        self.xors@
    }

    closed spec fn n_zero(&self) -> nat {
        self.zeros@
    }

    closed spec fn failures(&self) -> nat {
        self.rng.failures()
    }

    fn and(&mut self, a: &BinaryShares, b: &BinaryShares) -> (r: Result<BinaryShares, Error>) {
        let ghost (k, n) = (self.k as nat, self.n as nat);
        let r = self.mult_greedy::<Binary>(a, b);
        proof {
            self.ands@ = self.ands@ + 1;
        }
        proof {
            if r is Ok {
                let c = r->Ok_0;
                let subs = subsets_spec(k, n);
                let va = choose|v: Seq<bool>| represents(a@, subs, v);
                let vb = choose|v: Seq<bool>| represents(b@, subs, v);
                let vc = choose|v: Seq<bool>| represents(c@, subs, v);
                lemma_dealt_reconstructs::<Binary>(a@, k, n, va);
                lemma_dealt_reconstructs::<Binary>(b@, k, n, vb);
                lemma_dealt_reconstructs::<Binary>(c@, k, n, vc);
            }
        }
        r
    }

    fn xor(&mut self, a: &BinaryShares, b: &BinaryShares) -> (r: Result<BinaryShares, Error>) {
        let ghost (k, n) = (self.k as nat, self.n as nat);
        let r = self.add_linear::<Binary>(a, b);
        proof {
            self.xors@ = self.xors@ + 1;
        }
        proof {
            if r is Ok {
                let c = r->Ok_0;
                let subs = subsets_spec(k, n);
                let va = choose|v: Seq<bool>| represents(a@, subs, v);
                let vb = choose|v: Seq<bool>| represents(b@, subs, v);
                lemma_dealt_reconstructs::<Binary>(a@, k, n, va);
                lemma_dealt_reconstructs::<Binary>(b@, k, n, vb);
                lemma_dealt_reconstructs::<Binary>(c@, k, n, add_pointwise::<Binary>(va, vb));
                lemma_sum_pointwise::<Binary>(va, vb);
            }
        }
        r
    }

    fn zero(&mut self) -> (r: Result<BinaryShares, Error>) {
        let ghost (k, n) = (self.k as nat, self.n as nat);
        proof {
            crate::sharing::subsets::lemma_subsets_nonempty(k, n);
        }
        let r = BitRepSharing::share_from(&mut self.rng, Binary::zero(), self.k, self.n);
        proof {
            self.zeros@ = self.zeros@ + 1;
        }
        proof {
            if r is Ok {
                let c = r->Ok_0;
                let subs = subsets_spec(k, n);
                let v = choose|v: Seq<bool>| represents(c@, subs, v) && seq_sum::<Binary>(v) == false;
                lemma_dealt_reconstructs::<Binary>(c@, k, n, v);
            }
        }
        r
    }
}

} // verus!
