//! Counting helpers.
use vstd::arithmetic::div_mod::*;
use vstd::arithmetic::mul::*;
use vstd::prelude::*;

verus! {

/// `n!`
pub open spec fn fact(n: nat) -> nat
    decreases n,
{
    if n == 0 {
        1
    } else {
        n * fact((n - 1) as nat)
    }
}

/// The binomial coefficient, by Pascal's rule.
pub open spec fn binom(n: nat, k: nat) -> nat
    decreases n,
{
    if k == 0 {
        1
    } else if n == 0 {
        0
    } else {
        binom((n - 1) as nat, (k - 1) as nat) + binom((n - 1) as nat, k)
    }
}

pub proof fn lemma_fact_pos(n: nat)
    ensures
        fact(n) >= 1,
    decreases n,
{
    if n > 0 {
        lemma_fact_pos((n - 1) as nat);
        lemma_mul_increases(n as int, fact((n - 1) as nat) as int);
    }
}

/// `n!` grows with `n`.
pub proof fn lemma_fact_monotone(m: nat, n: nat)
    requires
        m <= n,
    ensures
        fact(m) <= fact(n),
    decreases n,
{
    if m < n {
        lemma_fact_monotone(m, (n - 1) as nat);
        lemma_fact_pos((n - 1) as nat);
        lemma_mul_increases(n as int, fact((n - 1) as nat) as int);
    }
}

/// There are no `k`-subsets of an `n`-set when `k > n`.
pub proof fn lemma_binom_zero(n: nat, k: nat)
    requires
        k > n,
    ensures
        binom(n, k) == 0,
    decreases n,
{
    if n > 0 {
        lemma_binom_zero((n - 1) as nat, (k - 1) as nat);
        lemma_binom_zero((n - 1) as nat, k);
    }
}

/// There is one `n`-subset of an `n`-set.
pub proof fn lemma_binom_all(n: nat)
    ensures
        binom(n, n) == 1,
    decreases n,
{
    if n > 0 {
        lemma_binom_all((n - 1) as nat);
        lemma_binom_zero((n - 1) as nat, n);
    }
}

/// `binom(n, k) * k! * (n - k)! == n!`
pub proof fn lemma_binom_fact(n: nat, k: nat)
    requires
        k <= n,
    ensures
        binom(n, k) * (fact(k) * fact((n - k) as nat)) == fact(n),
    decreases n,
{
    if k == 0 {
        assert(fact(0) == 1);
        assert(binom(n, 0) == 1);
        assert(1 * (1 * fact(n)) == fact(n));
    } else if k == n {
        lemma_binom_all(n);
        assert(fact(0) == 1);
        assert((n - k) as nat == 0);
        assert(1 * (fact(n) * 1) == fact(n));
    } else {
        let n1 = (n - 1) as nat;
        lemma_binom_fact(n1, (k - 1) as nat);
        lemma_binom_fact(n1, k);
        let a = binom(n1, (k - 1) as nat);
        let b = binom(n1, k);
        let fk1 = fact((k - 1) as nat);
        let fnk1 = fact((n1 - k) as nat);
        let fn1 = fact(n1);
        assert(fact(k) == k * fk1);
        assert((n - k) as nat == ((n1 - k) as nat + 1) as nat);
        assert(fact((n - k) as nat) == (n - k) * fnk1);
        assert(binom(n, k) == a + b);
        assert(fact(n) == n * fn1);
        assert(((n1 - (k - 1)) as nat) == (n - k) as nat);
        assert(a * (fk1 * ((n - k) * fnk1)) == fn1);
        assert(b * ((k * fk1) * fnk1) == fn1);
        assert((a + b) * ((k * fk1) * ((n - k) * fnk1)) == n * fn1) by (nonlinear_arith)
            requires
                a * (fk1 * ((n - k) * fnk1)) == fn1,
                b * ((k * fk1) * fnk1) == fn1,
                k <= n,
        ;
        assert(binom(n, k) * (fact(k) * fact((n - k) as nat)) == (a + b) * ((k * fk1) * ((n - k) * fnk1)));
    }
}

/// `n!`
fn factorial(n: usize) -> (r: usize)
    requires
        fact(n as nat) <= usize::MAX,
    ensures
        r == fact(n as nat),
{
    let mut acc: usize = 1;
    let mut i: usize = 0;
    while i < n
        invariant
            i <= n,
            acc == fact(i as nat),
            fact(n as nat) <= usize::MAX,
        decreases n - i,
    {
        i = i + 1;
        proof {
            lemma_fact_monotone(i as nat, n as nat);
        }
        acc = i * acc;
    }
    acc
}

/// The number of `k`-subsets of an `n`-set, computed as `n! / (k! (n - k)!)`.
pub fn n_choose_k(n: usize, k: usize) -> (r: usize)
    requires
        fact(n as nat) <= usize::MAX,
    ensures
        r == binom(n as nat, k as nat),
        k <= n ==> r == fact(n as nat) / (fact(k as nat) * fact((n - k) as nat)),
{
    if k > n {
        proof {
            lemma_binom_zero(n as nat, k as nat);
        }
        return 0;
    }
    proof {
        lemma_binom_fact(n as nat, k as nat);
        lemma_fact_pos(n as nat);
        lemma_fact_pos(k as nat);
        lemma_fact_pos((n - k) as nat);
        lemma_mul_increases(fact(k as nat) as int, fact((n - k) as nat) as int);
        lemma_mul_increases(binom(n as nat, k as nat) as int, 1);
        lemma_fact_monotone(k as nat, n as nat);
        lemma_fact_monotone((n - k) as nat, n as nat);
        let d = fact(k as nat) * fact((n - k) as nat);
        lemma_mul_is_commutative(binom(n as nat, k as nat) as int, d as int);
        lemma_div_multiples_vanish(binom(n as nat, k as nat) as int, d as int);
        if binom(n as nat, k as nat) == 0 {
            assert(d * 0 == 0);
        } else {
            lemma_mul_increases(binom(n as nat, k as nat) as int, d as int);
        }
    }
    let fnk = factorial(n);
    let fk = factorial(k);
    let fr = factorial(n - k);
    fnk / (fk * fr)
}

} // verus!
