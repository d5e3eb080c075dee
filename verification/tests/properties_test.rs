use k_of_n_rss_mpc::error::Error;
use k_of_n_rss_mpc::mpc::MPC;
use k_of_n_rss_mpc::prng::PRNG;
use k_of_n_rss_mpc::sharing::binary::Binary;
use k_of_n_rss_mpc::sharing::helper::n_choose_k;
use k_of_n_rss_mpc::sharing::{AdditiveSharing, Arithmetic, Sharing};
use k_of_n_rss_mpc::{full, ArithRepSharing, BitAdder, PartyShares, PlainBits};
use rand::rngs::SysRng;

#[test]
fn n_choose_k_values() {
    assert_eq!(n_choose_k(5, 2), 10);
    assert_eq!(n_choose_k(7, 3), 35);
    assert_eq!(n_choose_k(3, 0), 1);
    assert_eq!(n_choose_k(4, 4), 1);
    assert_eq!(n_choose_k(3, 5), 0);
}

#[test]
fn all_subsets_are_the_lexicographic_combinations() {
    let subsets = ArithRepSharing::all_subsets(3, 4, None);
    assert_eq!(
        subsets,
        vec![vec![1, 2], vec![1, 3], vec![1, 4], vec![2, 3], vec![2, 4], vec![3, 4]]
    );
    let without_two = ArithRepSharing::all_subsets(3, 4, Some(2));
    assert_eq!(without_two, vec![vec![1, 3], vec![1, 4], vec![3, 4]]);
    // k = 1: the only subset is the empty one
    assert_eq!(ArithRepSharing::all_subsets(1, 3, None), vec![Vec::<usize>::new()]);
    // more parties per subset than there are parties: no subset
    assert!(ArithRepSharing::all_subsets(5, 3, None).is_empty());
}

#[test]
fn subset_count_is_n_choose_k_minus_one() {
    for (k, n) in [(2usize, 3usize), (3, 5), (4, 7), (2, 6)] {
        assert_eq!(ArithRepSharing::all_subsets(k, n, None).len(), n_choose_k(n, k - 1));
    }
}

#[test]
fn to_binary_and_back_exact_values() {
    let bits = Arithmetic::to_binary(5);
    assert_eq!(bits.len(), 16);
    assert_eq!(&bits[..4], &[true, false, true, false]);
    assert!(bits[4..].iter().all(|b| !*b));
    assert_eq!(Binary::to_arithmetic(bits), 5);
    assert_eq!(*Arithmetic::to_binary(0x8000).last().unwrap(), true);
    assert_eq!(*Arithmetic::to_binary(0x7fff).last().unwrap(), false);
    for x in [0u16, 1, 2, 255, 256, 0x1234, 0xffff] {
        assert_eq!(Binary::to_arithmetic(Arithmetic::to_binary(x)), x);
    }
}

#[test]
fn ring_operations_wrap() {
    assert_eq!(Arithmetic::add(0xffff, 2), 1);
    assert_eq!(Arithmetic::sub(1, 2), 0xffff);
    assert_eq!(Arithmetic::mul(0x100, 0x100), 0);
    assert_eq!(Arithmetic::mul(3, 7), 21);
    assert_eq!(Binary::add(true, true), false);
    assert_eq!(Binary::mul(true, false), false);
    assert_eq!(Binary::sub(false, true), true);
}

#[test]
fn share_with_randoms_deals_by_subset() {
    // subsets of 2-of-3: [1], [2], [3]; values 1, 2, and 10 - 3 = 7
    let shares = ArithRepSharing::share_with_randoms(&vec![1, 2], 10, 2, 3).unwrap();
    assert_eq!(shares.len(), 3);
    assert_eq!(shares[0].id, 1);
    assert_eq!(shares[0].shares, vec![None, Some(2), Some(7)]);
    assert_eq!(shares[1].id, 2);
    assert_eq!(shares[1].shares, vec![Some(1), None, Some(7)]);
    assert_eq!(shares[2].id, 3);
    assert_eq!(shares[2].shares, vec![Some(1), Some(2), None]);
    for pair in [[0usize, 1], [0, 2], [1, 2]] {
        let some: Vec<PartyShares<u16>> = pair.iter().map(|i| shares[*i].clone()).collect();
        assert_eq!(ArithRepSharing::reconstruct(&some, 2, 3), 10);
    }
}

#[test]
fn share_without_subsets_fails() {
    let mut rng = SysRng;
    assert!(matches!(ArithRepSharing::share(&mut rng, 5, 5, 3), Err(Error::NoSubsets)));
    assert!(matches!(
        ArithRepSharing::share_with_randoms(&vec![], 5, 5, 3),
        Err(Error::NoSubsets)
    ));
}

#[test]
fn additive_sharing_round_trip() {
    let mut rng = SysRng;
    for n in 1..6 {
        let shares = AdditiveSharing::<Arithmetic>::share(&mut rng, 0xbeef, n).unwrap();
        assert_eq!(shares.len(), n);
        assert_eq!(AdditiveSharing::<Arithmetic>::reconstruct(&shares, n), 0xbeef);
        let bits = AdditiveSharing::<Binary>::share(&mut rng, true, n).unwrap();
        assert_eq!(AdditiveSharing::<Binary>::reconstruct(&bits, n), true);
    }
}

#[test]
fn full_adder_truth_table() {
    let mut ops = PlainBits::new();
    for a in [false, true] {
        for b in [false, true] {
            for c in [false, true] {
                let (s, carry) = full(&mut ops, &a, &b, &c).unwrap();
                let total = a as u8 + b as u8 + c as u8;
                assert_eq!(s, total % 2 == 1);
                assert_eq!(carry, total >= 2);
            }
        }
    }
}

#[test]
fn adders_add_modulo_two_to_the_sixteen() {
    let mut ops = PlainBits::new();
    for (a, b) in [(0xffffu16, 1u16), (0x8000, 0x8000), (1234, 4321), (0, 0)] {
        let ba = Arithmetic::to_binary(a);
        let bb = Arithmetic::to_binary(b);
        let ripple = k_of_n_rss_mpc::full_adder(&mut ops, &ba, &bb).unwrap();
        let prefix = k_of_n_rss_mpc::parallel_prefix(&mut ops, &ba, &bb).unwrap();
        assert_eq!(Binary::to_arithmetic(ripple), a.wrapping_add(b));
        assert_eq!(Binary::to_arithmetic(prefix), a.wrapping_add(b));
    }
    // prefix adder on vectors of other lengths
    let s = k_of_n_rss_mpc::parallel_prefix(&mut ops, &vec![true, true, true], &vec![true, false, false]).unwrap();
    assert_eq!(s, vec![false, false, false]);
    let s = k_of_n_rss_mpc::parallel_prefix(&mut ops, &vec![true], &vec![true]).unwrap();
    assert_eq!(s, vec![false]);
}

#[test]
fn open_after_new_secret_gives_the_secret() {
    let mut mpc = MPC::new(3, 5);
    mpc.set_prng().unwrap();
    let name = "x".to_string();
    for secret in [0u16, 1, 0x8000, 0xffff, 4242] {
        mpc.new_secret(&name, secret).unwrap();
        assert_eq!(mpc.open_var(&name).unwrap(), secret);
    }
}

#[test]
fn unknown_variables_are_reported() {
    let mut mpc = MPC::new(2, 3);
    mpc.set_prng().unwrap();
    let (a, b, c) = ("a".to_string(), "b".to_string(), "c".to_string());
    assert!(matches!(mpc.open_var(&a), Err(Error::UnknownVariable)));
    assert!(matches!(mpc.get_shares(&a), Err(Error::UnknownVariable)));
    mpc.new_secret(&a, 7).unwrap();
    assert!(matches!(mpc.add(&a, &b, &c), Err(Error::UnknownVariable)));
    assert!(matches!(mpc.mult(&b, &a, &c), Err(Error::UnknownVariable)));
    assert!(matches!(mpc.get_msb(&b, BitAdder::FullAdder), Err(Error::UnknownVariable)));
    assert!(matches!(mpc.open_var(&c), Err(Error::UnknownVariable)));
}

#[test]
fn delete_var_forgets_only_that_variable() {
    let mut mpc = MPC::new(2, 3);
    mpc.set_prng().unwrap();
    let (a, b) = ("a".to_string(), "b".to_string());
    mpc.new_secret(&a, 11).unwrap();
    mpc.new_secret(&b, 22).unwrap();
    mpc.delete_var(&a).unwrap();
    assert!(matches!(mpc.open_var(&a), Err(Error::UnknownVariable)));
    assert_eq!(mpc.open_var(&b).unwrap(), 22);
    mpc.delete_var(&a).unwrap();
}

#[test]
fn shares_of_a_variable_reconstruct_to_it() {
    let mut mpc = MPC::new(3, 5);
    mpc.set_prng().unwrap();
    let a = "a".to_string();
    mpc.new_secret(&a, 0x1357).unwrap();
    let shares = mpc.get_shares(&a).unwrap();
    assert_eq!(shares.len(), 5);
    assert_eq!(ArithRepSharing::reconstruct(&shares, 3, 5), 0x1357);
    let first_three: Vec<PartyShares<u16>> = shares[2..].to_vec();
    assert_eq!(ArithRepSharing::reconstruct(&first_three, 3, 5), 0x1357);
}

#[test]
fn add_and_mult_exact_values() {
    let mut mpc = MPC::new(2, 3);
    mpc.set_prng().unwrap();
    let (a, b, c, d) = ("a".to_string(), "b".to_string(), "c".to_string(), "d".to_string());
    mpc.new_secret(&a, 300).unwrap();
    mpc.new_secret(&b, 0xff00).unwrap();
    mpc.add(&a, &b, &c).unwrap();
    assert_eq!(mpc.open_var(&c).unwrap(), 300u16.wrapping_add(0xff00));
    mpc.mult(&a, &b, &d).unwrap();
    assert_eq!(mpc.open_var(&d).unwrap(), 300u16.wrapping_mul(0xff00));
    mpc.mult(&d, &d, &d).unwrap();
    let p = 300u16.wrapping_mul(0xff00);
    assert_eq!(mpc.open_var(&d).unwrap(), p.wrapping_mul(p));
}

#[test]
fn mult_refuses_unsupported_thresholds() {
    let (a, c) = ("a".to_string(), "c".to_string());
    // 2(k - 1) >= n: some crossterm no party can compute
    let mut mpc = MPC::new(3, 4);
    mpc.set_prng().unwrap();
    mpc.new_secret(&a, 1).unwrap();
    assert!(matches!(mpc.mult(&a, &a, &c), Err(Error::NoLocalCrossterm)));
    // n - 2(k - 1) > 1: no crossterm only one party can compute
    let mut mpc = MPC::new(2, 4);
    mpc.set_prng().unwrap();
    mpc.new_secret(&a, 1).unwrap();
    assert!(matches!(mpc.mult(&a, &a, &c), Err(Error::NoPrivateCrossterm)));
    assert!(matches!(mpc.get_msb(&a, BitAdder::ParallelPrefix), Err(Error::UnsupportedParameters)));
}

#[test]
fn msb_exact_values() {
    let mut mpc = MPC::new(2, 3);
    mpc.set_prng().unwrap();
    let a = "a".to_string();
    for (x, msb) in [(0x8000u16, true), (0x7fff, false), (0, false), (0xffff, true)] {
        mpc.new_secret(&a, x).unwrap();
        assert_eq!(mpc.get_msb(&a, BitAdder::FullAdder).unwrap(), msb);
        assert_eq!(mpc.get_msb(&a, BitAdder::ParallelPrefix).unwrap(), msb);
        assert_eq!(mpc.open_var(&a).unwrap(), x);
    }
}

#[test]
fn crossterm_assignment_covers_every_pair() {
    let mpc = MPC::new(3, 5);
    let crossterms = mpc.all_crossterms();
    // C(5, 2) = 10 subsets, so 100 ordered pairs
    assert_eq!(crossterms.len(), 100);
    assert_eq!(crossterms[0], (0, 0));
    assert_eq!(crossterms[1], (0, 1));
    assert_eq!(crossterms[10], (1, 0));
    let assignment = mpc.assign_crossterms();
    let total: usize = assignment.iter().map(|(_, items)| items.len()).sum();
    assert_eq!(total, crossterms.len());
    let ids: Vec<usize> = assignment.iter().map(|(id, _)| *id).collect();
    assert_eq!(ids, vec![1, 2, 3, 4, 5]);
    // crossterm (0, 0) is subset [1, 2] twice: party 3 is the first outside it
    assert!(assignment[2].1.contains(&(0, 0)));
}

#[test]
fn parties_are_numbered_from_one() {
    let mpc = MPC::new(2, 3);
    assert_eq!(mpc.parties().collect::<Vec<usize>>(), vec![1, 2, 3]);
    assert_eq!(mpc.k, 2);
    assert_eq!(mpc.n, 3);
}

#[test]
fn prng_rejects_unknown_subsets_and_draws_for_known_ones() {
    let mut rng = SysRng;
    let mut prng = PRNG::new(2, 3);
    prng.new_seeds(&mut rng).unwrap();
    assert!(matches!(
        prng.from_seed::<Arithmetic>(&vec![1, 2]),
        Err(Error::SubsetNotFound)
    ));
    // the stream advances: sixteen draws are not all the same
    let draws: Vec<u16> = (0..16).map(|_| prng.from_seed::<Arithmetic>(&vec![2]).unwrap()).collect();
    assert!(draws.iter().any(|d| *d != draws[0]));
}

#[test]
fn fresh_generators_with_equal_seeds_agree() {
    let mut p1 = PRNG::new(3, 5);
    let mut p2 = PRNG::new(3, 5);
    let subset = vec![2, 4];
    for _ in 0..4 {
        let x = p1.from_seed::<Arithmetic>(&subset).unwrap();
        let y = p2.from_seed::<Arithmetic>(&subset).unwrap();
        assert_eq!(x, y);
    }
}

#[test]
fn additive_share_with_randoms_exact() {
    let shares = AdditiveSharing::<Arithmetic>::share_with_randoms(&vec![5, 0xffff], 3);
    assert_eq!(shares, vec![5, 0xffff, 3u16.wrapping_sub(4)]);
    let mut rng = SysRng;
    assert_eq!(AdditiveSharing::<Arithmetic>::share(&mut rng, 77, 1).unwrap(), vec![77]);
}

#[test]
fn one_subset_needs_no_draw() {
    let mut rng = SysRng;
    // k = 1: the single subset is the empty one, held by every party
    let shares = ArithRepSharing::share(&mut rng, 9, 1, 3).unwrap();
    for p in &shares {
        assert_eq!(p.shares, vec![Some(9)]);
    }
}

#[test]
fn prefix_adder_odd_length_example() {
    let mut ops = PlainBits::new();
    let s = k_of_n_rss_mpc::parallel_prefix(&mut ops, &vec![true, true, false], &vec![true, false, false])
        .unwrap();
    assert_eq!(s, vec![false, false, true]);
}

#[test]
fn one_party_cannot_tell_two_secrets_apart() {
    // 2-of-3: party 1 misses the value of subset [1]; moving the difference of
    // the secrets into that value leaves party 1's shares unchanged.
    let a = ArithRepSharing::share_with_randoms(&vec![1, 2], 10, 2, 3).unwrap();
    let b = ArithRepSharing::share_with_randoms(&vec![11, 2], 20, 2, 3).unwrap();
    assert_eq!(a[0].id, 1);
    assert_eq!(a[0].shares, b[0].shares);
    assert_ne!(a[1].shares, b[1].shares);
    assert_eq!(ArithRepSharing::reconstruct(&b, 2, 3), 20);
}

#[test]
fn one_party_scheme_never_draws_and_extracts_the_msb() {
    let mut mpc = MPC::new(1, 1);
    mpc.set_prng().unwrap();
    let a = "a".to_string();
    mpc.new_secret(&a, 0x8001).unwrap();
    assert_eq!(mpc.get_msb(&a, BitAdder::FullAdder).unwrap(), true);
    assert_eq!(mpc.get_msb(&a, BitAdder::ParallelPrefix).unwrap(), true);
    let b = "b".to_string();
    mpc.new_secret(&b, 3).unwrap();
    mpc.mult(&a, &b, &b).unwrap();
    assert_eq!(mpc.open_var(&b).unwrap(), 0x8001u16.wrapping_mul(3));
}
