use itertools::Itertools;
use k_of_n_rss_mpc::error::Error;
use k_of_n_rss_mpc::sharing::binary::Binary;
use k_of_n_rss_mpc::sharing::Arithmetic;
use k_of_n_rss_mpc::sharing::Sharing;
use k_of_n_rss_mpc::{
    full_adder, parallel_prefix, ArithRepSharing, ArithShare, BitRepSharing, BitShare, PartyShares,
    PlainBits,
};
use rand::rngs::SysRng;

const TIMES: usize = 20;

#[test]
fn sharing_correctness_test() -> Result<(), Error> {
    let k = 3;
    let n = 5;
    let mut rng = SysRng;

    let secret_arith =
        Arithmetic::random_share(&mut rng).expect("Could not generate random arithmetic share");
    let arith_shares = ArithRepSharing::share(&mut rng, secret_arith, k, n)?;
    let secret_bit =
        Binary::random_share(&mut rng).expect("Could not generate random binary share");
    let binary_shares = BitRepSharing::share(&mut rng, secret_bit, k, n)?;

    let k_subsets: Vec<Vec<usize>> = (1..n + 1).combinations(k).collect();
    for k_subset in k_subsets {
        let k_arith_shares: Vec<PartyShares<ArithShare>> = arith_shares
            .iter()
            .filter(|x| k_subset.contains(&x.id))
            .cloned()
            .collect();
        let k_binary_shares: Vec<PartyShares<BitShare>> = binary_shares
            .iter()
            .filter(|x| k_subset.contains(&x.id))
            .cloned()
            .collect();
        let r_secret_arith = ArithRepSharing::reconstruct(&k_arith_shares, k, n);
        let r_secret_binary = BitRepSharing::reconstruct(&k_binary_shares, k, n);
        assert!(secret_arith == r_secret_arith);
        assert!(secret_bit == r_secret_binary);
    }
    Ok(())
}

#[test]
fn to_from_arith_binary_test() -> Result<(), Error> {
    let k = 2;
    let n = 3;
    let mut rng = SysRng;

    let secret_arith =
        Arithmetic::random_share(&mut rng).expect("Could not generate random arithmetic share");
    let arith_shares = ArithRepSharing::share(&mut rng, secret_arith, k, n)?;

    // One value per subset, taken from any party that holds it.
    let n_subsets = arith_shares[0].shares.len();
    let arith: Vec<ArithShare> = (0..n_subsets)
        .map(|j| {
            arith_shares
                .iter()
                .find_map(|p| p.shares[j])
                .expect("every subset is held by some party")
        })
        .collect();
    let bits_from_arith: Vec<Vec<BitShare>> =
        arith.iter().map(|x| Arithmetic::to_binary(*x)).collect();
    let bits_to_arith: Vec<ArithShare> = bits_from_arith
        .iter()
        .map(|x| Binary::to_arithmetic(x.to_vec()))
        .collect();
    assert!(arith == bits_to_arith);
    Ok(())
}

#[test]
fn bit_adder_test() -> Result<(), Error> {
    let mut rng = SysRng;

    let a = Arithmetic::random_share(&mut rng).expect("Could not generate random arithmetic share");
    let b = Arithmetic::random_share(&mut rng).expect("Could not generate random arithmetic share");
    let c = Arithmetic::add(a, b);

    let a = Arithmetic::to_binary(a);
    let b = Arithmetic::to_binary(b);
    let c = Arithmetic::to_binary(c);

    let mut non_mpc = PlainBits::new();
    let added_c = full_adder(&mut non_mpc, &a, &b)?;
    assert!(c == added_c);

    let added_c = parallel_prefix(&mut non_mpc, &a, &b)?;
    assert!(c == added_c);
    Ok(())
}

#[test]
fn test_loop_all_test() -> Result<(), Error> {
    for _ in 0..TIMES {
        sharing_correctness_test()?;
        to_from_arith_binary_test()?;
        bit_adder_test()?;
    }
    Ok(())
}
