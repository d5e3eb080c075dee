use std::collections::HashSet;

use k_of_n_rss_mpc::error::Error;
use k_of_n_rss_mpc::mpc::MPC;
use k_of_n_rss_mpc::sharing::Arithmetic;
use k_of_n_rss_mpc::sharing::Sharing;
use k_of_n_rss_mpc::{ArithRepSharing, BitAdder};
use rand::rngs::SysRng;

const TIMES: usize = 3;

// Test basic MPC operations (add, multiply)
fn mpc_ops_test(k: usize, n: usize) -> Result<(), Error> {
    let mut rng = SysRng;
    let mut mpc = MPC::new(k, n);
    mpc.set_prng()?;

    let (name_a, name_b, name_c) = ("a".to_string(), "b".to_string(), "c".to_string());
    let real_a = Arithmetic::random_share(&mut rng).map_err(|_| Error::Rng)?;
    let real_b = Arithmetic::random_share(&mut rng).map_err(|_| Error::Rng)?;
    mpc.new_secret(&name_a, real_a)?;
    mpc.new_secret(&name_b, real_b)?;

    // Test basic sharing and reconstruction works as intended
    let recon_a = mpc.open_var(&name_a)?;
    let recon_b = mpc.open_var(&name_b)?;
    assert!(recon_a == real_a);
    assert!(recon_b == real_b);

    // Test addition
    mpc.add(&name_a, &name_b, &name_c)?;
    mpc.add(&name_a, &name_b, &name_c)?;
    let c = mpc.open_var(&name_c)?;
    assert!(c == real_a.wrapping_add(real_b));

    // Test all parties have been assigned at least one crossterm
    let subsets = ArithRepSharing::all_subsets(k, n, None);
    let assignment = mpc.assign_crossterms();
    if assignment.len() != n {
        if !(n - (2 * k - 1) > 1) {
            panic!("There exists a party that was not assigned any shares");
        } else {
            println!("As expected, there exists a party that was not assigned any shares");
        }
    }

    // Test that all crossterms have been assigned
    let mut assigned_subsets = HashSet::new();
    for (id, crossterms) in &assignment {
        for (subset_a, subset_b) in crossterms {
            assigned_subsets.insert((*subset_a, *subset_b));
            assert!(!subsets[*subset_a].contains(id) && !subsets[*subset_b].contains(id));
        }
    }
    let crossterms = mpc.all_crossterms();
    if crossterms.len() != assigned_subsets.len() {
        if !(2 * (k - 1) >= n) {
            panic!("There are shares that were not assigned to any party");
        } else {
            println!("As expected, there are shares that were not assigned to any party:");
        }
    }

    // Test multiplication
    mpc.mult(&name_a, &name_b, &name_c)?;
    let recon_c = mpc.open_var(&name_c)?;
    let prod = real_a.wrapping_mul(real_b);
    assert!(recon_c == prod);
    Ok(())
}

// Test MPC MSB extraction
fn msb_test(k: usize, n: usize) -> Result<(), Error> {
    let mut rng = SysRng;
    let mut mpc = MPC::new(k, n);
    mpc.set_prng()?;

    let name_a = "a".to_string();
    let real_a = Arithmetic::random_share(&mut rng).map_err(|_| Error::Rng)?;
    let real_msb = Arithmetic::to_binary(real_a).last().unwrap().to_owned();

    mpc.new_secret(&name_a, real_a)?;
    let mpc_msb = mpc.get_msb(&name_a, BitAdder::FullAdder)?;
    assert!(real_msb == mpc_msb);
    let mpc_msb = mpc.get_msb(&name_a, BitAdder::ParallelPrefix)?;
    assert!(real_msb == mpc_msb);
    Ok(())
}

#[test]
fn mpc_loop_all_test() -> Result<(), Error> {
    let k_of_n: Vec<(usize, usize)> = vec![(2, 3), (3, 5), (4, 7)];
    for (k, n) in k_of_n {
        for _ in 0..TIMES {
            mpc_ops_test(k, n)?;
            msb_test(k, n)?;
        }
    }
    Ok(())
}
