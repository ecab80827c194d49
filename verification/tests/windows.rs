use bitvm::bigint::op_tmul::WinBigIntImpl;
use bitvm::bn254::fp254_op_tmul::Fq;
use num_bigint::{BigInt, BigUint, RandBigInt, ToBigInt};
use num_traits::{FromPrimitive, ToPrimitive};
use rand::SeedableRng;
use rand_chacha::ChaCha20Rng;

fn get_window_decomps(b: &BigInt, window: u32, n_bits: u32) -> Vec<usize> {
    let mut res = vec![];
    let n_window = (n_bits + window - 1) / window;
    for index in 0..n_window {
        let shift_by = window * (n_window - index - 1);
        let bit_mask = BigInt::from_u32((1 << window) - 1).unwrap() << shift_by;
        res.push(((b.clone() & bit_mask) >> shift_by).to_usize().unwrap());
    }
    res
}

fn precompute_lookup_table(b: &BigInt, window: u32) -> Vec<BigInt> {
    let mut res = vec![];
    for i in 0..1 << window {
        res.push(b.clone() * BigInt::from(i));
    }
    res
}

fn fq(var_width: u32, mod_width: u32) -> Fq {
    Fq { n_bits: 254, limb_size: 30, var_width, mod_width }
}

#[test]
fn test_multi_window_mul() {
    let mut prng = ChaCha20Rng::seed_from_u64(0);
    let modulus = &BigUint::new(Fq::modulus()).to_bigint().unwrap();
    let x = prng.gen_bigint_range(&BigInt::ZERO, modulus);
    let y = prng.gen_bigint_range(&BigInt::ZERO, modulus);
    let c = &x * &y;
    let q = &c / modulus;
    let r = &c % modulus;

    for var_width in 1..=6u32 {
        for mod_width in 1..=6u32 {
            let f = fq(var_width, mod_width);
            let ext_n_bits = f.ext_n_bits();

            let y_window = get_window_decomps(&y, var_width, ext_n_bits);
            let qp_table = precompute_lookup_table(&q, mod_width);
            let xy_table = precompute_lookup_table(&x, var_width);

            let mut z = BigInt::ZERO;
            for i in f.ext_n_bits_skip()..=ext_n_bits {
                if i % mod_width == 0 {
                    z -= &qp_table[f.get_mod_window(i / mod_width - 1) as usize];
                }

                if i % var_width == 0 {
                    z += &xy_table[y_window[(i / var_width - 1) as usize]];
                }
                if i < ext_n_bits {
                    z *= 2;
                }
            }
            assert!(z == r);
        }
    }
}

/// The schedule of [`WinBigIntImpl::OP_TMUL`] on numbers:
/// `z = 2^window * z + x * y[i] - q * p[i]` ends at `x * y mod p`.
#[test]
fn win_window_schedule_reduces() {
    let mut prng = ChaCha20Rng::seed_from_u64(1);
    let p = BigUint::new(WinBigIntImpl::modulus()).to_bigint().unwrap();
    for window in 1..=6u32 {
        let w = WinBigIntImpl { n_bits: 254, limb_size: 30, window };
        let n_window = w.n_window();
        assert_eq!(n_window, (254 + window - 1) / window);
        let x = prng.gen_bigint_range(&BigInt::ZERO, &p);
        let y = prng.gen_bigint_range(&BigInt::ZERO, &p);
        let q = (&x * &y) / &p;
        let y_window = get_window_decomps(&y, window, n_window * window);
        let p_window = get_window_decomps(&p, window, n_window * window);
        let mut z = BigInt::ZERO;
        for i in 0..n_window as usize {
            z = (z << window) + &x * BigInt::from(y_window[i]) - &q * BigInt::from(p_window[i]);
        }
        assert_eq!(z, (&x * &y) % &p);
    }
}
