use bitvm::bigint::op_tmul::{BitDecompScriptGenerator, PrecomputeTable, WinBigIntImpl};
use bitvm::bigint::BigIntImpl as WideInt;
use bitvm::bn254::fp254_op_tmul::{BigIntImpl, Fq, LookupTable, VarWindowScriptGenerator, NMUL};
use bitvm::pseudo::{OP_2MUL, OP_4MUL};
use bitvm::script::{Op, Routine, Script};
use num_bigint::{BigUint, RandBigInt};
use num_traits::{One, ToPrimitive, Zero};
use rand::SeedableRng;
use rand_chacha::ChaCha20Rng;

/// Runs `script` on a main stack (bottom first) with the model the library
/// states its contracts over; `None` where a script fails.
fn run(script: &Script, main: Vec<i64>) -> Option<(Vec<i64>, Vec<i64>)> {
    run_with(script, main, Vec::new())
}

/// Runs `script` from the given main and alt stacks.
fn run_with(script: &Script, main: Vec<i64>, alt: Vec<i64>) -> Option<(Vec<i64>, Vec<i64>)> {
    let num = |x: i64| (-0x7fff_ffff..=0x7fff_ffff).contains(&x);
    let mut m = main;
    let mut a: Vec<i64> = alt;
    let mut conds: Vec<bool> = Vec::new();
    for op in script.ops().iter() {
        let executing = conds.iter().all(|c| *c);
        match op {
            Op::If => {
                if executing {
                    let v = m.pop()?;
                    conds.push(v != 0);
                } else {
                    conds.push(false);
                }
                continue;
            }
            Op::Else => {
                let c = conds.pop()?;
                conds.push(!c);
                continue;
            }
            Op::EndIf => {
                conds.pop()?;
                continue;
            }
            _ => {}
        }
        if !executing {
            continue;
        }
        let n = m.len();
        match op {
            Op::Push(v) => m.push(*v as i64),
            Op::Dup => m.push(*m.last()?),
            Op::Drop => {
                m.pop()?;
            }
            Op::TwoDup => {
                if n < 2 {
                    return None;
                }
                m.push(m[n - 2]);
                m.push(m[n - 1]);
            }
            Op::Swap => {
                if n < 2 {
                    return None;
                }
                m.swap(n - 1, n - 2);
            }
            Op::Rot => {
                if n < 3 {
                    return None;
                }
                let x = m.remove(n - 3);
                m.push(x);
            }
            Op::Tuck => {
                if n < 2 {
                    return None;
                }
                let top = m[n - 1];
                m.insert(n - 2, top);
            }
            Op::Nip => {
                if n < 2 {
                    return None;
                }
                m.remove(n - 2);
            }
            Op::Pick | Op::Roll => {
                let d = m.pop()?;
                if !num(d) || d < 0 || d as usize >= m.len() {
                    return None;
                }
                let i = m.len() - 1 - d as usize;
                let x = if matches!(op, Op::Pick) { m[i] } else { m.remove(i) };
                m.push(x);
            }
            Op::OneSub => {
                let x = m.pop()?;
                if !num(x) {
                    return None;
                }
                m.push(x - 1);
            }
            Op::Not => {
                let x = m.pop()?;
                if !num(x) {
                    return None;
                }
                m.push((x == 0) as i64);
            }
            Op::Verify => {
                if m.pop()? == 0 {
                    return None;
                }
            }
            Op::ToAltStack => a.push(m.pop()?),
            Op::FromAltStack => m.push(a.pop()?),
            Op::Add
            | Op::Sub
            | Op::LessThan
            | Op::LessThanOrEqual
            | Op::GreaterThan
            | Op::GreaterThanOrEqual => {
                let y = m.pop()?;
                let x = m.pop()?;
                if !num(x) || !num(y) {
                    return None;
                }
                m.push(match op {
                    Op::Add => x + y,
                    Op::Sub => x - y,
                    Op::LessThan => (x < y) as i64,
                    Op::LessThanOrEqual => (x <= y) as i64,
                    Op::GreaterThan => (x > y) as i64,
                    _ => (x >= y) as i64,
                });
            }
            Op::Routine(r) => routine(r, &mut m, &mut a)?,
            _ => return None,
        }
    }
    if conds.is_empty() {
        Some((m, a))
    } else {
        None
    }
}


/// The number of limbs of a big integer of the given shape.
fn n_limbs(n_bits: u32, limb_size: u32) -> usize {
    ((n_bits + limb_size - 1) / limb_size) as usize
}

/// The value of the big integer at depth `d`, checking its limbs.
fn value_at(m: &[i64], n: usize, d: usize, n_bits: u32, limb_size: u32) -> Option<BigUint> {
    if m.len() < (d + 1) * n {
        return None;
    }
    let blk = &m[m.len() - (d + 1) * n..m.len() - d * n];
    let head_bits = n_bits - (n as u32 - 1) * limb_size;
    for (i, l) in blk.iter().enumerate() {
        let bound = if i == 0 { 1i64 << head_bits } else { 1i64 << limb_size };
        if *l < 0 || *l >= bound {
            return None;
        }
    }
    Some(value(blk, limb_size))
}

/// Removes the big integer at depth `d`.
fn remove_at(m: &mut Vec<i64>, n: usize, d: usize) -> Vec<i64> {
    let start = m.len() - (d + 1) * n;
    m.drain(start..start + n).collect()
}

/// The stack effect of a routine of the big-integer library.
fn routine(r: &Routine, m: &mut Vec<i64>, a: &mut Vec<i64>) -> Option<()> {
    match r {
        Routine::ToAltStack { n_bits, limb_size } => {
            for _ in 0..n_limbs(*n_bits, *limb_size) {
                a.push(m.pop()?);
            }
        }
        Routine::FromAltStack { n_bits, limb_size } => {
            for _ in 0..n_limbs(*n_bits, *limb_size) {
                m.push(a.pop()?);
            }
        }
        Routine::Copy { n_bits, limb_size, depth } => {
            let n = n_limbs(*n_bits, *limb_size);
            let d = *depth as usize;
            if m.len() < (d + 1) * n {
                return None;
            }
            let start = m.len() - (d + 1) * n;
            let blk: Vec<i64> = m[start..start + n].to_vec();
            m.extend(blk);
        }
        Routine::Roll { n_bits, limb_size, depth } => {
            let n = n_limbs(*n_bits, *limb_size);
            let d = *depth as usize;
            if m.len() < (d + 1) * n {
                return None;
            }
            let blk = remove_at(m, n, d);
            m.extend(blk);
        }
        Routine::Drop { n_bits, limb_size } => {
            for _ in 0..n_limbs(*n_bits, *limb_size) {
                m.pop()?;
            }
        }
        Routine::PushZero { n_bits, limb_size } => {
            for _ in 0..n_limbs(*n_bits, *limb_size) {
                m.push(0);
            }
        }
        Routine::Add { n_bits, limb_size, a: x, b: y }
        | Routine::Sub { n_bits, limb_size, a: x, b: y }
        | Routine::LessThanOrEqual { n_bits, limb_size, a: x, b: y }
        | Routine::GreaterThan { n_bits, limb_size, a: x, b: y } => {
            let n = n_limbs(*n_bits, *limb_size);
            let (x, y) = (*x as usize, *y as usize);
            if x == y {
                return None;
            }
            let vx = value_at(m, n, x, *n_bits, *limb_size)?;
            let vy = value_at(m, n, y, *n_bits, *limb_size)?;
            remove_at(m, n, x.max(y));
            remove_at(m, n, x.min(y));
            let modulo = BigUint::one() << *n_bits;
            match r {
                Routine::Add { .. } => m.extend(limbs(&((vx + vy) % &modulo), n as u32, *limb_size)),
                Routine::Sub { .. } => {
                    m.extend(limbs(&((vx + &modulo - vy) % &modulo), n as u32, *limb_size))
                }
                Routine::LessThanOrEqual { .. } => m.push((vx <= vy) as i64),
                _ => m.push((vx > vy) as i64),
            }
        }
        Routine::PushU32Le { n_bits, limb_size, digits } => {
            let v = BigUint::new(digits.clone());
            if v >= (BigUint::one() << *n_bits) {
                return None;
            }
            m.extend(limbs(&v, n_limbs(*n_bits, *limb_size) as u32, *limb_size));
        }
        Routine::DupZip { n_bits, limb_size, a: depth } => {
            let n = n_limbs(*n_bits, *limb_size);
            let d = *depth as usize;
            if m.len() < (d + 1) * n {
                return None;
            }
            let start = m.len() - (d + 1) * n;
            let x: Vec<i64> = m[start..start + n].to_vec();
            let y: Vec<i64> = m.split_off(m.len() - n);
            for i in 0..n {
                m.push(y[i]);
                m.push(x[i]);
            }
        }
        Routine::NDup { n } => {
            let top = *m.last()?;
            for _ in 0..*n {
                m.push(top);
            }
        }
        Routine::LimbAddCarry => {
            let base = m.pop()?;
            let y = m.pop()?;
            let x = m.pop()?;
            let v = x + y;
            m.push(base);
            m.push((base <= v) as i64);
            m.push(if base <= v { v - base } else { v });
        }
        Routine::LimbAddNoCarry { head_offset } => {
            let y = m.pop()?;
            let x = m.pop()?;
            let v = x + y;
            let h = *head_offset as i64;
            m.push(if v >= h { v - h } else { v });
        }
    }
    Some(())
}

/// The stack items of `v` as a big integer of `n_limbs` limbs of
/// `limb_size` bits: the most significant limb deepest.
fn limbs(v: &BigUint, n_limbs: u32, limb_size: u32) -> Vec<i64> {
    let mask = (BigUint::one() << limb_size) - BigUint::one();
    let mut out: Vec<i64> = (0..n_limbs)
        .map(|i| ((v >> (i * limb_size)) & &mask).to_i64().unwrap())
        .collect();
    out.reverse();
    out
}

/// The value of stack items holding a big integer, most significant first.
fn value(items: &[i64], limb_size: u32) -> BigUint {
    items.iter().fold(BigUint::zero(), |acc, l| (acc << limb_size) + BigUint::from(*l as u64))
}

fn modulus() -> BigUint {
    BigUint::new(Fq::modulus())
}

const U254: BigIntImpl = BigIntImpl { n_bits: 254, limb_size: 30 };

#[test]
fn nmul_multiplies_top_item() {
    for n in [0u32, 1, 2, 3, 4, 5, 6, 7, 8, 9, 10, 15, 16, 31, 64, 100, 255, 1000] {
        for x in [0i64, 1, 7, 12345] {
            let (m, a) = run(&NMUL(n), vec![99, x]).unwrap();
            assert_eq!(m, vec![99, n as i64 * x]);
            assert!(a.is_empty());
        }
    }
}

#[test]
fn nmul_two_is_dup_add() {
    assert_eq!(NMUL(2).ops().clone(), vec![Op::Dup, Op::Add]);
    assert_eq!(NMUL(0).ops().clone(), vec![Op::Drop, Op::Push(0)]);
    assert!(NMUL(1).ops().is_empty());
}

#[test]
fn op_2mul_and_op_4mul() {
    assert_eq!(run(&OP_2MUL(), vec![21]).unwrap().0, vec![42]);
    assert_eq!(run(&OP_4MUL(), vec![21]).unwrap().0, vec![84]);
}

#[test]
fn dbl_doubles_modulo_width() {
    let two254 = BigUint::one() << 254u32;
    let p = modulus();
    let cases = [
        BigUint::zero(),
        BigUint::one(),
        p.clone() - BigUint::one(),
        (BigUint::one() << 253u32) + BigUint::from(5u32),
        &two254 - BigUint::one(),
        BigUint::from(0x3fff_ffffu32),
    ];
    for v in cases.iter() {
        let (m, a) = run(&U254.dbl(), limbs(v, 9, 30)).unwrap();
        assert!(a.is_empty());
        assert_eq!(value(&m, 30), (v * 2u32) % &two254);
        assert_eq!(m, limbs(&((v * 2u32) % &two254), 9, 30));
    }
}

#[test]
fn wide_dbl_doubles_modulo_width() {
    let w = WideInt { n_bits: 254, limb_size: 30 };
    let two254 = BigUint::one() << 254u32;
    let v = modulus() - BigUint::from(3u32);
    let (m, _) = run(&w.dbl(), limbs(&v, 9, 30)).unwrap();
    assert_eq!(value(&m, 30), (&v * 2u32) % &two254);
    let v = (BigUint::one() << 253u32) + BigUint::from(1u32);
    let (m, _) = run(&w.dbl(), limbs(&v, 9, 30)).unwrap();
    assert_eq!(value(&m, 30), BigUint::from(2u32));
}

#[test]
fn dbl_of_small_shape() {
    // 10 bits in limbs of 4 bits: a head of 2 bits.
    let s = BigIntImpl { n_bits: 10, limb_size: 4 };
    for v in [0u32, 1, 511, 512, 700, 1023] {
        let (m, _) = run(&s.dbl(), limbs(&BigUint::from(v), 3, 4)).unwrap();
        assert_eq!(value(&m, 4), BigUint::from((2 * v) % 1024));
    }
}

#[test]
fn sign_tests_read_the_head() {
    // The sign is the top bit of the head: set in `2^254 - 5` (and in the
    // modulus), clear in a small number.
    let neg = (BigUint::one() << 254u32) - BigUint::from(5u32);
    let small = BigUint::from(1234567u32);
    let mut stack = limbs(&neg, 9, 30);
    stack.extend(limbs(&small, 9, 30));
    let top = |s: &Script| *run(s, stack.clone()).unwrap().0.last().unwrap();
    assert_eq!(top(&U254.is_negative(0)), 0);
    assert_eq!(top(&U254.is_negative(1)), 1);
    assert_eq!(top(&U254.is_positive(0)), 1);
    assert_eq!(top(&U254.is_positive(1)), 0);
    let (m, _) = run(&U254.is_negative(0), limbs(&modulus(), 9, 30)).unwrap();
    assert_eq!(m.len(), 10);
    assert_eq!(m[9], 1);
}

#[test]
fn resize_shrinks_keeping_low_limbs() {
    let v = modulus();
    let (m, _) = run(&U254.resize(120), limbs(&v, 9, 30)).unwrap();
    assert_eq!(m, limbs(&v, 4, 30));
    assert!(U254.resize(250).ops().is_empty());
}

#[test]
fn resize_grows_with_zero_limbs() {
    let s = U254.resize(300);
    assert_eq!(s.ops()[0], Op::Push(0));
    assert_eq!(s.ops()[1], Op::Routine(Routine::NDup { n: 0 }));
    // Past the pushed zero (one more limb is needed), each limb rolls up.
    assert_eq!(s.ops().len(), 2 + 2 * 9);
    assert_eq!(s.ops()[2], Op::Push(9));
    assert_eq!(s.ops()[3], Op::Roll);
}

#[test]
fn stack_copy_copies_by_depth() {
    // With `d` on top, the `n_limbs` items that start `(n_limbs + 1) * d`
    // deep are copied to the top.
    let stack: Vec<i64> = (100..127).collect();
    for d in [1i64, 2] {
        let mut s = stack.clone();
        s.push(d);
        let (m, alt) = run(&U254.stack_copy(), s).unwrap();
        assert!(alt.is_empty());
        let start = 27 - 10 * d as usize;
        let mut want = stack.clone();
        want.extend_from_slice(&stack[start..start + 9]);
        assert_eq!(m, want);
    }
}

#[test]
fn wide_stack_copy_copies_by_depth() {
    let w = WideInt { n_bits: 254, limb_size: 30 };
    let a = modulus();
    let b = BigUint::from(7u32);
    let mut stack = limbs(&a, 9, 30);
    stack.extend(limbs(&b, 9, 30));
    stack.push(1);
    let (m, _) = run(&w.stack_copy(), stack).unwrap();
    assert_eq!(value(&m[18..], 30), a);
}

#[test]
fn ref_zip_interleaves_with_a_copy() {
    let s = BigIntImpl { n_bits: 12, limb_size: 4 };
    // Stack: x (deeper) then y on top; limbs given most significant first.
    let x = vec![1, 2, 3];
    let y = vec![4, 5, 6];
    let mut stack = x.clone();
    stack.extend(y.clone());
    let (m, _) = run(&s.ref_zip(1), stack).unwrap();
    assert_eq!(&m[..3], &x[..]);
    assert_eq!(&m[3..], &[4, 1, 5, 2, 6, 3]);
    assert_eq!(
        s.ref_zip(0).ops().clone(),
        vec![Op::Routine(Routine::DupZip { n_bits: 12, limb_size: 4, a: 0 })]
    );
}

#[test]
fn stack_ref_zip_interleaves_by_depth() {
    let s = BigIntImpl { n_bits: 12, limb_size: 4 };
    let x = vec![1, 2, 3];
    let y = vec![4, 5, 6];
    let mut stack = x.clone();
    stack.extend(y.clone());
    stack.push(1);
    let (m, _) = run(&s.stack_ref_zip(), stack).unwrap();
    assert_eq!(&m[..3], &x[..]);
    assert_eq!(&m[3..], &[4, 1, 5, 2, 6, 3]);
}

#[test]
fn ref_add_adds_a_deep_operand() {
    let p = modulus();
    let x = BigUint::from(0x1234_5678_9abc_u64) << 200u32;
    let y = (BigUint::one() << 250u32) + BigUint::from(77u32);
    let z = BigUint::from(5u32);
    let two254 = BigUint::one() << 254u32;
    let mut stack = limbs(&x, 9, 30);
    stack.extend(limbs(&p, 9, 30));
    stack.extend(limbs(&y, 9, 30));
    let (m, a) = run(&U254.ref_add(2), stack.clone()).unwrap();
    assert!(a.is_empty());
    assert_eq!(&m[..18], &stack[..18]);
    assert_eq!(value(&m[18..], 30), (&x + &y) % &two254);
    let mut stack2 = limbs(&z, 9, 30);
    stack2.extend(limbs(&p, 9, 30));
    stack2.extend(limbs(&y, 9, 30));
    let (m, _) = run(&U254.ref_add(2), stack2).unwrap();
    assert_eq!(value(&m[18..], 30), (&z + &y) % &two254);
}

#[test]
fn stack_ref_add_adds_by_depth() {
    let x = modulus() - BigUint::from(11u32);
    let y = modulus() - BigUint::from(22u32);
    let two254 = BigUint::one() << 254u32;
    let mut stack = limbs(&x, 9, 30);
    stack.extend(limbs(&y, 9, 30));
    stack.push(1);
    let (m, a) = run(&U254.stack_ref_add(), stack).unwrap();
    assert!(a.is_empty());
    assert_eq!(m.len(), 18);
    assert_eq!(value(&m[..9], 30), x.clone());
    assert_eq!(value(&m[9..], 30), (&x + &y) % &two254);
}

#[test]
fn ref_add_near_the_top_uses_limb_addition() {
    let s = U254.ref_add(1);
    assert_eq!(s.ops()[0], Op::Push(9));
    assert_eq!(s.ops()[1], Op::Pick);
    assert_eq!(s.ops()[2], Op::Push(1 << 30));
    assert_eq!(s.ops()[3], Op::Routine(Routine::LimbAddCarry));
}

#[test]
fn lookup_table_size() {
    for w in 0..8u32 {
        assert_eq!(LookupTable::size(w), (1 << w) - 1);
    }
}

#[test]
fn lookup_table_initialize_fills_multiples() {
    let t = LookupTable { n_bits: 254, limb_size: 30 };
    assert!(t.initialize(1).ops().is_empty());
    let s = t.initialize(2);
    let copy0 = Op::Routine(Routine::Copy { n_bits: 254, limb_size: 30, depth: 0 });
    assert_eq!(s.ops()[0], copy0);
    assert_eq!(&s.ops()[1..1 + U254.dbl().len()], &U254.dbl().ops()[..]);
    let rest = &s.ops()[1 + U254.dbl().len()..];
    assert_eq!(rest[0], copy0);
    assert_eq!(&rest[1..], &U254.ref_add(2).ops()[..]);
}

#[test]
fn precompute_table_initialize_fills_multiples() {
    let t = PrecomputeTable { n_bits: 254, limb_size: 30, window: 1 };
    assert_eq!(
        t.initialize().ops().clone(),
        vec![
            Op::Routine(Routine::PushZero { n_bits: 254, limb_size: 30 }),
            Op::Routine(Routine::Roll { n_bits: 254, limb_size: 30, depth: 1 }),
        ]
    );
    let t = PrecomputeTable { n_bits: 254, limb_size: 30, window: 2 };
    let ops = t.initialize().ops().clone();
    let w = WideInt { n_bits: 254, limb_size: 30 };
    let copy = |depth: u32| Op::Routine(Routine::Copy { n_bits: 254, limb_size: 30, depth });
    assert_eq!(ops[2], copy(0));
    let d = w.dbl().len();
    assert_eq!(&ops[3..3 + d], &w.dbl().ops()[..]);
    assert_eq!(
        &ops[3 + d..],
        &[copy(0), copy(2), Op::Routine(Routine::Add { n_bits: 254, limb_size: 30, a: 0, b: 1 })]
    );
}

#[test]
fn modulus_digits_are_the_bn254_prime() {
    let p = modulus();
    assert_eq!(
        p.to_string(),
        "21888242871839275222246405745257275088696311157297823662689037894645226208583"
    );
    assert_eq!(Fq::modulus(), WinBigIntImpl::modulus());
    assert_eq!(p.bits(), 254);
    assert_ne!(*Fq::modulus().last().unwrap(), 0);
}

#[test]
fn ext_n_bits_for_each_width_pair() {
    let want: [[u32; 6]; 6] = [
        [254, 254, 255, 256, 255, 258],
        [254, 254, 258, 256, 260, 258],
        [255, 258, 255, 264, 255, 258],
        [256, 256, 264, 256, 260, 264],
        [255, 260, 255, 260, 255, 270],
        [258, 258, 258, 264, 270, 258],
    ];
    for vw in 1..=6u32 {
        for mw in 1..=6u32 {
            let f = Fq { n_bits: 254, limb_size: 30, var_width: vw, mod_width: mw };
            let e = f.ext_n_bits();
            assert_eq!(e, want[(vw - 1) as usize][(mw - 1) as usize]);
            assert_eq!(e % vw, 0);
            assert_eq!(e % mw, 0);
            assert_eq!(f.ext_n_bits_skip(), vw.min(mw));
            assert_eq!(f.n_limbs(), 9);
        }
    }
}

#[test]
fn mod_windows_rebuild_the_modulus() {
    let p = modulus();
    for vw in 1..=6u32 {
        for mw in 1..=6u32 {
            let f = Fq { n_bits: 254, limb_size: 30, var_width: vw, mod_width: mw };
            let n_window = f.ext_n_bits() / mw;
            let mut acc = BigUint::zero();
            for k in 0..n_window {
                let w = f.get_mod_window(k);
                assert!(w < (1 << mw));
                acc = (acc << mw) + BigUint::from(w);
            }
            assert_eq!(acc, p);
        }
    }
    let f = Fq { n_bits: 254, limb_size: 30, var_width: 3, mod_width: 3 };
    let first: Vec<u32> = (0..5).map(|k| f.get_mod_window(k)).collect();
    assert_eq!(first, vec![3, 0, 1, 4, 4]);
}

#[test]
fn fq_op_tmul_counts() {
    let want: [[(i32, i32, i32); 6]; 6] = [
        [(253, 111, 254), (253, 89, 254), (254, 67, 255), (255, 60, 256), (254, 48, 255), (257, 42, 258)],
        [(253, 111, 127), (252, 89, 127), (256, 67, 129), (254, 60, 128), (258, 48, 130), (256, 42, 129)],
        [(254, 111, 85), (256, 89, 86), (252, 67, 85), (261, 60, 88), (252, 48, 85), (255, 42, 86)],
        [(255, 111, 64), (254, 89, 64), (261, 67, 66), (252, 60, 64), (256, 48, 65), (260, 42, 66)],
        [(254, 111, 51), (258, 89, 52), (252, 67, 51), (256, 60, 52), (250, 48, 51), (265, 42, 54)],
        [(257, 111, 43), (256, 89, 43), (255, 67, 43), (260, 60, 44), (265, 48, 45), (252, 42, 43)],
    ];
    for vw in 1..=6u32 {
        for mw in 1..=6u32 {
            let f = Fq { n_bits: 254, limb_size: 30, var_width: vw, mod_width: mw };
            let (script, counts) = f.OP_TMUL();
            assert_eq!(counts, want[(vw - 1) as usize][(mw - 1) as usize]);
            assert!(script.len() > 0);
        }
    }
}

#[test]
fn fq_op_tmul_starts_by_checking_q() {
    let f = Fq { n_bits: 254, limb_size: 30, var_width: 3, mod_width: 2 };
    let (script, _) = f.OP_TMUL();
    let ops = script.ops();
    assert_eq!(ops[0], Op::Routine(Routine::ToAltStack { n_bits: 254, limb_size: 30 }));
    assert_eq!(ops[1], Op::Routine(Routine::ToAltStack { n_bits: 254, limb_size: 30 }));
    assert_eq!(ops[2], Op::Routine(Routine::Copy { n_bits: 258, limb_size: 30, depth: 0 }));
    assert_eq!(
        ops[3],
        Op::Routine(Routine::PushU32Le { n_bits: 258, limb_size: 30, digits: Fq::modulus() })
    );
    assert_eq!(
        ops[4],
        Op::Routine(Routine::GreaterThan { n_bits: 258, limb_size: 30, a: 0, b: 1 })
    );
    assert_eq!(ops[5], Op::Verify);
}

#[test]
fn win_op_tmul_reads_modulus_windows() {
    let w = WinBigIntImpl { n_bits: 254, limb_size: 30, window: 3 };
    assert_eq!(w.n_window(), 85);
    let script = w.OP_TMUL();
    // The first iteration copies `q * p[0]` out of the table of multiples of
    // `q`, which lies below the `2^window` entries of the table of `x` and `y`.
    let copies: Vec<u32> = script
        .ops()
        .iter()
        .filter_map(|op| match op {
            Op::Routine(Routine::Copy { n_bits: 257, limb_size: 30, depth }) if *depth >= 8 => {
                Some(*depth)
            }
            _ => None,
        })
        .collect();
    let p = modulus();
    let window = |i: u32| ((&p >> (3 * (85 - i - 1))) & BigUint::from(7u32)).to_u32().unwrap();
    assert_eq!(copies.len(), 85);
    let loop_copies = copies;
    for i in 0..85u32 {
        let lo = if i == 0 { 0 } else { 1 };
        assert_eq!(loop_copies[i as usize], 2 * 8 - window(i) + lo);
    }
}

/// Runs the scripts of a window generator one after another on `y` lying
/// under `above` items, returning the windows they push.
fn read_windows(mut next: impl FnMut() -> Script, n_window: u32, y: Vec<i64>, above: usize) -> Vec<i64> {
    let mut main = y.clone();
    main.extend(std::iter::repeat(0).take(above));
    let mut alt = Vec::new();
    let mut windows = Vec::new();
    for _ in 0..n_window {
        let (m, a) = run_with(&next(), main.clone(), alt).unwrap();
        assert_eq!(m.len(), main.len() + 1);
        assert_eq!(&m[..main.len()], &main[..]);
        windows.push(*m.last().unwrap());
        alt = a;
    }
    assert!(alt.is_empty());
    windows
}

fn windows_of(v: &BigUint, w: u32, n_window: u32) -> Vec<i64> {
    (0..n_window)
        .rev()
        .map(|i| ((v >> (i * w)) & BigUint::from((1u32 << w) - 1)).to_i64().unwrap())
        .collect()
}

#[test]
fn var_windows_read_y_from_the_top() {
    let y = modulus() - BigUint::from(0x1234_5678u32);
    for vw in 1..=6u32 {
        let f = Fq { n_bits: 254, limb_size: 30, var_width: vw, mod_width: 1 };
        let ext = f.ext_n_bits();
        let n_limbs = (ext + 29) / 30;
        let n_window = ext / vw;
        let mut g = VarWindowScriptGenerator {
            n_window,
            limb_size: 30,
            var_width: vw,
            n_limbs,
            iter: n_window + 1,
        };
        let got = read_windows(|| g.next(), n_window, limbs(&y, n_limbs, 30), n_limbs as usize);
        assert_eq!(got, windows_of(&y, vw, n_window));
    }
}

#[test]
fn bit_decomp_reads_y_from_the_top() {
    let y = modulus() - BigUint::from(77u32);
    for window in 1..=6u32 {
        let w = WinBigIntImpl { n_bits: 254, limb_size: 30, window };
        let n_window = w.n_window();
        // The operand lies under two big integers of 9 limbs.
        let mut g = BitDecompScriptGenerator {
            n_limbs: 9,
            n_window,
            limb_size: 30,
            window,
            index: n_window + 1,
        };
        let got = read_windows(|| g.next(2), n_window, limbs(&y, 9, 30), 18);
        assert_eq!(got, windows_of(&y, window, n_window));
    }
}

#[test]
fn resize_grow_rolls_limbs_over_zeros() {
    let v = modulus();
    let s = U254.resize(300);
    let rolls = Script::from_ops(s.ops()[2..].to_vec());
    let mut stack = limbs(&v, 9, 30);
    stack.push(0);
    let (m, _) = run(&rolls, stack).unwrap();
    assert_eq!(m, limbs(&v, 10, 30));
}

/// The stack items of a 254-bit operand in limbs of 30 bits.
fn u254(v: &BigUint) -> Vec<i64> {
    limbs(v, 9, 30)
}

/// Runs a multiplier on `{q} {x} {y}` and returns the stacks it leaves.
fn run_tmul(script: &Script, q: &BigUint, x: &BigUint, y: &BigUint) -> Option<(Vec<i64>, Vec<i64>)> {
    let mut stack = u254(q);
    stack.extend(u254(x));
    stack.extend(u254(y));
    run(script, stack)
}

fn print_script_size(name: &str, script: &Script) {
    println!("{} script is {} opcodes in size", name, script.len());
}

#[test]
fn test_254_bit_windowed_op_tmul() {
    let w = WinBigIntImpl { n_bits: 254, limb_size: 30, window: 3 };

    print_script_size("254-bit-windowed-op-tmul", &w.OP_TMUL());

    let mut prng = ChaCha20Rng::seed_from_u64(0);

    let p = BigUint::new(WinBigIntImpl::modulus());
    let x = prng.gen_biguint_below(&p);
    let y = prng.gen_biguint_below(&p);
    let c = &x * &y;
    let q = &c / &p;
    let r = &c % &p;

    let res = run_tmul(&w.OP_TMUL(), &q, &x, &y);
    let (main, alt) = res.unwrap();
    assert_eq!(main, u254(&r));
    assert!(alt.is_empty());
}

#[test]
fn test_254_bit_windowed_op_tmul_fuzzy() {
    let mut prng = ChaCha20Rng::seed_from_u64(0);

    for window in 1..=4u32 {
        let w = WinBigIntImpl { n_bits: 254, limb_size: 30, window };
        let script = w.OP_TMUL();
        println!("254-bit-windowed-op-tmul-{}-bit-window, script_size: {}", window, script.len());

        for _ in 0..100 {
            let p = BigUint::new(WinBigIntImpl::modulus());
            let x = prng.gen_biguint_below(&p);
            let y = prng.gen_biguint_below(&p);
            let c = &x * &y;
            let q = &c / &p;
            let r = &c % &p;

            let (main, alt) = run_tmul(&script, &q, &x, &y).unwrap();
            assert_eq!(main, u254(&r));
            assert!(alt.is_empty());
        }
    }
}

#[test]
fn test_multi_window_op_tmul() {
    let mut prng: ChaCha20Rng = ChaCha20Rng::seed_from_u64(0);
    let modulus = BigUint::new(Fq::modulus());
    let x = prng.gen_biguint_below(&modulus);
    let y = prng.gen_biguint_below(&modulus);
    let c = &x * &y;
    let q = &c / &modulus;
    let r = &c % &modulus;

    let mut stats = vec![];

    for var_width in 1..=6u32 {
        for mod_width in 1..=6u32 {
            let f = Fq { n_bits: 254, limb_size: 30, var_width, mod_width };
            let (scr, ops) = f.OP_TMUL();
            let res = run_tmul(&scr, &q, &x, &y);
            if var_width == 6 && var_width == mod_width {
                // skip stack limit exceeding muls
                stats.push((format!("{}Y-{}P", var_width, mod_width), scr.len(), ops));
            } else {
                let (main, alt) = res.unwrap();
                assert_eq!(main, u254(&r));
                assert!(alt.is_empty());
                stats.push((format!("{}Y-{}P", var_width, mod_width), scr.len(), ops));
            }
        }
    }

    stats.sort_by(|a, b| a.1.cmp(&b.1));
    for stat in stats {
        println!(
            "254-bit-{}: script: {:6}, [D={:3}, A=({:3}, {:3})]",
            stat.0, stat.1, stat.2 .0, stat.2 .1, stat.2 .2
        );
    }
}

#[test]
fn multipliers_on_small_and_edge_operands() {
    let p = modulus();
    let one = BigUint::one();
    let cases = [
        (BigUint::zero(), BigUint::from(2u32), BigUint::from(3u32)),
        (&p - 2u32, &p - 1u32, &p - 1u32),
    ];
    for (q, x, y) in cases.iter() {
        let r = (x * y) % &p;
        assert_eq!(&((x * y) / &p), q);
        let f = Fq { n_bits: 254, limb_size: 30, var_width: 3, mod_width: 4 };
        assert_eq!(run_tmul(&f.OP_TMUL().0, q, x, y).unwrap().0, u254(&r));
        let w = WinBigIntImpl { n_bits: 254, limb_size: 30, window: 3 };
        assert_eq!(run_tmul(&w.OP_TMUL(), q, x, y).unwrap().0, u254(&r));
    }
    // A quotient that is not below the modulus is refused.
    let f = Fq { n_bits: 254, limb_size: 30, var_width: 2, mod_width: 2 };
    assert!(run_tmul(&f.OP_TMUL().0, &p, &one, &one).is_none());
}

#[test]
fn ref_add_near_the_top_adds() {
    // Limbs of 30 bits, 60 bits in all: a carry into the head, and a wrap.
    let t = BigIntImpl { n_bits: 60, limb_size: 30 };
    let two60 = BigUint::one() << 60u32;
    let cases = [
        (BigUint::from(1073741823u64), BigUint::from(1u64)),
        (BigUint::one() << 59u32, BigUint::one() << 59u32),
        (BigUint::from(123456789012345u64), BigUint::from(987654321098765u64)),
    ];
    for (v, u) in cases.iter() {
        let mut stack = limbs(v, 2, 30);
        stack.extend(limbs(u, 2, 30));
        let (m, a) = run(&t.ref_add(1), stack).unwrap();
        assert!(a.is_empty());
        assert_eq!(&m[..2], &limbs(v, 2, 30)[..]);
        assert_eq!(value(&m[2..], 30), (v + u) % &two60);
        // Adding the top one to itself doubles it.
        let (m, _) = run(&t.ref_add(0), limbs(u, 2, 30)).unwrap();
        assert_eq!(value(&m, 30), (u * 2u32) % &two60);
    }
}

#[test]
fn resize_grows_and_shrinks_back() {
    let v = modulus() - BigUint::from(9u32);
    let stack = limbs(&v, 9, 30);
    let (m, a) = run(&U254.resize(320), stack.clone()).unwrap();
    assert!(a.is_empty());
    assert_eq!(m, limbs(&v, 11, 30));
    let wide = BigIntImpl { n_bits: 320, limb_size: 30 };
    let (back, _) = run(&wide.resize(254), m).unwrap();
    assert_eq!(back, stack);
}

#[test]
fn lookup_table_holds_multiples() {
    let t = LookupTable { n_bits: 254, limb_size: 30 };
    let z = BigUint::from(5u32);
    let (m, _) = run(&t.initialize(2), u254(&z)).unwrap();
    let mut want = u254(&z);
    want.extend(u254(&BigUint::from(10u32)));
    want.extend(u254(&BigUint::from(15u32)));
    assert_eq!(m, want);
    let z = modulus() - BigUint::from(1u32);
    let two254 = BigUint::one() << 254u32;
    for window in 1..=6u32 {
        let (m, a) = run(&t.initialize(window), u254(&z)).unwrap();
        assert!(a.is_empty());
        assert_eq!(m.len(), 9 * LookupTable::size(window) as usize);
        for j in 1..(1usize << window) {
            let got = value(&m[9 * (j - 1)..9 * j], 30);
            assert_eq!(got, (&z * BigUint::from(j)) % &two254);
        }
    }
}

#[test]
fn precompute_table_holds_multiples() {
    let p = PrecomputeTable { n_bits: 257, limb_size: 30, window: 2 };
    let z = BigUint::from(5u32);
    let (m, _) = run(&p.initialize(), limbs(&z, 9, 30)).unwrap();
    let mut want = Vec::new();
    for k in [0u32, 5, 10, 15] {
        want.extend(limbs(&BigUint::from(k), 9, 30));
    }
    assert_eq!(m, want);
    let z = modulus() - BigUint::from(4u32);
    for window in 1..=6u32 {
        let p = PrecomputeTable { n_bits: 254 + window, limb_size: 30, window };
        let (m, a) = run(&p.initialize(), limbs(&z, 9, 30)).unwrap();
        assert!(a.is_empty());
        assert_eq!(m.len(), 9 << window);
        for j in 0..(1usize << window) {
            assert_eq!(value(&m[9 * j..9 * (j + 1)], 30), &z * BigUint::from(j));
        }
    }
}

#[test]
fn multipliers_refuse_a_result_not_below_the_modulus() {
    // With `q = 0`, `x = (p + 1) / 2` and `y = 2` the result is `p + 1`.
    let p = modulus();
    let q = BigUint::zero();
    let x = (&p + 1u32) / 2u32;
    let y = BigUint::from(2u32);
    let f = Fq { n_bits: 254, limb_size: 30, var_width: 3, mod_width: 4 };
    assert!(run_tmul(&f.OP_TMUL().0, &q, &x, &y).is_none());
    let w = WinBigIntImpl { n_bits: 254, limb_size: 30, window: 3 };
    assert!(run_tmul(&w.OP_TMUL(), &q, &x, &y).is_none());
    // One below: the result `p - 1` passes the check.
    let x = (&p - 1u32) / 2u32;
    let r = &p - 1u32;
    assert_eq!(run_tmul(&f.OP_TMUL().0, &q, &x, &y).unwrap().0, u254(&r));
    assert_eq!(run_tmul(&w.OP_TMUL(), &q, &x, &y).unwrap().0, u254(&r));
}

#[test]
fn stack_ref_add_matches_ref_add_at_depth_one() {
    let v = BigUint::from(987654321u64) << 100u32;
    let u = modulus() - 5u32;
    let mut stack = u254(&v);
    stack.extend(u254(&u));
    let by_ref = run(&U254.ref_add(1), stack.clone()).unwrap();
    let mut with_depth = stack;
    with_depth.push(1);
    assert_eq!(run(&U254.stack_ref_add(), with_depth).unwrap(), by_ref);
}

#[test]
fn fq_op_tmul_counts_nonzero_modulus_windows() {
    for vw in 1..=6u32 {
        for mw in 1..=6u32 {
            let f = Fq { n_bits: 254, limb_size: 30, var_width: vw, mod_width: mw };
            let (_, counts) = f.OP_TMUL();
            let n_windows = f.ext_n_bits() / mw;
            let nonzero = (0..n_windows).filter(|&k| f.get_mod_window(k) != 0).count() as i32;
            assert_eq!(counts.1, nonzero);
        }
    }
}
