//! Modular multiplication `x * y mod p` of big integers by windowed
//! double-and-add, checked against a quotient `q` given as a hint.
use crate::bigint::{ceil_div, BigIntImpl};
use crate::biguint::{digits_value, is_decimal, normalized};
use crate::bn254::{bn254_modulus, lemma_modulus_decimal};
use crate::pseudo::{op_2mul_ops, op_4mul_ops, OP_2MUL, OP_4MUL};
use crate::script::{repeat, Op, Script};
use vstd::arithmetic::power2::*;
use vstd::prelude::*;

verus! {

/// The opcodes of [`limb_doubling_initial_carry`]: on `{limb} {base}` leaves
/// `{base} {carry} {2*limb - carry*base}`.
pub open spec fn initial_carry_ops() -> Seq<Op> {
    seq![Op::Swap] + op_2mul_ops() + seq![
        Op::TwoDup,
        Op::LessThanOrEqual,
        Op::Tuck,
        Op::If,
        Op::Push(2),
        Op::Pick,
        Op::Sub,
        Op::EndIf,
    ]
}

/// The opcodes of [`limb_doubling_step`]: on `{limb} {base} {carry}` leaves
/// `{base} {carry'} {2*limb + carry - carry'*base}`.
pub open spec fn doubling_step_ops() -> Seq<Op> {
    seq![Op::Rot] + op_2mul_ops() + seq![
        Op::Add,
        Op::TwoDup,
        Op::LessThanOrEqual,
        Op::Tuck,
        Op::If,
        Op::Push(2),
        Op::Pick,
        Op::Sub,
        Op::EndIf,
    ]
}

/// The opcodes of [`limb_doubling_nocarry`]: on `{limb} {carry}` leaves
/// `2*limb + carry`, less `head_offset` where it reaches it.
pub open spec fn doubling_nocarry_ops(head_offset: u32) -> Seq<Op> {
    seq![Op::Swap] + op_2mul_ops() + seq![
        Op::Add,
        Op::Push(head_offset),
        Op::TwoDup,
        Op::GreaterThanOrEqual,
        Op::If,
        Op::Sub,
        Op::Else,
        Op::Drop,
        Op::EndIf,
    ]
}

/// The opcodes that double a big integer of `n_limbs` limbs of bound `base`
/// whose head limb is bounded by `head_offset`.
pub open spec fn dbl_ops(n_limbs: nat, base: u32, head_offset: u32) -> Seq<Op> {
    seq![Op::Push(base)] + initial_carry_ops() + seq![Op::ToAltStack] + repeat(
        doubling_step_ops() + seq![Op::ToAltStack],
        (n_limbs - 2) as nat,
    ) + seq![Op::Nip] + doubling_nocarry_ops(head_offset) + repeat(
        seq![Op::FromAltStack],
        (n_limbs - 1) as nat,
    )
}

/// The opcodes of [`BigIntImpl::stack_copy`] for `n_limbs` limbs.
pub open spec fn stack_copy_ops(n_limbs: u32) -> Seq<Op> {
    seq![Op::Dup] + op_4mul_ops() + op_2mul_ops() + seq![Op::Add, Op::Push(n_limbs), Op::Add]
        + repeat(seq![Op::Dup, Op::Pick, Op::Swap], (n_limbs - 1) as nat) + seq![
        Op::OneSub,
        Op::Pick,
    ]
}

fn limb_doubling_initial_carry() -> (r: Script)
    ensures
        r@ == initial_carry_ops(),
{
    let mut s = Script::from_ops(vec![Op::Swap]);
    s.append(OP_2MUL());
    s.append(
        Script::from_ops(
            vec![
                Op::TwoDup,
                Op::LessThanOrEqual,
                Op::Tuck,
                Op::If,
                Op::Push(2),
                Op::Pick,
                Op::Sub,
                Op::EndIf,
            ],
        ),
    );
    s
}

fn limb_doubling_step() -> (r: Script)
    ensures
        r@ == doubling_step_ops(),
{
    let mut s = Script::from_ops(vec![Op::Rot]);
    s.append(OP_2MUL());
    s.append(
        Script::from_ops(
            vec![
                Op::Add,
                Op::TwoDup,
                Op::LessThanOrEqual,
                Op::Tuck,
                Op::If,
                Op::Push(2),
                Op::Pick,
                Op::Sub,
                Op::EndIf,
            ],
        ),
    );
    s
}

fn limb_doubling_nocarry(head_offset: u32) -> (r: Script)
    ensures
        r@ == doubling_nocarry_ops(head_offset),
{
    let mut s = Script::from_ops(vec![Op::Swap]);
    s.append(OP_2MUL());
    s.append(
        Script::from_ops(
            vec![
                Op::Add,
                Op::Push(head_offset),
                Op::TwoDup,
                Op::GreaterThanOrEqual,
                Op::If,
                Op::Sub,
                Op::Else,
                Op::Drop,
                Op::EndIf,
            ],
        ),
    );
    s
}

impl BigIntImpl {
    /// Double the big integer on top of the stack.
    pub fn dbl(&self) -> (r: Script)
        requires
            self.shape_ok(),
            self.limbs() >= 2,
        ensures
            r@ == dbl_ops(self.limbs(), self.base() as u32, self.head_bound() as u32),
    {
        let n = self.n_limbs();
        let mut s = Script::new();
        s.push_num(self.limb_base());
        s.append(limb_doubling_initial_carry());
        s.push_op(Op::ToAltStack);
        let ghost pre = s@;
        let mut i: u32 = 0;
        while i < n - 2
            invariant
                n == self.limbs(),
                n >= 2,
                i <= n - 2,
                s@ == pre + repeat(doubling_step_ops() + seq![Op::ToAltStack], i as nat),
            decreases n - 2 - i,
        {
            s.append(limb_doubling_step());
            s.push_op(Op::ToAltStack);
            proof {
                assert(s@ == pre + repeat(doubling_step_ops() + seq![Op::ToAltStack], (i + 1) as nat));
            }
            i = i + 1;
        }
        s.push_op(Op::Nip);
        s.append(limb_doubling_nocarry(self.head_offset()));
        let ghost mid = s@;
        let mut k: u32 = 0;
        while k < n - 1
            invariant
                n == self.limbs(),
                n >= 2,
                k <= n - 1,
                s@ == mid + repeat(seq![Op::FromAltStack], k as nat),
            decreases n - 1 - k,
        {
            s.push_op(Op::FromAltStack);
            proof {
                assert(s@ == mid + repeat(seq![Op::FromAltStack], (k + 1) as nat));
            }
            k = k + 1;
        }
        s
    }

    /// Copy to the top the `n_limbs` items that lie below depth
    /// `9 * d + n_limbs`, where `d` is the number on top of the stack.
    pub fn stack_copy(&self) -> (r: Script)
        requires
            self.shape_ok(),
        ensures
            r@ == stack_copy_ops(self.limbs() as u32),
    {
        let n = self.n_limbs();
        let mut s = Script::from_ops(vec![Op::Dup]);
        s.append(OP_4MUL());
        s.append(OP_2MUL());
        s.append(Script::from_ops(vec![Op::Add, Op::Push(n), Op::Add]));
        let ghost pre = s@;
        let mut i: u32 = 0;
        while i < n - 1
            invariant
                i <= n - 1,
                n >= 1,
                s@ == pre + repeat(seq![Op::Dup, Op::Pick, Op::Swap], i as nat),
            decreases n - 1 - i,
        {
            s.append(Script::from_ops(vec![Op::Dup, Op::Pick, Op::Swap]));
            proof {
                assert(s@ == pre + repeat(seq![Op::Dup, Op::Pick, Op::Swap], (i + 1) as nat));
            }
            i = i + 1;
        }
        s.append(Script::from_ops(vec![Op::OneSub, Op::Pick]));
        s
    }
}

/// Multiplication modulo the BN254 prime, by windows of `window` bits.
#[derive(Clone, Copy, Debug, PartialEq, Eq)]
pub struct WinBigIntImpl {
    pub n_bits: u32,
    pub limb_size: u32,
    pub window: u32,
}

/// The `w`-bit window `index` of the BN254 prime cut into `n_window`
/// windows, the most significant window first.
pub open spec fn modulus_window(w: nat, n_window: nat, index: nat) -> nat {
    (bn254_modulus() / pow2((w * (n_window - index - 1)) as nat)) % pow2(w)
}

impl WinBigIntImpl {
    /// Sizes this multiplier supports: windows of 1 to 6 bits, and sizes
    /// whose widths and stack depths fit a `u32`.
    pub open spec fn params_ok(self) -> bool {
        &&& 0 < self.limb_size < 32
        &&& 0 < self.window < 7
        &&& 0 < self.n_bits
        &&& self.n_bits + 2 * self.window + self.limb_size <= u32::MAX
        &&& 2 * self.limbs() + self.n_bits + 2 * self.window <= u32::MAX
    }

    /// Number of limbs of an operand.
    pub open spec fn limbs(self) -> nat {
        ceil_div(self.n_bits as nat, self.limb_size as nat)
    }

    /// Number of windows of an operand.
    pub open spec fn windows(self) -> nat {
        ceil_div(self.n_bits as nat, self.window as nat)
    }

    /// Number of limbs of an operand.
    pub fn n_limbs(&self) -> (r: u32)
        requires
            self.params_ok(),
        ensures
            r == self.limbs(),
            1 <= r <= self.n_bits,
    {
        let b = BigIntImpl { n_bits: self.n_bits, limb_size: self.limb_size };
        let r = b.n_limbs();
        proof {
            assert((r - 1) * self.limb_size >= r - 1) by (nonlinear_arith)
                requires
                    r >= 1,
                    self.limb_size >= 1,
            ;
        }
        r
    }

    /// Number of windows of an operand.
    pub fn n_window(&self) -> (r: u32)
        requires
            self.params_ok(),
        ensures
            r == self.windows(),
            1 <= r <= self.n_bits,
            r as int * self.window >= self.n_bits,
            r as int * self.window < self.n_bits + self.window,
    {
        let b = BigIntImpl { n_bits: self.n_bits, limb_size: self.window };
        let r = b.n_limbs();
        proof {
            assert((r - 1) * self.window >= r - 1) by (nonlinear_arith)
                requires
                    r >= 1,
                    self.window >= 1,
            ;
            assert(r * self.window == (r - 1) * self.window + self.window) by (nonlinear_arith);
        }
        r
    }

    /// The modulus, as little-endian 32-bit digits.
    pub fn modulus() -> (r: Vec<u32>)
        ensures
            digits_value(r@) == bn254_modulus(),
            normalized(r@),
    {
        let s = "21888242871839275222246405745257275088696311157297823662689037894645226208583";
        proof {
            reveal_strlit("21888242871839275222246405745257275088696311157297823662689037894645226208583");
            assert(is_decimal(s@));
            lemma_modulus_decimal();
        }
        crate::biguint::parse_decimal(s).unwrap()
    }

    /// The `window`-bit window `index` of the modulus, the most significant
    /// window first.
    fn bit_decomp_modulus(&self, index: u32) -> (r: u32)
        requires
            self.params_ok(),
            index < self.windows(),
        ensures
            r == modulus_window(self.window as nat, self.windows(), index as nat),
            r < pow2(self.window as nat),
    {
        let nw = self.n_window();
        proof {
            assert(self.window * (nw - index - 1) <= self.window * nw) by (nonlinear_arith)
                requires
                    index < nw,
            ;
        }
        let shift_by = self.window * (nw - index - 1);
        proof {
            vstd::bits::lemma_u32_pow2_no_overflow(self.window as nat);
            vstd::bits::lemma_u32_shl_is_mul(1u32, self.window);
            lemma_pow2_pos(self.window as nat);
        }
        let mask = crate::biguint::from_u32((1u32 << self.window) - 1).unwrap();
        let m = Self::modulus();
        let r = crate::biguint::window_of(&m, mask, self.window, shift_by);
        proof {
            vstd::arithmetic::div_mod::lemma_mod_bound(
                (bn254_modulus() / pow2(shift_by as nat)) as int,
                pow2(self.window as nat) as int,
            );
        }
        r
    }

    /// The generator of the scripts that read the windows of `y`.
    fn bit_decomp_script_generator(&self) -> (r: BitDecompScriptGenerator)
        requires
            self.params_ok(),
        ensures
            r == (BitDecompScriptGenerator {
                n_limbs: self.limbs() as u32,
                n_window: self.windows() as u32,
                limb_size: self.limb_size,
                window: self.window,
                index: (self.windows() + 1) as u32,
            }),
    {
        let n_limbs = self.n_limbs();
        let n_window = self.n_window();
        BitDecompScriptGenerator {
            n_limbs,
            n_window,
            limb_size: self.limb_size,
            window: self.window,
            index: n_window + 1,
        }
    }

    /// Shape of an operand.
    pub open spec fn operand(self) -> BigIntImpl {
        BigIntImpl { n_bits: self.n_bits, limb_size: self.limb_size }
    }

    /// The lookup tables, one window wider than an operand.
    pub open spec fn table(self) -> PrecomputeTable {
        PrecomputeTable {
            n_bits: (self.n_bits + self.window) as u32,
            limb_size: self.limb_size,
            window: self.window,
        }
    }

    /// The generator in its initial state.
    pub open spec fn generator(self) -> BitDecompScriptGenerator {
        BitDecompScriptGenerator {
            n_limbs: self.limbs() as u32,
            n_window: self.windows() as u32,
            limb_size: self.limb_size,
            window: self.window,
            index: (self.windows() + 1) as u32,
        }
    }

    /// Sizes [`WinBigIntImpl::OP_TMUL`] supports: the accumulator has at least
    /// two limbs.
    pub open spec fn tmul_ok(self) -> bool {
        &&& self.params_ok()
        &&& self.table().u().limbs() >= 2
    }

    /// Compute `x * y mod p` from `{q} {x} {y}`, where `q` is the quotient
    /// `x * y / p`; the script fails unless the result lies in `[0, p)`.
    #[allow(non_snake_case)]
    pub fn OP_TMUL(&self) -> (r: Script)
        requires
            self.tmul_ok(),
        ensures
            exists|m: Vec<u32>|
                digits_value(m@) == bn254_modulus() && normalized(m@) && r@ == tmul_ops(
                    *self,
                    m,
                ),
    {
        let u = BigIntImpl { n_bits: self.n_bits, limb_size: self.limb_size };
        let p = PrecomputeTable {
            n_bits: self.n_bits + self.window,
            limb_size: self.limb_size,
            window: self.window,
        };
        let pu = p.u_shape();
        let mut gen = self.bit_decomp_script_generator();
        let n_window = self.n_window();
        let n_limbs = self.n_limbs();
        let mut s = u.toaltstack();
        s.append(u.toaltstack());
        s.append(p.initialize());
        s.append(u.fromaltstack());
        s.append(p.initialize());
        s.append(u.fromaltstack());
        let ghost pre = s@;
        let mut i: u32 = 0;
        while i < n_window
            invariant
                self.tmul_ok(),
                u == self.operand(),
                p == self.table(),
                pu == p.u(),
                n_window == self.windows(),
                n_limbs == self.limbs(),
                1 <= n_window <= self.n_bits,
                1 <= n_limbs <= self.n_bits,
                n_window as int * self.window < self.n_bits + self.window,
                i <= n_window,
                gen == (BitDecompScriptGenerator { index: (n_window + 1 - i) as u32, ..self.generator() }),
                s@ == pre + tmul_loop_ops(*self, i as nat),
            decreases n_window - i,
        {
            let ghost before = s@;
            let lo: u32 = if i == 0 { 0 } else { 1 };
            if i != 0 {
                let mut k: u32 = 0;
                let ghost mid = s@;
                while k < self.window
                    invariant
                        self.tmul_ok(),
                        pu == self.table().u(),
                        k <= self.window,
                        s@ == mid + repeat(tmul_dbl_ops(*self), k as nat),
                    decreases self.window - k,
                {
                    s.append(pu.dbl());
                    proof {
                        assert(s@ == mid + repeat(tmul_dbl_ops(*self), (k + 1) as nat));
                    }
                    k = k + 1;
                }
            }
            let w = self.bit_decomp_modulus(i);
            proof {
                vstd::bits::lemma_u32_pow2_no_overflow(self.window as nat);
                vstd::bits::lemma_u32_shl_is_mul(1u32, self.window);
                assert(pow2(self.window as nat) <= 64) by {
                    lemma2_to64();
                    if self.window < 6 {
                        lemma_pow2_strictly_increases(self.window as nat, 6);
                    }
                }
            }
            let top = 1u32 << self.window;
            s.append(pu.copy(2 * top - w + lo));
            proof {
                assert(n_limbs * (1 + lo) <= 2 * n_limbs) by (nonlinear_arith)
                    requires
                        lo <= 1,
                ;
                assert((n_window + 1 - i - 1) * self.window <= n_window * self.window) by (nonlinear_arith)
                    requires
                        i <= n_window,
                ;
            }
            s.append(gen.next(1 + lo));
            s.append(Script::from_ops(vec![Op::Push(top + 1 + lo), Op::Swap, Op::Sub]));
            s.append(pu.stack_copy());
            s.append(pu.sub(0, 1));
            if i != 0 {
                s.append(pu.add(0, 1));
            }
            proof {
                assert(s@ == before + tmul_iter_ops(*self, i as nat));
                assert(s@ == pre + tmul_loop_ops(*self, (i + 1) as nat));
            }
            i = i + 1;
        }
        s.append(u.copy(0));
        s.append(u.push_zero());
        s.append(u.lessthanorequal(0, 1));
        s.push_op(Op::Verify);
        s.append(u.copy(0));
        let m = Self::modulus();
        let ghost mv = m;
        s.append(u.push_u32_le(m));
        s.append(u.greaterthan(0, 1));
        s.push_op(Op::Verify);
        s.append(u.toaltstack());
        s.append(u.drop());
        s.append(p.drop());
        s.append(p.drop());
        s.append(u.fromaltstack());
        proof {
            assert(s@ == tmul_ops(*self, mv));
        }
        s
    }
}

/// The doubling of the accumulator in [`WinBigIntImpl::OP_TMUL`].
pub open spec fn tmul_dbl_ops(w: WinBigIntImpl) -> Seq<Op> {
    let pu = w.table().u();
    dbl_ops(pu.limbs(), pu.base() as u32, pu.head_bound() as u32)
}

/// One iteration, for window `i`, of the main loop of
/// [`WinBigIntImpl::OP_TMUL`]: `z = 2^window * z + x * y[i] - q * p[i]`.
pub open spec fn tmul_iter_ops(w: WinBigIntImpl, i: nat) -> Seq<Op> {
    let pu = w.table().u();
    let lo: nat = if i == 0 {
        0
    } else {
        1
    };
    let top = pow2(w.window as nat);
    (if i != 0 {
        repeat(tmul_dbl_ops(w), w.window as nat)
    } else {
        Seq::empty()
    }) + pu.copy_ops(
        (2 * top - modulus_window(w.window as nat, w.windows(), i) + lo) as u32,
    ) + bit_decomp_ops(w.generator(), w.windows() - i, (1 + lo) as int) + seq![
        Op::Push((top + 1 + lo) as u32),
        Op::Swap,
        Op::Sub,
    ] + stack_copy_ops(pu.limbs() as u32) + pu.sub_ops(0, 1) + (if i != 0 {
        pu.add_ops(0, 1)
    } else {
        Seq::empty()
    })
}

/// The first `k` iterations of the main loop of [`WinBigIntImpl::OP_TMUL`].
pub open spec fn tmul_loop_ops(w: WinBigIntImpl, k: nat) -> Seq<Op>
    decreases k,
{
    if k == 0 {
        Seq::empty()
    } else {
        tmul_loop_ops(w, (k - 1) as nat) + tmul_iter_ops(w, (k - 1) as nat)
    }
}

/// The script of [`WinBigIntImpl::OP_TMUL`], where `m` holds the digits of
/// the modulus.
pub open spec fn tmul_ops(w: WinBigIntImpl, m: Vec<u32>) -> Seq<Op> {
    let u = w.operand();
    let p = w.table();
    u.toalt_ops() + u.toalt_ops() + p.initialize_ops() + u.fromalt_ops() + p.initialize_ops()
        + u.fromalt_ops() + tmul_loop_ops(w, w.windows()) + u.copy_ops(0) + u.push_zero_ops()
        + u.lessthanorequal_ops(0, 1) + seq![Op::Verify] + u.copy_ops(0) + u.push_u32_le_ops(m)
        + u.greaterthan_ops(0, 1) + seq![Op::Verify] + u.toalt_ops() + u.drop_ops()
        + p.drop_table_ops() + p.drop_table_ops() + u.fromalt_ops()
}

/// Reads the windows of `y`, one per call, from the most significant one.
///
/// Each call leaves the next window on the stack, keeping the limb it reads
/// on the alt stack between calls.
#[derive(Clone, Copy, Debug, PartialEq, Eq)]
pub struct BitDecompScriptGenerator {
    pub n_limbs: u32,
    pub n_window: u32,
    pub limb_size: u32,
    pub window: u32,
    /// One more than the window the next call reads, counted from 1 at the
    /// least significant end.
    pub index: u32,
}

impl BitDecompScriptGenerator {
    /// Whether a call reading from an operand at depth `src_depth` can be made.
    pub open spec fn next_ok(self, src_depth: u32) -> bool {
        &&& self.index >= 2
        &&& 0 < self.limb_size < 32
        &&& 0 < self.window
        &&& self.n_limbs * src_depth + (self.index - 1) * self.window <= u32::MAX
    }

    /// The script reading window `index` of the operand at depth `src_depth`.
    pub fn next(&mut self, src_depth: u32) -> (r: Script)
        requires
            old(self).next_ok(src_depth),
        ensures
            *final(self) == (BitDecompScriptGenerator { index: (old(self).index - 1) as u32, ..*old(self) }),
            r@ == bit_decomp_ops(*old(self), old(self).index - 1, src_depth as int),
    {
        self.index = self.index - 1;
        let index = self.index;
        let ls = self.limb_size;
        let lookup_offset = self.n_limbs * src_depth;
        proof {
            assert(index * self.window >= 1) by (nonlinear_arith)
                requires
                    index >= 1,
                    self.window >= 1,
            ;
            assert((index - 1) * self.window <= index * self.window) by (nonlinear_arith)
                requires
                    index >= 1,
            ;
        }
        let s_bit = index * self.window - 1;
        let e_bit = (index - 1) * self.window;
        proof {
            assert(e_bit <= s_bit) by (nonlinear_arith)
                requires
                    index >= 1,
                    self.window >= 1,
                    s_bit == index * self.window - 1,
                    e_bit == (index - 1) * self.window,
            ;
        }
        let s_limb = s_bit / ls;
        let e_limb = e_bit / ls;
        proof {
            assert(s_limb <= s_bit) by (nonlinear_arith)
                requires
                    ls >= 1,
                    s_limb == s_bit / ls,
            ;
            assert(e_limb <= s_limb) by (nonlinear_arith)
                requires
                    ls >= 1,
                    s_limb == s_bit / ls,
                    e_limb == e_bit / ls,
                    e_bit <= s_bit,
            ;
            assert(self.window - 1 <= s_bit) by (nonlinear_arith)
                requires
                    index >= 1,
                    s_bit == index * self.window - 1,
            ;
        }
        let mut s = Script::from_ops(vec![Op::Push(0)]);
        if index == self.n_window {
            s.append(Script::from_ops(vec![Op::Push(lookup_offset + s_limb + 1), Op::Pick]));
        } else if (s_bit + 1) % ls == 0 {
            s.append(
                Script::from_ops(
                    vec![
                        Op::FromAltStack,
                        Op::Drop,
                        Op::Push(lookup_offset + s_limb + 1),
                        Op::Pick,
                    ],
                ),
            );
        } else {
            s.push_op(Op::FromAltStack);
        }
        let ghost g = *old(self);
        let ghost pre = s@;
        assert(pre == decomp_start_ops(
            g.n_window,
            g.limb_size,
            index as int,
            lookup_offset as int,
            s_bit as int,
            s_limb as int,
        ));
        let mut i: u32 = 0;
        while i < self.window
            invariant
                *self == (BitDecompScriptGenerator { index: (g.index - 1) as u32, ..g }),
                ls == self.limb_size,
                0 < ls < 32,
                i <= self.window,
                self.window - 1 <= s_bit,
                lookup_offset + e_limb + 1 <= u32::MAX,
                s@ == pre + decomp_bits_ops(
                    g.limb_size,
                    g.window,
                    s_bit as int,
                    s_limb as int,
                    e_limb as int,
                    lookup_offset as int,
                    i as nat,
                ),
            decreases self.window - i,
        {
            let ghost before = s@;
            if s_limb > e_limb {
                if i % ls == (s_bit % ls) + 1 {
                    s.append(
                        Script::from_ops(
                            vec![Op::Drop, Op::Push(lookup_offset + e_limb + 1), Op::Pick],
                        ),
                    );
                }
            }
            let k = (s_bit - i) % ls;
            proof {
                vstd::bits::lemma_u32_pow2_no_overflow(k as nat);
                vstd::bits::lemma_u32_shl_is_mul(1u32, k);
                lemma_pow2_pos(k as nat);
            }
            s.push_op(Op::Tuck);
            s.push_num((1u32 << k) - 1);
            s.append(Script::from_ops(vec![Op::GreaterThan, Op::Tuck, Op::Add]));
            if i < self.window - 1 {
                s.append(OP_2MUL());
            }
            s.append(Script::from_ops(vec![Op::Rot, Op::Rot, Op::If, Op::Push(1u32 << k), Op::Sub, Op::EndIf]));
            proof {
                assert(s@ == before + decomp_bit_ops(
                    g.limb_size,
                    g.window,
                    s_bit as int,
                    s_limb as int,
                    e_limb as int,
                    lookup_offset as int,
                    i as int,
                ));
            }
            i = i + 1;
        }
        if index == 1 {
            s.push_op(Op::Drop);
        } else {
            s.push_op(Op::ToAltStack);
        }
        s
    }
}

/// The start of the script reading window `idx`: load the limb that holds
/// its top bit, from the operand or from the alt stack.
pub open spec fn decomp_start_ops(
    n_window: u32,
    limb_size: u32,
    idx: int,
    lo: int,
    s_bit: int,
    s_limb: int,
) -> Seq<Op> {
    seq![Op::Push(0)] + if idx == n_window {
        seq![Op::Push((lo + s_limb + 1) as u32), Op::Pick]
    } else if (s_bit + 1) % (limb_size as int) == 0 {
        seq![Op::FromAltStack, Op::Drop, Op::Push((lo + s_limb + 1) as u32), Op::Pick]
    } else {
        seq![Op::FromAltStack]
    }
}

/// The opcodes extracting bit `s_bit - i` of the window.
pub open spec fn decomp_bit_ops(
    limb_size: u32,
    window: u32,
    s_bit: int,
    s_limb: int,
    e_limb: int,
    lo: int,
    i: int,
) -> Seq<Op> {
    let ls = limb_size as int;
    let k = ((s_bit - i) % ls) as nat;
    (if s_limb > e_limb && i % ls == (s_bit % ls) + 1 {
        seq![Op::Drop, Op::Push((lo + e_limb + 1) as u32), Op::Pick]
    } else {
        Seq::empty()
    }) + seq![Op::Tuck, Op::Push((pow2(k) - 1) as u32), Op::GreaterThan, Op::Tuck, Op::Add] + (
    if i < window - 1 {
        op_2mul_ops()
    } else {
        Seq::empty()
    }) + seq![Op::Rot, Op::Rot, Op::If, Op::Push(pow2(k) as u32), Op::Sub, Op::EndIf]
}

/// The opcodes extracting the top `n` bits of the window.
pub open spec fn decomp_bits_ops(
    limb_size: u32,
    window: u32,
    s_bit: int,
    s_limb: int,
    e_limb: int,
    lo: int,
    n: nat,
) -> Seq<Op>
    decreases n,
{
    if n == 0 {
        Seq::empty()
    } else {
        decomp_bits_ops(limb_size, window, s_bit, s_limb, e_limb, lo, (n - 1) as nat)
            + decomp_bit_ops(
            limb_size,
            window,
            s_bit,
            s_limb,
            e_limb,
            lo,
            n - 1,
        )
    }
}

/// The script reading window `idx` (from 1 at the least significant end) of
/// the operand at depth `src_depth`.
pub open spec fn bit_decomp_ops(g: BitDecompScriptGenerator, idx: int, src_depth: int) -> Seq<Op> {
    let lo = g.n_limbs * src_depth;
    let s_bit = idx * g.window - 1;
    let e_bit = (idx - 1) * g.window;
    let s_limb = s_bit / (g.limb_size as int);
    let e_limb = e_bit / (g.limb_size as int);
    decomp_start_ops(g.n_window, g.limb_size, idx, lo, s_bit, s_limb) + decomp_bits_ops(
        g.limb_size,
        g.window,
        s_bit,
        s_limb,
        e_limb,
        lo,
        g.window as nat,
    ) + if idx == 1 {
        seq![Op::Drop]
    } else {
        seq![Op::ToAltStack]
    }
}

/// The table `{0*z, 1*z, ..., (2^window - 1)*z}` of the multiples of a big
/// integer `z`.
#[derive(Clone, Copy, Debug, PartialEq, Eq)]
pub struct PrecomputeTable {
    pub n_bits: u32,
    pub limb_size: u32,
    pub window: u32,
}

/// The opcodes computing entry `j` of a table of multiples of shape `u`.
pub open spec fn table_entry_ops(u: BigIntImpl, j: nat) -> Seq<Op> {
    if j % 2 == 0 {
        u.copy_ops((j / 2 - 1) as u32) + dbl_ops(u.limbs(), u.base() as u32, u.head_bound() as u32)
    } else {
        u.copy_ops(0) + u.copy_ops((j - 1) as u32) + u.add_ops(0, 1)
    }
}

/// The opcodes computing entries `2` to `k - 1` of a table of multiples.
pub open spec fn table_entries_ops(u: BigIntImpl, k: nat) -> Seq<Op>
    decreases k,
{
    if k <= 2 {
        Seq::empty()
    } else {
        table_entries_ops(u, (k - 1) as nat) + table_entry_ops(u, (k - 1) as nat)
    }
}

impl PrecomputeTable {
    /// Shape of an entry.
    pub open spec fn u(self) -> BigIntImpl {
        BigIntImpl { n_bits: self.n_bits, limb_size: self.limb_size }
    }

    /// The script of [`PrecomputeTable::drop`].
    pub open spec fn drop_table_ops(self) -> Seq<Op> {
        repeat(self.u().drop_ops(), pow2(self.window as nat))
    }

    /// The script of [`PrecomputeTable::initialize`].
    pub open spec fn initialize_ops(self) -> Seq<Op> {
        self.u().push_zero_ops() + self.u().roll_ops(1) + table_entries_ops(
            self.u(),
            pow2(self.window as nat),
        )
    }

    /// Shape of an entry.
    pub fn u_shape(&self) -> (r: BigIntImpl)
        ensures
            r == self.u(),
    {
        BigIntImpl { n_bits: self.n_bits, limb_size: self.limb_size }
    }

    /// Drop the table on top of the stack.
    fn drop(&self) -> (r: Script)
        requires
            self.window < 32,
        ensures
            r@ == self.drop_table_ops(),
    {
        let u = self.u_shape();
        proof {
            vstd::bits::lemma_u32_pow2_no_overflow(self.window as nat);
            vstd::bits::lemma_u32_shl_is_mul(1u32, self.window);
        }
        let n = 1u32 << self.window;
        let mut s = Script::new();
        let mut i: u32 = 0;
        while i < n
            invariant
                u == self.u(),
                i <= n,
                s@ == repeat(u.drop_ops(), i as nat),
            decreases n - i,
        {
            s.append(u.drop());
            proof {
                assert(s@ == repeat(u.drop_ops(), (i + 1) as nat));
            }
            i = i + 1;
        }
        s
    }

    /// The table for a one-bit window, `{0, z}`, from `{z}`.
    fn initialize_1mul(&self) -> (r: Script)
        ensures
            r@ == self.u().push_zero_ops() + self.u().roll_ops(1),
    {
        let u = self.u_shape();
        let mut s = u.push_zero();
        s.append(u.roll(1));
        s
    }

    /// Replace `{z}` by the table `{0*z, 1*z, ..., (2^window - 1)*z}`.
    pub fn initialize(&self) -> (r: Script)
        requires
            0 < self.window < 7,
            self.u().shape_ok(),
            self.u().limbs() >= 2,
        ensures
            r@ == self.initialize_ops(),
    {
        let u = self.u_shape();
        let mut s = self.initialize_1mul();
        let ghost pre = s@;
        proof {
            assert(pow2(1) == 2 && pow2(2) == 4) by {
                lemma2_to64();
            }
            assert(table_entries_ops(u, 2) == Seq::<Op>::empty());
        }
        if self.window > 1 {
            let mut i: u32 = 2;
            while i <= self.window
                invariant
                    u == self.u(),
                    u.shape_ok(),
                    u.limbs() >= 2,
                    0 < self.window < 7,
                    2 <= i <= self.window + 1,
                    s@ == pre + table_entries_ops(u, pow2((i - 1) as nat)),
                decreases self.window + 1 - i,
            {
                proof {
                    vstd::bits::lemma_u32_pow2_no_overflow(i as nat);
                    vstd::bits::lemma_u32_pow2_no_overflow((i - 1) as nat);
                    vstd::bits::lemma_u32_shl_is_mul(1u32, i);
                    lemma2_to64();
                    if i > 2 {
                        lemma_pow2_strictly_increases(1, (i - 1) as nat);
                    }
                    vstd::bits::lemma_u32_shl_is_mul(1u32, (i - 1) as u32);
                    lemma_pow2_unfold(i as nat);
                    lemma_pow2_pos((i - 1) as nat);
                }
                let hi = 1u32 << i;
                let mut j: u32 = 1u32 << (i - 1);
                while j < hi
                    invariant
                        u == self.u(),
                        u.shape_ok(),
                        u.limbs() >= 2,
                        hi == pow2(i as nat),
                        2 <= j <= hi,
                        s@ == pre + table_entries_ops(u, j as nat),
                    decreases hi - j,
                {
                    let ghost before = s@;
                    if j % 2 == 0 {
                        s.append(u.copy(j / 2 - 1));
                        s.append(u.dbl());
                    } else {
                        s.append(u.copy(0));
                        s.append(u.copy(j - 1));
                        s.append(u.add(0, 1));
                    }
                    proof {
                        assert(s@ == before + table_entry_ops(u, j as nat));
                        assert(s@ == pre + table_entries_ops(u, (j + 1) as nat));
                    }
                    j = j + 1;
                }
                i = i + 1;
            }
        }
        s
    }
}

} // verus!
