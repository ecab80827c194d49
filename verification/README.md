# bitvm

Generators of Bitcoin scripts that multiply in the base field of the BN254
curve with windowed multiplication, on big integers held as limbs on the
script stack, verified with Verus.

Each generator returns a `Script`, a sequence of opcodes. Its contract gives
the exact opcodes; laws state what they compute, over a model of the script
interpreter (`script::run`): a main stack and an alt stack of integers, and
the branch conditions of `OP_IF`. Routines of the surrounding big-integer
library (copy, add, compare, ...) appear in scripts by reference; the model
runs each as one step with the stack effect that `routines::routine_effect`
gives it.

Layout of `src/`:

- `script.rs`: opcodes, scripts, the interpreter model.
- `routines.rs`: the stack effects of the big-integer library's routines.
- `stack.rs`: what single opcodes and fragments do to the stacks.
- `pseudo.rs`: `OP_2MUL`, `OP_4MUL`, `OP_NDUP`.
- `biguint.rs`: numbers as 32-bit digits, and the calls into `num-bigint`.
- `bigint/`: the shape of a big integer on the stack; the windowed
  multiplier `WinBigIntImpl` with its tables and window reader; doubling,
  copying and window reading, with their laws; `win_loop.rs` follows its
  main loop window by window and proves what the whole multiplier leaves.
- `bn254/`: the multiplier `Fq` with separate window widths for the operand
  and the modulus; doubling, sign tests, resizing, zipping and adding of
  limbs, the tables of multiples, the check of the quotient and the close
  of both multipliers (the result checked below `p`), with their laws;
  `steps.rs` and `main_loop.rs` follow the main loop of `Fq` iteration by
  iteration, and `multiplier.rs` joins the pieces: on `{q} {x} {y}` the
  multiplier leaves `x * y - q * p` modulo `2^ext` where that lies below
  `p`, and fails otherwise; with `q = x * y / p` it leaves `x * y mod p`.
- `windows.rs`: the arithmetic of windowed multiplication: the schedules of
  both multipliers end at `x * y mod p`.

`tests/` runs the generated scripts, the whole multipliers included, on
concrete numbers, with the same routine effects.
