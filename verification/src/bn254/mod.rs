//! Arithmetic in the base field of the BN254 curve.
pub mod adding;
pub mod fp254_op_tmul;
pub mod laws;
pub mod main_loop;
pub mod multiplier;
pub mod quotient;
pub mod steps;
pub mod tables;
pub mod zipping;

use crate::biguint::{decimal_prefix_value, decimal_value, is_decimal};
use vstd::prelude::*;

verus! {

/// The prime modulus of the BN254 base field.
pub open spec fn bn254_modulus() -> nat {
    21888242871839275222246405745257275088696311157297823662689037894645226208583nat
}

/// The decimal digits of the BN254 base field prime.
pub open spec fn modulus_decimal() -> Seq<char> {
    "21888242871839275222246405745257275088696311157297823662689037894645226208583"@
}

/// The decimal digits of [`modulus_decimal`] denote the BN254 prime.
pub proof fn lemma_modulus_decimal()
    ensures
        is_decimal(modulus_decimal()),
        decimal_value(modulus_decimal()) == bn254_modulus(),
{
    reveal_strlit("21888242871839275222246405745257275088696311157297823662689037894645226208583");
    let s = modulus_decimal();
    assert(s.len() == 77);
    assert(decimal_prefix_value(s, 0) == 0nat);
    assert(decimal_prefix_value(s, 1) == 2nat);
    assert(decimal_prefix_value(s, 2) == 21nat);
    assert(decimal_prefix_value(s, 3) == 218nat);
    assert(decimal_prefix_value(s, 4) == 2188nat);
    assert(decimal_prefix_value(s, 5) == 21888nat);
    assert(decimal_prefix_value(s, 6) == 218882nat);
    assert(decimal_prefix_value(s, 7) == 2188824nat);
    assert(decimal_prefix_value(s, 8) == 21888242nat);
    assert(decimal_prefix_value(s, 9) == 218882428nat);
    assert(decimal_prefix_value(s, 10) == 2188824287nat);
    assert(decimal_prefix_value(s, 11) == 21888242871nat);
    assert(decimal_prefix_value(s, 12) == 218882428718nat);
    assert(decimal_prefix_value(s, 13) == 2188824287183nat);
    assert(decimal_prefix_value(s, 14) == 21888242871839nat);
    assert(decimal_prefix_value(s, 15) == 218882428718392nat);
    assert(decimal_prefix_value(s, 16) == 2188824287183927nat);
    assert(decimal_prefix_value(s, 17) == 21888242871839275nat);
    assert(decimal_prefix_value(s, 18) == 218882428718392752nat);
    assert(decimal_prefix_value(s, 19) == 2188824287183927522nat);
    assert(decimal_prefix_value(s, 20) == 21888242871839275222nat);
    assert(decimal_prefix_value(s, 21) == 218882428718392752222nat);
    assert(decimal_prefix_value(s, 22) == 2188824287183927522224nat);
    assert(decimal_prefix_value(s, 23) == 21888242871839275222246nat);
    assert(decimal_prefix_value(s, 24) == 218882428718392752222464nat);
    assert(decimal_prefix_value(s, 25) == 2188824287183927522224640nat);
    assert(decimal_prefix_value(s, 26) == 21888242871839275222246405nat);
    assert(decimal_prefix_value(s, 27) == 218882428718392752222464057nat);
    assert(decimal_prefix_value(s, 28) == 2188824287183927522224640574nat);
    assert(decimal_prefix_value(s, 29) == 21888242871839275222246405745nat);
    assert(decimal_prefix_value(s, 30) == 218882428718392752222464057452nat);
    assert(decimal_prefix_value(s, 31) == 2188824287183927522224640574525nat);
    assert(decimal_prefix_value(s, 32) == 21888242871839275222246405745257nat);
    assert(decimal_prefix_value(s, 33) == 218882428718392752222464057452572nat);
    assert(decimal_prefix_value(s, 34) == 2188824287183927522224640574525727nat);
    assert(decimal_prefix_value(s, 35) == 21888242871839275222246405745257275nat);
    assert(decimal_prefix_value(s, 36) == 218882428718392752222464057452572750nat);
    assert(decimal_prefix_value(s, 37) == 2188824287183927522224640574525727508nat);
    assert(decimal_prefix_value(s, 38) == 21888242871839275222246405745257275088nat);
    assert(decimal_prefix_value(s, 39) == 218882428718392752222464057452572750886nat);
    assert(decimal_prefix_value(s, 40) == 2188824287183927522224640574525727508869nat);
    assert(decimal_prefix_value(s, 41) == 21888242871839275222246405745257275088696nat);
    assert(decimal_prefix_value(s, 42) == 218882428718392752222464057452572750886963nat);
    assert(decimal_prefix_value(s, 43) == 2188824287183927522224640574525727508869631nat);
    assert(decimal_prefix_value(s, 44) == 21888242871839275222246405745257275088696311nat);
    assert(decimal_prefix_value(s, 45) == 218882428718392752222464057452572750886963111nat);
    assert(decimal_prefix_value(s, 46) == 2188824287183927522224640574525727508869631115nat);
    assert(decimal_prefix_value(s, 47) == 21888242871839275222246405745257275088696311157nat);
    assert(decimal_prefix_value(s, 48) == 218882428718392752222464057452572750886963111572nat);
    assert(decimal_prefix_value(s, 49) == 2188824287183927522224640574525727508869631115729nat);
    assert(decimal_prefix_value(s, 50) == 21888242871839275222246405745257275088696311157297nat);
    assert(decimal_prefix_value(s, 51) == 218882428718392752222464057452572750886963111572978nat);
    assert(decimal_prefix_value(s, 52) == 2188824287183927522224640574525727508869631115729782nat);
    assert(decimal_prefix_value(s, 53) == 21888242871839275222246405745257275088696311157297823nat);
    assert(decimal_prefix_value(s, 54) == 218882428718392752222464057452572750886963111572978236nat);
    assert(decimal_prefix_value(s, 55) == 2188824287183927522224640574525727508869631115729782366nat);
    assert(decimal_prefix_value(s, 56) == 21888242871839275222246405745257275088696311157297823662nat);
    assert(decimal_prefix_value(s, 57) == 218882428718392752222464057452572750886963111572978236626nat);
    assert(decimal_prefix_value(s, 58) == 2188824287183927522224640574525727508869631115729782366268nat);
    assert(decimal_prefix_value(s, 59) == 21888242871839275222246405745257275088696311157297823662689nat);
    assert(decimal_prefix_value(s, 60) == 218882428718392752222464057452572750886963111572978236626890nat);
    assert(decimal_prefix_value(s, 61) == 2188824287183927522224640574525727508869631115729782366268903nat);
    assert(decimal_prefix_value(s, 62) == 21888242871839275222246405745257275088696311157297823662689037nat);
    assert(decimal_prefix_value(s, 63) == 218882428718392752222464057452572750886963111572978236626890378nat);
    assert(decimal_prefix_value(s, 64) == 2188824287183927522224640574525727508869631115729782366268903789nat);
    assert(decimal_prefix_value(s, 65) == 21888242871839275222246405745257275088696311157297823662689037894nat);
    assert(decimal_prefix_value(s, 66) == 218882428718392752222464057452572750886963111572978236626890378946nat);
    assert(decimal_prefix_value(s, 67) == 2188824287183927522224640574525727508869631115729782366268903789464nat);
    assert(decimal_prefix_value(s, 68) == 21888242871839275222246405745257275088696311157297823662689037894645nat);
    assert(decimal_prefix_value(s, 69) == 218882428718392752222464057452572750886963111572978236626890378946452nat);
    assert(decimal_prefix_value(s, 70) == 2188824287183927522224640574525727508869631115729782366268903789464522nat);
    assert(decimal_prefix_value(s, 71) == 21888242871839275222246405745257275088696311157297823662689037894645226nat);
    assert(decimal_prefix_value(s, 72) == 218882428718392752222464057452572750886963111572978236626890378946452262nat);
    assert(decimal_prefix_value(s, 73) == 2188824287183927522224640574525727508869631115729782366268903789464522620nat);
    assert(decimal_prefix_value(s, 74) == 21888242871839275222246405745257275088696311157297823662689037894645226208nat);
    assert(decimal_prefix_value(s, 75) == 218882428718392752222464057452572750886963111572978236626890378946452262085nat);
    assert(decimal_prefix_value(s, 76) == 2188824287183927522224640574525727508869631115729782366268903789464522620858nat);
    assert(decimal_prefix_value(s, 77) == 21888242871839275222246405745257275088696311157297823662689037894645226208583nat);
}

} // verus!
