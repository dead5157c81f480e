//! Arithmetic in the Mersenne-31 prime field.
//!
//! Trace cells and constraint residuals are canonical field representatives:
//! integers below `FIELD_MODULUS`. The three operations here are the only
//! field arithmetic the constraint evaluation needs.

use vstd::arithmetic::div_mod::{
    lemma_add_mod_noop, lemma_mod_self_0, lemma_mod_twice, lemma_small_mod,
    lemma_sub_mod_noop,
};
use vstd::prelude::*;

verus! {

/// The Mersenne-31 prime `2^31 - 1`, the order of the working field.
pub const FIELD_MODULUS: u32 = 0x7fff_ffff;

/// The canonical representative of `x` in the field.
pub open spec fn fp(x: int) -> int {
    x % (FIELD_MODULUS as int)
}

/// A difference of canonical representatives reduces to zero exactly when the
/// two are equal.
pub proof fn lemma_fp_diff_zero(a: u32, b: u32)
    requires
        a < FIELD_MODULUS,
        b < FIELD_MODULUS,
    ensures
        fp(a - b) == 0 <==> a == b,
{
    let p = FIELD_MODULUS as int;
    if a >= b {
        lemma_small_mod((a - b) as nat, p as nat);
    } else {
        lemma_add_mod_noop(a - b, p, p);
        lemma_mod_self_0(p);
        lemma_mod_twice(a - b + p, p);
        lemma_small_mod((a - b + p) as nat, p as nat);
    }
}

/// Field addition on canonical representatives.
pub fn fp_add(a: u32, b: u32) -> (r: u32)
    requires
        a < FIELD_MODULUS,
        b < FIELD_MODULUS,
    ensures
        r < FIELD_MODULUS,
        r == fp(a + b),
{
    let s = a + b;
    proof {
        let p = FIELD_MODULUS as int;
        if s >= FIELD_MODULUS {
            lemma_sub_mod_noop(s as int, p, p);
            lemma_mod_self_0(p);
            lemma_small_mod((s - FIELD_MODULUS) as nat, p as nat);
        } else {
            lemma_small_mod(s as nat, p as nat);
        }
    }
    if s >= FIELD_MODULUS {
        s - FIELD_MODULUS
    } else {
        s
    }
}

/// Field subtraction on canonical representatives.
pub fn fp_sub(a: u32, b: u32) -> (r: u32)
    requires
        a < FIELD_MODULUS,
        b < FIELD_MODULUS,
    ensures
        r < FIELD_MODULUS,
        r == fp(a - b),
        r == 0 <==> a == b,
{
    proof {
        let p = FIELD_MODULUS as int;
        if a >= b {
            lemma_small_mod((a - b) as nat, p as nat);
        } else {
            lemma_add_mod_noop(a - b, p, p);
            lemma_mod_self_0(p);
            lemma_mod_twice(a - b + p, p);
            lemma_small_mod((a + FIELD_MODULUS - b) as nat, p as nat);
        }
    }
    if a >= b {
        a - b
    } else {
        a + FIELD_MODULUS - b
    }
}

/// Field multiplication on canonical representatives.
pub fn fp_mul(a: u32, b: u32) -> (r: u32)
    requires
        a < FIELD_MODULUS,
        b < FIELD_MODULUS,
    ensures
        r < FIELD_MODULUS,
        r == fp(a * b),
{
    proof {
        assert((a as int) * (b as int) <= 0x7fff_fffe * 0x7fff_fffe) by (nonlinear_arith)
            requires
                a <= 0x7fff_fffeu32,
                b <= 0x7fff_fffeu32,
        ;
    }
    let prod: u64 = (a as u64) * (b as u64);
    let r = (prod % (FIELD_MODULUS as u64)) as u32;
    proof {
        vstd::arithmetic::div_mod::lemma_mod_bound(prod as int, FIELD_MODULUS as int);
    }
    r
}

} // verus!
