//! Thirty-bit decompositions, most significant bit first.
//!
//! A remainder is witnessed by its binary digits so that the comparison
//! "remainder < modulus" can be expressed by polynomial constraints: the two
//! numbers first differ at a position where the modulus has a one and the
//! remainder a zero. This module gives the decomposition, its value, and the
//! ordering facts the constraint arguments rest on.

use vstd::arithmetic::div_mod::{
    lemma_div_denominator, lemma_div_pos_is_pos, lemma_fundamental_div_mod,
};
use vstd::arithmetic::power2::{
    lemma2_to64, lemma_pow2_pos, lemma_pow2_strictly_increases, lemma_pow2_unfold, pow2,
};
use vstd::prelude::*;

verus! {

/// Width of every decomposition: the bit budget of the modulus.
pub const NUM_BITS: usize = 30;

/// One more than the largest value that fits the bit budget: `2^30`.
pub const BIT_BUDGET: u32 = 0x4000_0000;

/// The value of a most-significant-first sequence of binary digits.
pub open spec fn bits_value(s: Seq<u32>) -> int
    decreases s.len(),
{
    if s.len() == 0 {
        0
    } else {
        bits_value(s.drop_last()) * 2 + s.last()
    }
}

/// Every entry of `s` is a binary digit.
pub open spec fn all_bits(s: Seq<u32>) -> bool {
    forall|j: int| 0 <= j < s.len() ==> s[j] <= 1
}

/// The most-significant-first `n`-bit decomposition of `v`.
pub open spec fn bit_seq(v: int, n: nat) -> Seq<u32> {
    Seq::new(n, |j: int| (((v / pow2((n - 1 - j) as nat) as int) % 2) as u32))
}

/// The most-significant-first decomposition of `v` over the full bit budget.
pub open spec fn decompose_spec(v: int) -> Seq<u32> {
    bit_seq(v, NUM_BITS as nat)
}

pub proof fn lemma_bits_value_bound(s: Seq<u32>)
    requires
        all_bits(s),
    ensures
        0 <= bits_value(s) < pow2(s.len()),
    decreases s.len(),
{
    if s.len() == 0 {
        lemma2_to64();
    } else {
        assert(all_bits(s.drop_last()));
        lemma_bits_value_bound(s.drop_last());
        lemma_pow2_unfold(s.len());
    }
}

/// Two digit sequences of the same length and the same value are equal.
pub proof fn lemma_bits_value_injective(s1: Seq<u32>, s2: Seq<u32>)
    requires
        s1.len() == s2.len(),
        all_bits(s1),
        all_bits(s2),
        bits_value(s1) == bits_value(s2),
    ensures
        s1 == s2,
    decreases s1.len(),
{
    if s1.len() == 0 {
        assert(s1 =~= s2);
    } else {
        let a = bits_value(s1.drop_last());
        let c = bits_value(s2.drop_last());
        assert(s1.last() <= 1 && s2.last() <= 1);
        assert(2 * a + s1.last() == 2 * c + s2.last());
        assert(s1.last() == s2.last() && a == c);
        assert(all_bits(s1.drop_last()) && all_bits(s2.drop_last()));
        lemma_bits_value_injective(s1.drop_last(), s2.drop_last());
        assert forall|i: int| 0 <= i < s1.len() implies s1[i] == s2[i] by {
            if i < s1.len() - 1 {
                assert(s1[i] == s1.drop_last()[i]);
                assert(s2[i] == s2.drop_last()[i]);
            }
        }
        assert(s1 =~= s2);
    }
}

/// If two digit sequences agree before position `j` and at `j` the first has
/// a zero where the second has a one, the first denotes the smaller value.
pub proof fn lemma_bits_value_prefix_lt(s1: Seq<u32>, s2: Seq<u32>, j: int)
    requires
        s1.len() == s2.len(),
        all_bits(s1),
        all_bits(s2),
        0 <= j < s1.len(),
        s1.take(j) == s2.take(j),
        s1[j] == 0,
        s2[j] == 1,
    ensures
        bits_value(s1) < bits_value(s2),
    decreases s1.len(),
{
    let n = s1.len() as int;
    assert(all_bits(s1.drop_last()) && all_bits(s2.drop_last()));
    if j == n - 1 {
        assert(s1.drop_last() =~= s1.take(j));
        assert(s2.drop_last() =~= s2.take(j));
        assert(s1.last() == 0 && s2.last() == 1);
    } else {
        assert(s1.drop_last().take(j) =~= s1.take(j));
        assert(s2.drop_last().take(j) =~= s2.take(j));
        lemma_bits_value_prefix_lt(s1.drop_last(), s2.drop_last(), j);
        assert(s1.last() <= 1 && s2.last() >= 0);
    }
}

/// Decomposing a value in range and reading the digits back yields the value.
pub proof fn lemma_bit_seq_value(v: int, n: nat)
    requires
        0 <= v < pow2(n),
    ensures
        bit_seq(v, n).len() == n,
        all_bits(bit_seq(v, n)),
        bits_value(bit_seq(v, n)) == v,
    decreases n,
{
    let s = bit_seq(v, n);
    assert forall|j: int| 0 <= j < n implies s[j] <= 1 by {
        lemma_pow2_pos((n - 1 - j) as nat);
        lemma_div_pos_is_pos(v, pow2((n - 1 - j) as nat) as int);
    }
    if n == 0 {
        lemma2_to64();
    } else {
        lemma_fundamental_div_mod(v, 2);
        lemma_pow2_unfold(n);
        let t = bit_seq(v / 2, (n - 1) as nat);
        assert forall|j: int| 0 <= j < n - 1 implies s.drop_last()[j] == t[j] by {
            lemma_pow2_pos((n - 2 - j) as nat);
            lemma_pow2_unfold((n - 1 - j) as nat);
            lemma_div_denominator(v, 2, pow2((n - 2 - j) as nat) as int);
        }
        assert(s.drop_last() =~= t);
        assert(v / 2 < pow2((n - 1) as nat));
        lemma_bit_seq_value(v / 2, (n - 1) as nat);
        lemma2_to64();
        assert(s.last() == ((v / pow2(0) as int) % 2) as u32);
        assert(v / pow2(0) as int == v);
        assert(bits_value(s) == (v / 2) * 2 + v % 2);
    }
}

/// Law: the value of a thirty-bit vector is in range, and decomposing that
/// value yields the vector back.
pub proof fn lemma_decompose_round_trip(s: Seq<u32>)
    requires
        s.len() == NUM_BITS,
        all_bits(s),
    ensures
        0 <= bits_value(s) < BIT_BUDGET,
        decompose_spec(bits_value(s)) == s,
{
    lemma_bits_value_bound(s);
    lemma2_to64();
    lemma_bit_seq_value(bits_value(s), NUM_BITS as nat);
    lemma_bits_value_injective(decompose_spec(bits_value(s)), s);
}

/// Decompose `v` into its thirty binary digits, most significant first.
pub fn decompose(v: u32) -> (bits: Vec<u32>)
    requires
        v < BIT_BUDGET,
    ensures
        bits@ == decompose_spec(v as int),
        bits@.len() == NUM_BITS,
        all_bits(bits@),
        bits_value(bits@) == v,
{
    let mut bits: Vec<u32> = Vec::new();
    let mut d: u32 = 0x2000_0000;
    let mut j: usize = 0;
    proof {
        lemma2_to64();
    }
    while j < NUM_BITS
        invariant
            j <= NUM_BITS,
            bits@.len() == j as int,
            v < BIT_BUDGET,
            j < NUM_BITS ==> d == pow2((NUM_BITS - 1 - j) as nat),
            forall|i: int| 0 <= i < j ==> bits@[i] == decompose_spec(v as int)[i],
        decreases NUM_BITS - j,
    {
        proof {
            lemma_pow2_pos((NUM_BITS - 1 - j) as nat);
        }
        let b = (v / d) % 2;
        proof {
            assert(decompose_spec(v as int)[j as int] == b);
        }
        bits.push(b);
        proof {
            if j + 1 < NUM_BITS {
                lemma_pow2_unfold((NUM_BITS - 1 - j) as nat);
            }
        }
        d = d / 2;
        j += 1;
    }
    proof {
        assert(bits@ =~= decompose_spec(v as int));
        lemma2_to64();
        lemma_bit_seq_value(v as int, NUM_BITS as nat);
    }
    bits
}

/// Read the value of thirty binary digits back, most significant first.
pub fn recompose(bits: &Vec<u32>) -> (v: u32)
    requires
        bits@.len() == NUM_BITS,
        all_bits(bits@),
    ensures
        v == bits_value(bits@),
        v < BIT_BUDGET,
{
    let mut v: u32 = 0;
    let mut j: usize = 0;
    proof {
        lemma2_to64();
    }
    while j < NUM_BITS
        invariant
            j <= NUM_BITS,
            bits@.len() == NUM_BITS,
            all_bits(bits@),
            v == bits_value(bits@.take(j as int)),
            v < pow2(j as nat),
        decreases NUM_BITS - j,
    {
        proof {
            lemma2_to64();
            if (j as nat) < 29 {
                lemma_pow2_strictly_increases(j as nat, 29);
            }
            assert(bits@.take(j as int + 1).drop_last() =~= bits@.take(j as int));
            assert(bits@.take(j as int + 1).last() == bits@[j as int]);
            lemma_pow2_unfold((j + 1) as nat);
        }
        v = v * 2 + bits[j];
        j += 1;
    }
    proof {
        assert(bits@.take(NUM_BITS as int) =~= bits@);
    }
    v
}

/// The first position at which two equally long digit vectors differ, if any.
pub fn find_first_diff(a: &Vec<u32>, b: &Vec<u32>) -> (r: Option<usize>)
    requires
        a@.len() == b@.len(),
    ensures
        match r {
            Some(j) => 0 <= j < a@.len() && a@[j as int] != b@[j as int] && (forall|i: int|
                0 <= i < j ==> a@[i] == b@[i]),
            None => a@ == b@,
        },
{
    let n = a.len();
    let mut j: usize = 0;
    while j < n
        invariant
            j <= n,
            n == a@.len() == b@.len(),
            forall|i: int| 0 <= i < j ==> a@[i] == b@[i],
        decreases n - j,
    {
        if a[j] != b[j] {
            return Some(j);
        }
        j += 1;
    }
    proof {
        assert(a@ =~= b@);
    }
    None
}

} // verus!
