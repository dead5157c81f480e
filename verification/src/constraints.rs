//! The polynomial constraints a witness table must satisfy.
//!
//! Each constraint is evaluated on concrete rows and yields a field-valued
//! residual; the proof backend requires every residual to be zero. Boundary
//! constraints pin the first and last rows; transition constraints hold on
//! every row that has a successor and enforce booleanness, the one-hot split
//! index, the bit reconstruction of the remainder, the comparison encoding
//! "remainder < modulus", and the algebraic linkage of consecutive rows. This
//! component never fails: a nonzero residual is a value, not an error.

use crate::bits::{all_bits, bits_value, decompose, decompose_spec, lemma_bit_seq_value, NUM_BITS};
use crate::field::{fp, fp_add, fp_mul, fp_sub, lemma_fp_diff_zero, FIELD_MODULUS};
use crate::trace::{is_split_at, lemma_rem_at_bound, ExponentRangeCheckAir, Row, Trace};
use vstd::arithmetic::div_mod::{
    lemma_add_mod_noop, lemma_add_mod_noop_right, lemma_fundamental_div_mod,
    lemma_mul_mod_noop_left, lemma_mul_mod_noop_right, lemma_small_mod, lemma_sub_mod_noop,
    lemma_sub_mod_noop_right,
};
use vstd::arithmetic::power2::{lemma2_to64, lemma_pow2_unfold, pow2};
use vstd::prelude::*;

verus! {

/// The sum of the entries of `s`.
pub open spec fn seq_sum(s: Seq<u32>) -> int
    decreases s.len(),
{
    if s.len() == 0 {
        0
    } else {
        seq_sum(s.drop_last()) + s.last()
    }
}

/// The entries of `s` before position `i`, each at its trace weight
/// `2^(NUM_BITS - 1 - j)`, summed.
pub open spec fn prefix_weight(s: Seq<u32>, i: int) -> int
    decreases i,
{
    if i <= 0 {
        0
    } else {
        prefix_weight(s, i - 1) + s[i - 1] * pow2((NUM_BITS - i) as nat)
    }
}

pub proof fn lemma_seq_sum_zeros(s: Seq<u32>)
    requires
        forall|j: int| 0 <= j < s.len() ==> s[j] == 0,
    ensures
        seq_sum(s) == 0,
    decreases s.len(),
{
    if s.len() > 0 {
        lemma_seq_sum_zeros(s.drop_last());
    }
}

pub proof fn lemma_seq_sum_one_hot(s: Seq<u32>, k: int)
    requires
        0 <= k < s.len(),
        s[k] == 1,
        forall|j: int| 0 <= j < s.len() && j != k ==> s[j] == 0,
    ensures
        seq_sum(s) == 1,
    decreases s.len(),
{
    if k == s.len() - 1 {
        lemma_seq_sum_zeros(s.drop_last());
    } else {
        lemma_seq_sum_one_hot(s.drop_last(), k);
    }
}

/// The weighted prefix is the value of the taken digits, shifted up by the
/// weight of the last position taken.
pub proof fn lemma_prefix_weight_value(s: Seq<u32>, i: int)
    requires
        s.len() == NUM_BITS,
        0 <= i <= NUM_BITS,
    ensures
        prefix_weight(s, i) == bits_value(s.take(i)) * pow2((NUM_BITS - i) as nat),
    decreases i,
{
    if i == 0 {
        assert(bits_value(s.take(0)) == 0);
    } else {
        lemma_prefix_weight_value(s, i - 1);
        assert(s.take(i).drop_last() =~= s.take(i - 1));
        assert(s.take(i).last() == s[i - 1]);
        lemma_pow2_unfold((NUM_BITS - i + 1) as nat);
        let a = bits_value(s.take(i - 1));
        let b = s[i - 1] as int;
        let q = pow2((NUM_BITS - i) as nat) as int;
        assert(prefix_weight(s, i) == a * (2 * q) + b * q);
        assert(bits_value(s.take(i)) == a * 2 + b);
        assert(a * (2 * q) + b * q == (a * 2 + b) * q) by (nonlinear_arith);
    }
}

/// The residuals of the first-row boundary constraints.
pub struct FirstRowResiduals {
    /// The first remainder against the generator.
    pub remainder: u32,
    /// The first selector against one.
    pub selector: u32,
    /// The first quotient against zero.
    pub quotient: u32,
}

/// The residuals of the last-row boundary constraints.
pub struct LastRowResiduals {
    /// The last remainder against the declared final value.
    pub remainder: u32,
    /// The last selector against zero.
    pub selector: u32,
}

/// The residuals of the transition constraints on one row and its successor.
pub struct TransitionResiduals {
    /// The selector is a bit.
    pub selector_boolean: u32,
    /// Each split-index slot is a bit.
    pub split_boolean: Vec<u32>,
    /// The split-index slots sum to one.
    pub split_sum: u32,
    /// Each decomposition slot is a bit.
    pub bit_boolean: Vec<u32>,
    /// The weighted decomposition slots sum to the remainder slot.
    pub reconstruction: u32,
    /// At the selected position the remainder's digit is zero.
    pub split_remainder_bit: Vec<u32>,
    /// At the selected position the modulus's digit is one.
    pub split_modulus_bit: Vec<u32>,
    /// Above the selected position remainder and modulus digits agree.
    pub split_prefix: Vec<u32>,
    /// The next row's remainder and quotient reproduce this row's step.
    pub step_linkage: u32,
}

impl TransitionResiduals {
    /// The vectors carry one residual per bit position.
    pub open spec fn wf(self) -> bool {
        &&& self.split_boolean@.len() == NUM_BITS
        &&& self.bit_boolean@.len() == NUM_BITS
        &&& self.split_remainder_bit@.len() == NUM_BITS
        &&& self.split_modulus_bit@.len() == NUM_BITS
        &&& self.split_prefix@.len() == NUM_BITS
    }

    /// Every residual of the family is zero.
    pub open spec fn spec_all_zero(self) -> bool {
        &&& self.selector_boolean == 0
        &&& (forall|j: int| 0 <= j < self.split_boolean@.len() ==> self.split_boolean@[j] == 0)
        &&& self.split_sum == 0
        &&& (forall|j: int| 0 <= j < self.bit_boolean@.len() ==> self.bit_boolean@[j] == 0)
        &&& self.reconstruction == 0
        &&& (forall|j: int|
            0 <= j < self.split_remainder_bit@.len() ==> self.split_remainder_bit@[j] == 0)
        &&& (forall|j: int|
            0 <= j < self.split_modulus_bit@.len() ==> self.split_modulus_bit@[j] == 0)
        &&& (forall|j: int| 0 <= j < self.split_prefix@.len() ==> self.split_prefix@[j] == 0)
        &&& self.step_linkage == 0
    }

    /// Whether every residual of the family is zero.
    pub fn all_zero(&self) -> (z: bool)
        ensures
            z == self.spec_all_zero(),
    {
        self.selector_boolean == 0 && vec_all_zero(&self.split_boolean) && self.split_sum == 0
            && vec_all_zero(&self.bit_boolean) && self.reconstruction == 0 && vec_all_zero(
            &self.split_remainder_bit,
        ) && vec_all_zero(&self.split_modulus_bit) && vec_all_zero(&self.split_prefix)
            && self.step_linkage == 0
    }
}

/// Whether every entry of `v` is zero.
fn vec_all_zero(v: &Vec<u32>) -> (z: bool)
    ensures
        z == (forall|j: int| 0 <= j < v@.len() ==> v@[j] == 0),
{
    let n = v.len();
    let mut j: usize = 0;
    while j < n
        invariant
            j <= n,
            n == v@.len(),
            forall|t: int| 0 <= t < j ==> v@[t] == 0,
        decreases n - j,
    {
        if v[j] != 0 {
            return false;
        }
        j += 1;
    }
    true
}

impl ExponentRangeCheckAir {
    /// The first-row boundary residuals are all zero.
    pub open spec fn first_row_zero(self, row: Row) -> bool {
        &&& fp(row.remainder - self.gen) == 0
        &&& fp(row.selector - 1) == 0
        &&& fp(row.quotient - 0) == 0
    }

    /// The last-row boundary residuals are all zero.
    pub open spec fn last_row_zero(self, row: Row) -> bool {
        &&& fp(row.remainder - self.final_value) == 0
        &&& fp(row.selector - 0) == 0
    }

    /// Every transition residual on the pair `(local, next)` is zero.
    pub open spec fn transition_zero(self, local: Row, next: Row) -> bool {
        &&& fp(local.selector * (local.selector - 1)) == 0
        &&& (forall|j: int|
            0 <= j < NUM_BITS ==> fp(
                (#[trigger] local.split_index@[j]) * (local.split_index@[j] - 1),
            ) == 0)
        &&& fp(1 - seq_sum(local.split_index@)) == 0
        &&& (forall|j: int|
            0 <= j < NUM_BITS ==> fp((#[trigger] local.bits@[j]) * (local.bits@[j] - 1)) == 0)
        &&& fp(local.remainder - prefix_weight(local.bits@, NUM_BITS as int)) == 0
        &&& (forall|j: int|
            0 <= j < NUM_BITS ==> fp((#[trigger] local.split_index@[j]) * local.bits@[j]) == 0)
        &&& (forall|j: int|
            0 <= j < NUM_BITS ==> fp(
                (#[trigger] local.split_index@[j]) * (1 - decompose_spec(self.modulus as int)[j]),
            ) == 0)
        &&& (forall|j: int|
            0 <= j < NUM_BITS ==> fp(
                (#[trigger] local.split_index@[j]) * (prefix_weight(local.bits@, j)
                    - prefix_weight(decompose_spec(self.modulus as int), j)),
            ) == 0)
        &&& fp(
            (next.remainder + next.quotient * self.modulus) - ((1 - local.selector)
                * local.remainder + local.selector * (local.remainder * self.gen)),
        ) == 0
    }

    /// Every constraint residual over the whole trace is zero.
    pub open spec fn constraints_hold(self, trace: Trace) -> bool {
        &&& trace.rows@.len() >= 2
        &&& self.first_row_zero(trace.rows@[0])
        &&& (forall|i: int|
            0 <= i < trace.rows@.len() - 1 ==> self.transition_zero(
                #[trigger] trace.rows@[i],
                trace.rows@[i + 1],
            ))
        &&& self.last_row_zero(trace.rows@[trace.rows@.len() - 1])
    }

    /// Evaluate the boundary residuals of the first row.
    pub fn first_row_residuals(&self, row: &Row) -> (r: FirstRowResiduals)
        requires
            row.wf(),
            self.params_ok(),
        ensures
            r.remainder == fp(row.remainder - self.gen),
            r.selector == fp(row.selector - 1),
            r.quotient == fp(row.quotient - 0),
            (r.remainder == 0 && r.selector == 0 && r.quotient == 0) <==> self.first_row_zero(
                *row,
            ),
    {
        FirstRowResiduals {
            remainder: fp_sub(row.remainder, self.gen),
            selector: fp_sub(row.selector, 1),
            quotient: fp_sub(row.quotient, 0),
        }
    }

    /// Evaluate the boundary residuals of the last row.
    pub fn last_row_residuals(&self, row: &Row) -> (r: LastRowResiduals)
        requires
            row.wf(),
            self.params_ok(),
        ensures
            r.remainder == fp(row.remainder - self.final_value),
            r.selector == fp(row.selector - 0),
            (r.remainder == 0 && r.selector == 0) <==> self.last_row_zero(*row),
            r.remainder == 0 <==> row.remainder == self.final_value,
    {
        proof {
            lemma_fp_diff_zero(row.remainder, self.final_value);
        }
        LastRowResiduals {
            remainder: fp_sub(row.remainder, self.final_value),
            selector: fp_sub(row.selector, 0),
        }
    }

    /// Evaluate every transition residual on a row and its successor.
    pub fn transition_residuals(&self, local: &Row, next: &Row) -> (r: TransitionResiduals)
        requires
            local.wf(),
            next.wf(),
            self.params_ok(),
        ensures
            r.wf(),
            r.selector_boolean == fp(local.selector * (local.selector - 1)),
            forall|j: int|
                0 <= j < NUM_BITS ==> r.split_boolean@[j] == fp(
                    (#[trigger] local.split_index@[j]) * (local.split_index@[j] - 1),
                ),
            r.split_sum == fp(1 - seq_sum(local.split_index@)),
            forall|j: int|
                0 <= j < NUM_BITS ==> r.bit_boolean@[j] == fp(
                    (#[trigger] local.bits@[j]) * (local.bits@[j] - 1),
                ),
            r.reconstruction == fp(local.remainder - prefix_weight(local.bits@, NUM_BITS as int)),
            forall|j: int|
                0 <= j < NUM_BITS ==> r.split_remainder_bit@[j] == fp(
                    (#[trigger] local.split_index@[j]) * local.bits@[j],
                ),
            forall|j: int|
                0 <= j < NUM_BITS ==> r.split_modulus_bit@[j] == fp(
                    (#[trigger] local.split_index@[j]) * (1 - decompose_spec(
                        self.modulus as int,
                    )[j]),
                ),
            forall|j: int|
                0 <= j < NUM_BITS ==> r.split_prefix@[j] == fp(
                    (#[trigger] local.split_index@[j]) * (prefix_weight(local.bits@, j)
                        - prefix_weight(decompose_spec(self.modulus as int), j)),
                ),
            r.step_linkage == fp(
                (next.remainder + next.quotient * self.modulus) - ((1 - local.selector)
                    * local.remainder + local.selector * (local.remainder * self.gen)),
            ),
            r.spec_all_zero() <==> self.transition_zero(*local, *next),
    {
        let p = FIELD_MODULUS;
        let m_bits = decompose(self.modulus);
        let selector_boolean = fp_mul(local.selector, fp_sub(local.selector, 1));
        proof {
            lemma_mul_mod_noop_right(
                local.selector as int,
                local.selector as int - 1,
                FIELD_MODULUS as int,
            );
        }
        let mut split_boolean: Vec<u32> = Vec::new();
        let mut bit_boolean: Vec<u32> = Vec::new();
        let mut split_remainder_bit: Vec<u32> = Vec::new();
        let mut split_modulus_bit: Vec<u32> = Vec::new();
        let mut split_prefix: Vec<u32> = Vec::new();
        let mut sum_split: u32 = 0;
        let mut fh_r: u32 = 0;
        let mut fh_m: u32 = 0;
        let mut w: u32 = 0x2000_0000;
        let mut j: usize = 0;
        proof {
            lemma2_to64();
        }
        while j < NUM_BITS
            invariant
                local.wf(),
                self.params_ok(),
                m_bits@ == decompose_spec(self.modulus as int),
                m_bits@.len() == NUM_BITS,
                forall|t: int| 0 <= t < NUM_BITS ==> m_bits@[t] < FIELD_MODULUS,
                j <= NUM_BITS,
                split_boolean@.len() == j as int,
                bit_boolean@.len() == j as int,
                split_remainder_bit@.len() == j as int,
                split_modulus_bit@.len() == j as int,
                split_prefix@.len() == j as int,
                j < NUM_BITS ==> w == pow2((NUM_BITS - 1 - j) as nat),
                w <= 0x2000_0000,
                sum_split < FIELD_MODULUS,
                sum_split == fp(seq_sum(local.split_index@.take(j as int))),
                fh_r < FIELD_MODULUS,
                fh_r == fp(prefix_weight(local.bits@, j as int)),
                fh_m < FIELD_MODULUS,
                fh_m == fp(prefix_weight(m_bits@, j as int)),
                forall|t: int|
                    0 <= t < j ==> split_boolean@[t] == fp(
                        (#[trigger] local.split_index@[t]) * (local.split_index@[t] - 1),
                    ),
                forall|t: int|
                    0 <= t < j ==> bit_boolean@[t] == fp(
                        (#[trigger] local.bits@[t]) * (local.bits@[t] - 1),
                    ),
                forall|t: int|
                    0 <= t < j ==> split_remainder_bit@[t] == fp(
                        (#[trigger] local.split_index@[t]) * local.bits@[t],
                    ),
                forall|t: int|
                    0 <= t < j ==> split_modulus_bit@[t] == fp(
                        (#[trigger] local.split_index@[t]) * (1 - m_bits@[t]),
                    ),
                forall|t: int|
                    0 <= t < j ==> split_prefix@[t] == fp(
                        (#[trigger] local.split_index@[t]) * (prefix_weight(local.bits@, t)
                            - prefix_weight(m_bits@, t)),
                    ),
            decreases NUM_BITS - j,
        {
            let s_j = local.split_index[j];
            let b_j = local.bits[j];
            let m_j = m_bits[j];
            let sb = fp_mul(s_j, fp_sub(s_j, 1));
            proof {
                lemma_mul_mod_noop_right(s_j as int, s_j as int - 1, FIELD_MODULUS as int);
            }
            split_boolean.push(sb);
            let bb = fp_mul(b_j, fp_sub(b_j, 1));
            proof {
                lemma_mul_mod_noop_right(b_j as int, b_j as int - 1, FIELD_MODULUS as int);
            }
            bit_boolean.push(bb);
            split_remainder_bit.push(fp_mul(s_j, b_j));
            let smb = fp_mul(s_j, fp_sub(1, m_j));
            proof {
                lemma_mul_mod_noop_right(s_j as int, 1 - m_j as int, FIELD_MODULUS as int);
            }
            split_modulus_bit.push(smb);
            let sp = fp_mul(s_j, fp_sub(fh_r, fh_m));
            proof {
                lemma_sub_mod_noop(
                    prefix_weight(local.bits@, j as int),
                    prefix_weight(m_bits@, j as int),
                    FIELD_MODULUS as int,
                );
                lemma_mul_mod_noop_right(
                    s_j as int,
                    prefix_weight(local.bits@, j as int) - prefix_weight(m_bits@, j as int),
                    FIELD_MODULUS as int,
                );
            }
            split_prefix.push(sp);
            proof {
                assert(local.split_index@.take(j as int + 1).drop_last() =~= local.split_index@.take(
                    j as int,
                ));
                lemma_add_mod_noop(
                    seq_sum(local.split_index@.take(j as int)),
                    local.split_index@[j as int] as int,
                    FIELD_MODULUS as int,
                );
                lemma_small_mod(local.split_index@[j as int] as nat, FIELD_MODULUS as nat);
            }
            sum_split = fp_add(sum_split, s_j);
            proof {
                lemma_mul_mod_noop_left(b_j as int, w as int, FIELD_MODULUS as int);
                lemma_add_mod_noop(
                    prefix_weight(local.bits@, j as int),
                    b_j as int * w as int,
                    FIELD_MODULUS as int,
                );
                lemma_mul_mod_noop_left(m_j as int, w as int, FIELD_MODULUS as int);
                lemma_add_mod_noop(
                    prefix_weight(m_bits@, j as int),
                    m_j as int * w as int,
                    FIELD_MODULUS as int,
                );
                lemma_small_mod(b_j as nat, FIELD_MODULUS as nat);
                lemma_small_mod(m_j as nat, FIELD_MODULUS as nat);
            }
            fh_r = fp_add(fh_r, fp_mul(b_j, w));
            fh_m = fp_add(fh_m, fp_mul(m_j, w));
            proof {
                if j + 1 < NUM_BITS {
                    lemma_pow2_unfold((NUM_BITS - 1 - j) as nat);
                }
            }
            w = w / 2;
            j += 1;
        }
        proof {
            assert(local.split_index@.take(NUM_BITS as int) =~= local.split_index@);
        }
        let split_sum = fp_sub(1, sum_split);
        proof {
            lemma_sub_mod_noop_right(1, seq_sum(local.split_index@), FIELD_MODULUS as int);
        }
        let reconstruction = fp_sub(local.remainder, fh_r);
        proof {
            lemma_sub_mod_noop_right(
                local.remainder as int,
                prefix_weight(local.bits@, NUM_BITS as int),
                FIELD_MODULUS as int,
            );
        }
        let active = fp_mul(local.selector, fp_mul(local.remainder, self.gen));
        let idle = fp_mul(fp_sub(1, local.selector), local.remainder);
        let expected = fp_add(idle, active);
        let actual = fp_add(next.remainder, fp_mul(next.quotient, self.modulus));
        let step_linkage = fp_sub(actual, expected);
        proof {
            let pi = FIELD_MODULUS as int;
            let sel = local.selector as int;
            let rem = local.remainder as int;
            let g = self.gen as int;
            let m = self.modulus as int;
            lemma_mul_mod_noop_right(sel, rem * g, pi);
            lemma_mul_mod_noop_left(1 - sel, rem, pi);
            lemma_add_mod_noop((1 - sel) * rem, sel * (rem * g), pi);
            lemma_add_mod_noop_right(
                next.remainder as int,
                next.quotient as int * m,
                pi,
            );
            lemma_sub_mod_noop(
                next.remainder as int + next.quotient as int * m,
                (1 - sel) * rem + sel * (rem * g),
                pi,
            );
        }
        let r = TransitionResiduals {
            selector_boolean,
            split_boolean,
            split_sum,
            bit_boolean,
            reconstruction,
            split_remainder_bit,
            split_modulus_bit,
            split_prefix,
            step_linkage,
        };
        proof {
            let md = decompose_spec(self.modulus as int);
            assert forall|j: int|
                #![trigger r.split_boolean@[j]]
                #![trigger local.split_index@[j]]
                0 <= j < NUM_BITS implies (r.split_boolean@[j] == 0 <==> fp(
                local.split_index@[j] * (local.split_index@[j] - 1),
            ) == 0) by {}
            assert forall|j: int|
                #![trigger r.bit_boolean@[j]]
                #![trigger local.bits@[j]]
                0 <= j < NUM_BITS implies (r.bit_boolean@[j] == 0 <==> fp(
                local.bits@[j] * (local.bits@[j] - 1),
            ) == 0) by {}
            assert forall|j: int|
                #![trigger r.split_remainder_bit@[j]]
                #![trigger local.split_index@[j]]
                0 <= j < NUM_BITS implies (r.split_remainder_bit@[j] == 0 <==> fp(
                local.split_index@[j] * local.bits@[j],
            ) == 0) by {}
            assert forall|j: int|
                #![trigger r.split_modulus_bit@[j]]
                #![trigger local.split_index@[j]]
                0 <= j < NUM_BITS implies (r.split_modulus_bit@[j] == 0 <==> fp(
                local.split_index@[j] * (1 - md[j]),
            ) == 0) by {}
            assert forall|j: int|
                #![trigger r.split_prefix@[j]]
                #![trigger local.split_index@[j]]
                0 <= j < NUM_BITS implies (r.split_prefix@[j] == 0 <==> fp(
                local.split_index@[j] * (prefix_weight(local.bits@, j) - prefix_weight(md, j)),
            ) == 0) by {}
            assert(r.spec_all_zero() <==> self.transition_zero(*local, *next));
        }
        r
    }

    /// Evaluate every constraint over the whole trace and report whether all
    /// residuals are zero, as the backend's check mode does.
    pub fn eval(&self, trace: &Trace) -> (ok: bool)
        requires
            self.params_ok(),
            trace.rows@.len() >= 2,
            forall|i: int| 0 <= i < trace.rows@.len() ==> (#[trigger] trace.rows@[i]).wf(),
        ensures
            ok == self.constraints_hold(*trace),
    {
        let n = trace.rows.len();
        let fr = self.first_row_residuals(&trace.rows[0]);
        if !(fr.remainder == 0 && fr.selector == 0 && fr.quotient == 0) {
            return false;
        }
        let mut i: usize = 0;
        while i + 1 < n
            invariant
                self.params_ok(),
                n == trace.rows@.len(),
                n >= 2,
                i <= n - 1,
                forall|t: int| 0 <= t < trace.rows@.len() ==> (#[trigger] trace.rows@[t]).wf(),
                self.first_row_zero(trace.rows@[0]),
                forall|t: int|
                    0 <= t < i ==> self.transition_zero(
                        #[trigger] trace.rows@[t],
                        trace.rows@[t + 1],
                    ),
            decreases n - i,
        {
            let tr = self.transition_residuals(&trace.rows[i], &trace.rows[i + 1]);
            if !tr.all_zero() {
                return false;
            }
            i += 1;
        }
        let lr = self.last_row_residuals(&trace.rows[n - 1]);
        lr.remainder == 0 && lr.selector == 0
    }
}

/// Every transition residual is zero on each adjacent row pair of a built
/// witness table.
proof fn lemma_transition_zero(air: ExponentRangeCheckAir, trace: Trace, i: int)
    requires
        air.trace_ok(trace),
        0 <= i < trace.rows@.len() - 1,
    ensures
        air.transition_zero(trace.rows@[i], trace.rows@[i + 1]),
{
    lemma_small_mod(0, FIELD_MODULUS as nat);
    let local = trace.rows@[i];
    let next = trace.rows@[i + 1];
    assert(air.row_ok(local, i + 1));
    assert(air.row_ok(next, i + 2));
    let g = air.gen as nat;
    let m = air.modulus as nat;
    let l = air.exponent_len as nat;
    lemma_rem_at_bound(g, m, l, (i + 1) as nat);
    lemma2_to64();
    lemma_bit_seq_value(local.remainder as int, NUM_BITS as nat);
    lemma_bit_seq_value(air.modulus as int, NUM_BITS as nat);
    let md = decompose_spec(air.modulus as int);
    let k = choose|k: int| is_split_at(local.split_index@, local.bits@, md, k);
    assert(is_split_at(local.split_index@, local.bits@, md, k));
    if i + 1 <= air.exponent_len {
        assert(local.selector == 1);
    } else {
        assert(local.selector == 0);
    }
    assert(local.selector * (local.selector - 1) == 0) by (nonlinear_arith)
        requires
            local.selector <= 1,
    ;
    assert forall|j: int|
        0 <= j < NUM_BITS implies fp(
        (#[trigger] local.split_index@[j]) * (local.split_index@[j] - 1),
    ) == 0 && fp(local.split_index@[j] * local.bits@[j]) == 0 && fp(
        local.split_index@[j] * (1 - md[j]),
    ) == 0 && fp(
        local.split_index@[j] * (prefix_weight(local.bits@, j) - prefix_weight(md, j)),
    ) == 0 by {
        if j != k {
            assert(local.split_index@[j] == 0);
        } else {
            assert(local.split_index@[k] == 1);
            assert(local.bits@[k] == 0);
            assert(md[k] == 1);
            assert(local.bits@.take(k) =~= md.take(k));
            lemma_prefix_weight_value(local.bits@, k);
            lemma_prefix_weight_value(md, k);
        }
    }
    assert(all_bits(local.bits@));
    assert forall|j: int|
        0 <= j < NUM_BITS implies fp((#[trigger] local.bits@[j]) * (local.bits@[j] - 1))
        == 0 by {
        assert(local.bits@[j] <= 1);
    }
    lemma_seq_sum_one_hot(local.split_index@, k);
    lemma_prefix_weight_value(local.bits@, NUM_BITS as int);
    assert(local.bits@.take(NUM_BITS as int) =~= local.bits@);
    assert(prefix_weight(local.bits@, NUM_BITS as int) == bits_value(local.bits@) * pow2(0));
    assert(bits_value(local.bits@) == local.remainder);
    let inter = air.inter_spec(i + 1);
    assert(next.remainder == air.rem_spec(i + 2));
    assert(next.quotient == air.quot_spec(i + 2));
    assert(air.rem_spec(i + 2) == inter % m);
    assert(air.quot_spec(i + 2) == inter / m);
    lemma_fundamental_div_mod(inter as int, air.modulus as int);
    vstd::arithmetic::mul::lemma_mul_is_commutative(air.modulus as int, inter as int / m as int);
    assert(next.remainder + next.quotient * air.modulus == inter);
    if i + 1 <= air.exponent_len {
        assert(local.selector == 1);
        assert(inter == air.rem_spec(i + 1) * g);
        assert((1 - local.selector) * local.remainder + local.selector * (local.remainder
            * air.gen) == local.remainder * air.gen) by (nonlinear_arith)
            requires
                local.selector == 1,
        ;
        assert(local.remainder * air.gen == inter);
    } else {
        assert(local.selector == 0);
        assert(inter == air.rem_spec(i + 1));
        assert((1 - local.selector) * local.remainder + local.selector * (local.remainder
            * air.gen) == local.remainder) by (nonlinear_arith)
            requires
                local.selector == 0,
        ;
    }
    assert(fp(
        (next.remainder + next.quotient * air.modulus) - ((1 - local.selector) * local.remainder
            + local.selector * (local.remainder * air.gen)),
    ) == 0);
}

/// Law: a built witness table whose schedule is active at the first row and
/// settled by the last satisfies every first-row and transition constraint,
/// and the whole constraint set holds exactly when the declared final value is
/// the trace's last remainder.
pub proof fn lemma_trace_satisfies_constraints(air: ExponentRangeCheckAir, trace: Trace)
    requires
        air.trace_ok(trace),
        1 <= air.exponent_len,
        air.exponent_len < air.num_steps,
    ensures
        air.first_row_zero(trace.rows@[0]),
        forall|i: int|
            0 <= i < trace.rows@.len() - 1 ==> air.transition_zero(
                #[trigger] trace.rows@[i],
                trace.rows@[i + 1],
            ),
        air.last_row_zero(trace.rows@[trace.rows@.len() - 1]) <==> air.final_value == air.rem_spec(
            air.num_steps as int,
        ),
        air.constraints_hold(trace) <==> air.final_value == air.rem_spec(air.num_steps as int),
{
    lemma_small_mod(0, FIELD_MODULUS as nat);
    let n = trace.rows@.len() as int;
    let r0 = trace.rows@[0];
    assert(air.row_ok(r0, 1));
    assert(air.rem_spec(1) == air.gen);
    assert(air.sched(1) == 1);
    assert(air.first_row_zero(r0));
    let rl = trace.rows@[n - 1];
    assert(air.row_ok(rl, n));
    assert(air.sched(n) == 0);
    lemma_rem_at_bound(
        air.gen as nat,
        air.modulus as nat,
        air.exponent_len as nat,
        air.num_steps as nat,
    );
    lemma_fp_diff_zero(rl.remainder, air.final_value);
    assert(air.last_row_zero(rl) <==> air.final_value == air.rem_spec(n));
    assert forall|i: int|
        0 <= i < trace.rows@.len() - 1 implies air.transition_zero(
        #[trigger] trace.rows@[i],
        trace.rows@[i + 1],
    ) by {
        lemma_transition_zero(air, trace, i);
    }
}

} // verus!
