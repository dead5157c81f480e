//! The witness trace of one range-checked exponentiation.
//!
//! Row `i` (rows counted from 1) carries the remainder after `i` values of the
//! power sequence, a selector that is one while the multiplication schedule is
//! active, the quotient of the step's reduction, a one-hot split index marking
//! the first bit position where remainder and modulus differ, and the thirty
//! binary digits of the remainder.

use crate::bits::{
    all_bits, bits_value, decompose, decompose_spec, find_first_diff, lemma_bit_seq_value,
    lemma_bits_value_prefix_lt, BIT_BUDGET, NUM_BITS,
};
use crate::field::FIELD_MODULUS;
use vstd::arithmetic::div_mod::{lemma_mod_bound, lemma_mul_mod_noop_left, lemma_small_mod};
use vstd::arithmetic::power::{lemma_pow1, pow};
use vstd::prelude::*;

verus! {

/// The fixed parameters of one range-checked exponentiation: they are chosen
/// before proving and are public to the verifier.
pub struct ExponentRangeCheckAir {
    /// Number of rows of the trace.
    pub num_steps: usize,
    /// The declared public result the last remainder must equal.
    pub final_value: u32,
    /// The generator that is repeatedly multiplied in.
    pub gen: u32,
    /// The modulus every remainder is reduced by; it fits thirty bits.
    pub modulus: u32,
    /// How many rows the multiplication schedule stays active.
    pub exponent_len: usize,
}

/// One row of the witness table. Its sixty-three field elements are addressed
/// by name rather than by offset.
pub struct Row {
    /// The running remainder: the result so far.
    pub remainder: u32,
    /// One while the schedule still multiplies by the generator, zero after.
    pub selector: u32,
    /// The quotient of this row's reduction by the modulus.
    pub quotient: u32,
    /// One-hot indicator of the first bit position where the remainder's
    /// binary form differs from the modulus's.
    pub split_index: Vec<u32>,
    /// The thirty binary digits of the remainder, most significant first.
    pub bits: Vec<u32>,
}

/// The full witness table: one row per step, immutable once built.
pub struct Trace {
    pub rows: Vec<Row>,
}

/// Why no trace can be built.
#[derive(Clone, Copy, Debug, PartialEq, Eq, Structural)]
pub enum TraceError {
    /// A parameter is outside its domain: a zero or oversized modulus, a
    /// generator beyond the bit budget, fewer than two steps, a schedule
    /// longer than the trace, or a declared result outside the field.
    Configuration,
    /// The witness itself would be invalid: a remainder at least as large as
    /// the modulus, so no first differing bit of the right shape exists.
    WitnessInvariant,
}

/// The split index selects position `k`: the single one of the one-hot vector
/// sits at `k`, the remainder has a zero and the modulus a one there, and all
/// more significant digits agree.
pub open spec fn is_split_at(split: Seq<u32>, rbits: Seq<u32>, mbits: Seq<u32>, k: int) -> bool {
    &&& 0 <= k < split.len()
    &&& split[k] == 1
    &&& (forall|j: int| 0 <= j < split.len() && j != k ==> split[j] == 0)
    &&& rbits[k] == 0
    &&& mbits[k] == 1
    &&& (forall|j: int| 0 <= j < k ==> rbits[j] == mbits[j])
}

/// Some position is selected, in the sense of `is_split_at`.
pub open spec fn split_ok(split: Seq<u32>, rbits: Seq<u32>, mbits: Seq<u32>) -> bool {
    &&& split.len() == NUM_BITS
    &&& exists|k: int| is_split_at(split, rbits, mbits, k)
}

/// The remainder at row `i` of the power sequence: row 1 holds the generator,
/// each later row reduces the previous remainder — multiplied by the generator
/// while the schedule is active — by the modulus.
pub open spec fn rem_at(g: nat, m: nat, l: nat, i: nat) -> nat
    decreases i,
{
    if i <= 1 {
        g
    } else if i - 1 <= l {
        (rem_at(g, m, l, (i - 1) as nat) * g) % m
    } else {
        rem_at(g, m, l, (i - 1) as nat) % m
    }
}

/// The sixty-three slots of a row in the flat order the backend consumes:
/// remainder, selector, quotient, the thirty split-index slots, then the
/// thirty decomposition slots.
pub open spec fn row_values(row: Row) -> Seq<u32> {
    seq![row.remainder, row.selector, row.quotient] + row.split_index@ + row.bits@
}

impl Row {
    /// All slots are canonical field elements and the vectors have full width.
    pub open spec fn wf(self) -> bool {
        &&& self.remainder < FIELD_MODULUS
        &&& self.selector < FIELD_MODULUS
        &&& self.quotient < FIELD_MODULUS
        &&& self.split_index@.len() == NUM_BITS
        &&& (forall|j: int| 0 <= j < NUM_BITS ==> self.split_index@[j] < FIELD_MODULUS)
        &&& self.bits@.len() == NUM_BITS
        &&& (forall|j: int| 0 <= j < NUM_BITS ==> self.bits@[j] < FIELD_MODULUS)
    }

    /// The row in its flat sixty-three-slot form.
    pub fn to_values(&self) -> (vals: Vec<u32>)
        requires
            self.wf(),
        ensures
            vals@ == row_values(*self),
            vals@.len() == 63,
    {
        let mut vals: Vec<u32> = Vec::new();
        vals.push(self.remainder);
        vals.push(self.selector);
        vals.push(self.quotient);
        let mut j: usize = 0;
        while j < NUM_BITS
            invariant
                self.wf(),
                j <= NUM_BITS,
                vals@.len() == 3 + j,
                vals@[0] == self.remainder,
                vals@[1] == self.selector,
                vals@[2] == self.quotient,
                forall|t: int| 0 <= t < j ==> vals@[3 + t] == self.split_index@[t],
            decreases NUM_BITS - j,
        {
            vals.push(self.split_index[j]);
            j += 1;
        }
        j = 0;
        while j < NUM_BITS
            invariant
                self.wf(),
                j <= NUM_BITS,
                vals@.len() == 33 + j,
                vals@[0] == self.remainder,
                vals@[1] == self.selector,
                vals@[2] == self.quotient,
                forall|t: int| 0 <= t < NUM_BITS ==> vals@[3 + t] == self.split_index@[t],
                forall|t: int| 0 <= t < j ==> vals@[33 + t] == self.bits@[t],
            decreases NUM_BITS - j,
        {
            vals.push(self.bits[j]);
            j += 1;
        }
        proof {
            assert(vals@ =~= row_values(*self));
        }
        vals
    }
}

impl Trace {
    /// Every row is well formed.
    pub open spec fn wf(self) -> bool {
        forall|i: int| 0 <= i < self.rows@.len() ==> (#[trigger] self.rows@[i]).wf()
    }

    /// The whole table in row-major flat form, sixty-three slots per row: the
    /// representation the proof backend consumes.
    pub fn to_values(&self) -> (vals: Vec<u32>)
        requires
            self.wf(),
        ensures
            vals@.len() == 63 * self.rows@.len(),
            forall|i: int|
                0 <= i < self.rows@.len() ==> vals@.subrange(63 * i, 63 * i + 63) == row_values(
                    #[trigger] self.rows@[i],
                ),
    {
        let mut vals: Vec<u32> = Vec::new();
        let mut i: usize = 0;
        let n = self.rows.len();
        while i < n
            invariant
                self.wf(),
                i <= n,
                n == self.rows@.len(),
                vals@.len() == 63 * i,
                forall|t: int|
                    0 <= t < i ==> vals@.subrange(63 * t, 63 * t + 63) == row_values(
                        #[trigger] self.rows@[t],
                    ),
            decreases n - i,
        {
            let ghost prev = vals@;
            let mut flat = self.rows[i].to_values();
            let ghost row_flat = flat@;
            vals.append(&mut flat);
            proof {
                assert forall|t: int|
                    0 <= t < i + 1 implies vals@.subrange(63 * t, 63 * t + 63) == row_values(
                    #[trigger] self.rows@[t],
                ) by {
                    if t < i {
                        assert(vals@.subrange(63 * t, 63 * t + 63) =~= prev.subrange(
                            63 * t,
                            63 * t + 63,
                        ));
                    } else {
                        assert(vals@.subrange(63 * t, 63 * t + 63) =~= row_flat);
                    }
                }
            }
            i += 1;
        }
        vals
    }
}

impl ExponentRangeCheckAir {
    /// The parameters lie in their domains.
    pub open spec fn params_ok(self) -> bool {
        &&& 0 < self.modulus < BIT_BUDGET
        &&& self.gen < BIT_BUDGET
        &&& 2 <= self.num_steps
        &&& self.exponent_len <= self.num_steps
        &&& self.final_value < FIELD_MODULUS
    }

    /// The selector scheduled for row `i`: one while still multiplying.
    pub open spec fn sched(self, i: int) -> u32 {
        if i <= self.exponent_len {
            1u32
        } else {
            0u32
        }
    }

    /// The remainder scheduled for row `i`.
    pub open spec fn rem_spec(self, i: int) -> nat {
        rem_at(self.gen as nat, self.modulus as nat, self.exponent_len as nat, i as nat)
    }

    /// The unreduced intermediate between rows `i` and `i + 1`.
    pub open spec fn inter_spec(self, i: int) -> nat {
        if i <= self.exponent_len {
            (self.rem_spec(i) * self.gen) as nat
        } else {
            self.rem_spec(i)
        }
    }

    /// The quotient scheduled for row `i`: what the reduction into row `i`
    /// divided out.
    pub open spec fn quot_spec(self, i: int) -> nat {
        if i <= 1 {
            0
        } else {
            self.inter_spec(i - 1) / (self.modulus as nat)
        }
    }

    /// Row `row` is the one scheduled at position `i` (counted from 1).
    pub open spec fn row_ok(self, row: Row, i: int) -> bool {
        &&& row.remainder == self.rem_spec(i)
        &&& row.selector == self.sched(i)
        &&& row.quotient == self.quot_spec(i)
        &&& row.bits@ == decompose_spec(row.remainder as int)
        &&& split_ok(row.split_index@, row.bits@, decompose_spec(self.modulus as int))
    }

    /// `trace` is exactly the witness table these parameters schedule.
    pub open spec fn trace_ok(self, trace: Trace) -> bool {
        &&& self.params_ok()
        &&& self.gen < self.modulus
        &&& trace.rows@.len() == self.num_steps
        &&& (forall|i: int| 0 <= i < trace.rows@.len() ==> (#[trigger] trace.rows@[i]).wf())
        &&& (forall|i: int| 0 <= i < trace.rows@.len() ==> self.row_ok(#[trigger] trace.rows@[i], i + 1))
    }

    /// The width of the trace: how many field elements each row holds.
    pub fn width(&self) -> (w: usize)
        ensures
            w == 63,
    {
        3 + NUM_BITS + NUM_BITS
    }
}

/// A one-hot vector over the bit budget with its one at `k`.
fn one_hot(k: usize) -> (v: Vec<u32>)
    requires
        k < NUM_BITS,
    ensures
        v@.len() == NUM_BITS,
        v@[k as int] == 1,
        forall|j: int| 0 <= j < NUM_BITS && j != k ==> v@[j] == 0,
{
    let mut v: Vec<u32> = Vec::new();
    let mut j: usize = 0;
    while j < NUM_BITS
        invariant
            j <= NUM_BITS,
            v@.len() == j as int,
            forall|t: int| 0 <= t < j ==> v@[t] == (if t == k { 1u32 } else { 0u32 }),
        decreases NUM_BITS - j,
    {
        if j == k {
            v.push(1);
        } else {
            v.push(0);
        }
        j += 1;
    }
    v
}

/// Build the split-index vector for a remainder already in digit form, or
/// report that the remainder is not below the modulus.
fn build_split(r_bits: &Vec<u32>, m_bits: &Vec<u32>, rem: u32, modulus: u32) -> (out: Result<
    Vec<u32>,
    TraceError,
>)
    requires
        rem < BIT_BUDGET,
        modulus < BIT_BUDGET,
        r_bits@ == decompose_spec(rem as int),
        m_bits@ == decompose_spec(modulus as int),
    ensures
        match out {
            Ok(split) => rem < modulus && split_ok(split@, r_bits@, m_bits@),
            Err(e) => rem >= modulus && e == TraceError::WitnessInvariant,
        },
{
    proof {
        vstd::arithmetic::power2::lemma2_to64();
        lemma_bit_seq_value(rem as int, NUM_BITS as nat);
        lemma_bit_seq_value(modulus as int, NUM_BITS as nat);
    }
    match find_first_diff(r_bits, m_bits) {
        None => {
            proof {
                assert(bits_value(r_bits@) == bits_value(m_bits@));
            }
            Err(TraceError::WitnessInvariant)
        },
        Some(j) => {
            if r_bits[j] == 0 {
                proof {
                    assert(m_bits@[j as int] == 1);
                    assert(r_bits@.take(j as int) =~= m_bits@.take(j as int));
                    lemma_bits_value_prefix_lt(r_bits@, m_bits@, j as int);
                }
                let split = one_hot(j);
                proof {
                    assert(is_split_at(split@, r_bits@, m_bits@, j as int));
                }
                Ok(split)
            } else {
                proof {
                    assert(r_bits@[j as int] == 1 && m_bits@[j as int] == 0);
                    assert(m_bits@.take(j as int) =~= r_bits@.take(j as int));
                    lemma_bits_value_prefix_lt(m_bits@, r_bits@, j as int);
                }
                Err(TraceError::WitnessInvariant)
            }
        },
    }
}

/// Build the full witness table for the given parameters.
///
/// Succeeds exactly when the parameters lie in their domains and the generator
/// is below the modulus, so that every remainder of the trace is too.
pub fn generate_trace(air: &ExponentRangeCheckAir) -> (out: Result<Trace, TraceError>)
    ensures
        match out {
            Ok(trace) => air.trace_ok(trace),
            Err(TraceError::Configuration) => !air.params_ok(),
            Err(TraceError::WitnessInvariant) => air.params_ok() && air.gen >= air.modulus,
        },
{
    if air.modulus == 0 || air.modulus >= BIT_BUDGET || air.gen >= BIT_BUDGET || air.num_steps < 2
        || air.exponent_len > air.num_steps || air.final_value >= FIELD_MODULUS {
        return Err(TraceError::Configuration);
    }
    let m_bits = decompose(air.modulus);
    let mut rows: Vec<Row> = Vec::new();
    let mut rem: u32 = air.gen;
    let mut quot: u32 = 0;
    while rows.len() < air.num_steps
        invariant
            air.params_ok(),
            rows@.len() <= air.num_steps,
            m_bits@ == decompose_spec(air.modulus as int),
            rem == air.rem_spec(rows@.len() as int + 1),
            quot == air.quot_spec(rows@.len() as int + 1),
            rem < BIT_BUDGET,
            quot < BIT_BUDGET,
            rows@.len() >= 1 ==> air.gen < air.modulus,
            rows@.len() >= 1 ==> rem < air.modulus,
            forall|t: int| 0 <= t < rows@.len() ==> (#[trigger] rows@[t]).wf(),
            forall|t: int| 0 <= t < rows@.len() ==> air.row_ok(#[trigger] rows@[t], t + 1),
        decreases air.num_steps - rows@.len(),
    {
        let i = rows.len() + 1;
        let r_bits = decompose(rem);
        let split = match build_split(&r_bits, &m_bits, rem, air.modulus) {
            Ok(split) => split,
            Err(e) => {
                proof {
                    assert(air.rem_spec(1) == air.gen);
                }
                return Err(e);
            },
        };
        let selector: u32 = if i <= air.exponent_len {
            1
        } else {
            0
        };
        let row = Row { remainder: rem, selector, quotient: quot, split_index: split, bits: r_bits };
        proof {
            assert(row.wf());
            assert(air.row_ok(row, i as int));
        }
        rows.push(row);
        proof {
            assert((rem as int) * (air.gen as int) < (air.modulus as int) * 0x4000_0000)
                by (nonlinear_arith)
                requires
                    rem < air.modulus,
                    air.gen < 0x4000_0000u32,
                    air.modulus < 0x4000_0000u32,
            ;
        }
        let inter: u64 = if i <= air.exponent_len {
            (rem as u64) * (air.gen as u64)
        } else {
            rem as u64
        };
        proof {
            assert(inter == air.inter_spec(i as int));
            assert(inter < (air.modulus as int) * 0x4000_0000) by (nonlinear_arith)
                requires
                    inter == rem || inter == (rem as int) * (air.gen as int),
                    (rem as int) * (air.gen as int) < (air.modulus as int) * 0x4000_0000,
                    rem < air.modulus,
                    air.modulus > 0,
            ;
            vstd::arithmetic::div_mod::lemma_multiply_divide_lt(
                inter as int,
                air.modulus as int,
                0x4000_0000,
            );
            lemma_mod_bound(inter as int, air.modulus as int);
        }
        quot = (inter / (air.modulus as u64)) as u32;
        rem = (inter % (air.modulus as u64)) as u32;
        proof {
            assert(rem == air.rem_spec(rows@.len() as int + 1));
            assert(quot == air.quot_spec(rows@.len() as int + 1));
        }
    }
    Ok(Trace { rows })
}

/// How many multiplications the schedule performs before row `i`.
pub open spec fn active_steps(l: nat, i: nat) -> nat {
    if i - 1 <= l {
        (i - 1) as nat
    } else {
        l
    }
}

/// Every scheduled remainder stays below the modulus.
pub proof fn lemma_rem_at_bound(g: nat, m: nat, l: nat, i: nat)
    requires
        0 < m,
        g < m,
    ensures
        rem_at(g, m, l, i) < m,
{
    if i <= 1 {
    } else if i - 1 <= l {
        lemma_mod_bound((rem_at(g, m, l, (i - 1) as nat) * g) as int, m as int);
    } else {
        lemma_mod_bound(rem_at(g, m, l, (i - 1) as nat) as int, m as int);
    }
}

/// Law: the remainder scheduled at row `i` is the generator raised to one more
/// than the number of multiplications performed before that row, reduced by
/// the modulus — independently of the stepwise reductions along the way.
pub proof fn lemma_remainder_is_power(g: nat, m: nat, l: nat, i: nat)
    requires
        0 < m,
        g < m,
        1 <= i,
    ensures
        rem_at(g, m, l, i) as int == pow(g as int, active_steps(l, i) + 1) % (m as int),
    decreases i,
{
    if i == 1 {
        lemma_pow1(g as int);
        lemma_small_mod(g, m);
    } else {
        lemma_remainder_is_power(g, m, l, (i - 1) as nat);
        let prev = rem_at(g, m, l, (i - 1) as nat);
        let e = active_steps(l, (i - 1) as nat) + 1;
        if i - 1 <= l {
            assert(active_steps(l, i) == i - 1);
            assert(e == i - 1);
            vstd::arithmetic::power::lemma_pow_adds(g as int, e, 1);
            lemma_pow1(g as int);
            assert(pow(g as int, (e + 1) as nat) == pow(g as int, e) * g);
            lemma_mul_mod_noop_left(pow(g as int, e), g as int, m as int);
            assert(rem_at(g, m, l, i) as int == (prev * g) as int % (m as int));
            assert((prev * g) as int % (m as int) == (pow(g as int, e) % (m as int)) * g % (
            m as int));
            vstd::arithmetic::mul::lemma_mul_is_commutative(g as int, pow(g as int, e));
        } else {
            assert(active_steps(l, i) == l && e == l + 1);
            lemma_mod_bound(pow(g as int, e), m as int);
            lemma_small_mod(prev, m);
        }
    }
}

/// Law: the last remainder of a built trace equals the generator raised to the
/// active-step count plus one, reduced by the modulus.
pub proof fn lemma_trace_final_remainder(air: ExponentRangeCheckAir, trace: Trace)
    requires
        air.trace_ok(trace),
    ensures
        trace.rows@.last().remainder as int == pow(
            air.gen as int,
            active_steps(air.exponent_len as nat, air.num_steps as nat) + 1,
        ) % (air.modulus as int),
{
    let n = trace.rows@.len() as int;
    assert(air.row_ok(trace.rows@[n - 1], n));
    lemma_remainder_is_power(
        air.gen as nat,
        air.modulus as nat,
        air.exponent_len as nat,
        air.num_steps as nat,
    );
}

/// Law: every split-index and decomposition slot of a built trace is a bit.
pub proof fn lemma_trace_slots_boolean(air: ExponentRangeCheckAir, trace: Trace)
    requires
        air.trace_ok(trace),
    ensures
        forall|i: int|
            0 <= i < trace.rows@.len() ==> all_bits((#[trigger] trace.rows@[i]).bits@) && all_bits(
                trace.rows@[i].split_index@,
            ),
{
    assert forall|i: int|
        0 <= i < trace.rows@.len() implies all_bits((#[trigger] trace.rows@[i]).bits@) && all_bits(
        trace.rows@[i].split_index@,
    ) by {
        let row = trace.rows@[i];
        assert(air.row_ok(row, i + 1));
        lemma_rem_at_bound(
            air.gen as nat,
            air.modulus as nat,
            air.exponent_len as nat,
            (i + 1) as nat,
        );
        vstd::arithmetic::power2::lemma2_to64();
        lemma_bit_seq_value(row.remainder as int, NUM_BITS as nat);
        let k = choose|k: int|
            is_split_at(row.split_index@, row.bits@, decompose_spec(air.modulus as int), k);
        assert(forall|j: int|
            0 <= j < NUM_BITS && j != k ==> row.split_index@[j] == 0);
    }
}

/// Law: on every row of a built trace the weighted sum of the decomposition
/// slots equals the remainder slot.
pub proof fn lemma_trace_bits_reconstruct(air: ExponentRangeCheckAir, trace: Trace)
    requires
        air.trace_ok(trace),
    ensures
        forall|i: int|
            0 <= i < trace.rows@.len() ==> bits_value((#[trigger] trace.rows@[i]).bits@)
                == trace.rows@[i].remainder,
{
    assert forall|i: int|
        0 <= i < trace.rows@.len() implies bits_value((#[trigger] trace.rows@[i]).bits@)
        == trace.rows@[i].remainder by {
        let row = trace.rows@[i];
        assert(air.row_ok(row, i + 1));
        lemma_rem_at_bound(
            air.gen as nat,
            air.modulus as nat,
            air.exponent_len as nat,
            (i + 1) as nat,
        );
        vstd::arithmetic::power2::lemma2_to64();
        lemma_bit_seq_value(row.remainder as int, NUM_BITS as nat);
    }
}

/// Law: every row of a built trace selects exactly one split position, and the
/// selection is sound: the modulus has a one there, the remainder a zero, and
/// every more significant digit of the two agrees.
pub proof fn lemma_trace_split_sound(air: ExponentRangeCheckAir, trace: Trace, i: int)
    requires
        air.trace_ok(trace),
        0 <= i < trace.rows@.len(),
    ensures
        exists|k: int|
            is_split_at(
                trace.rows@[i].split_index@,
                trace.rows@[i].bits@,
                decompose_spec(air.modulus as int),
                k,
            ),
        forall|k: int|
            0 <= k < NUM_BITS && trace.rows@[i].split_index@[k] == 1 ==> is_split_at(
                trace.rows@[i].split_index@,
                trace.rows@[i].bits@,
                decompose_spec(air.modulus as int),
                k,
            ),
{
    let row = trace.rows@[i];
    assert(air.row_ok(row, i + 1));
    let k0 = choose|k: int|
        is_split_at(row.split_index@, row.bits@, decompose_spec(air.modulus as int), k);
    assert forall|k: int|
        0 <= k < NUM_BITS && row.split_index@[k] == 1 implies is_split_at(
        row.split_index@,
        row.bits@,
        decompose_spec(air.modulus as int),
        k,
    ) by {
        if k != k0 {
            assert(row.split_index@[k] == 0);
        }
    }
}

} // verus!
