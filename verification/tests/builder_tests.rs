use exponent_range_check::bits::{decompose, find_first_diff, recompose};
use exponent_range_check::trace::{generate_trace, ExponentRangeCheckAir, TraceError};

fn params(gen: u32, modulus: u32, num_steps: usize, exponent_len: usize, final_value: u32)
    -> ExponentRangeCheckAir {
    ExponentRangeCheckAir { num_steps, final_value, gen, modulus, exponent_len }
}

/// Standard modular exponentiation, independent of the trace builder.
fn mod_pow(base: u64, exp: u64, modulus: u64) -> u64 {
    let mut result: u64 = 1 % modulus;
    let mut b = base % modulus;
    let mut e = exp;
    while e > 0 {
        if e & 1 == 1 {
            result = result * b % modulus;
        }
        b = b * b % modulus;
        e >>= 1;
    }
    result
}

#[test]
fn final_remainder_matches_exponentiation() {
    let air = params(4, 996686521, 64, 49, 565654865);
    let trace = generate_trace(&air).unwrap();
    let last = &trace.rows[63];
    assert_eq!(last.remainder as u64, mod_pow(4, 50, 996686521));
    assert_eq!(last.remainder, 565654865);
    assert_eq!(last.selector, 0);
}

#[test]
fn final_remainder_matches_exponentiation_other_parameters() {
    for &(g, m, n, l) in &[(7u32, 1000003u32, 20usize, 10usize), (3, 5, 8, 3), (2, 7, 9, 9)] {
        let air = params(g, m, n, l, 0);
        let trace = generate_trace(&air).unwrap();
        let active = if l <= n - 1 { l } else { n - 1 };
        let expected = mod_pow(g as u64, active as u64 + 1, m as u64);
        assert_eq!(trace.rows[n - 1].remainder as u64, expected);
    }
}

#[test]
fn all_split_and_bit_slots_are_boolean() {
    let air = params(4, 996686521, 64, 49, 565654865);
    let trace = generate_trace(&air).unwrap();
    for row in &trace.rows {
        for &s in &row.split_index {
            assert!(s == 0 || s == 1);
        }
        for &b in &row.bits {
            assert!(b == 0 || b == 1);
        }
        assert!(row.selector == 0 || row.selector == 1);
    }
}

#[test]
fn exactly_one_split_slot_per_row() {
    let air = params(4, 996686521, 64, 49, 565654865);
    let trace = generate_trace(&air).unwrap();
    for row in &trace.rows {
        let ones: u32 = row.split_index.iter().sum();
        assert_eq!(ones, 1);
    }
}

#[test]
fn weighted_decomposition_reconstructs_remainder() {
    let air = params(4, 996686521, 64, 49, 565654865);
    let trace = generate_trace(&air).unwrap();
    for row in &trace.rows {
        let mut sum: u64 = 0;
        for (j, &b) in row.bits.iter().enumerate() {
            sum += (b as u64) << (29 - j);
        }
        assert_eq!(sum, row.remainder as u64);
        assert_eq!(recompose(&row.bits), row.remainder);
    }
}

#[test]
fn split_selection_is_sound() {
    let air = params(4, 996686521, 64, 49, 565654865);
    let trace = generate_trace(&air).unwrap();
    let m_bits = decompose(996686521);
    for row in &trace.rows {
        let k = row.split_index.iter().position(|&s| s == 1).unwrap();
        assert_eq!(m_bits[k], 1);
        assert_eq!(row.bits[k], 0);
        for j in 0..k {
            assert_eq!(row.bits[j], m_bits[j]);
        }
    }
}

#[test]
fn decomposition_round_trip() {
    for &v in &[0u32, 1, 2, 4, 565654865, 996686520, 0x3fff_ffff, 0x2000_0000, 12345] {
        let bits = decompose(v);
        assert_eq!(bits.len(), 30);
        assert_eq!(recompose(&bits), v);
        let again = decompose(recompose(&bits));
        assert_eq!(again, bits);
    }
}

#[test]
fn split_of_zero_remainder_selects_position_zero() {
    let m_bits = decompose(996686521);
    assert_eq!(&m_bits[..7], &[1, 1, 1, 0, 1, 1, 0]);
    let air = params(0, 996686521, 4, 2, 0);
    let trace = generate_trace(&air).unwrap();
    for row in &trace.rows {
        assert_eq!(row.remainder, 0);
        assert_eq!(row.split_index[0], 1);
        for j in 1..30 {
            assert_eq!(row.split_index[j], 0);
        }
    }
}

#[test]
fn first_row_is_fixed() {
    let air = params(4, 996686521, 64, 49, 565654865);
    let trace = generate_trace(&air).unwrap();
    assert_eq!(trace.rows.len(), 64);
    assert_eq!(trace.rows[0].remainder, 4);
    assert_eq!(trace.rows[0].selector, 1);
    assert_eq!(trace.rows[0].quotient, 0);
}

#[test]
fn selector_settles_after_schedule_and_never_reverts() {
    let air = params(4, 996686521, 64, 49, 565654865);
    let trace = generate_trace(&air).unwrap();
    for (i, row) in trace.rows.iter().enumerate() {
        let expected = if i + 1 <= 49 { 1 } else { 0 };
        assert_eq!(row.selector, expected);
    }
}

#[test]
fn step_reduction_links_consecutive_rows() {
    let air = params(4, 996686521, 64, 49, 565654865);
    let trace = generate_trace(&air).unwrap();
    for i in 0..63 {
        let local = &trace.rows[i];
        let next = &trace.rows[i + 1];
        let inter: u64 = if local.selector == 1 {
            local.remainder as u64 * 4
        } else {
            local.remainder as u64
        };
        assert_eq!(next.remainder as u64, inter % 996686521);
        assert_eq!(next.quotient as u64, inter / 996686521);
    }
}

#[test]
fn configuration_errors() {
    let cases = [
        params(4, 0, 64, 49, 565654865),
        params(4, 0x4000_0000, 64, 49, 565654865),
        params(0x4000_0000, 996686521, 64, 49, 565654865),
        params(4, 996686521, 1, 1, 565654865),
        params(4, 996686521, 64, 65, 565654865),
        params(4, 996686521, 64, 49, 0x7fff_ffff),
    ];
    for air in &cases {
        assert!(matches!(generate_trace(air), Err(TraceError::Configuration)));
    }
}

#[test]
fn witness_invariant_violation_when_generator_not_below_modulus() {
    assert!(matches!(generate_trace(&params(10, 7, 4, 2, 0)), Err(TraceError::WitnessInvariant)));
    assert!(matches!(generate_trace(&params(7, 7, 4, 2, 0)), Err(TraceError::WitnessInvariant)));
    assert!(generate_trace(&params(6, 7, 4, 2, 0)).is_ok());
}

#[test]
fn first_differing_position() {
    let a = decompose(0b1010);
    let b = decompose(0b1000);
    assert_eq!(find_first_diff(&a, &b), Some(28));
    assert_eq!(find_first_diff(&a, &a), None);
}
