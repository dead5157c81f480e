use exponent_range_check::bits::decompose;
use exponent_range_check::trace::{generate_trace, ExponentRangeCheckAir, Row};

fn params(gen: u32, modulus: u32, num_steps: usize, exponent_len: usize, final_value: u32)
    -> ExponentRangeCheckAir {
    ExponentRangeCheckAir { num_steps, final_value, gen, modulus, exponent_len }
}

fn copy_row(row: &Row) -> Row {
    Row {
        remainder: row.remainder,
        selector: row.selector,
        quotient: row.quotient,
        split_index: row.split_index.clone(),
        bits: row.bits.clone(),
    }
}

#[test]
fn declared_scenario_is_accepted() {
    let air = params(4, 996686521, 64, 49, 565654865);
    let trace = generate_trace(&air).unwrap();
    assert_eq!(trace.rows[63].remainder, 565654865);
    assert_eq!(trace.rows[63].selector, 0);
    let lr = air.last_row_residuals(&trace.rows[63]);
    assert_eq!(lr.remainder, 0);
    assert_eq!(lr.selector, 0);
    assert!(air.eval(&trace));
}

#[test]
fn wrong_declared_value_is_rejected() {
    let air = params(4, 996686521, 64, 49, 565654866);
    let trace = generate_trace(&air).unwrap();
    let lr = air.last_row_residuals(&trace.rows[63]);
    assert_ne!(lr.remainder, 0);
    assert!(!air.eval(&trace));
}

#[test]
fn first_row_residuals_are_zero_on_built_trace() {
    let air = params(4, 996686521, 64, 49, 565654865);
    let trace = generate_trace(&air).unwrap();
    let fr = air.first_row_residuals(&trace.rows[0]);
    assert_eq!(fr.remainder, 0);
    assert_eq!(fr.selector, 0);
    assert_eq!(fr.quotient, 0);
}

#[test]
fn first_row_residual_detects_wrong_start() {
    let air = params(4, 996686521, 64, 49, 565654865);
    let trace = generate_trace(&air).unwrap();
    let mut row = copy_row(&trace.rows[0]);
    row.remainder = 5;
    let fr = air.first_row_residuals(&row);
    assert_eq!(fr.remainder, 1);
    row.remainder = 3;
    let fr = air.first_row_residuals(&row);
    assert_eq!(fr.remainder, 0x7fff_fffe);
}

#[test]
fn transition_residuals_are_zero_on_built_trace() {
    let air = params(4, 996686521, 64, 49, 565654865);
    let trace = generate_trace(&air).unwrap();
    for i in 0..63 {
        let tr = air.transition_residuals(&trace.rows[i], &trace.rows[i + 1]);
        assert!(tr.all_zero());
    }
}

#[test]
fn doctored_bit_breaks_reconstruction() {
    let air = params(4, 996686521, 64, 49, 565654865);
    let trace = generate_trace(&air).unwrap();
    let mut local = copy_row(&trace.rows[10]);
    local.bits[29] ^= 1;
    let tr = air.transition_residuals(&local, &trace.rows[11]);
    assert!(!tr.all_zero());
    assert_ne!(tr.reconstruction, 0);
}

#[test]
fn doctored_selector_breaks_booleanness() {
    let air = params(4, 996686521, 64, 49, 565654865);
    let trace = generate_trace(&air).unwrap();
    let mut local = copy_row(&trace.rows[10]);
    local.selector = 2;
    let tr = air.transition_residuals(&local, &trace.rows[11]);
    assert_eq!(tr.selector_boolean, 2);
    assert!(!tr.all_zero());
}

#[test]
fn doctored_split_breaks_uniqueness() {
    let air = params(4, 996686521, 64, 49, 565654865);
    let trace = generate_trace(&air).unwrap();
    let mut local = copy_row(&trace.rows[10]);
    for j in 0..30 {
        local.split_index[j] = 0;
    }
    let tr = air.transition_residuals(&local, &trace.rows[11]);
    assert_eq!(tr.split_sum, 1);
    assert!(!tr.all_zero());
}

#[test]
fn doctored_next_row_breaks_step_linkage() {
    let air = params(4, 996686521, 64, 49, 565654865);
    let trace = generate_trace(&air).unwrap();
    let mut next = copy_row(&trace.rows[11]);
    next.remainder += 1;
    let tr = air.transition_residuals(&trace.rows[10], &next);
    assert_eq!(tr.step_linkage, 1);
    assert!(!tr.all_zero());
}

#[test]
fn split_at_modulus_zero_bit_is_caught() {
    let air = params(4, 996686521, 64, 49, 565654865);
    let trace = generate_trace(&air).unwrap();
    let m_bits = decompose(996686521);
    assert_eq!(m_bits[3], 0);
    let mut local = copy_row(&trace.rows[10]);
    for j in 0..30 {
        local.split_index[j] = 0;
    }
    local.split_index[3] = 1;
    let tr = air.transition_residuals(&local, &trace.rows[11]);
    assert_ne!(tr.split_modulus_bit[3], 0);
    assert!(!tr.all_zero());
}

#[test]
fn trace_width_and_flat_layout() {
    let air = params(4, 996686521, 64, 49, 565654865);
    assert_eq!(air.width(), 63);
    let trace = generate_trace(&air).unwrap();
    let row_flat = trace.rows[0].to_values();
    assert_eq!(row_flat.len(), 63);
    assert_eq!(row_flat[0], 4);
    assert_eq!(row_flat[1], 1);
    assert_eq!(row_flat[2], 0);
    assert_eq!(&row_flat[3..33], &trace.rows[0].split_index[..]);
    assert_eq!(&row_flat[33..63], &trace.rows[0].bits[..]);
    let flat = trace.to_values();
    assert_eq!(flat.len(), 64 * 63);
    for i in 0..64 {
        assert_eq!(flat[63 * i], trace.rows[i].remainder);
    }
}
