use exponent_range_check::field::{fp_add, fp_mul, fp_sub, FIELD_MODULUS};

#[test]
fn field_modulus_is_mersenne_prime() {
    assert_eq!(FIELD_MODULUS, (1u32 << 31) - 1);
}

#[test]
fn addition_wraps_at_the_modulus() {
    assert_eq!(fp_add(0, 0), 0);
    assert_eq!(fp_add(FIELD_MODULUS - 1, 1), 0);
    assert_eq!(fp_add(FIELD_MODULUS - 1, FIELD_MODULUS - 1), FIELD_MODULUS - 2);
    assert_eq!(fp_add(3, 4), 7);
}

#[test]
fn subtraction_wraps_at_the_modulus() {
    assert_eq!(fp_sub(5, 5), 0);
    assert_eq!(fp_sub(0, 1), FIELD_MODULUS - 1);
    assert_eq!(fp_sub(7, 3), 4);
}

#[test]
fn multiplication_reduces_products() {
    assert_eq!(fp_mul(0, FIELD_MODULUS - 1), 0);
    assert_eq!(fp_mul(1, 12345), 12345);
    // 2^30 * 2^30 = 2^60, and 2^31 = 1 in the field, so the product is 2^29.
    assert_eq!(fp_mul(1 << 30, 1 << 30), 1 << 29);
    assert_eq!(fp_mul(FIELD_MODULUS - 1, FIELD_MODULUS - 1), 1);
}
