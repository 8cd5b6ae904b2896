use musicviz::fixed::{floor_log2, isqrt, log2_fp};

#[test]
fn floor_log2_exact_values() {
    assert_eq!(floor_log2(1), 0);
    assert_eq!(floor_log2(2), 1);
    assert_eq!(floor_log2(3), 1);
    assert_eq!(floor_log2(4), 2);
    assert_eq!(floor_log2(1023), 9);
    assert_eq!(floor_log2(1024), 10);
    assert_eq!(floor_log2(u64::MAX), 63);
}

#[test]
fn log2_fp_exact_on_powers_of_two() {
    // On an exact power of two the mantissa stays at 1.0 through every
    // squaring step, so all fractional bits are zero.
    assert_eq!(log2_fp(1), 0);
    assert_eq!(log2_fp(2), 1024);
    assert_eq!(log2_fp(4), 2048);
    assert_eq!(log2_fp(1024), 10 * 1024);
    assert_eq!(log2_fp(1 << 20), 20 * 1024);
    assert_eq!(log2_fp(1 << 42), 42 * 1024);
}

#[test]
fn log2_fp_brackets_and_orders() {
    // The integer part is exact and values between powers of two land
    // strictly between the neighbouring multiples of the unit.
    let v3 = log2_fp(3);
    assert!(1024 < v3 && v3 < 2048);
    // log2(3) = 1.58496... (about 1623 fixed-point, with the mantissa
    // truncated at each squaring step)
    assert_eq!(v3, 1623);
    let v10 = log2_fp(10);
    assert!(3 * 1024 < v10 && v10 < 4 * 1024);
    assert!(log2_fp(9) < v10);
}

#[test]
fn isqrt_exact_values() {
    assert_eq!(isqrt(0), 0);
    assert_eq!(isqrt(1), 1);
    assert_eq!(isqrt(3), 1);
    assert_eq!(isqrt(4), 2);
    assert_eq!(isqrt(10), 3);
    assert_eq!(isqrt(99), 9);
    assert_eq!(isqrt(100), 10);
    assert_eq!(isqrt(1 << 60), 1 << 30);
    assert_eq!(isqrt((1 << 60) - 1), (1 << 30) - 1);
}
