use musicviz::mapper::{db20, warp, weighted, PerceptualMapper};

#[test]
fn db20_floors_silence_to_zero() {
    // at or below one fixed-point unit the epsilon floor applies
    assert_eq!(db20(0), 0);
    assert_eq!(db20(1), 0);
    assert_eq!(db20(1024), 0);
    assert!(db20(1025) > 0);
}

#[test]
fn db20_exact_at_power_of_two() {
    // m = 2^20 is 2^10 in real terms: 20*log10(1024) scaled by FP_ONE,
    // computed as 20 * (log2_fp - 10*FP_ONE) * FP_ONE / LOG2_10_FP
    // = 20 * 10240 * 1024 / 3402
    assert_eq!(db20(1 << 20), 61644);
}

#[test]
fn warp_clamps_low_frequencies() {
    // below 1000 Hz the warp argument is clamped, so the weight is flat
    assert_eq!(warp(0), warp(1000));
    assert_eq!(warp(500), warp(1000));
    assert!(warp(2000) > warp(1000));
}

#[test]
fn warp_exact_at_clean_argument() {
    // f = 2100 gives the warp argument 1 + 2100/700 = 4 exactly, a power of
    // two: 2595 * ((12*1024 - 10*1024) * 1024 / 3402) = 2595 * 616
    assert_eq!(warp(2100), 1_598_520);
}

#[test]
fn weighted_is_product_of_db_and_warp() {
    assert_eq!(weighted(1 << 20, 2100), 61644 * 1_598_520);
    assert_eq!(weighted(0, 2100), 0);
}

#[test]
fn reduce_single_bucket_exact() {
    // quarter divisor 1, nyquist 2100: bin i sits at 2100*i Hz, so the
    // first accepted bin is bin 1 at exactly 2100 Hz; with a window of one
    // the bucket equals that bin's weighted value
    let m = PerceptualMapper {
        n: 4,
        sample_rate: 4200,
        bins: 1,
        min_freq: 20,
        max_freq: 20000,
        avg_factor: 1,
    };
    let mags: Vec<u64> = vec![0, 1 << 20];
    let mut out: Vec<u64> = vec![7];
    m.reduce(&mags, &mut out);
    assert_eq!(out, vec![61644u64 * 1_598_520]);
}

#[test]
fn reduce_zero_magnitudes_zero_buckets() {
    let m = PerceptualMapper {
        n: 16,
        sample_rate: 320,
        bins: 4,
        min_freq: 20,
        max_freq: 20000,
        avg_factor: 2,
    };
    let mags: Vec<u64> = vec![0; 8];
    let mut out: Vec<u64> = vec![9; 4];
    m.reduce(&mags, &mut out);
    // bins 1..=7 are accepted (40..280 Hz), so all four slots fill with 0
    assert_eq!(out, vec![0, 0, 0, 0]);
}

#[test]
fn reduce_handles_maximal_magnitudes() {
    // magnitudes at the analyzer's upper bound stay inside the bucket bound
    let m = PerceptualMapper {
        n: 16,
        sample_rate: 320,
        bins: 4,
        min_freq: 20,
        max_freq: 20000,
        avg_factor: 16,
    };
    let mags: Vec<u64> = vec![0x7FFF_FFFF; 8];
    let mut out: Vec<u64> = vec![0; 4];
    m.reduce(&mags, &mut out);
    for &v in &out {
        assert!(v > 0);
        assert!(v <= 0x40000 * 0x2000000);
    }
}

#[test]
fn reduce_keeps_stale_tail() {
    // a window whose accepted bins cannot fill every slot leaves the rest
    // exactly as they were
    let m = PerceptualMapper {
        n: 4,
        sample_rate: 4200,
        bins: 3,
        min_freq: 20,
        max_freq: 20000,
        avg_factor: 1,
    };
    // only bin 1 (2100 Hz) is accepted out of mags indices 0 and 1
    let mags: Vec<u64> = vec![0, 0];
    let mut out: Vec<u64> = vec![11, 22, 33];
    m.reduce(&mags, &mut out);
    assert_eq!(out, vec![0, 22, 33]);
}
