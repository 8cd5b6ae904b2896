use musicviz::smoother::TemporalSmoother;

#[test]
fn exponential_smoothing_converges_to_constant_input() {
    // alpha = 1/4 on a constant raw input of 1000: the gap to the target
    // shrinks by about (1 - alpha) every frame
    let mut sm = TemporalSmoother::new(1, 4, 0, 1);
    let raw: Vec<u64> = vec![1000];
    sm.update(&raw);
    assert_eq!(sm.smoothed[0], 250);
    sm.update(&raw);
    assert_eq!(sm.smoothed[0], 437);
    sm.update(&raw);
    assert_eq!(sm.smoothed[0], 577);
    let mut gap_prev: u64 = 1000 - 577;
    for _ in 0..50 {
        sm.update(&raw);
        let gap: u64 = 1000 - sm.smoothed[0];
        assert!(gap <= gap_prev);
        // the contraction law: 4*gap' <= 3*gap + 3
        assert!(4 * gap <= 3 * gap_prev + 3);
        gap_prev = gap;
    }
    // converged to within rounding of the target
    assert!(sm.smoothed[0] >= 997);
    assert!(sm.smoothed[0] <= 1000);
}

#[test]
fn silence_decays_toward_floor_and_stays_nonnegative() {
    let mut sm = TemporalSmoother::new(1, 4, 100, 2);
    // start high, as after a loud frame
    let loud: Vec<u64> = vec![100_000, 50_000];
    sm.update(&loud);
    let mut floored: Vec<u64> = vec![0, 0];
    let mut prev: Vec<u64> = sm.smoothed.clone();
    for _ in 0..100 {
        sm.apply_silence_floor(&mut floored);
        assert_eq!(floored, vec![100, 100]);
        sm.update(&floored);
        for i in 0..2 {
            // decaying toward the floor, never below zero
            assert!(sm.smoothed[i] <= prev[i].max(100));
            assert!(sm.smoothed[i] >= 100u64.min(prev[i]));
        }
        prev = sm.smoothed.clone();
    }
    // settled at the floor (within fixed-point rounding)
    assert!(sm.smoothed[0] >= 100 && sm.smoothed[0] <= 103);
    assert!(sm.smoothed[1] >= 100 && sm.smoothed[1] <= 103);
}

#[test]
fn running_max_is_a_monotone_ratchet() {
    let mut sm = TemporalSmoother::new(1, 4, 0, 1);
    let mut prev_max: u64 = 0;
    let frames: Vec<u64> = vec![500, 300, 800, 0, 799, 801, 10];
    let mut seen: u64 = 0;
    for v in frames {
        sm.update(&vec![v]);
        if v > seen {
            seen = v;
        }
        assert!(sm.running_max >= prev_max);
        assert_eq!(sm.running_max, seen);
        prev_max = sm.running_max;
    }
    assert_eq!(sm.running_max, 801);
}

#[test]
fn moving_average_variant_matches_its_formula() {
    let mut sm = TemporalSmoother::new(1, 4, 0, 1);
    sm.update_moving_average(&vec![1000]);
    // (1*1000 + 3*0) / 4
    assert_eq!(sm.smoothed[0], 250);
    sm.update_moving_average(&vec![1000]);
    // (1*1000 + 3*250) / 4
    assert_eq!(sm.smoothed[0], 437);
    assert_eq!(sm.running_max, 1000);
}
