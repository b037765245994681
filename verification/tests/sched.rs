use net_rate::sched::compute_sleep;

#[test]
fn fast_ticks_earn_the_nominal_sleep() {
    assert_eq!(compute_sleep(1000, 0), 1000);
    assert_eq!(compute_sleep(1000, 499), 1000);
}

#[test]
fn slow_ticks_earn_the_compensating_sleep() {
    assert_eq!(compute_sleep(1000, 500), 1500);
    assert_eq!(compute_sleep(1000, 1000), 1000);
    assert_eq!(compute_sleep(1000, 1700), 300);
    assert_eq!(compute_sleep(1000, 2000), 0);
}

#[test]
fn odd_intervals_split_at_the_floored_half() {
    assert_eq!(compute_sleep(5, 1), 5);
    assert_eq!(compute_sleep(5, 2), 8);
    assert_eq!(compute_sleep(5, 3), 7);
}

#[test]
fn negligible_step_time_locks_onto_the_interval() {
    let t: u64 = 5_000_000_000;
    let mut gap: u64 = 0;
    let mut gaps: Vec<u64> = Vec::new();
    for _ in 0..100 {
        gap = compute_sleep(t, gap);
        gaps.push(gap);
    }
    for &g in &gaps {
        assert_eq!(g, t);
    }
}

#[test]
fn gaps_stay_in_band_and_average_exactly_the_interval() {
    let t: u64 = 5_000_000_000;
    let mut gap: u64 = t / 2;
    let mut gaps: Vec<u64> = Vec::new();
    for _ in 0..100 {
        gap = compute_sleep(t, gap);
        gaps.push(gap);
    }
    let mut sum: u128 = 0;
    for &g in &gaps {
        assert!(t / 2 <= g && g <= 2 * t - t / 2);
        sum += g as u128;
    }
    assert_eq!(sum, 100 * t as u128);
    for k in 0..gaps.len() - 1 {
        assert_eq!(gaps[k] + gaps[k + 1], 2 * t);
    }
}

#[test]
fn any_start_gap_enters_the_band_within_two_ticks() {
    let t: u64 = 1000;
    for g0 in [0u64, 1, 250, 499, 500, 750, 999, 1000, 1250, 1500, 1501, 1750, 1999, 2000] {
        let g1 = compute_sleep(t, g0);
        let g2 = compute_sleep(t, g1);
        assert!(t / 2 <= g2 && g2 <= 2 * t - t / 2);
    }
}
