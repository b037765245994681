use vstd::prelude::*;

verus! {

/// The drift-compensating sleep policy, over the gap `g` between the starts
/// of the two most recent ticks and the configured interval `t` (both in the
/// same time unit): a gap below half the interval earns the nominal sleep
/// `t`; any other gap earns `2t - g`, pulling the next tick start back so the
/// two gaps together span exactly two intervals.
pub open spec fn next_gap(t: int, g: int) -> int {
    if g < t / 2 {
        t
    } else {
        2 * t - g
    }
}

/// Computes how long to sleep before the next tick, from the configured
/// interval and the elapsed time since the previous tick start (same unit,
/// e.g. nanoseconds). A gap beyond twice the interval is excluded: there the
/// compensating subtraction would underflow.
pub fn compute_sleep(interval: u64, elapsed: u64) -> (r: u64)
    requires
        interval <= u64::MAX / 2,
        elapsed <= 2 * interval,
    ensures
        r == next_gap(interval as int, elapsed as int),
{
    if elapsed < interval / 2 {
        interval
    } else {
        2 * interval - elapsed
    }
}

/// The inter-tick gaps of a run whose sampling steps take negligible time:
/// each gap equals the sleep computed from the gap before it.
pub open spec fn gap_seq(t: int, g0: int, n: nat) -> int
    decreases n,
{
    if n == 0 {
        g0
    } else {
        next_gap(t, gap_seq(t, g0, (n - 1) as nat))
    }
}

/// The sum of the first `n` inter-tick gaps: the time from the first tick
/// start to the start of tick `n`.
pub open spec fn gap_sum(t: int, g0: int, n: nat) -> int
    decreases n,
{
    if n == 0 {
        0
    } else {
        gap_sum(t, g0, (n - 1) as nat) + gap_seq(t, g0, (n - 1) as nat)
    }
}

/// The gaps the policy oscillates within once settled: at least half the
/// interval and at most twice the interval less that half.
pub open spec fn in_band(t: int, g: int) -> bool {
    t / 2 <= g <= 2 * t - t / 2
}

/// Law: the sleep never leaves the window of twice the interval — from a gap
/// of at most `2t`, the next gap is again between `0` and `2t`, so one slow
/// tick cannot compound into unbounded drift.
pub proof fn lemma_next_gap_bounded(t: int, g: int)
    requires
        t >= 1,
        0 <= g <= 2 * t,
    ensures
        0 <= next_gap(t, g) <= 2 * t,
{
}

/// Law: the nominal gap is a fixed point — a run ticking exactly at the
/// interval keeps ticking exactly at the interval.
pub proof fn lemma_nominal_fixed_point(t: int)
    requires
        t >= 1,
    ensures
        next_gap(t, t) == t,
{
}

/// Law (two-tick drift correction): within the band, each gap and its
/// successor sum to exactly twice the interval, and the successor is again
/// within the band.
pub proof fn lemma_band_step(t: int, g: int)
    requires
        t >= 1,
        in_band(t, g),
    ensures
        in_band(t, next_gap(t, g)),
        g + next_gap(t, g) == 2 * t,
{
}

/// Law (convergence): from any starting gap of at most twice the interval,
/// the run is inside the band after two ticks.
pub proof fn lemma_enters_band(t: int, g: int)
    requires
        t >= 1,
        0 <= g <= 2 * t,
    ensures
        in_band(t, gap_seq(t, g, 2)),
{
    assert(gap_seq(t, g, 0) == g);
    assert(gap_seq(t, g, 1) == next_gap(t, g));
    assert(gap_seq(t, g, 2) == next_gap(t, next_gap(t, g)));
}

/// Law: the band, once entered, is never left.
pub proof fn lemma_band_stays(t: int, g0: int, n: nat)
    requires
        t >= 1,
        in_band(t, g0),
    ensures
        in_band(t, gap_seq(t, g0, n)),
    decreases n,
{
    if n > 0 {
        lemma_band_stays(t, g0, (n - 1) as nat);
        lemma_band_step(t, gap_seq(t, g0, (n - 1) as nat));
    }
}

/// Law (long-run cadence): within the band the gaps pair up to exactly twice
/// the interval, so over any even number of ticks the elapsed time is exactly
/// that many intervals — the long-run average tick spacing is the configured
/// interval, with each single gap off by at most half an interval.
pub proof fn lemma_long_run_average(t: int, g0: int, n: nat)
    requires
        t >= 1,
        in_band(t, g0),
    ensures
        gap_sum(t, g0, 2 * n) == 2 * n * t,
    decreases n,
{
    if n > 0 {
        let m = (2 * (n - 1)) as nat;
        lemma_long_run_average(t, g0, (n - 1) as nat);
        lemma_band_stays(t, g0, m);
        lemma_band_step(t, gap_seq(t, g0, m));
        assert(gap_seq(t, g0, (m + 1) as nat) == next_gap(t, gap_seq(t, g0, m)));
        assert(gap_sum(t, g0, (m + 1) as nat) == gap_sum(t, g0, m) + gap_seq(t, g0, m));
        assert(gap_sum(t, g0, (m + 2) as nat) == gap_sum(t, g0, (m + 1) as nat) + gap_seq(
            t,
            g0,
            (m + 1) as nat,
        ));
        assert(2 * n == m + 2);
        assert(2 * n * t == 2 * (n - 1) * t + 2 * t) by (nonlinear_arith);
    } else {
        assert(gap_sum(t, g0, 0) == 0);
        assert(2 * n * t == 0) by (nonlinear_arith)
            requires
                n == 0,
        ;
    }
}

} // verus!
