use lance_autoresearch::cli::{
    combo_line, counter_line, over_budget, passes_of, TIME_BUDGET_SECS,
};
use lance_autoresearch::clock::Clock;
use lance_autoresearch::counter::KernelRequests;
use lance_autoresearch::perf::{counter_delta, measured, PerfCounters, PerfMeasurement, Pmc};
use lance_autoresearch::prng::{mix_seeds, SplitMix64};
use lance_autoresearch::stats::{
    bootstrap_ci_geomean, ci_places, geomean, iqr, is_statistically_faster, median,
    resampled_means,
};
use lance_autoresearch::timing::{best_index, combo_means, summarize, worst_index, Timings};

fn exp_mean_ln(xs: &[u64]) -> u64 {
    let mut sum_ln = 0.0f64;
    for &x in xs {
        sum_ln += (x as f64).ln();
    }
    (sum_ln / xs.len() as f64).exp() as u64
}

fn measurement(ns: u64, instructions: Option<u64>, cycles: Option<u64>) -> PerfMeasurement {
    PerfMeasurement {
        wall_clock_ns: ns,
        instructions,
        cycles,
    }
}

#[test]
fn double_stop_returns_zero() {
    let mut p = PerfCounters::new();
    p.start();
    let _ = p.stop();
    let m2 = p.stop();
    assert_eq!(m2.wall_clock_ns, 0);
}

#[test]
fn linux_attempts_pmc() {
    let p = PerfCounters::new();
    let _ = p.has_pmc();
}

#[test]
fn non_linux_reports_no_pmc() {
    let p = PerfCounters::with_pmc(None);
    assert!(!p.has_pmc());
}

#[test]
fn wall_clock_runs_between_start_and_stop() {
    let mut p = PerfCounters::default();
    p.start();
    let begin = std::time::Instant::now();
    while begin.elapsed() < std::time::Duration::from_micros(100) {}
    let m = p.stop();
    assert!(m.wall_clock_ns >= 100_000, "{}", m.wall_clock_ns);
}

#[test]
fn counts_are_absent_without_hardware_counters() {
    let mut p = PerfCounters::with_pmc(None);
    p.start();
    let m = p.stop();
    assert_eq!(m.instructions, None);
    assert_eq!(m.cycles, None);
}

#[test]
fn hardware_counters_follow_their_availability() {
    let mut p = PerfCounters::with_pmc(Pmc::try_new());
    let available = p.has_pmc();
    p.start();
    let mut x = 1u64;
    for i in 0..10_000u64 {
        x = std::hint::black_box(x.wrapping_mul(i | 1));
    }
    let m = p.stop();
    if !available {
        assert_eq!(m.instructions, None);
        assert_eq!(m.cycles, None);
    } else if let Some(n) = m.instructions {
        assert!(n >= 10_000, "{n}");
    }
}

#[test]
fn baselines_and_deltas_of_hardware_counters() {
    if let Some(mut pmc) = Pmc::try_new() {
        pmc.set_baselines(None, None);
        let (i, _) = pmc.delta_since_start();
        pmc.snapshot_start();
        let (j, _) = pmc.delta_since_start();
        if let (Some(i), Some(j)) = (i, j) {
            assert!(j <= i);
        }
    }
}

#[test]
fn counter_delta_saturates() {
    assert_eq!(counter_delta(Some(10), 4), Some(6));
    assert_eq!(counter_delta(Some(4), 10), Some(0));
    assert_eq!(counter_delta(None, 10), None);
}

#[test]
fn measurement_of_a_window() {
    let m = measured(Some(1_234), (Some(5), None));
    assert_eq!((m.wall_clock_ns, m.instructions, m.cycles), (1_234, Some(5), None));
    let m = measured(None, (None, Some(6)));
    assert_eq!((m.wall_clock_ns, m.instructions, m.cycles), (0, None, Some(6)));
    let m = measured(Some((1u128 << 64) + 3), (None, None));
    assert_eq!(m.wall_clock_ns, 3);
}

#[test]
fn default_measurement_is_empty() {
    let m = PerfMeasurement::default();
    assert_eq!((m.wall_clock_ns, m.instructions, m.cycles), (0, None, None));
}

#[test]
fn empty_yields_zero() {
    assert_eq!(geomean(&[], exp_mean_ln), 0);
}

#[test]
fn single_value_round_trips() {
    assert_eq!(geomean(&[100], exp_mean_ln), 100);
}

#[test]
fn geomean_is_below_arithmetic_mean() {
    let xs = [1, 10, 100, 1000];
    let g = geomean(&xs, exp_mean_ln);
    let am: u64 = xs.iter().sum::<u64>() / xs.len() as u64;
    assert!(g < am);
}

#[test]
fn geomean_raises_zeros_to_one() {
    assert_eq!(geomean(&[0], exp_mean_ln), 1);
    assert_eq!(geomean(&[0, 7, 3], |xs: &[u64]| xs.iter().sum::<u64>()), 11);
}

#[test]
fn median_odd_and_even() {
    assert_eq!(median(&[5, 3, 1, 4, 2]), 3);
    assert_eq!(median(&[1, 2, 3, 4]), 2); // (2 + 3) / 2 = 2 with u64 floor
    assert_eq!(median(&[]), 0);
}

#[test]
fn median_of_large_values() {
    assert_eq!(median(&[u64::MAX, u64::MAX - 2]), u64::MAX - 1);
    assert_eq!(median(&[7]), 7);
    assert_eq!(median(&[9, 9, 1, 9]), 9);
}

#[test]
fn iqr_basic() {
    let (q1, q3) = iqr(&[1, 2, 3, 4, 5, 6, 7, 8]);
    assert_eq!((q1, q3), (3, 7));
}

#[test]
fn iqr_of_few_samples() {
    assert_eq!(iqr(&[]), (0, 0));
    assert_eq!(iqr(&[5]), (5, 5));
    assert_eq!(iqr(&[30, 10, 20]), (10, 30));
    assert_eq!(iqr(&[6, 5, 4, 3, 2, 1]), (2, 5));
}

#[test]
fn bootstrap_ci_brackets_true_geomean() {
    let xs: Vec<u64> = (100..200).collect();
    let true_geo = geomean(&xs, exp_mean_ln);
    let (lo, hi) = bootstrap_ci_geomean(&xs, 1000, 0xABCD, exp_mean_ln);
    assert!(lo <= true_geo && true_geo <= hi, "{lo} <= {true_geo} <= {hi}");
    // CI should be tight relative to the spread.
    assert!(hi - lo < true_geo / 5);
}

#[test]
fn bootstrap_ci_is_reproducible() {
    let xs: Vec<u64> = (1..50).map(|x| x * x).collect();
    let a = bootstrap_ci_geomean(&xs, 100, 7, exp_mean_ln);
    let b = bootstrap_ci_geomean(&xs, 100, 7, exp_mean_ln);
    assert_eq!(a, b);
    assert!(a.0 <= a.1);
    assert_eq!(bootstrap_ci_geomean(&[], 0, 7, exp_mean_ln), (0, 0));
    assert_eq!(bootstrap_ci_geomean(&[42], 1, 7, |xs: &[u64]| xs[0]), (42, 42));
}

#[test]
fn bootstrap_ci_draws_its_resamples_in_order() {
    let xs = [10u64, 20, 30];
    let mut rng = SplitMix64::new(99);
    let mut means: Vec<u64> = Vec::new();
    for _ in 0..40 {
        let mut sum = 0;
        for _ in 0..3 {
            sum += xs[rng.next_u64() as usize % 3];
        }
        means.push(sum);
    }
    means.sort();
    let ci = bootstrap_ci_geomean(&xs, 40, 99, |v: &[u64]| v.iter().sum::<u64>());
    assert_eq!(ci, (means[2], means[38]));
}

#[test]
fn statistically_faster_when_non_overlapping() {
    assert!(is_statistically_faster((100, 200), (250, 300)));
    assert!(!is_statistically_faster((100, 200), (150, 300)));
    assert!(!is_statistically_faster((100, 200), (200, 300)));
}

#[test]
fn faster_is_an_order() {
    let (a, b, c) = ((1, 2), (3, 4), (5, 6));
    assert!(is_statistically_faster(a, b) && is_statistically_faster(b, c));
    assert!(is_statistically_faster(a, c));
    assert!(!is_statistically_faster(b, a) && !is_statistically_faster(a, a));
}

#[test]
fn generator_gives_its_known_sequence() {
    let mut rng = SplitMix64::new(1234567);
    let drawn: Vec<u64> = (0..5).map(|_| rng.next_u64()).collect();
    assert_eq!(
        drawn,
        vec![
            6457827717110365317,
            3203168211198807973,
            9817491932198370423,
            4593380528125082431,
            16408922859458223821
        ]
    );
}

#[test]
fn seeds_are_mixed_by_the_output_function() {
    let mut rng = SplitMix64::new(5);
    assert_eq!(mix_seeds(&[]), 0);
    assert_eq!(mix_seeds(&[5]), rng.next_u64());
    assert_ne!(mix_seeds(&[1, 2]), mix_seeds(&[2, 1]));
}

#[test]
fn timings_are_recorded_per_call() {
    let mut t = Timings::new(2);
    t.record(1, 8, measurement(80, Some(800), None));
    t.record(0, 8, measurement(15, None, Some(24)));
    assert_eq!(t.all, vec![10, 1]);
    assert_eq!(t.instructions, vec![100]);
    assert_eq!(t.cycles, vec![3]);
    assert_eq!(t.per_combo, vec![vec![1], vec![10]]);
    assert_eq!(combo_means(&t, &exp_mean_ln), vec![1, 10]);
}

#[test]
fn summary_of_timings() {
    let mut t = Timings::new(1);
    t.record(0, 1, measurement(100, Some(7), Some(9)));
    let with = summarize(&t, true, &exp_mean_ln);
    assert_eq!(with.geomean_ns, 100);
    assert_eq!(with.geomean_ns_ci, (100, 100));
    assert_eq!(with.median_ns, 100);
    assert_eq!(with.geomean_instructions, Some(geomean(&[7], exp_mean_ln)));
    assert_eq!(with.geomean_cycles, Some(geomean(&[9], exp_mean_ln)));
    let without = summarize(&t, false, &exp_mean_ln);
    assert_eq!(without.geomean_instructions, None);
    assert_eq!(without.geomean_cycles, None);
}

#[test]
fn worst_and_best_are_the_first_of_their_kind() {
    assert_eq!(worst_index(&[3, 9, 9, 1]), Some(1));
    assert_eq!(best_index(&[3, 1, 9, 1]), Some(1));
    assert_eq!(worst_index(&[0, 0]), None);
    assert_eq!(worst_index(&[]), None);
    assert_eq!(best_index(&[u64::MAX]), None);
    assert_eq!(best_index(&[u64::MAX, 5]), Some(1));
}

fn args(words: &[&str]) -> Vec<String> {
    words.iter().map(|w| w.to_string()).collect()
}

#[test]
fn baseline_takes_three_passes() {
    assert_eq!(passes_of(&args(&["run", "--mode", "baseline"])), 3);
    assert_eq!(passes_of(&args(&["run", "x", "-m", "baseline", "y"])), 3);
    assert_eq!(passes_of(&args(&["run", "--mode", "trial", "baseline"])), 1);
    assert_eq!(passes_of(&args(&["run", "baseline", "--mode"])), 1);
    assert_eq!(passes_of(&args(&["run"])), 1);
    assert_eq!(passes_of(&[]), 1);
}

#[test]
fn budget_is_exceeded_after_its_last_second() {
    assert!(!over_budget(TIME_BUDGET_SECS));
    assert!(over_budget(TIME_BUDGET_SECS + 1));
}

#[test]
fn lines_are_laid_out() {
    assert_eq!(counter_line("cycles", Some(42), 10), "cycles:    42");
    assert_eq!(
        counter_line("geomean_cycles", None, 4),
        "geomean_cycles: n/a (no PMU access on this platform)"
    );
    assert_eq!(combo_line("K=2", "dense", 10, 1_234), "  K=2 dense      -> 1234 ns");
    assert_eq!(combo_line("Small", "skip_shallow", 4, 0), "  Small skip_shallow -> 0 ns");
}

#[test]
fn ends_of_the_interval_stand_a_twentieth_from_either_end() {
    assert_eq!(ci_places(1000), (50, 950));
    assert_eq!(ci_places(1), (0, 0));
    assert_eq!(ci_places(2), (0, 1));
    assert_eq!(ci_places(39), (1, 37));
    assert_eq!(ci_places(usize::MAX).0, usize::MAX / 20);
}

#[test]
fn pairs_are_resampled_together() {
    let xs: Vec<u64> = (1..=50).collect();
    let ys: Vec<u64> = xs.iter().map(|x| x + 1_000).collect();
    let sum = |v: &[u64]| v.iter().sum::<u64>();
    let of_xs = resampled_means(&xs, 20, 5, &sum);
    let of_ys = resampled_means(&ys, 20, 5, &sum);
    assert_eq!(of_xs.len(), 20);
    for (x, y) in of_xs.iter().zip(&of_ys) {
        assert_eq!(x + 50 * 1_000, *y);
    }
    assert_ne!(of_xs[0], of_xs[1]);
}

#[test]
fn second_stop_measures_nothing() {
    let mut p = PerfCounters::new();
    let counts = if p.has_pmc() { Some(0) } else { None };
    p.start();
    let _ = p.stop();
    for _ in 0..2 {
        let m = p.stop();
        assert_eq!((m.wall_clock_ns, m.instructions, m.cycles), (0, counts, counts));
    }
}

#[test]
fn both_counters_are_needed() {
    let mut kernel = KernelRequests::new();
    assert!(Pmc::from_opened(None, None).is_none());
    assert!(Pmc::from_opened(kernel.open_instructions(), None).is_none());
    assert!(Pmc::from_opened(None, kernel.open_cycles()).is_none());
    let both = (kernel.open_instructions(), kernel.open_cycles());
    assert!(Pmc::from_opened(both.0, both.1).is_none());
    if let (Some(mut i), Some(mut c)) = (kernel.open_instructions(), kernel.open_cycles()) {
        assert!(!i.is_enabled() && !c.is_enabled());
        let enabled = kernel.enable(&mut i) && kernel.enable(&mut c);
        assert_eq!(Pmc::from_opened(Some(i), Some(c)).is_some(), enabled);
    }
}

#[test]
fn counters_are_there_if_the_kernel_grants_them() {
    let mut p = PerfCounters::new();
    let available = p.has_pmc();
    assert_eq!(Pmc::open(&mut KernelRequests::new()).is_some(), available);
    p.start();
    assert_eq!(p.has_pmc(), available);
    p.stop();
    assert_eq!(p.has_pmc(), available);
}

#[test]
fn median_does_not_depend_on_the_order() {
    let xs = [9, 2, 7, 2, 5, 11];
    let ys = [2, 2, 5, 7, 9, 11];
    assert_eq!(median(&xs), 6);
    assert_eq!(median(&ys), 6);
    let m = median(&xs[..5]);
    assert_eq!(m, 5);
    assert!(xs[..5].contains(&m));
    assert!(xs[..5].iter().filter(|&&x| x < m).count() <= 2);
    assert!(xs[..5].iter().filter(|&&x| x > m).count() <= 2);
}

#[test]
fn times_are_per_call() {
    let mut timings = Timings::new(2);
    timings.record(1, 8, measurement(83, None, Some(16)));
    timings.record(0, 1, measurement(5, None, None));
    assert_eq!(timings.all, vec![10, 5]);
    assert_eq!(timings.per_combo, vec![vec![5], vec![10]]);
    assert_eq!(timings.cycles, vec![2]);
    assert!(timings.instructions.is_empty());
}

#[test]
fn clock_reads_only_while_running() {
    let mut clock = Clock::new();
    assert_eq!(clock.stop(), None);
    clock.start();
    let begin = std::time::Instant::now();
    while begin.elapsed() < std::time::Duration::from_micros(50) {}
    assert!(clock.stop().is_some_and(|ns| ns >= 50_000));
    assert_eq!(clock.stop(), None);
}

#[test]
fn latest_start_counts() {
    let mut p = PerfCounters::new();
    p.start();
    let begin = std::time::Instant::now();
    while begin.elapsed() < std::time::Duration::from_millis(200) {}
    p.start();
    assert!(p.stop().wall_clock_ns < 200_000_000);
}

#[test]
fn zero_samples_count_as_one() {
    assert_eq!(geomean(&[0, 8, 0], exp_mean_ln), geomean(&[1, 8, 1], exp_mean_ln));
    assert_eq!(geomean(&[0], exp_mean_ln), 1);
}

#[test]
fn equal_samples_have_an_interval_of_one_point() {
    let sum = |v: &[u64]| v.iter().sum::<u64>();
    assert_eq!(bootstrap_ci_geomean(&[7; 12], 40, 3, sum), (84, 84));
}

#[test]
fn different_states_draw_different_numbers() {
    let mut drawn: Vec<u64> = (0..1_000).map(|s| SplitMix64::new(s).next_u64()).collect();
    drawn.sort_unstable();
    drawn.dedup();
    assert_eq!(drawn.len(), 1_000);
}
