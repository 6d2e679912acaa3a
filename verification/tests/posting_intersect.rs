use lance_autoresearch::perf::PerfMeasurement;
use lance_autoresearch::posting_intersect::experiment::{
    format_dist, format_failure, format_shape, measure, run_correctness, run_speed, speed_report,
    verdict,
};
use lance_autoresearch::posting_intersect::inputs::{
    correctness_battery, gen_posting_set, shapes, speed_workloads, DataDistribution, InputKind,
    PostingSet, SpeedWorkload, DISTRIBUTIONS, SPEED_BATCH, SPEED_INSTANCES_PER_COMBO,
};
use lance_autoresearch::posting_intersect::kernels::{
    block_intersect, build_shuffle_lut, gallop_intersect, pairwise_intersect, ShuffleLut,
    scalar_merge_intersect, PostingIntersect,
};
use lance_autoresearch::posting_intersect::reference::{intersect_reference, intersections_diff};
use lance_autoresearch::posting_intersect::sampling::sorted_unique;
use lance_autoresearch::posting_intersect::PostingShape;
use lance_autoresearch::prng::SplitMix64;
use lance_autoresearch::stopwatch::Stopwatch;
use lance_autoresearch::timing::Timings;
use std::collections::BTreeSet;

fn exp_mean_ln(xs: &[u64]) -> u64 {
    let sum: f64 = xs.iter().map(|&x| (x as f64).ln()).sum();
    (sum / xs.len() as f64).exp() as u64
}

fn naive(lists: &[&[u32]]) -> Vec<u32> {
    match lists.split_first() {
        None => Vec::new(),
        Some((first, rest)) => first
            .iter()
            .copied()
            .filter(|x| rest.iter().all(|l| l.contains(x)))
            .collect(),
    }
}

fn both(lists: &[&[u32]]) -> Vec<u32> {
    let mut kernel = PostingIntersect::new();
    let mut out = vec![7, 7, 7];
    kernel.intersect(lists, &mut out);
    let mut reference = vec![9];
    intersect_reference(lists, &mut reference);
    assert_eq!(out, reference);
    out
}

#[test]
fn inputs_correctness_battery_is_deterministic() {
    let a = correctness_battery(0xABCD);
    let b = correctness_battery(0xABCD);
    assert_eq!(a.len(), b.len());
    for (x, y) in a.iter().zip(&b) {
        assert_eq!(x.shape, y.shape);
        for (la, lb) in x.set.lists.iter().zip(&y.set.lists) {
            assert_eq!(la, lb);
        }
    }
}

#[test]
fn lists_are_sorted_unique() {
    let cases = correctness_battery(0x1234);
    for case in &cases {
        for list in &case.set.lists {
            for w in list.windows(2) {
                assert!(w[0] < w[1], "list not strictly increasing in {}", case.label);
            }
        }
    }
}

#[test]
fn inputs_speed_workloads_match_shapes() {
    let w = speed_workloads(0x1234);
    assert_eq!(w.len(), shapes().len() * DISTRIBUTIONS.len());
    for wl in w {
        assert_eq!(wl.instances.len(), SPEED_INSTANCES_PER_COMBO);
        for inst in &wl.instances {
            assert_eq!(inst.lists.len(), wl.shape.num_lists);
        }
    }
}

#[test]
fn intersect_battery_has_every_case() {
    let cases = correctness_battery(1);
    let labels: Vec<(usize, &str)> = cases.iter().map(|c| (c.shape.num_lists, c.label)).collect();
    let mut expected = Vec::new();
    for k in [2, 3, 5] {
        for label in ["balanced", "skewed", "dense", "sparse", "clustered"] {
            expected.push((k, label));
        }
    }
    expected.push((2, "edge_one_empty"));
    expected.push((2, "edge_disjoint"));
    expected.push((2, "edge_identical"));
    expected.push((3, "edge_single_overlap"));
    assert_eq!(labels, expected);
    assert_eq!(cases[15].set.lists[0].len(), 100);
    assert!(cases[15].set.lists[1].is_empty());
    assert_eq!(cases[16].set.lists[0][..3], [0, 2, 4]);
    assert_eq!(cases[16].set.lists[1][22..], [45, 47, 49]);
    assert_eq!(cases[17].set.lists[0], (0..100).collect::<Vec<u32>>());
    assert_eq!(cases[17].set.lists[1], cases[17].set.lists[0]);
    assert_eq!(cases[18].set.lists[1], vec![5, 42, 99, 101]);
}

#[test]
fn battery_lists_have_their_sizes() {
    let cases = correctness_battery(3);
    let sizes: Vec<Vec<usize>> = cases[..4]
        .iter()
        .map(|c| c.set.lists.iter().map(|l| l.len()).collect())
        .collect();
    assert_eq!(sizes, vec![vec![1000, 1000], vec![5, 5000], vec![500, 500], vec![4, 4]]);
    assert!(cases[0].set.lists[0].iter().all(|&x| x < 100_000));
    assert!(cases[1].set.lists[1].iter().all(|&x| x < 50_000));
    assert!(cases[2].set.lists[0].iter().all(|&x| x < 1_000));
    let clustered = &cases[4].set.lists[0];
    assert!(clustered.len() <= 96 && clustered.iter().all(|&x| x < 10_000));
    assert!(clustered.windows(2).filter(|w| w[1] == w[0] + 1).count() >= 32);
}

#[test]
fn different_seeds_give_different_batteries() {
    let a = correctness_battery(1);
    let b = correctness_battery(2);
    assert_ne!(a[0].set.lists, b[0].set.lists);
}

#[test]
fn set_of_no_lists() {
    let shape = PostingShape::new(0);
    let balanced = gen_posting_set(shape, InputKind::Balanced, &mut SplitMix64::new(1), true);
    assert!(balanced.lists.is_empty());
    let skewed = gen_posting_set(shape, InputKind::Skewed, &mut SplitMix64::new(1), true);
    assert!(skewed.lists.is_empty());
}

#[test]
fn samples_by_rejection_are_the_first_distinct_draws() {
    for universe in [1_000u32, 2_000_000] {
        let mut rng = SplitMix64::new(11);
        let list = sorted_unique(&mut rng, 50, universe);
        let mut expected = BTreeSet::new();
        let mut other = SplitMix64::new(11);
        while expected.len() < 50 {
            expected.insert((other.next_u64() % universe as u64) as u32);
        }
        assert_eq!(list, expected.into_iter().collect::<Vec<u32>>());
        assert_eq!(rng.next_u64(), other.next_u64());
    }
}

#[test]
fn samples_by_shuffle_follow_the_swaps() {
    let mut rng = SplitMix64::new(12);
    let list = sorted_unique(&mut rng, 40, 100);
    let mut other = SplitMix64::new(12);
    let mut domain: Vec<u32> = (0..100).collect();
    for i in 0..40 {
        let j = i + other.next_u64() as usize % (100 - i);
        domain.swap(i, j);
    }
    let mut expected: Vec<u32> = domain[..40].to_vec();
    expected.sort();
    assert_eq!(list, expected);
    assert_eq!(rng.next_u64(), other.next_u64());
}

#[test]
fn samples_of_the_whole_universe() {
    let mut rng = SplitMix64::new(13);
    assert_eq!(sorted_unique(&mut rng, 500, 20), (0..20).collect::<Vec<u32>>());
    assert!(sorted_unique(&mut rng, 5, 0).is_empty());
    assert!(sorted_unique(&mut rng, 0, 5).is_empty());
}

#[test]
fn as_slices_borrows_every_list() {
    let set = PostingSet {
        lists: vec![vec![1, 2], vec![], vec![3]],
    };
    let slices = set.as_slices();
    assert_eq!(slices, vec![&[1u32, 2][..], &[][..], &[3][..]]);
}

#[test]
fn intersect_of_no_list_one_list_and_an_empty_list() {
    assert!(both(&[]).is_empty());
    assert_eq!(both(&[&[1, 5, 9]]), vec![1, 5, 9]);
    assert!(both(&[&[1, 2], &[], &[1]]).is_empty());
    assert_eq!(both(&[&[1, 2, 3, 42, 100, 200], &[5, 42, 99, 101], &[42, 500, 600]]), vec![42]);
}

#[test]
fn every_path_gives_the_common_ids() {
    let a: Vec<u32> = (0..200).map(|x| x * 3).collect();
    let b: Vec<u32> = (0..300).map(|x| x * 2).collect();
    let expected = naive(&[&a, &b]);
    let blocks = |a: &[u32], b: &[u32], out: &mut Vec<u32>| {
        block_intersect(a, b, &ShuffleLut::new(), out)
    };
    let pairwise = |a: &[u32], b: &[u32], out: &mut Vec<u32>| {
        pairwise_intersect(a, b, &ShuffleLut::new(), out)
    };
    let paths: [fn(&[u32], &[u32], &mut Vec<u32>); 4] =
        [blocks, gallop_intersect, scalar_merge_intersect, pairwise];
    for path in paths {
        let mut out = vec![1];
        path(&a, &b, &mut out);
        assert_eq!(out[0], 1);
        assert_eq!(out[1..], expected[..]);
    }
}

#[test]
fn lopsided_lists_are_galloped_either_way() {
    let long: Vec<u32> = (0..5_000).map(|x| x * 7).collect();
    let short = [0u32, 6, 7, 700, 34_993, 34_994, u32::MAX];
    let expected = vec![0, 7, 700, 34_993];
    assert_eq!(both(&[&short, &long]), expected);
    assert_eq!(both(&[&long, &short]), expected);
}

#[test]
fn order_of_the_lists_makes_no_difference() {
    let case = &correctness_battery(5)[12];
    let mut slices = case.set.as_slices();
    let forward = both(&slices);
    slices.reverse();
    assert_eq!(both(&slices), forward);
    assert_eq!(forward, naive(&slices));
}

#[test]
fn kernel_agrees_with_reference_on_random_blocks() {
    let mut rng = SplitMix64::new(77);
    let mut kernel = PostingIntersect::default();
    for round in 0..200usize {
        let universe = 30 + (round as u32 % 7) * 40;
        let n = 1 + rng.next_u64() as usize % 60;
        let m = 1 + rng.next_u64() as usize % 60;
        let a = sorted_unique(&mut rng, n, universe);
        let b = sorted_unique(&mut rng, m, universe);
        let mut out = Vec::new();
        kernel.intersect(&[&a, &b], &mut out);
        assert_eq!(out, naive(&[&a, &b]));
    }
}

#[test]
fn shuffle_table_gathers_the_matching_lanes() {
    let lut = build_shuffle_lut();
    assert_eq!(lut[0], [0xFF; 16]);
    assert_eq!(lut[0b1010][..8], [4, 5, 6, 7, 12, 13, 14, 15]);
    assert_eq!(lut[0b1010][8..], [0xFF; 8]);
    assert_eq!(lut[15], [0, 1, 2, 3, 4, 5, 6, 7, 8, 9, 10, 11, 12, 13, 14, 15]);
}

#[test]
fn intersect_diff_reports_the_first_difference() {
    assert_eq!(intersections_diff(&[1, 2], &[1, 2]), None);
    assert_eq!(
        intersections_diff(&[1, 2, 3], &[1]),
        Some("length mismatch: agent=3 reference=1".to_string())
    );
    assert_eq!(
        intersections_diff(&[1, 20, 4294967295], &[1, 0, 7]),
        Some("element 1: agent=20 reference=0".to_string())
    );
}

#[test]
fn intersect_verdict_names_the_case() {
    let shape = PostingShape::new(12);
    assert_eq!(verdict(&shape, "dense", &[3], &[3]), Ok(()));
    assert_eq!(
        verdict(&shape, "dense", &[3], &[4]),
        Err("case=K=12/dense element 0: agent=3 reference=4".to_string())
    );
    assert_eq!(
        format_failure(&shape, "x", &"y".to_string()),
        "case=K=12/x y".to_string()
    );
}

#[test]
fn names_of_shapes_and_distributions() {
    assert_eq!(format_shape(&PostingShape::new(5)), "K=5");
    assert_eq!(format_shape(&PostingShape::new(1_000)), "K=1000");
    assert_eq!(format_dist(&DataDistribution::Balanced), "balanced");
    assert_eq!(format_dist(&DataDistribution::Skewed), "skewed");
    assert_eq!(format_dist(&DataDistribution::Dense), "dense");
}

#[test]
fn intersect_correctness_run_passes() {
    assert_eq!(run_correctness(), Ok(()));
}

fn small_workloads() -> Vec<SpeedWorkload> {
    let mut rng = SplitMix64::new(3);
    let mut loads = Vec::new();
    for (dist, count) in [(DataDistribution::Skewed, 17), (DataDistribution::Dense, 9)] {
        let mut instances = Vec::new();
        for _ in 0..count {
            instances.push(PostingSet {
                lists: vec![sorted_unique(&mut rng, 20, 64), sorted_unique(&mut rng, 20, 64)],
            });
        }
        loads.push(SpeedWorkload {
            shape: PostingShape::new(2),
            distribution: dist,
            instances,
        });
    }
    loads
}

#[test]
fn every_window_is_timed() {
    let loads = small_workloads();
    let mut watch = Stopwatch::new();
    let pmc = watch.has_pmc();
    let timings = measure(&loads, 3, &mut watch);
    assert_eq!(timings.all.len(), 9);
    assert_eq!(timings.per_combo[0].len(), 6);
    assert_eq!(timings.per_combo[1].len(), 3);
    if !pmc {
        assert!(timings.cycles.is_empty() && timings.instructions.is_empty());
    }
}

#[test]
fn intersect_report_names_slowest_and_fastest() {
    let loads = small_workloads();
    let mut timings = Timings::new(2);
    let m = |ns: u64| PerfMeasurement {
        wall_clock_ns: ns * SPEED_BATCH as u64,
        instructions: None,
        cycles: None,
    };
    timings.record(0, SPEED_BATCH as u64, m(10));
    timings.record(1, SPEED_BATCH as u64, m(1_000));
    let report = speed_report(&loads, &timings, false, &exp_mean_ln);
    assert_eq!((report.worst_ns, report.worst_dist), (999, DataDistribution::Dense));
    assert_eq!((report.best_ns, report.best_dist), (10, DataDistribution::Skewed));
    assert_eq!(report.per_combo.len(), 2);
    assert_eq!(report.per_combo[1].geomean_ns, 999);
    assert_eq!(report.summary.median_ns, 505);
    let nothing = speed_report(&loads, &Timings::new(2), false, &exp_mean_ln);
    assert_eq!((nothing.worst_ns, nothing.worst_dist), (0, DataDistribution::Balanced));
    assert_eq!((nothing.best_ns, nothing.best_dist), (0, DataDistribution::Skewed));
}

#[test]
fn intersect_speed_run_reports_every_workload() {
    let loads = small_workloads();
    let report = run_speed(&loads, 1, exp_mean_ln);
    assert_eq!(report.per_combo.len(), 2);
    assert!(report.best_ns <= report.worst_ns);
    assert!(report.summary.geomean_ns_ci.0 <= report.summary.geomean_ns_ci.1);
}

#[test]
fn skewed_sets_pair_a_short_list_with_long_ones() {
    let mut rng = SplitMix64::new(9);
    let set = gen_posting_set(PostingShape::new(3), InputKind::Skewed, &mut rng, false);
    let lens: Vec<usize> = set.lists.iter().map(|l| l.len()).collect();
    assert_eq!(lens, vec![50, 50_000, 50_000]);
    assert!(set.lists.iter().flatten().all(|&id| id < 500_000));
    let small = gen_posting_set(PostingShape::new(2), InputKind::Skewed, &mut rng, true);
    assert_eq!((small.lists[0].len(), small.lists[1].len()), (5, 5_000));
}
