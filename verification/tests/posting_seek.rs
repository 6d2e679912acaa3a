use lance_autoresearch::perf::PerfMeasurement;
use lance_autoresearch::posting_seek::experiment::{
    format_failure, format_pattern, format_shape, measure, next_batch, replay_both,
    run_correctness, run_speed, speed_report, verdict, BATCH,
};
use lance_autoresearch::posting_seek::inputs::{
    build_correctness_ops, build_posting_list, build_speed_ops, correctness_battery, shapes,
    speed_workloads, CorrectnessCase, EdgeKind, SeekOp, SeekPattern, SpeedWorkload,
    NUM_SEEKS_PER_COMBO, PATTERNS, STRIDE,
};
use lance_autoresearch::posting_seek::kernels::PostingSeek;
use lance_autoresearch::posting_seek::reference::{seek_results_diff, PostingSeekReference};
use lance_autoresearch::posting_seek::{PostingShape, BLOCK_SIZE};
use lance_autoresearch::prng::SplitMix64;
use lance_autoresearch::stopwatch::Stopwatch;
use lance_autoresearch::timing::Timings;

fn exp_mean_ln(xs: &[u64]) -> u64 {
    let sum: f64 = xs.iter().map(|&x| (x as f64).ln()).sum();
    (sum / xs.len() as f64).exp() as u64
}

#[test]
fn posting_list_invariants() {
    for shape in shapes() {
        let list = build_posting_list(shape);
        assert_eq!(list.num_blocks(), shape.num_blocks);
        assert_eq!(list.num_docs(), shape.num_docs());
        // Block first doc ids strictly increasing.
        for k in 1..list.num_blocks() {
            assert!(list.first_doc_id(k) > list.first_doc_id(k - 1));
        }
        // Doc ids within each block strictly increasing.
        for k in 0..list.num_blocks() {
            let block = list.block(k);
            for i in 1..block.len() {
                assert!(block[i] > block[i - 1]);
            }
        }
    }
}

#[test]
fn speed_workloads_match_shapes() {
    let w = speed_workloads(0x1234);
    assert_eq!(w.len(), shapes().len() * PATTERNS.len());
    for wl in w {
        // Count timed seeks (excludes Reset ops).
        let timed = wl.ops.iter().filter(|op| matches!(op, SeekOp::Seek(_))).count();
        assert_eq!(timed, NUM_SEEKS_PER_COMBO);
    }
}

#[test]
fn correctness_battery_is_deterministic() {
    let a = correctness_battery(0xABCD);
    let b = correctness_battery(0xABCD);
    assert_eq!(a.len(), b.len());
    for (x, y) in a.iter().zip(&b) {
        assert_eq!(x.shape, y.shape);
        assert_eq!(x.ops.len(), y.ops.len());
    }
}

#[test]
fn blocks_hold_even_ids() {
    let list = build_posting_list(PostingShape::new(3));
    assert_eq!(list.num_docs(), 3 * BLOCK_SIZE);
    assert_eq!(list.first_doc_id(2), 2 * STRIDE);
    assert_eq!(list.block(1)[0], 256);
    assert_eq!(list.block(1)[127], 510);
    assert_eq!(list.block(1).len(), 128);
}

#[test]
fn seek_stops_at_the_first_large_enough_id() {
    let list = build_posting_list(PostingShape::new(40));
    let mut seek = PostingSeek::new(&list);
    let mut reference = PostingSeekReference::new(&list);
    for (least, expected) in [
        (0, Some(0)),
        (1, Some(2)),
        (2, Some(2)),
        (0, Some(2)),
        (255, Some(256)),
        (511, Some(512)),
        (5_000, Some(5_000)),
        (10_237, Some(10_238)),
        (10_239, None),
        (0, None),
    ] {
        assert_eq!(seek.next(least), expected, "{least}");
        assert_eq!(reference.next(least), expected, "{least}");
    }
    seek.reset();
    reference.reset();
    assert_eq!(seek.next(0), Some(0));
    assert_eq!(reference.next(0), Some(0));
}

#[test]
fn seeking_again_stays_and_resetting_forgets() {
    let list = build_posting_list(PostingShape::new(20));
    let mut seek = PostingSeek::new(&list);
    assert_eq!(seek.next(1_001), Some(1_002));
    assert_eq!(seek.next(1_001), Some(1_002));
    assert_eq!(seek.next(5), Some(1_002));
    seek.reset();
    assert_eq!(seek.next(5), Some(6));
    let mut direct = PostingSeek::new(&list);
    assert_eq!(seek.next(3_000), direct.next(3_000));
}

#[test]
fn seek_in_an_empty_list() {
    let list = build_posting_list(PostingShape::new(0));
    assert_eq!(list.num_blocks(), 0);
    assert_eq!(PostingSeek::new(&list).next(0), None);
    assert_eq!(PostingSeekReference::new(&list).next(u32::MAX), None);
}

#[test]
fn kernel_agrees_with_reference_on_random_seeks() {
    let list = build_posting_list(PostingShape::new(300));
    let mut rng = SplitMix64::new(21);
    let mut seek = PostingSeek::new(&list);
    let mut reference = PostingSeekReference::new(&list);
    for round in 0..5_000u32 {
        if round % 50 == 0 {
            seek.reset();
            reference.reset();
        }
        let least = (rng.next_u64() % 80_000) as u32 / (1 + round % 50) * (1 + round % 50);
        assert_eq!(seek.next(least), reference.next(least));
    }
}

#[test]
fn ops_of_the_battery() {
    let shape = PostingShape::new(100);
    let mut rng = SplitMix64::new(1);
    let seeks = |v: &[u32]| v.iter().map(|&x| SeekOp::Seek(x)).collect::<Vec<_>>();
    assert_eq!(
        build_correctness_ops(shape, EdgeKind::Sequential, &mut rng),
        seeks(&[128, 256, 384, 512, 640, 768, 896, 1024])
    );
    assert_eq!(
        build_correctness_ops(shape, EdgeKind::SkipShallow, &mut rng),
        seeks(&[1024, 2048, 3072, 4096, 5120, 6144, 7168, 8192])
    );
    assert_eq!(
        build_correctness_ops(shape, EdgeKind::SkipDeep, &mut rng)[..4],
        [SeekOp::Reset, SeekOp::Seek(12_800), SeekOp::Reset, SeekOp::Seek(13_056)]
    );
    assert_eq!(
        build_correctness_ops(shape, EdgeKind::PastEnd, &mut rng),
        vec![
            SeekOp::Seek(25_600),
            SeekOp::Seek(1_025_600),
            SeekOp::Reset,
            SeekOp::Seek(u32::MAX)
        ]
    );
    assert_eq!(
        build_correctness_ops(shape, EdgeKind::BeforeStart, &mut rng),
        vec![
            SeekOp::Seek(0),
            SeekOp::Seek(1),
            SeekOp::Seek(64),
            SeekOp::Reset,
            SeekOp::Seek(0)
        ]
    );
    let huge = PostingShape::new(1 << 30);
    assert_eq!(
        build_correctness_ops(huge, EdgeKind::PastEnd, &mut rng)[0],
        SeekOp::Seek(u32::MAX)
    );
}

#[test]
fn walks_start_over_at_the_end() {
    let mut rng = SplitMix64::new(1);
    let ops = build_speed_ops(PostingShape::new(100), SeekPattern::SkipDeep, &mut rng);
    assert_eq!(ops[0], SeekOp::Seek(2_560));
    assert_eq!(ops[8], SeekOp::Seek(23_040));
    assert_eq!(ops[9], SeekOp::Reset);
    assert_eq!(ops[10], SeekOp::Seek(2_560));
    let ops = build_speed_ops(PostingShape::new(100), SeekPattern::SkipShallow, &mut rng);
    assert_eq!(ops[..2], [SeekOp::Seek(4_096), SeekOp::Seek(8_192)]);
    let ops = build_speed_ops(PostingShape::new(0), SeekPattern::Sequential, &mut rng);
    assert_eq!(ops[..2], [SeekOp::Reset, SeekOp::Seek(256)]);
}

#[test]
fn seek_battery_has_every_case() {
    let cases = correctness_battery(1);
    let labels: Vec<(usize, &str)> = cases.iter().map(|c| (c.shape.num_blocks, c.label)).collect();
    let mut expected = Vec::new();
    for n in [100, 10_000, 80_000] {
        for label in ["sequential", "skip_shallow", "skip_deep", "past_end", "before_start"] {
            expected.push((n, label));
        }
    }
    assert_eq!(labels, expected);
}

#[test]
fn seek_diff_reports_the_first_difference() {
    assert_eq!(seek_results_diff(&[None, Some(1)], &[None, Some(1)]), None);
    assert_eq!(
        seek_results_diff(&[None], &[]),
        Some("sequence length mismatch: agent=1 reference=0".to_string())
    );
    assert_eq!(
        seek_results_diff(&[Some(1), Some(20)], &[Some(1), None]),
        Some("seek #1: agent=Some(20) reference=None".to_string())
    );
}

#[test]
fn seek_verdict_names_the_case() {
    let shape = PostingShape::new(7);
    assert_eq!(verdict(&shape, "past_end", &[None], &[None]), Ok(()));
    assert_eq!(
        verdict(&shape, "past_end", &[None], &[Some(3)]),
        Err("case=blocks=7/past_end seek #0: agent=None reference=Some(3)".to_string())
    );
    assert_eq!(
        format_failure(&PostingShape::new(100), "x", &"y".to_string()),
        "case=Small/x y".to_string()
    );
}

#[test]
fn names_of_shapes_and_patterns() {
    assert_eq!(format_shape(&PostingShape::new(100)), "Small");
    assert_eq!(format_shape(&PostingShape::new(10_000)), "Medium");
    assert_eq!(format_shape(&PostingShape::new(80_000)), "Large");
    assert_eq!(format_shape(&PostingShape::new(12)), "blocks=12");
    assert_eq!(format_pattern(&SeekPattern::Sequential), "sequential");
    assert_eq!(format_pattern(&SeekPattern::SkipShallow), "skip_shallow");
    assert_eq!(format_pattern(&SeekPattern::SkipDeep), "skip_deep");
}

#[test]
fn replay_gives_one_result_per_seek() {
    let shape = PostingShape::new(2);
    let case = CorrectnessCase {
        label: "mixed",
        shape,
        list: build_posting_list(shape),
        ops: vec![
            SeekOp::Seek(100),
            SeekOp::Seek(600),
            SeekOp::Seek(3),
            SeekOp::Reset,
            SeekOp::Seek(3),
        ],
    };
    let (agent, reference) = replay_both(&case);
    assert_eq!(agent, vec![Some(100), None, None, Some(4)]);
    assert_eq!(reference, agent);
}

#[test]
fn seek_correctness_run_passes() {
    assert_eq!(run_correctness(), Ok(()));
}

#[test]
fn batches_end_at_resets_and_at_their_limit() {
    let mut ops = vec![SeekOp::Reset, SeekOp::Reset, SeekOp::Seek(1), SeekOp::Seek(2)];
    ops.push(SeekOp::Reset);
    for i in 0..40 {
        ops.push(SeekOp::Seek(100 + i));
    }
    let mut batch = vec![5];
    assert_eq!(next_batch(&ops, 0, &mut batch), (4, true));
    assert_eq!(batch, vec![1, 2]);
    assert_eq!(next_batch(&ops, 4, &mut batch), (5 + BATCH, true));
    assert_eq!(batch, (100..132).collect::<Vec<u32>>());
    assert_eq!(next_batch(&ops, 5 + BATCH, &mut batch), (45, false));
    assert_eq!(batch.len(), 8);
    assert_eq!(next_batch(&ops, 45, &mut batch), (45, false));
    assert!(batch.is_empty());
}

fn small_workloads() -> Vec<SpeedWorkload> {
    let mut rng = SplitMix64::new(4);
    let shape = PostingShape::new(100);
    [SeekPattern::Sequential, SeekPattern::SkipDeep]
        .into_iter()
        .map(|pattern| SpeedWorkload {
            shape,
            pattern,
            list: build_posting_list(shape),
            ops: build_speed_ops(shape, pattern, &mut rng),
        })
        .collect()
}

#[test]
fn every_batch_is_timed() {
    let loads = small_workloads();
    let mut batches = Vec::new();
    for load in &loads {
        let mut batch = Vec::new();
        let mut count = 0;
        let mut i = 0;
        while i < load.ops.len() {
            let (end, _) = next_batch(&load.ops, i, &mut batch);
            if !batch.is_empty() {
                count += 1;
            }
            i = end;
        }
        batches.push(count);
    }
    let mut watch = Stopwatch::new();
    let pmc = watch.has_pmc();
    let timings = measure(&loads, 2, &mut watch);
    assert_eq!(timings.all.len(), 2 * (batches[0] + batches[1]));
    assert_eq!(timings.per_combo[0].len(), 2 * batches[0]);
    assert_eq!(timings.per_combo[1].len(), 2 * batches[1]);
    if !pmc {
        assert!(timings.cycles.is_empty() && timings.instructions.is_empty());
    }
}

#[test]
fn seek_report_names_slowest_and_fastest() {
    let loads = small_workloads();
    let mut timings = Timings::new(2);
    let m = |ns: u64| PerfMeasurement {
        wall_clock_ns: ns,
        instructions: Some(ns),
        cycles: None,
    };
    timings.record(0, 32, m(3_200));
    timings.record(1, 2, m(20));
    let report = speed_report(&loads, &timings, true, &exp_mean_ln);
    assert_eq!((report.worst_ns, report.worst_pattern), (100, SeekPattern::Sequential));
    assert_eq!((report.best_ns, report.best_pattern), (10, SeekPattern::SkipDeep));
    assert_eq!(report.worst_shape, PostingShape::new(100));
    assert_eq!(report.summary.geomean_cycles, Some(0));
    assert_eq!(report.per_combo[0].geomean_ns, 100);
}

#[test]
fn seek_speed_run_reports_every_workload() {
    let report = run_speed(&small_workloads(), 1, exp_mean_ln);
    assert_eq!(report.per_combo.len(), 2);
    assert!(report.best_ns <= report.worst_ns);
}
