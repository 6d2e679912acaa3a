use lance_autoresearch::pq::distance::{
    build_distance_table_l2, build_distance_table_l2_into, compute_pq_distance,
    compute_pq_distance_into, get_sub_vector_centroids_8bit, transpose, NUM_CENTROIDS_8BIT,
};
use lance_autoresearch::pq::experiment::{
    check_case, format_dist, format_shape, measure, run_correctness, run_speed, speed_report,
    Tolerance,
};
use lance_autoresearch::pq::inputs::{shapes, CorrectnessCase, DataDistribution, SpeedWorkload};
use lance_autoresearch::pq::kernels::PqKernel;
use lance_autoresearch::pq::l2::{
    accumulate_l2_dimension, l2_distance_batch, l2_f32, l2_scalar_f32, L2Prepared,
};
use lance_autoresearch::pq::reference::{
    distances_max_abs_err, max_abs_err, topk_consistent, ErrorMeasure, ScalarReference,
};
use lance_autoresearch::pq::topk::select_top_k;
use lance_autoresearch::pq::{Arithmetic, PqShape};
use lance_autoresearch::prng::SplitMix64;
use lance_autoresearch::stopwatch::Stopwatch;
use lance_autoresearch::timing::Timings;

fn plus(a: f32, b: f32) -> f32 {
    a + b
}

fn squared_difference(a: f32, b: f32) -> f32 {
    let diff = a - b;
    diff * diff
}

fn abs_difference(a: f32, b: f32) -> f32 {
    (a - b).abs()
}

fn larger(a: f32, b: f32) -> f32 {
    a.max(b)
}

// Orders the bits of a float as the float is ordered.
fn key(d: f32) -> u64 {
    let bits = d.to_bits();
    let ordered = if bits >> 31 == 1 { !bits } else { bits | 0x8000_0000 };
    ordered as u64
}

fn above_limit(error: f32) -> bool {
    error > 1e-4
}

fn never(_error: f32) -> bool {
    false
}

fn show(v: f32) -> String {
    format!("{v}")
}

fn exp_mean_ln(xs: &[u64]) -> u64 {
    let sum: f64 = xs.iter().map(|&x| (x as f64).ln()).sum();
    (sum / xs.len() as f64).exp() as u64
}

type F32Op = fn(f32, f32) -> f32;

fn arithmetic() -> Arithmetic<f32, F32Op, F32Op> {
    Arithmetic {
        zero: 0.0,
        plus,
        squared_difference,
    }
}

fn error_measure() -> ErrorMeasure<f32, F32Op, F32Op> {
    ErrorMeasure {
        zero: 0.0,
        abs_difference,
        larger,
    }
}

fn values(seed: u64, n: usize) -> Vec<f32> {
    let mut rng = SplitMix64::new(seed);
    (0..n)
        .map(|_| (rng.next_u64() % 2_001) as f32 / 1_000.0 - 1.0)
        .collect()
}

fn codes(seed: u64, n: usize) -> Vec<u8> {
    let mut rng = SplitMix64::new(seed);
    (0..n).map(|_| rng.next_u64() as u8).collect()
}

#[test]
fn transpose_round_trip_is_inverse() {
    let n = 7;
    let m = 4;
    let original: Vec<u8> = (0..n * m).map(|x| x as u8).collect();
    let trans = transpose(&original, n, m);
    // Transpose twice should restore the original (dimensions swap each time).
    let back = transpose(&trans, m, n);
    assert_eq!(back, original);
}

#[test]
fn compute_pq_distance_matches_naive() {
    // Tiny fixture: 4 vectors, 2 sub-vectors, 256 centroids.
    let num_vectors = 4;
    let num_sub_vectors = 2;
    let num_centroids = NUM_CENTROIDS_8BIT;
    let distance_table: Vec<f32> = (0..num_sub_vectors * num_centroids)
        .map(|x| x as f32 * 0.1)
        .collect();
    let codes_aos: Vec<u8> = vec![10, 20, 30, 40, 50, 60, 70, 80];
    let codes_soa = transpose(&codes_aos, num_vectors, num_sub_vectors);

    let result = compute_pq_distance(&distance_table, num_sub_vectors, &codes_soa, &arithmetic());
    assert_eq!(result.len(), num_vectors);

    // Naive scan for comparison.
    for vi in 0..num_vectors {
        let mut expected = 0.0f32;
        for si in 0..num_sub_vectors {
            let c = codes_aos[vi * num_sub_vectors + si] as usize;
            expected += distance_table[si * num_centroids + c];
        }
        assert!((result[vi] - expected).abs() < 1e-5);
    }
}

#[test]
fn transpose_puts_rows_into_columns() {
    assert_eq!(transpose(&[1, 2, 3, 4, 5, 6], 2, 3), vec![1, 4, 2, 5, 3, 6]);
    assert!(transpose(&[], 0, 3).is_empty());
    assert!(transpose(&[], 3, 0).is_empty());
}

#[test]
fn shape_lengths() {
    let shape = PqShape::new(768, 96, 256);
    assert_eq!(shape.sub_vector_dim(), 8);
    assert_eq!(shape.distance_table_len(), 24_576);
    assert_eq!(shape.codebook_len(), 196_608);
    assert_eq!(shapes()[0], PqShape::new(128, 16, 256));
    assert_eq!(format_shape(&shape), "(768,96,256)");
    assert_eq!(format_dist(&DataDistribution::Clustered), "clustered");
    assert_eq!(format_dist(&DataDistribution::Uniform), "uniform");
    assert_eq!(format_dist(&DataDistribution::Sparse), "sparse");
}

#[test]
fn centroids_of_a_sub_vector() {
    let codebook: Vec<u32> = (0..2 * 256 * 3).collect();
    let second = get_sub_vector_centroids_8bit(&codebook, 6, 2, 1);
    assert_eq!(second.len(), 768);
    assert_eq!(second[0], 768);
    assert!(get_sub_vector_centroids_8bit(&codebook, 1, 2, 1).is_empty());
}

#[test]
fn l2_adds_in_lanes() {
    let a = values(1, 37);
    let b = values(2, 37);
    let mut rest = 0.0f32;
    for i in 32..37 {
        rest += squared_difference(a[i], b[i]);
    }
    let mut sums = [0.0f32; 16];
    for c in 0..2 {
        for i in 0..16 {
            sums[i] += squared_difference(a[c * 16 + i], b[c * 16 + i]);
        }
    }
    let mut total = 0.0f32;
    for s in sums {
        total += s;
    }
    assert_eq!(l2_f32(&a, &b, &arithmetic()), rest + total);
}

#[test]
fn l2_of_short_and_uneven_vectors() {
    let arith = arithmetic();
    assert_eq!(l2_f32(&[], &[], &arith), 0.0);
    assert_eq!(l2_f32(&[3.0, 0.0], &[0.0, 4.0], &arith), 25.0);
    assert_eq!(l2_scalar_f32::<2, _, _, _>(&[1.0, 2.0, 3.0], &[0.0, 0.0, 0.0], &arith), 14.0);
    // One full chunk is paired, and nothing behind it.
    assert_eq!(l2_scalar_f32::<2, _, _, _>(&[1.0, 2.0, 3.0], &[0.0, 0.0], &arith), 5.0);
}

#[test]
fn batch_is_one_distance_per_vector() {
    let from = values(3, 6);
    let to = values(4, 24);
    let batch = l2_distance_batch(&from, &to, 6, &arithmetic());
    let expected: Vec<f32> = to
        .chunks_exact(6)
        .map(|v| l2_f32(&from, v, &arithmetic()))
        .collect();
    assert_eq!(batch, expected);
}

#[test]
fn dimension_is_accumulated_for_every_target() {
    let mut result = [1.0f32, 2.0, 3.0];
    accumulate_l2_dimension(2.0, &[0.0, 5.0], &mut result, &arithmetic());
    assert_eq!(result, [5.0, 11.0, 3.0]);
}

#[test]
fn prepared_targets_give_the_same_distances() {
    let targets = values(5, 8 * 5);
    let query = values(6, 5);
    let prepared = L2Prepared::new(&targets, 5);
    assert_eq!((prepared.num_targets(), prepared.dimension()), (8, 5));
    let mut out = vec![9.0f32; 8];
    prepared.clone().distances_into(&query, &mut out, &arithmetic());
    for (t, target) in targets.chunks_exact(5).enumerate() {
        let mut expected = 0.0f32;
        for d in 0..5 {
            expected += squared_difference(query[d], target[d]);
        }
        assert_eq!(out[t], expected);
    }
}

#[test]
fn distance_table_holds_every_centroid() {
    let codebook = values(7, 4 * 256 * 3);
    let query = values(8, 12);
    let arith = arithmetic();
    let table = build_distance_table_l2(&codebook, 4, &query, &arith);
    assert_eq!(table.len(), 4 * 256);
    for i in 0..4 {
        for j in 0..256 {
            let at = (i * 256 + j) * 3;
            let expected = l2_f32(&query[i * 3..i * 3 + 3], &codebook[at..at + 3], &arith);
            assert_eq!(table[i * 256 + j], expected);
        }
    }
    let mut into = vec![0.0f32; 4 * 256];
    build_distance_table_l2_into(&codebook, 4, &query, &mut into, &arith);
    assert_eq!(into, table);
}

#[test]
fn no_codes_leave_the_buffer() {
    let arith = arithmetic();
    let mut distances = vec![3.0f32, 4.0];
    compute_pq_distance_into(&[], 0, &[], &mut distances, &arith);
    assert_eq!(distances, vec![3.0, 4.0]);
    assert!(compute_pq_distance(&[], 0, &[], &arith).is_empty());
}

#[test]
fn integer_arithmetic_works_too() {
    let arith = Arithmetic {
        zero: 0i64,
        plus: |a: i64, b: i64| a.wrapping_add(b),
        squared_difference: |a: i64, b: i64| a.wrapping_sub(b).wrapping_mul(a.wrapping_sub(b)),
    };
    assert_eq!(l2_f32(&[1, 2, 3], &[4, 6, 3], &arith), 25);
}

fn fixture(label: &'static str) -> CorrectnessCase<f32> {
    let shape = PqShape::new(12, 4, 256);
    CorrectnessCase {
        label,
        shape,
        codebook: values(9, shape.codebook_len()),
        codes: codes(10, 50 * 4),
        num_vectors: 50,
        query: values(11, 12),
    }
}

#[test]
fn kernel_and_reference_agree() {
    let case = fixture("small");
    let arith = arithmetic();
    let kernel = PqKernel::new(case.shape, &case.codebook, &case.codes, case.num_vectors);
    let reference = ScalarReference::new(case.shape, &case.codebook, &case.codes, case.num_vectors);
    assert_eq!((kernel.num_vectors(), reference.num_vectors()), (50, 50));
    let mut a = vec![0.0f32; 1024];
    let mut b = vec![1.0f32; 1024];
    kernel.distance_table(&case.query, &mut a, &arith);
    reference.distance_table(&case.query, &mut b, &arith);
    assert_eq!(a, b);
    let mut x = vec![0.0f32; 50];
    let mut y = vec![1.0f32; 50];
    kernel.compute_distances(&a, &mut x, &arith);
    reference.compute_distances(&b, &mut y, &arith);
    assert_eq!(x, y);
    for v in 0..50 {
        let mut expected = 0.0f32;
        for i in 0..4 {
            expected += a[i * 256 + case.codes[v * 4 + i] as usize];
        }
        assert_eq!(x[v], expected);
    }
}

#[test]
fn errors_are_the_largest_difference() {
    let m = error_measure();
    assert_eq!(max_abs_err(&[], &[], &m), 0.0);
    assert_eq!(max_abs_err(&[1.0, 2.0, 3.0], &[1.5, -1.0, 3.0], &m), 3.0);
    assert_eq!(distances_max_abs_err(&[1.0], &[0.75], &m), 0.25);
}

#[test]
fn rankings_are_compared_by_distance() {
    let a = [(1u32, 0.5f32), (2, 1.0)];
    let b = [(7u32, 0.5f32), (8, 1.25)];
    let loose = |e: f32| e > 0.5;
    let tight = |e: f32| e > 0.125;
    assert_eq!(topk_consistent(&a, &b, abs_difference, loose, show), Ok(()));
    assert_eq!(
        topk_consistent(&a, &b, abs_difference, tight, show),
        Err(
            "topk[1] distance mismatch: agent=(2, 1) reference=(8, 1.25) | err=0.25".to_string()
        )
    );
    assert_eq!(
        topk_consistent(&a, &b[..1], abs_difference, loose, show),
        Err("topk length mismatch: agent=2 reference=1".to_string())
    );
}

#[test]
fn top_k_is_sorted_and_smallest() {
    let distances = [5.0f32, 1.0, 4.0, 1.5, 9.0, 0.5, 7.0];
    let mut out = vec![(9u32, 9.0f32)];
    select_top_k(&distances, 3, &mut out, &key);
    assert_eq!(out, vec![(5, 0.5), (1, 1.0), (3, 1.5)]);
    select_top_k(&distances, 0, &mut out, &key);
    assert!(out.is_empty());
    select_top_k(&distances, 20, &mut out, &key);
    assert_eq!(out.len(), 7);
    assert_eq!(out[6], (4, 9.0));
}

#[test]
fn smallest_keys_with_their_places() {
    let mut out = Vec::new();
    let own = |key: u64| key;
    select_top_k(&[30, 10, 20, 10], 3, &mut out, &own);
    assert_eq!(out[2], (2, 20));
    let ids: Vec<u32> = out[..2].iter().map(|e| e.0).collect();
    assert!(ids == vec![1, 3] || ids == vec![3, 1]);
    select_top_k(&[u64::MAX], 5, &mut out, &own);
    assert_eq!(out, vec![(0, u64::MAX)]);
    select_top_k(&[], 5, &mut out, &own);
    assert!(out.is_empty());
}

#[test]
fn top_k_of_negative_and_tied_distances() {
    let distances = [0.0f32, -2.5, 3.0, -2.5, -0.5];
    let mut out = Vec::new();
    select_top_k(&distances, 3, &mut out, &key);
    let got: Vec<f32> = out.iter().map(|e| e.1).collect();
    assert_eq!(got, vec![-2.5, -2.5, -0.5]);
}

#[test]
fn top_k_agrees_with_sorting() {
    let distances = values(12, 500);
    for k in [1usize, 2, 7, 64, 499, 500] {
        let mut out = Vec::new();
        select_top_k(&distances, k, &mut out, &key);
        let mut sorted = distances.clone();
        sorted.sort_by(|a, b| a.partial_cmp(b).unwrap());
        let got: Vec<f32> = out.iter().map(|e| e.1).collect();
        assert_eq!(got, sorted[..k]);
        for (id, d) in out {
            assert_eq!(distances[id as usize], d);
        }
    }
}

#[test]
fn case_passes_within_the_tolerance() {
    let tolerance = Tolerance {
        limit: 1e-4f32,
        exceeds: above_limit,
        show,
    };
    let case = fixture("small");
    assert_eq!(check_case(&case, &arithmetic(), &error_measure(), &tolerance), Ok(()));
    let cases = [case, fixture("again")];
    assert_eq!(run_correctness(&cases, &arithmetic(), &error_measure(), &tolerance), Ok(()));
}

#[test]
fn case_fails_above_the_tolerance() {
    let always = Tolerance {
        limit: 0.5f32,
        exceeds: |_e: f32| true,
        show,
    };
    let cases = [fixture("first"), fixture("second")];
    assert_eq!(
        run_correctness(&cases, &arithmetic(), &error_measure(), &always),
        Err("case=(12,4,256)/first distance_table max_abs_err=0 > 0.5".to_string())
    );
    // A measure that counts elements tells the two buffers apart.
    let counting = ErrorMeasure {
        zero: 0.0f32,
        abs_difference: |_a: f32, _b: f32| 1.0f32,
        larger: |a: f32, b: f32| a + b,
    };
    let only_distances = Tolerance {
        limit: 0.5f32,
        exceeds: |e: f32| e < 100.0,
        show,
    };
    assert_eq!(
        run_correctness(&cases, &arithmetic(), &counting, &only_distances),
        Err("case=(12,4,256)/first compute_distances max_abs_err=50 > 0.5".to_string())
    );
    let none = Tolerance {
        limit: 0.5f32,
        exceeds: never,
        show,
    };
    assert_eq!(run_correctness(&cases, &arithmetic(), &counting, &none), Ok(()));
}

fn small_workloads() -> Vec<SpeedWorkload<f32>> {
    let shape = PqShape::new(12, 4, 256);
    [(DataDistribution::Uniform, 5), (DataDistribution::Sparse, 2)]
        .into_iter()
        .map(|(distribution, num_queries)| SpeedWorkload {
            shape,
            distribution,
            codebook: values(13, shape.codebook_len()),
            codes: codes(14, 200 * 4),
            num_vectors: 200,
            queries: values(15, num_queries * 12),
            num_queries,
            k: 10,
        })
        .collect()
}

#[test]
fn every_query_is_timed_twice() {
    let loads = small_workloads();
    let mut watch = Stopwatch::new();
    let pmc = watch.has_pmc();
    let (timings, reference_ns) = measure(&loads, 3, &arithmetic(), &key, &mut watch);
    assert_eq!(timings.all.len(), 21);
    assert_eq!(reference_ns.len(), 21);
    assert_eq!(timings.per_combo[0].len(), 15);
    assert_eq!(timings.per_combo[1].len(), 6);
    if !pmc {
        assert!(timings.cycles.is_empty() && timings.instructions.is_empty());
    }
}

#[test]
fn pq_report_of_no_measurements() {
    let loads = small_workloads();
    let report = speed_report(&loads, &Timings::new(2), &[4, 4], false, &exp_mean_ln);
    assert_eq!(report.reference_geomean_ns, 4);
    assert_eq!((report.worst_ns, report.worst_dist), (0, DataDistribution::Clustered));
    assert_eq!(report.worst_shape, PqShape::new(128, 16, 256));
    assert_eq!((report.best_ns, report.best_dist), (0, DataDistribution::Uniform));
    assert_eq!(report.summary.geomean_ns, 0);
    assert!(report.resampled_ns.is_empty());
    assert_eq!(report.reference_resampled_ns, vec![4; 1000]);
}

#[test]
fn pq_speed_run_reports_every_workload() {
    let report = run_speed(&small_workloads(), 1, &arithmetic(), &key, &exp_mean_ln);
    assert_eq!(report.per_combo.len(), 2);
    assert!(report.best_ns <= report.worst_ns);
    assert!(report.reference_geomean_ns > 0);
}
