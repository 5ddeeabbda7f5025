use game_search::harness::{
    aggregate, bench_aggregate, enumerate_range, run_benchmark, run_calibration, Aggregate,
    ConfigError, ResultsTable, RunRecord, SweepRanges, WeightRange,
};
use game_search::slide::SlideBoard;
use game_search::weights::{dequantize, quantize, score, QuantKey, Weights};

fn record(metric: u64, moves: u64, duration: u64) -> RunRecord {
    RunRecord { max_metric: metric, move_count: moves, duration_millis: duration }
}

#[test]
fn quantization_truncates_to_tenths() {
    let w = Weights::new(150, 250, 350, 450);
    let k = quantize(&w);
    assert_eq!(k, QuantKey { max_value: 1, adjacent: 2, empty_cells: 3, smoothness: 4 });
    assert_eq!(quantize(&Weights::new(99, 0, 0, 0)).max_value, 0);
    assert_eq!(quantize(&Weights::new(100, 0, 0, 0)).max_value, 1);
}

#[test]
fn vectors_within_one_cell_share_a_key() {
    let w1 = Weights::new(150, 250, 350, 450);
    let w2 = Weights::new(199, 299, 399, 499);
    assert_eq!(quantize(&w1), quantize(&w2));
}

#[test]
fn vectors_a_full_unit_apart_get_distinct_keys() {
    let w1 = Weights::new(150, 250, 350, 450);
    let w2 = Weights::new(250, 250, 350, 450);
    assert_ne!(quantize(&w1), quantize(&w2));
    let w3 = Weights::new(150, 250, 350, 550);
    assert_ne!(quantize(&w1), quantize(&w3));
}

#[test]
fn dequantize_then_quantize_is_identity() {
    let k = QuantKey { max_value: 1, adjacent: 2, empty_cells: 3, smoothness: 4 };
    let w = dequantize(&k);
    assert_eq!(w, Weights::new(100, 200, 300, 400));
    assert_eq!(quantize(&w), k);
}

#[test]
fn raising_the_empty_weight_raises_the_score_iff_empties_exist() {
    let one_empty = SlideBoard::from_cells(vec![
        2, 4, 2, 4,
        4, 2, 4, 2,
        2, 4, 2, 4,
        4, 2, 4, 0,
    ]);
    let w_lo = Weights::new(100, 100, 100, 100);
    let w_hi = Weights::new(100, 100, 200, 100);
    assert!(score(&one_empty, &w_hi) > score(&one_empty, &w_lo));

    let full = SlideBoard::from_cells(vec![
        2, 4, 2, 4,
        4, 2, 4, 2,
        2, 4, 2, 4,
        4, 2, 4, 8,
    ]);
    assert_eq!(score(&full, &w_hi), score(&full, &w_lo));
}

#[test]
fn range_enumeration_is_exact_repeated_addition() {
    let r = WeightRange { lo: 0, hi: 1000, step: 300 };
    assert_eq!(enumerate_range(&r), vec![0, 300, 600, 900]);
    let r = WeightRange { lo: 5, hi: 5, step: 1 };
    assert_eq!(enumerate_range(&r), vec![5]);
    let r = WeightRange { lo: 0, hi: 900, step: 300 };
    assert_eq!(enumerate_range(&r), vec![0, 300, 600, 900]);
}

#[test]
fn aggregate_reports_exact_arithmetic_means() {
    let records = vec![record(8, 100, 10), record(16, 200, 20)];
    let a = aggregate(&records);
    assert_eq!(
        a,
        Aggregate {
            runs: 2,
            mean_metric_milli: 12000,
            mean_moves_milli: 150000,
            mean_duration_milli: 15000,
        },
    );
    // truncation, not rounding
    let records = vec![record(2, 1, 0), record(2, 1, 0), record(3, 2, 1)];
    let a = aggregate(&records);
    assert_eq!(a.mean_metric_milli, 2333);
    assert_eq!(a.mean_moves_milli, 1333);
    assert_eq!(a.mean_duration_milli, 333);
}

#[test]
fn bench_digest_tracks_best_and_worst() {
    let records = vec![record(8, 10, 1), record(32, 20, 2), record(16, 30, 3)];
    let b = bench_aggregate(&records);
    assert_eq!(b.runs, 3);
    assert_eq!(b.best_metric, 32);
    assert_eq!(b.worst_metric, 8);
}

#[test]
fn single_run_digest_has_best_equal_worst() {
    let records = vec![record(64, 123, 7)];
    let b = bench_aggregate(&records);
    assert_eq!(b.best_metric, 64);
    assert_eq!(b.worst_metric, 64);
    assert_eq!(b.mean_metric_milli, 64000);
}

#[test]
fn results_table_keeps_the_first_writer() {
    let k1 = QuantKey { max_value: 1, adjacent: 0, empty_cells: 0, smoothness: 0 };
    let k2 = QuantKey { max_value: 2, adjacent: 0, empty_cells: 0, smoothness: 0 };
    let a1 = Aggregate { runs: 1, mean_metric_milli: 500, mean_moves_milli: 0, mean_duration_milli: 0 };
    let a2 = Aggregate { runs: 1, mean_metric_milli: 900, mean_moves_milli: 0, mean_duration_milli: 0 };
    let mut t = ResultsTable::new();
    t.insert_first_wins(k1, a1);
    t.insert_first_wins(k1, a2);
    assert_eq!(t.len(), 1);
    let (bk, ba) = t.best_entry().unwrap();
    assert_eq!(bk, k1);
    assert_eq!(ba.mean_metric_milli, 500);

    t.insert_first_wins(k2, a2);
    assert_eq!(t.len(), 2);
    let (bk, _) = t.best_entry().unwrap();
    assert_eq!(bk, k2);
}

#[test]
fn best_entry_breaks_ties_toward_the_first_inserted() {
    let k1 = QuantKey { max_value: 1, adjacent: 0, empty_cells: 0, smoothness: 0 };
    let k2 = QuantKey { max_value: 2, adjacent: 0, empty_cells: 0, smoothness: 0 };
    let a = Aggregate { runs: 1, mean_metric_milli: 700, mean_moves_milli: 0, mean_duration_milli: 0 };
    let mut t = ResultsTable::new();
    t.insert_first_wins(k1, a);
    t.insert_first_wins(k2, a);
    let (bk, _) = t.best_entry().unwrap();
    assert_eq!(bk, k1);
    assert!(t.contains_key(&k2));
}

fn small_ranges() -> SweepRanges {
    SweepRanges {
        max_value: WeightRange { lo: 1000, hi: 1000, step: 1 },
        adjacent: WeightRange { lo: 0, hi: 100, step: 100 },
        empty_cells: WeightRange { lo: 0, hi: 100, step: 100 },
        smoothness: WeightRange { lo: 0, hi: 0, step: 1 },
    }
}

#[test]
fn calibration_rejects_bad_configuration_up_front() {
    let mut r = small_ranges();
    r.adjacent = WeightRange { lo: 10, hi: 5, step: 1 };
    assert_eq!(run_calibration(&r, 1, 1), Err(ConfigError::EmptyRange));
    let mut r = small_ranges();
    r.smoothness = WeightRange { lo: 0, hi: 10, step: 0 };
    assert_eq!(run_calibration(&r, 1, 1), Err(ConfigError::ZeroStep));
    let mut r = small_ranges();
    r.max_value = WeightRange { lo: 0, hi: 2_000_000, step: 1000 };
    assert_eq!(run_calibration(&r, 1, 1), Err(ConfigError::CoefficientTooLarge));
    assert_eq!(run_calibration(&small_ranges(), 0, 1), Err(ConfigError::ZeroRuns));
    assert_eq!(run_calibration(&small_ranges(), 1, 0), Err(ConfigError::ZeroDepth));
}

#[test]
fn calibration_enumerates_the_full_product() {
    let report = run_calibration(&small_ranges(), 1, 1).unwrap();
    // 1 * 2 * 2 * 1 candidates
    assert_eq!(report.candidates_evaluated, 4);
    assert_eq!(report.best_weights, dequantize(&report.best_key));
    assert!(report.best_mean_metric_milli >= 2000);
}

#[test]
fn benchmark_rejects_zero_runs_and_zero_depth() {
    let w = Weights::new(1000, 100, 100, 1);
    assert_eq!(run_benchmark(&w, 0, 1), Err(ConfigError::ZeroRuns));
    assert_eq!(run_benchmark(&w, 1, 0), Err(ConfigError::ZeroDepth));
}

#[test]
fn single_run_benchmark_has_best_equal_worst() {
    let w = Weights::new(1000, 100, 100, 1);
    let b = run_benchmark(&w, 1, 1).unwrap();
    assert_eq!(b.runs, 1);
    assert_eq!(b.best_metric, b.worst_metric);
    assert_eq!(b.mean_metric_milli, b.best_metric * 1000);
    assert!(b.worst_metric >= 2);
    assert!(b.mean_metric_milli >= 2000);
    assert!(b.best_metric >= 4);
}
