use lattice_compute::analysis::AnalysisOutcome;
use lattice_compute::matrix::Matrix;
use lattice_compute::search::{display_decision, DisplayAction};

fn build(rows: Vec<Vec<i64>>) -> Matrix {
    Matrix::from_rows(rows).expect("square matrix")
}

#[test]
fn search_two_by_two_diagonal() {
    let m = build(vec![vec![2, 0], vec![0, 2]]);
    let report = m.find_modular_null_vectors(4, false, 0);
    assert_eq!(report.count, 4);
    assert_eq!(
        report.solutions,
        vec![vec![0, 0], vec![0, 2], vec![2, 0], vec![2, 2]]
    );
}

#[test]
fn search_two_by_two_full() {
    let m = build(vec![vec![1, 2], vec![2, 1]]);
    let report = m.find_modular_null_vectors(3, false, 0);
    assert_eq!(report.count, 3);
    assert_eq!(report.solutions, vec![vec![0, 0], vec![1, 1], vec![2, 2]]);
}

#[test]
fn search_single_entry_counts_the_modulus() {
    let m = build(vec![vec![5]]);
    let report = m.find_modular_null_vectors(5, false, 0);
    assert_eq!(report.count, 5);
    assert_eq!(
        report.solutions,
        vec![vec![0], vec![1], vec![2], vec![3], vec![4]]
    );
}

#[test]
fn search_reported_matches_satisfy_the_congruence() {
    let m = build(vec![vec![1, 2], vec![2, 1]]);
    let report = m.find_modular_null_vectors(3, false, 0);
    for v in &report.solutions {
        let image = m.multiply_mod(v, 3);
        assert!(image.iter().all(|&x| x == 0));
    }
}

#[test]
fn search_retains_at_most_one_thousand_matches() {
    let m = build(vec![vec![1500]]);
    let report = m.find_modular_null_vectors(1500, false, 0);
    assert_eq!(report.count, 1500);
    assert_eq!(report.solutions.len(), 1000);
    assert_eq!(report.solutions[999], vec![999]);
}

#[test]
fn search_count_equals_absolute_determinant_on_full_rank_cases() {
    for rows in [
        vec![vec![2, 0], vec![0, 2]],
        vec![vec![1, 2], vec![2, 1]],
        vec![vec![3, 1], vec![1, 2]],
    ] {
        let m = build(rows);
        let modulus = m.determinant().abs();
        assert!(modulus > 0);
        let report = m.find_modular_null_vectors(modulus, false, 0);
        assert_eq!(report.count, modulus as u64);
    }
}

#[test]
fn display_policy_branches() {
    assert_eq!(
        display_decision(false, 0, 100, false),
        (DisplayAction::Hidden, false)
    );
    assert_eq!(
        display_decision(true, 50, 100, false),
        (DisplayAction::Shown, false)
    );
    assert_eq!(
        display_decision(true, 100, 100, false),
        (DisplayAction::StoppedNotice, true)
    );
    assert_eq!(
        display_decision(true, 200, 100, true),
        (DisplayAction::Hidden, true)
    );
}

#[test]
fn display_budget_zero_suppresses_immediately() {
    let m = build(vec![vec![2, 0], vec![0, 2]]);
    let report = m.find_modular_null_vectors(4, true, 0);
    assert_eq!(report.count, 4);
    assert!(report.stopped_showing);
}

#[test]
fn display_stays_live_under_a_generous_budget() {
    let m = build(vec![vec![2, 0], vec![0, 2]]);
    let report = m.find_modular_null_vectors(4, true, 600_000);
    assert_eq!(report.count, 4);
    assert!(!report.stopped_showing);
}

#[test]
fn analyze_full_pipeline() {
    let m = build(vec![vec![2, 0], vec![0, 2]]);
    let report = m.analyze(false, 0, 100_000_000);
    assert!(report.symmetric);
    assert_eq!(report.determinant, 4);
    match report.outcome {
        AnalysisOutcome::Analyzed {
            modulus,
            invariant_factors,
            search,
        } => {
            assert_eq!(modulus, 4);
            assert_eq!(invariant_factors, vec![2, 2]);
            assert_eq!(search.count, 4);
        }
        _ => panic!("expected a full analysis"),
    }
}

#[test]
fn analyze_stops_on_asymmetric_input() {
    let m = build(vec![vec![1, 2], vec![3, 4]]);
    let report = m.analyze(false, 0, 100_000_000);
    assert!(!report.symmetric);
    assert_eq!(report.determinant, -2);
    assert!(matches!(report.outcome, AnalysisOutcome::NotSymmetric));
}

#[test]
fn analyze_halts_on_zero_determinant() {
    let m = build(vec![vec![1, 1], vec![1, 1]]);
    let report = m.analyze(false, 0, 100_000_000);
    assert!(report.symmetric);
    assert_eq!(report.determinant, 0);
    assert!(matches!(report.outcome, AnalysisOutcome::Degenerate));
}

#[test]
fn analyze_respects_the_search_limit() {
    let m = build(vec![vec![2, 0], vec![0, 2]]);
    let report = m.analyze(false, 0, 3);
    match report.outcome {
        AnalysisOutcome::SearchTooLarge {
            modulus,
            invariant_factors,
        } => {
            assert_eq!(modulus, 4);
            assert_eq!(invariant_factors, vec![2, 2]);
        }
        _ => panic!("expected the search to be skipped"),
    }
}

#[test]
fn analyze_boundary_one_by_one() {
    let m = build(vec![vec![5]]);
    let report = m.analyze(false, 0, 100_000_000);
    assert!(report.symmetric);
    assert_eq!(report.determinant, 5);
    match report.outcome {
        AnalysisOutcome::Analyzed {
            modulus,
            invariant_factors,
            search,
        } => {
            assert_eq!(modulus, 5);
            assert!(invariant_factors.is_empty());
            assert_eq!(search.count, 5);
        }
        _ => panic!("expected a full analysis"),
    }
}

#[test]
fn analyze_negative_determinant_uses_absolute_modulus() {
    let m = build(vec![vec![1, 2], vec![2, 1]]);
    let report = m.analyze(false, 0, 100_000_000);
    assert_eq!(report.determinant, -3);
    match report.outcome {
        AnalysisOutcome::Analyzed {
            modulus,
            invariant_factors,
            search,
        } => {
            assert_eq!(modulus, 3);
            let product: i64 = invariant_factors.iter().product();
            assert!(invariant_factors.is_empty() || product == 3);
            assert_eq!(search.count, 3);
        }
        _ => panic!("expected a full analysis"),
    }
}
