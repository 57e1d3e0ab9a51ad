use xmcd_rs::edge::find_edge;
use xmcd_rs::grid::build_grid;
use xmcd_rs::interp::Interpolant;
use xmcd_rs::sample::AbsorptionSample;
use xmcd_rs::spectrum::Spectrum;
use xmcd_rs::Error;

const SCALE: i64 = 1_000_000;

fn lines(texts: &[&str]) -> Vec<Vec<u8>> {
    texts.iter().map(|t| t.as_bytes().to_vec()).collect()
}

fn samples(pairs: &[(i64, i64)]) -> Vec<AbsorptionSample> {
    pairs
        .iter()
        .map(|&(energy, absorption)| AbsorptionSample { energy, absorption })
        .collect()
}

#[test]
fn end_to_end_scenario() {
    // 7100 1.0 0.2 / 7100.5 1.0 0.5 / 7101 1.0 0.9 / 7101.5 1.0 0.4, step 0.5
    let input = lines(&[
        "7100 1.0 0.2",
        "7100.5 1.0 0.5",
        "7101 1.0 0.9",
        "7101.5 1.0 0.4",
    ]);
    let s = Spectrum::new(&input, SCALE / 2).unwrap();
    let absorption: Vec<i64> = s.absorption.iter().map(|a| a.absorption).collect();
    assert_eq!(absorption, vec![200_000, 500_000, 900_000, 400_000]);
    assert_eq!(
        s.grid,
        vec![
            7_100_000_000,
            7_100_500_000,
            7_101_000_000,
            7_101_500_000,
        ]
    );
    // the interpolant reproduces the measured values exactly at the grid
    // energies that coincide with sample energies
    assert_eq!(s.curve, vec![200_000, 500_000, 900_000, 400_000]);
    assert_eq!(s.e0, 7_101_000_000);
    assert_eq!(s.grid.len(), s.curve.len());
    assert_eq!(s.raw.len(), 4);
}

#[test]
fn zero_incident_fails_with_division_by_zero() {
    let input = lines(&["7100 0 0.2", "7101 1.0 0.5"]);
    let r = Spectrum::new(&input, SCALE / 10);
    assert_eq!(r.unwrap_err(), Error::DivisionByZero);
}

#[test]
fn zero_incident_anywhere_fails() {
    let input = lines(&["7100 1.0 0.2", "7101 1.0 0.5", "7102 0.0 0.7"]);
    let r = Spectrum::new(&input, SCALE / 10);
    assert_eq!(r.unwrap_err(), Error::DivisionByZero);
}

#[test]
fn two_token_line_fails_with_malformed_record() {
    let input = lines(&["7100 1.0"]);
    let r = Spectrum::new(&input, SCALE / 10);
    assert_eq!(r.unwrap_err(), Error::MalformedRecord { line: 0, field: 2 });
}

#[test]
fn later_bad_line_is_reported() {
    let input = lines(&["7100 1.0 0.2", "7101 abc 0.5"]);
    let r = Spectrum::new(&input, SCALE / 10);
    assert_eq!(r.unwrap_err(), Error::MalformedRecord { line: 1, field: 1 });
}

#[test]
fn interior_blank_line_is_malformed() {
    let input = lines(&["7100 1.0 0.2", "", "7101 1.0 0.5"]);
    let r = Spectrum::new(&input, SCALE / 10);
    assert_eq!(r.unwrap_err(), Error::MalformedRecord { line: 1, field: 0 });
}

#[test]
fn trailing_blank_lines_are_ignored() {
    let with_blanks = lines(&[
        "7100 1.0 0.2",
        "7100.5 1.0 0.5",
        "7101 1.0 0.9",
        "7101.5 1.0 0.4",
        "",
        "   ",
    ]);
    let s = Spectrum::new(&with_blanks, SCALE / 2).unwrap();
    assert_eq!(s.raw.len(), 4);
    assert_eq!(s.e0, 7_101_000_000);
}

#[test]
fn empty_input_fails() {
    let input = lines(&[]);
    assert_eq!(Spectrum::new(&input, SCALE / 10).unwrap_err(), Error::EmptyInput);
    let only_blanks = lines(&["", "  "]);
    assert_eq!(
        Spectrum::new(&only_blanks, SCALE / 10).unwrap_err(),
        Error::EmptyInput
    );
}

#[test]
fn single_sample_fails_with_insufficient_data() {
    let input = lines(&["7100 1.0 0.2"]);
    let r = Spectrum::new(&input, SCALE / 10);
    assert_eq!(r.unwrap_err(), Error::InsufficientData);
}

#[test]
fn unsorted_energies_fail_with_interpolation_failure() {
    let input = lines(&["7101 1.0 0.2", "7100 1.0 0.5"]);
    let r = Spectrum::new(&input, SCALE / 10);
    assert_eq!(r.unwrap_err(), Error::InterpolationFailure);
}

#[test]
fn duplicate_energies_fail_with_interpolation_failure() {
    let input = lines(&["7100 1.0 0.2", "7100 1.0 0.5"]);
    let r = Spectrum::new(&input, SCALE / 10);
    assert_eq!(r.unwrap_err(), Error::InterpolationFailure);
}

#[test]
fn grid_has_constant_step_and_is_strictly_increasing() {
    // energies 7100.2 .. 7103.9 round to 7100 .. 7104, step 1.0
    let sams = samples(&[(7_100_200_000, 100_000), (7_103_900_000, 400_000)]);
    let g = build_grid(&sams, SCALE).unwrap();
    assert_eq!(
        g,
        vec![
            7_100_000_000,
            7_101_000_000,
            7_102_000_000,
            7_103_000_000,
            7_104_000_000,
        ]
    );
    for w in g.windows(2) {
        assert_eq!(w[1] - w[0], SCALE);
        assert!(w[0] < w[1]);
    }
}

#[test]
fn grid_length_matches_the_count_formula() {
    // stop - start = 2.0, step 0.8: floor(2.0 / 0.8) + 1 = 3 points
    let sams = samples(&[(7_100_000_000, 0), (7_102_000_000, 0)]);
    let g = build_grid(&sams, 800_000).unwrap();
    assert_eq!(g, vec![7_100_000_000, 7_100_800_000, 7_101_600_000]);
}

#[test]
fn grid_rejects_empty_and_single_sample() {
    assert_eq!(build_grid(&samples(&[]), SCALE).unwrap_err(), Error::EmptyInput);
    assert_eq!(
        build_grid(&samples(&[(7_100_000_000, 0)]), SCALE).unwrap_err(),
        Error::InsufficientData
    );
}

#[test]
fn interpolant_reproduces_samples_exactly() {
    let pairs = [
        (7_100_000_000, 250_000),
        (7_100_300_000, 910_000),
        (7_101_100_000, -40_000),
        (7_104_000_000, 500_000),
    ];
    let sams = samples(&pairs);
    let it = Interpolant::new(&sams).unwrap();
    for &(e, a) in pairs.iter() {
        assert_eq!(it.eval(e), a);
    }
}

#[test]
fn interpolant_is_linear_between_samples_and_constant_outside() {
    let sams = samples(&[(0, 0), (2_000_000, 1_000_000)]);
    let it = Interpolant::new(&sams).unwrap();
    assert_eq!(it.eval(1_000_000), 500_000);
    assert_eq!(it.eval(500_000), 250_000);
    assert_eq!(it.eval(-5_000_000), 0);
    assert_eq!(it.eval(9_000_000), 1_000_000);
}

#[test]
fn interpolant_rejects_degenerate_bases() {
    assert_eq!(
        Interpolant::new(&samples(&[])).unwrap_err(),
        Error::InterpolationFailure
    );
    assert_eq!(
        Interpolant::new(&samples(&[(7_100_000_000, 1)])).unwrap_err(),
        Error::InterpolationFailure
    );
}

#[test]
fn edge_prefers_unique_maximum() {
    let curve = vec![100, 900, 300, 500];
    let grid = vec![10, 20, 30, 40];
    assert_eq!(find_edge(&curve, &grid).unwrap(), 20);
}

#[test]
fn edge_tie_goes_to_the_earliest_index() {
    let curve = vec![100, 900, 900, 900];
    let grid = vec![10, 20, 30, 40];
    assert_eq!(find_edge(&curve, &grid).unwrap(), 20);
}

#[test]
fn edge_of_empty_curve_is_empty_input() {
    let curve: Vec<i64> = Vec::new();
    let grid: Vec<i64> = Vec::new();
    assert_eq!(find_edge(&curve, &grid).unwrap_err(), Error::EmptyInput);
}

#[test]
fn long_grid_is_reconciled_to_the_sample_count() {
    // rounding stretches the grid to 11 points, cut back to the 2 samples
    let input = lines(&["7100.0 1.0 0.1", "7100.9 1.0 0.2"]);
    let s = Spectrum::new(&input, SCALE / 10).unwrap();
    assert_eq!(s.grid, vec![7_100_000_000, 7_100_100_000]);
    // 100000 + (100000 * 100000) / 900000 = 111111, truncated toward zero
    assert_eq!(s.curve, vec![100_000, 111_111]);
    assert_eq!(s.grid.len(), s.curve.len());
    assert_eq!(s.e0, 7_100_100_000);
}

#[test]
fn negative_absorption_ratio_is_kept() {
    let input = lines(&["7100 2.0 -1.0", "7101 2.0 1.0"]);
    let s = Spectrum::new(&input, SCALE).unwrap();
    let absorption: Vec<i64> = s.absorption.iter().map(|a| a.absorption).collect();
    assert_eq!(absorption, vec![-500_000, 500_000]);
    assert_eq!(s.e0, 7_101_000_000);
}
