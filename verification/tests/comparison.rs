use lau_spectral_gap_experiment::comparison::count_matches;

#[test]
fn count_matches_counts_true_flags() {
    assert_eq!(count_matches(&[true, false]), 1);
    assert_eq!(count_matches(&[]), 0);
    assert_eq!(count_matches(&[true, true, false, true]), 3);
    assert_eq!(count_matches(&[false, false]), 0);
}
