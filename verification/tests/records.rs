use standings::grouping::group_runs;
use standings::records::Position;

#[test]
fn sentinel_codes_decode_to_terminal_outcomes() {
    assert!(matches!(Position::new(101), Position::Dnf));
    assert!(matches!(Position::new(111), Position::Dsq));
    assert!(matches!(Position::new(100), Position::Dns));
    assert!(matches!(Position::new(1), Position::Finished(1)));
    assert!(matches!(Position::new(99), Position::Finished(99)));
    assert!(matches!(Position::new(-3), Position::Finished(-3)));
}

#[test]
fn position_codes_round_trip() {
    assert_eq!(Position::Dnf.code(), 101);
    assert_eq!(Position::Dsq.code(), 111);
    assert_eq!(Position::Dns.code(), 100);
    assert_eq!(Position::Finished(4).code(), 4);
    for code in [1, 2, 50, 99, 100, 101, 111, -7] {
        assert_eq!(Position::new(code).code(), code);
    }
}

#[test]
fn position_from_integer_matches_new() {
    assert_eq!(Position::from(101), Position::new(101));
    assert_eq!(Position::from(12), Position::new(12));
}

#[test]
fn runs_split_on_key_changes() {
    let keys = vec![4, 4, 7, 7, 7, 9];
    assert_eq!(group_runs(&keys), vec![(0, 2), (2, 5), (5, 6)]);
}

#[test]
fn runs_of_empty_and_uniform_keys() {
    let empty: Vec<i32> = Vec::new();
    assert_eq!(group_runs(&empty), Vec::<(usize, usize)>::new());
    let uniform = vec![5, 5, 5];
    assert_eq!(group_runs(&uniform), vec![(0, 3)]);
}

#[test]
fn runs_with_repeated_key_in_separate_stretches() {
    // A key that reappears after another key opens a fresh run.
    let keys = vec![1, 2, 2, 1];
    assert_eq!(group_runs(&keys), vec![(0, 1), (1, 3), (3, 4)]);
}
