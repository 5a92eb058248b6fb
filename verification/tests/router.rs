use setcover::keys::SetKey;
use setcover::{greedy_set_cover, SetCoverError};
use std::collections::HashSet;

fn make_universe(sets: &Vec<(SetKey, Vec<u64>)>) -> HashSet<u64> {
    let mut u = HashSet::new();
    for (_, elems) in sets {
        for e in elems {
            u.insert(*e);
        }
    }
    u
}

fn check_coverage(cover: &[SetKey], sets: &Vec<(SetKey, Vec<u64>)>, universe: &HashSet<u64>) {
    let mut covered = HashSet::new();
    for (k, elems) in sets {
        if cover.contains(k) {
            for e in elems {
                covered.insert(*e);
            }
        }
    }
    assert_eq!(universe, &covered);
}

fn int_sets(pairs: Vec<(i64, Vec<u64>)>) -> Vec<(SetKey, Vec<u64>)> {
    pairs.into_iter().map(|(k, v)| (SetKey::Int(k), v)).collect()
}

#[test]
fn test_basic_case() {
    let sets = vec![
        (SetKey::Text("A".to_string()), vec![1, 2, 3]),
        (SetKey::Text("B".to_string()), vec![1, 2]),
        (SetKey::Text("C".to_string()), vec![2]),
    ];

    let set_cover_0 = greedy_set_cover(&sets, "greedy-standard".to_string()).unwrap();
    let set_cover_1 = greedy_set_cover(&sets, "greedy-bitvec".to_string()).unwrap();
    let set_cover_2 = greedy_set_cover(&sets, "greedy-textbook".to_string()).unwrap();
    let universe = make_universe(&sets);

    assert_eq!(set_cover_0, vec![SetKey::Text("A".to_string())]);
    assert_eq!(set_cover_1, vec![SetKey::Text("A".to_string())]);
    assert_eq!(set_cover_2, vec![SetKey::Text("A".to_string())]);

    check_coverage(&set_cover_0, &sets, &universe);
    check_coverage(&set_cover_1, &sets, &universe);
    check_coverage(&set_cover_2, &sets, &universe);
}

#[test]
fn test_with_empty_set() {
    let sets = int_sets(vec![(1, vec![1, 2, 3]), (2, vec![]), (3, vec![3, 4, 5])]);

    let set_cover_0 = greedy_set_cover(&sets, "greedy-standard".to_string()).unwrap();
    let set_cover_1 = greedy_set_cover(&sets, "greedy-bitvec".to_string()).unwrap();
    let set_cover_2 = greedy_set_cover(&sets, "greedy-textbook".to_string()).unwrap();
    let universe = make_universe(&sets);

    assert_eq!(set_cover_0, vec![SetKey::Int(1), SetKey::Int(3)]);
    assert_eq!(set_cover_1, vec![SetKey::Int(1), SetKey::Int(3)]);
    assert_eq!(set_cover_2, vec![SetKey::Int(1), SetKey::Int(3)]);

    check_coverage(&set_cover_0, &sets, &universe);
    check_coverage(&set_cover_1, &sets, &universe);
    check_coverage(&set_cover_2, &sets, &universe);
}

#[test]
fn test_all_sets_needed() {
    let sets = int_sets(vec![(1, vec![1]), (2, vec![2]), (3, vec![3])]);

    let set_cover_0 = greedy_set_cover(&sets, "greedy-standard".to_string()).unwrap();
    let set_cover_1 = greedy_set_cover(&sets, "greedy-bitvec".to_string()).unwrap();
    let set_cover_2 = greedy_set_cover(&sets, "greedy-textbook".to_string()).unwrap();

    assert_eq!(sets.len(), set_cover_0.len());
    assert_eq!(sets.len(), set_cover_1.len());
    assert_eq!(sets.len(), set_cover_2.len());

    let universe = make_universe(&sets);

    check_coverage(&set_cover_0, &sets, &universe);
    check_coverage(&set_cover_1, &sets, &universe);
    check_coverage(&set_cover_2, &sets, &universe);
}

#[test]
fn test_one_set_covers_all() {
    let sets = int_sets(vec![(1, vec![1, 2, 3, 4, 5]), (2, vec![1, 2]), (3, vec![3, 4])]);

    let set_cover_0 = greedy_set_cover(&sets, "greedy-standard".to_string()).unwrap();
    let set_cover_1 = greedy_set_cover(&sets, "greedy-bitvec".to_string()).unwrap();
    let set_cover_2 = greedy_set_cover(&sets, "greedy-textbook".to_string()).unwrap();

    assert_eq!(set_cover_0.len(), 1);
    assert_eq!(set_cover_1.len(), 1);
    assert_eq!(set_cover_2.len(), 1);
    assert_eq!(set_cover_0, vec![SetKey::Int(1)]);
    assert_eq!(set_cover_1, vec![SetKey::Int(1)]);
    assert_eq!(set_cover_2, vec![SetKey::Int(1)]);

    let universe = make_universe(&sets);

    check_coverage(&set_cover_0, &sets, &universe);
    check_coverage(&set_cover_1, &sets, &universe);
    check_coverage(&set_cover_2, &sets, &universe);
}

#[test]
fn test_overlapping_sets() {
    let sets = int_sets(vec![(1, vec![1, 2, 3]), (2, vec![3, 4, 5]), (3, vec![5, 6, 7])]);

    let set_cover_0 = greedy_set_cover(&sets, "greedy-standard".to_string()).unwrap();
    let set_cover_1 = greedy_set_cover(&sets, "greedy-bitvec".to_string()).unwrap();
    let set_cover_2 = greedy_set_cover(&sets, "greedy-textbook".to_string()).unwrap();

    assert_eq!(set_cover_0.len(), 3);
    assert_eq!(set_cover_1.len(), 3);
    assert_eq!(set_cover_2.len(), 3);

    let universe = make_universe(&sets);

    check_coverage(&set_cover_0, &sets, &universe);
    check_coverage(&set_cover_1, &sets, &universe);
    check_coverage(&set_cover_2, &sets, &universe);
}

#[test]
fn test_complex_deterministic_cases() {
    let sets = int_sets(vec![
        (1, vec![1, 2, 3, 4, 5, 6]),
        (2, vec![1, 2, 7]),
        (3, vec![3, 4, 8]),
        (4, vec![5, 6, 9]),
        (5, vec![7, 8, 9, 10]),
    ]);

    let set_cover_0 = greedy_set_cover(&sets, "greedy-standard".to_string()).unwrap();
    let set_cover_1 = greedy_set_cover(&sets, "greedy-bitvec".to_string()).unwrap();
    let set_cover_2 = greedy_set_cover(&sets, "greedy-textbook".to_string()).unwrap();

    assert_eq!(set_cover_0, vec![SetKey::Int(1), SetKey::Int(5)]);
    assert_eq!(set_cover_1, vec![SetKey::Int(1), SetKey::Int(5)]);
    assert_eq!(set_cover_2, vec![SetKey::Int(1), SetKey::Int(5)]);

    let universe = make_universe(&sets);

    check_coverage(&set_cover_0, &sets, &universe);
    check_coverage(&set_cover_1, &sets, &universe);
    check_coverage(&set_cover_2, &sets, &universe);
}

#[test]
fn test_output_is_sorted() {
    let sets = int_sets(vec![
        (3, vec![1, 2, 3]),
        (1, vec![4, 5, 6]),
        (2, vec![7, 8, 9]),
        (4, vec![10, 11, 12]),
    ]);

    let set_cover_0 = greedy_set_cover(&sets, "greedy-standard".to_string()).unwrap();
    let set_cover_1 = greedy_set_cover(&sets, "greedy-bitvec".to_string()).unwrap();
    let set_cover_2 = greedy_set_cover(&sets, "greedy-textbook".to_string()).unwrap();

    let expected = vec![SetKey::Int(1), SetKey::Int(2), SetKey::Int(3), SetKey::Int(4)];
    assert_eq!(set_cover_0, expected);
    assert_eq!(set_cover_1, expected);
    assert_eq!(set_cover_2, expected);

    assert!(
        set_cover_0.windows(2).all(|w| int_of(&w[0]) <= int_of(&w[1])),
        "Output from greedy-standard is not sorted"
    );
    assert!(
        set_cover_1.windows(2).all(|w| int_of(&w[0]) <= int_of(&w[1])),
        "Output from greedy-bitvec is not sorted"
    );
    assert!(
        set_cover_2.windows(2).all(|w| int_of(&w[0]) <= int_of(&w[1])),
        "Output from greedy-textbook is not sorted"
    );
}

fn int_of(k: &SetKey) -> i64 {
    match k {
        SetKey::Int(x) => *x,
        SetKey::Text(_) => panic!("expected an integer key"),
    }
}

#[test]
fn test_two_sets_with_same_elements() {
    let sets = int_sets(vec![(1, vec![1]), (2, vec![2])]);

    let set_cover_0 = greedy_set_cover(&sets, "greedy-standard".to_string()).unwrap();
    let set_cover_1 = greedy_set_cover(&sets, "greedy-bitvec".to_string()).unwrap();
    let set_cover_2 = greedy_set_cover(&sets, "greedy-textbook".to_string()).unwrap();

    assert_eq!(set_cover_0.len(), 2);
    assert_eq!(set_cover_1.len(), 2);
    assert_eq!(set_cover_2.len(), 2);
}

#[test]
fn test_invalid_algorithm_is_refused() {
    let sets = int_sets(vec![(1, vec![1, 2]), (2, vec![3])]);
    let empty: Vec<(SetKey, Vec<u64>)> = Vec::new();

    assert_eq!(
        greedy_set_cover(&sets, "bogus".to_string()),
        Err(SetCoverError::InvalidAlgorithm)
    );
    assert_eq!(
        greedy_set_cover(&empty, "bogus".to_string()),
        Err(SetCoverError::InvalidAlgorithm)
    );
    assert_eq!(
        greedy_set_cover(&sets, "".to_string()),
        Err(SetCoverError::InvalidAlgorithm)
    );
}

#[test]
fn test_empty_universe_returns_empty_cover() {
    let no_sets: Vec<(SetKey, Vec<u64>)> = Vec::new();
    let empty_sets = int_sets(vec![(1, vec![]), (2, vec![])]);

    for algo in ["greedy-standard", "greedy-bitvec", "greedy-textbook"] {
        assert_eq!(greedy_set_cover(&no_sets, algo.to_string()), Ok(Vec::new()));
        assert_eq!(greedy_set_cover(&empty_sets, algo.to_string()), Ok(Vec::new()));
    }
}

#[test]
fn test_string_keys_sort_ascending() {
    let sets = vec![
        (SetKey::Text("beta".to_string()), vec![1, 2, 3]),
        (SetKey::Text("alpha".to_string()), vec![4, 5]),
    ];

    for algo in ["greedy-standard", "greedy-bitvec", "greedy-textbook"] {
        let cover = greedy_set_cover(&sets, algo.to_string()).unwrap();
        assert_eq!(
            cover,
            vec![
                SetKey::Text("alpha".to_string()),
                SetKey::Text("beta".to_string()),
            ]
        );
    }
}

#[test]
fn test_duplicate_listings_are_harmless() {
    // A set that lists an element twice scores it once under every
    // strategy: set B covers two distinct elements, set A only one, so
    // all three strategies pick B alone.
    let sets = vec![
        (SetKey::Text("A".to_string()), vec![1, 1]),
        (SetKey::Text("B".to_string()), vec![1, 2]),
    ];

    let standard = greedy_set_cover(&sets, "greedy-standard".to_string()).unwrap();
    let bitvec = greedy_set_cover(&sets, "greedy-bitvec".to_string()).unwrap();
    let textbook = greedy_set_cover(&sets, "greedy-textbook".to_string()).unwrap();

    let expected = vec![SetKey::Text("B".to_string())];
    assert_eq!(standard, expected);
    assert_eq!(bitvec, expected);
    assert_eq!(textbook, expected);
}
