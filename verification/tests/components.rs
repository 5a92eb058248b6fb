use setcover::keys::SetKey;
use setcover::{
    compress_universe, greedy_set_cover_bitset, greedy_set_cover_bitset_generic,
    greedy_set_cover_dense, greedy_set_cover_dense_generic, greedy_set_cover_generic,
    greedy_set_cover_int_elements, greedy_set_cover_textbook_generic, make_bitset, SetCoverError,
};

#[test]
fn compress_assigns_ids_in_first_sight_order() {
    let sets: Vec<Vec<u64>> = vec![vec![5, 7, 5], vec![7, 9]];
    let (dense, reverse) = compress_universe(&sets);
    assert_eq!(reverse, vec![5, 7, 9]);
    assert_eq!(dense, vec![vec![0, 1, 0], vec![1, 2]]);
}

#[test]
fn compress_of_nothing_is_empty() {
    let sets: Vec<Vec<u64>> = Vec::new();
    let (dense, reverse) = compress_universe(&sets);
    assert!(dense.is_empty());
    assert!(reverse.is_empty());
}

#[test]
fn dense_cover_picks_first_of_equal_gains() {
    let sets: Vec<Vec<usize>> = vec![vec![0, 1], vec![2], vec![1, 2]];
    assert_eq!(greedy_set_cover_dense(3, &sets), Some(vec![0, 1]));
}

#[test]
fn dense_cover_reports_uncoverable_ids() {
    let sets: Vec<Vec<usize>> = vec![vec![0]];
    assert_eq!(greedy_set_cover_dense(3, &sets), None);
    assert_eq!(greedy_set_cover_dense(0, &sets), Some(Vec::new()));
}

#[test]
fn dense_cover_ignores_out_of_range_ids() {
    let sets: Vec<Vec<usize>> = vec![vec![0, 9], vec![1]];
    assert_eq!(greedy_set_cover_dense(2, &sets), Some(vec![0, 1]));
}

#[test]
fn dense_cover_scores_duplicates_once() {
    let sets: Vec<Vec<usize>> = vec![vec![0, 0], vec![0, 1]];
    assert_eq!(greedy_set_cover_dense(2, &sets), Some(vec![1]));
}

#[test]
fn textbook_cover_scores_duplicates_once() {
    let sets: Vec<Vec<u64>> = vec![vec![7, 7], vec![7, 8]];
    assert_eq!(greedy_set_cover_textbook_generic(&sets), Some(vec![1]));
}

#[test]
fn bitset_words_pack_one_bit_per_element() {
    assert_eq!(make_bitset(3, &vec![0, 2]), vec![0b101u64]);
    assert_eq!(make_bitset(3, &vec![0, 2, 7]), vec![0b101u64]);
    assert_eq!(make_bitset(65, &vec![0, 64]), vec![1u64, 1u64]);
    assert_eq!(make_bitset(0, &vec![]), Vec::<u64>::new());
}

#[test]
fn bitset_cover_matches_dense_on_packed_sets() {
    let sets: Vec<Vec<usize>> = vec![vec![0, 1, 2], vec![2, 3], vec![4]];
    let bits: Vec<Vec<u64>> = sets.iter().map(|s| make_bitset(5, s)).collect();
    assert_eq!(greedy_set_cover_bitset(5, &bits), Some(vec![0, 1, 2]));
    assert_eq!(greedy_set_cover_dense(5, &sets), Some(vec![0, 1, 2]));
}

#[test]
fn bitset_cover_reports_uncoverable_ids() {
    let bits = vec![make_bitset(70, &vec![0, 69])];
    assert_eq!(greedy_set_cover_bitset(70, &bits), None);
}

#[test]
fn textbook_cover_works_on_raw_elements() {
    let sets: Vec<Vec<u64>> = vec![vec![10, 20, 30], vec![20], vec![40]];
    assert_eq!(greedy_set_cover_textbook_generic(&sets), Some(vec![0, 2]));
    let nothing: Vec<Vec<u64>> = vec![vec![], vec![]];
    assert_eq!(greedy_set_cover_textbook_generic(&nothing), Some(Vec::new()));
}

#[test]
fn generic_router_accepts_bare_strategy_names() {
    let sets: Vec<Vec<u64>> = vec![vec![1, 2, 3], vec![3, 4], vec![4]];
    assert_eq!(greedy_set_cover_generic(&sets, "dense"), Some(vec![0, 1]));
    assert_eq!(greedy_set_cover_generic(&sets, "bitset"), Some(vec![0, 1]));
    assert_eq!(greedy_set_cover_generic(&sets, "textbook"), Some(vec![0, 1]));
    assert_eq!(greedy_set_cover_generic(&sets, "unknown"), None);
}

#[test]
fn generic_wrappers_agree() {
    let sets: Vec<Vec<u64>> = vec![vec![100, 200], vec![200, 300], vec![300]];
    assert_eq!(greedy_set_cover_dense_generic(&sets), Some(vec![0, 1]));
    assert_eq!(greedy_set_cover_bitset_generic(&sets), Some(vec![0, 1]));
    assert_eq!(greedy_set_cover_textbook_generic(&sets), Some(vec![0, 1]));

    // Identical index sequences also on sets that list an element twice.
    let with_dups: Vec<Vec<u64>> = vec![vec![100, 100], vec![100, 200]];
    assert_eq!(greedy_set_cover_dense_generic(&with_dups), Some(vec![1]));
    assert_eq!(greedy_set_cover_bitset_generic(&with_dups), Some(vec![1]));
    assert_eq!(greedy_set_cover_textbook_generic(&with_dups), Some(vec![1]));
}

#[test]
fn int_elements_skip_compression_and_use_max_plus_one() {
    // Ids 0..=3 all listed: the dense universe is fully covered.
    let sets = vec![
        (SetKey::Int(1), vec![0u64, 1, 2]),
        (SetKey::Int(2), vec![3]),
    ];
    for algo in ["greedy-standard", "greedy-bitvec", "greedy-textbook"] {
        assert_eq!(
            greedy_set_cover_int_elements(&sets, algo.to_string()),
            Ok(vec![SetKey::Int(1), SetKey::Int(2)])
        );
    }
}

#[test]
fn int_elements_sparse_ids_are_infeasible_for_id_strategies() {
    // Only id 5 is listed, so ids 0..5 of the implicit universe 0..6 are
    // uncoverable for the id-indexed strategies; the hash-set strategy
    // builds its universe from the listed elements and still succeeds.
    let sets = vec![(SetKey::Int(1), vec![5u64])];
    assert_eq!(
        greedy_set_cover_int_elements(&sets, "greedy-standard".to_string()),
        Err(SetCoverError::InfeasibleCover)
    );
    assert_eq!(
        greedy_set_cover_int_elements(&sets, "greedy-bitvec".to_string()),
        Err(SetCoverError::InfeasibleCover)
    );
    assert_eq!(
        greedy_set_cover_int_elements(&sets, "greedy-textbook".to_string()),
        Ok(vec![SetKey::Int(1)])
    );
}

#[test]
fn int_elements_refuse_unknown_names() {
    let sets = vec![(SetKey::Int(1), vec![0u64])];
    assert_eq!(
        greedy_set_cover_int_elements(&sets, "bogus".to_string()),
        Err(SetCoverError::InvalidAlgorithm)
    );
}
