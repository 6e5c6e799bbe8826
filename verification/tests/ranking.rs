use centrality::error::CentralityError;
use centrality::ranking::{rank_descending, top_k};

#[test]
fn top_k_of_nothing_is_refused() {
    assert_eq!(top_k(&vec![], 1), Err(CentralityError::InsufficientResults));
}

#[test]
fn top_zero_of_nothing_is_nothing() {
    assert_eq!(top_k(&vec![], 0), Ok(vec![]));
}

#[test]
fn top_k_refuses_more_than_there_is() {
    let results = vec![(0, 4), (1, 9), (2, 1)];
    assert_eq!(top_k(&results, 4), Err(CentralityError::InsufficientResults));
    assert_eq!(top_k(&results, usize::MAX), Err(CentralityError::InsufficientResults));
}

#[test]
fn top_k_takes_the_highest_scores() {
    let results = vec![(0, 4), (1, 9), (2, 1), (3, 7), (4, 0)];
    assert_eq!(top_k(&results, 0), Ok(vec![]));
    assert_eq!(top_k(&results, 1), Ok(vec![(1, 9)]));
    assert_eq!(top_k(&results, 3), Ok(vec![(1, 9), (3, 7), (0, 4)]));
    assert_eq!(top_k(&results, 5), Ok(vec![(1, 9), (3, 7), (0, 4), (2, 1), (4, 0)]));
}

#[test]
fn ranking_sorts_by_descending_score() {
    let results = vec![(0, 0), (1, 1), (2, 1), (3, 5), (4, 3)];
    assert_eq!(rank_descending(&results), vec![(3, 5), (4, 3), (1, 1), (2, 1), (0, 0)]);
}

#[test]
fn ranking_keeps_ties_in_their_order() {
    let results = vec![(5, 2), (1, 2), (9, 7), (3, 2), (0, 7), (4, 2)];
    assert_eq!(rank_descending(&results), vec![(9, 7), (0, 7), (5, 2), (1, 2), (3, 2), (4, 2)]);
    assert_eq!(top_k(&results, 3), Ok(vec![(9, 7), (0, 7), (5, 2)]));
}

#[test]
fn ranking_keeps_repeated_entries() {
    let results = vec![(1, 1), (1, 1), (2, 3), (1, 1)];
    assert_eq!(rank_descending(&results), vec![(2, 3), (1, 1), (1, 1), (1, 1)]);
}

#[test]
fn ranking_a_ranking_changes_nothing() {
    let results = vec![(0, 3), (1, 8), (2, 3), (3, 8), (4, 1)];
    let once = rank_descending(&results);
    assert_eq!(rank_descending(&once), once);
}

#[test]
fn ranking_leaves_its_input_alone() {
    let results = vec![(0, 1), (1, 2)];
    let _ = rank_descending(&results);
    let _ = top_k(&results, 1);
    assert_eq!(results, vec![(0, 1), (1, 2)]);
}

#[test]
fn ranking_agrees_with_a_stable_sort() {
    let mut results = vec![];
    let mut x: usize = 12345;
    for node in 0..200 {
        x = (x * 1103515245 + 12345) % 2147483648;
        results.push((node, x % 17));
    }
    let mut expected = results.clone();
    expected.sort_by(|a, b| b.1.cmp(&a.1));
    assert_eq!(rank_descending(&results), expected);
    assert_eq!(top_k(&results, 10).unwrap(), expected[..10].to_vec());
}
