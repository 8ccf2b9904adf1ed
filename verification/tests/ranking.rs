use mjpolls::{compute_ranking, fill_out_votes, normalize, DefaultVote, MJVotes};
use std::cmp::Ordering;

#[test]
fn compare_two_empty_sequences_is_equal() {
    let a: Vec<usize> = vec![];
    let b: Vec<usize> = vec![];
    assert_eq!(a.vote_cmp(&b), Ordering::Equal);
}

#[test]
fn compare_empty_against_judged_is_less() {
    let a: Vec<usize> = vec![];
    let b: Vec<usize> = vec![3];
    assert_eq!(a.vote_cmp(&b), Ordering::Less);
}

#[test]
fn compare_judged_against_empty_is_greater() {
    let a: Vec<usize> = vec![3];
    let b: Vec<usize> = vec![];
    assert_eq!(a.vote_cmp(&b), Ordering::Greater);
}

#[test]
fn zeroth_median_is_lower_middle() {
    let v: Vec<usize> = vec![1, 3, 3, 5];
    assert_eq!(v.nth_median(0), Some(3));
}

#[test]
fn median_ladder_walks_high_then_low() {
    let v: Vec<usize> = vec![1, 3, 3, 5];
    // indices visited: 1, 2, 0, 3
    assert_eq!(v.nth_median(0), Some(3));
    assert_eq!(v.nth_median(1), Some(3));
    assert_eq!(v.nth_median(2), Some(1));
    assert_eq!(v.nth_median(3), Some(5));
    assert_eq!(v.nth_median(4), None);
}

#[test]
fn median_ladder_odd_length() {
    let v: Vec<usize> = vec![2, 3, 3, 4, 5];
    // indices visited: 2, 1, 3, 0, 4
    assert_eq!(v.nth_median(0), Some(3));
    assert_eq!(v.nth_median(1), Some(3));
    assert_eq!(v.nth_median(2), Some(4));
    assert_eq!(v.nth_median(3), Some(2));
    assert_eq!(v.nth_median(4), Some(5));
    assert_eq!(v.nth_median(5), None);
}

#[test]
fn nth_median_of_empty_is_none() {
    let v: Vec<usize> = vec![];
    assert_eq!(v.nth_median(0), None);
}

#[test]
fn empty_sequence_counts_as_a_zero_median() {
    // the 0th median of an empty sequence is the sentinel 0, uniformly
    let a: Vec<usize> = vec![];
    let b: Vec<usize> = vec![0];
    assert_eq!(a.vote_cmp(&b), Ordering::Equal);
    assert_eq!(b.vote_cmp(&a), Ordering::Equal);
}

#[test]
fn sequences_agreeing_until_the_shorter_ends_are_equal() {
    let a: Vec<usize> = vec![0];
    let b: Vec<usize> = vec![0, 5];
    // only the 0th medians are compared: 0 against 0
    assert_eq!(a.vote_cmp(&b), Ordering::Equal);
}

#[test]
fn compare_ties_broken_by_later_medians() {
    let a: Vec<usize> = vec![1, 3, 3, 5];
    let b: Vec<usize> = vec![2, 3, 3, 4];
    // 0th medians tie at 3; 1st medians: a -> 3, b -> 3; 2nd: a -> 1, b -> 2
    assert_eq!(a.vote_cmp(&b), Ordering::Less);
    assert_eq!(b.vote_cmp(&a), Ordering::Greater);
    assert_eq!(a.vote_cmp(&a), Ordering::Equal);
}

#[test]
fn normalize_reject_sorts_and_pads() {
    let raw: Vec<Vec<usize>> = vec![vec![3, 1], vec![2]];
    let normalized = normalize(&raw, DefaultVote::REJECT);
    assert_eq!(normalized, vec![vec![1, 3], vec![0, 2]]);
}

#[test]
fn normalize_ignore_sorts_and_keeps_lengths() {
    let raw: Vec<Vec<usize>> = vec![vec![3, 1], vec![2]];
    let normalized = normalize(&raw, DefaultVote::IGNORE);
    assert_eq!(normalized, vec![vec![1, 3], vec![2]]);
}

#[test]
fn normalize_reject_is_idempotent() {
    let raw: Vec<Vec<usize>> = vec![vec![5, 2, 4], vec![], vec![3]];
    let once = normalize(&raw, DefaultVote::REJECT);
    let twice = normalize(&once, DefaultVote::REJECT);
    assert_eq!(twice, once);
}

#[test]
fn normalize_empty_option_becomes_all_sentinels_under_reject() {
    let raw: Vec<Vec<usize>> = vec![vec![4, 4], vec![]];
    let normalized = normalize(&raw, DefaultVote::REJECT);
    assert_eq!(normalized, vec![vec![4, 4], vec![0, 0]]);
}

#[test]
fn fill_out_votes_pads_to_longest() {
    let mut votes: Vec<Vec<usize>> = vec![vec![], vec![1, 2], vec![5]];
    fill_out_votes(&mut votes);
    assert_eq!(votes, vec![vec![0, 0], vec![1, 2], vec![0, 5]]);
}

#[test]
fn fill_out_votes_on_empty_list_is_noop() {
    let mut votes: Vec<Vec<usize>> = vec![];
    fill_out_votes(&mut votes);
    assert_eq!(votes, Vec::<Vec<usize>>::new());
}

#[test]
fn ranking_orders_four_options_with_tie_breaks() {
    let votes: Vec<Vec<usize>> = vec![
        vec![2, 3, 3, 4, 5, 5],
        vec![1, 2, 3, 3, 5, 5],
        vec![2, 3, 3, 3, 4, 5],
        vec![0, 2, 3, 3, 4, 5],
    ];
    assert_eq!(compute_ranking(&votes), vec![1, 3, 2, 4]);
}

#[test]
fn ranking_is_dense_for_ties() {
    let votes: Vec<Vec<usize>> = vec![vec![3, 3], vec![3, 3], vec![1, 1]];
    assert_eq!(compute_ranking(&votes), vec![1, 1, 2]);
}

#[test]
fn ranking_single_option_is_one() {
    let votes: Vec<Vec<usize>> = vec![vec![2, 5]];
    assert_eq!(compute_ranking(&votes), vec![1]);
}

#[test]
fn ranking_permutes_with_the_options() {
    let a: Vec<usize> = vec![1, 1];
    let b: Vec<usize> = vec![3, 3];
    let c: Vec<usize> = vec![2, 2];
    let first = compute_ranking(&vec![a.clone(), b.clone(), c.clone()]);
    let second = compute_ranking(&vec![c, a, b]);
    assert_eq!(first, vec![3, 1, 2]);
    assert_eq!(second, vec![2, 3, 1]);
}

#[test]
fn strictly_better_medians_rank_strictly_better() {
    let votes: Vec<Vec<usize>> = vec![vec![1, 1], vec![5, 5], vec![1, 5]];
    let ranking = compute_ranking(&votes);
    assert!(ranking[1] < ranking[2]);
    assert!(ranking[2] < ranking[0]);
    assert_eq!(ranking, vec![3, 1, 2]);
}

#[test]
fn all_empty_options_tie_at_rank_one() {
    let votes: Vec<Vec<usize>> = vec![vec![], vec![], vec![]];
    assert_eq!(compute_ranking(&votes), vec![1, 1, 1]);
}
