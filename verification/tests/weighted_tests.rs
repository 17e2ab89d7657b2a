use ternary_voting::{TernaryVote, VoteTally, WeightedVoting};

#[test]
fn test_weighted_voting() {
    let votes = vec![
        (3, TernaryVote::Against),
        (1, TernaryVote::For),
        (1, TernaryVote::For),
    ];
    assert_eq!(WeightedVoting::weighted_result(&votes), TernaryVote::Against);
}

#[test]
fn test_weighted_voting_for_wins() {
    let votes = vec![
        (5, TernaryVote::For),
        (3, TernaryVote::Against),
    ];
    assert_eq!(WeightedVoting::weighted_result(&votes), TernaryVote::For);
}

#[test]
fn new_weighted_voting_is_empty() {
    let wv = WeightedVoting::new();
    assert!(wv.weights.is_empty());
    assert_eq!(WeightedVoting::weighted_result(&wv.weights), TernaryVote::Abstain);
}

#[test]
fn add_vote_records_weight_and_vote() {
    let mut wv = WeightedVoting::new();
    wv.add_vote(7, 10, TernaryVote::Against);
    wv.add_vote(8, 3, TernaryVote::For);
    wv.add_vote(9, 4, TernaryVote::For);
    assert_eq!(wv.weights, vec![(10, TernaryVote::Against), (3, TernaryVote::For), (4, TernaryVote::For)]);
    assert_eq!(WeightedVoting::weighted_result(&wv.weights), TernaryVote::Against);
}

#[test]
fn weighted_tie_gives_abstain() {
    let votes = vec![(4, TernaryVote::For), (4, TernaryVote::Against)];
    assert_eq!(WeightedVoting::weighted_result(&votes), TernaryVote::Abstain);
    let votes = vec![(4, TernaryVote::For), (4, TernaryVote::Abstain)];
    assert_eq!(WeightedVoting::weighted_result(&votes), TernaryVote::Abstain);
}

#[test]
fn heavy_abstention_wins() {
    let votes = vec![(2, TernaryVote::For), (1, TernaryVote::Against), (9, TernaryVote::Abstain)];
    assert_eq!(WeightedVoting::weighted_result(&votes), TernaryVote::Abstain);
}

#[test]
fn weighted_result_ignores_order() {
    let a = vec![(3, TernaryVote::Against), (1, TernaryVote::For), (1, TernaryVote::For), (2, TernaryVote::For)];
    let b = vec![(2, TernaryVote::For), (1, TernaryVote::For), (1, TernaryVote::For), (3, TernaryVote::Against)];
    assert_eq!(WeightedVoting::weighted_result(&a), TernaryVote::For);
    assert_eq!(WeightedVoting::weighted_result(&a), WeightedVoting::weighted_result(&b));
}

#[test]
fn unit_weights_match_plain_tally() {
    let votes = [TernaryVote::For, TernaryVote::Against, TernaryVote::Against, TernaryVote::Abstain];
    let weighted: Vec<(u32, TernaryVote)> = votes.iter().map(|v| (1, *v)).collect();
    let mut tally = VoteTally::new();
    for v in votes {
        tally.record(v);
    }
    assert_eq!(WeightedVoting::weighted_result(&weighted), tally.result());
    assert_eq!(tally.result(), TernaryVote::Against);
}

#[test]
fn large_weights_are_summed_in_u64() {
    let votes = vec![(u32::MAX, TernaryVote::For), (u32::MAX, TernaryVote::For), (u32::MAX, TernaryVote::Against), (u32::MAX, TernaryVote::Against), (1, TernaryVote::Against)];
    assert_eq!(WeightedVoting::weighted_result(&votes), TernaryVote::Against);
}
