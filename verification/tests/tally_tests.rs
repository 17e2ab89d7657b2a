use ternary_voting::{quorum_result, TernaryVote, VoteTally};

#[test]
fn test_vote_tally_simple() {
    let mut tally = VoteTally::new();
    tally.record(TernaryVote::For);
    tally.record(TernaryVote::For);
    tally.record(TernaryVote::Against);
    assert_eq!(tally.result(), TernaryVote::For);
    assert_eq!(tally.total(), 3);
}

#[test]
fn test_vote_tally_tie() {
    let mut tally = VoteTally::new();
    tally.record(TernaryVote::For);
    tally.record(TernaryVote::Against);
    assert_eq!(tally.result(), TernaryVote::Abstain);
}

#[test]
fn test_net_support() {
    let mut tally = VoteTally::new();
    tally.record(TernaryVote::For);
    tally.record(TernaryVote::For);
    tally.record(TernaryVote::Against);
    assert_eq!(tally.net_support(), 1);
}

#[test]
fn test_vote_tally_all_abstain() {
    let mut tally = VoteTally::new();
    tally.record(TernaryVote::Abstain);
    tally.record(TernaryVote::Abstain);
    assert_eq!(tally.result(), TernaryVote::Abstain);
}

#[test]
fn new_tally_is_empty() {
    let tally = VoteTally::new();
    assert_eq!(tally.for_count, 0);
    assert_eq!(tally.against_count, 0);
    assert_eq!(tally.abstain_count, 0);
    assert_eq!(tally.total(), 0);
    assert_eq!(tally.net_support(), 0);
    assert_eq!(tally.result(), TernaryVote::Abstain);
    let d = VoteTally::default();
    assert_eq!(d.total(), 0);
}

#[test]
fn record_counts_each_kind() {
    let mut tally = VoteTally::new();
    tally.record(TernaryVote::Against);
    tally.record(TernaryVote::Abstain);
    tally.record(TernaryVote::Against);
    assert_eq!(tally.for_count, 0);
    assert_eq!(tally.against_count, 2);
    assert_eq!(tally.abstain_count, 1);
    assert_eq!(tally.total(), 3);
}

#[test]
fn against_plurality_and_negative_net() {
    let mut tally = VoteTally::new();
    tally.record(TernaryVote::Against);
    tally.record(TernaryVote::Against);
    tally.record(TernaryVote::For);
    assert_eq!(tally.result(), TernaryVote::Against);
    assert_eq!(tally.net_support(), -1);
}

#[test]
fn abstentions_do_not_move_net_support() {
    let mut tally = VoteTally::new();
    tally.record(TernaryVote::For);
    let before = tally.net_support();
    tally.record(TernaryVote::Abstain);
    tally.record(TernaryVote::Abstain);
    assert_eq!(tally.net_support(), before);
    assert_eq!(tally.total(), 3);
}

#[test]
fn abstain_beats_a_smaller_for() {
    let mut tally = VoteTally::new();
    tally.record(TernaryVote::For);
    tally.record(TernaryVote::Abstain);
    tally.record(TernaryVote::Abstain);
    assert_eq!(tally.result(), TernaryVote::Abstain);
}

#[test]
fn for_tied_with_abstain_gives_abstain() {
    let tally = VoteTally { for_count: 2, against_count: 0, abstain_count: 2 };
    assert_eq!(tally.result(), TernaryVote::Abstain);
    let tally = VoteTally { for_count: 3, against_count: 1, abstain_count: 2 };
    assert_eq!(tally.result(), TernaryVote::For);
}

#[test]
fn swapping_for_and_against_swaps_result() {
    let a = VoteTally { for_count: 5, against_count: 2, abstain_count: 1 };
    let b = VoteTally { for_count: 2, against_count: 5, abstain_count: 1 };
    assert_eq!(a.result(), TernaryVote::For);
    assert_eq!(b.result(), TernaryVote::Against);
}

#[test]
fn quorum_result_needs_quorum() {
    let mut tally = VoteTally::new();
    tally.record(TernaryVote::For);
    tally.record(TernaryVote::For);
    tally.record(TernaryVote::Against);
    assert_eq!(quorum_result(&tally, true), Some(TernaryVote::For));
    assert_eq!(quorum_result(&tally, false), None);
    let tie = VoteTally { for_count: 1, against_count: 1, abstain_count: 0 };
    assert_eq!(quorum_result(&tie, true), Some(TernaryVote::Abstain));
}
