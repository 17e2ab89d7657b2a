use ternary_voting::{CondorcetElection, TernaryVote};

#[test]
fn test_condorcet_winner() {
    let mut ce = CondorcetElection::new(3);
    // A > B > C for all voters
    ce.add_ballot(vec![0, 1, 2]);
    ce.add_ballot(vec![0, 1, 2]);
    ce.add_ballot(vec![0, 1, 2]);
    assert_eq!(ce.winner(), Some(0));
}

#[test]
fn test_condorcet_pairwise() {
    let mut ce = CondorcetElection::new(3);
    ce.add_ballot(vec![0, 1, 2]);
    ce.add_ballot(vec![1, 0, 2]);
    let (a_over_b, b_over_a) = ce.pairwise(0, 1);
    assert_eq!(a_over_b, 1);
    assert_eq!(b_over_a, 1);
}

#[test]
fn test_condorcet_no_winner_cycle() {
    let mut ce = CondorcetElection::new(3);
    ce.add_ballot(vec![0, 1, 2]);
    ce.add_ballot(vec![1, 2, 0]);
    ce.add_ballot(vec![2, 0, 1]);
    // Condorcet paradox — no winner
    assert_eq!(ce.winner(), None);
}

#[test]
fn test_condorcet_comparison_matrix() {
    let mut ce = CondorcetElection::new(2);
    ce.add_ballot(vec![0, 1]);
    ce.add_ballot(vec![0, 1]);
    let matrix = ce.comparison_matrix();
    assert_eq!(matrix[0][1], TernaryVote::For);
    assert_eq!(matrix[1][0], TernaryVote::Against);
}

#[test]
fn new_election_has_no_ballots() {
    let ce = CondorcetElection::new(4);
    assert_eq!(ce.candidates, 4);
    assert!(ce.preferences.is_empty());
    assert_eq!(ce.pairwise(0, 1), (0, 0));
    assert_eq!(ce.winner(), None);
}

#[test]
fn single_candidate_wins_unopposed() {
    let ce = CondorcetElection::new(1);
    assert_eq!(ce.winner(), Some(0));
    let none = CondorcetElection::new(0);
    assert_eq!(none.winner(), None);
    assert!(none.comparison_matrix().is_empty());
}

#[test]
fn pairwise_is_symmetric_and_ignores_self() {
    let mut ce = CondorcetElection::new(3);
    ce.add_ballot(vec![2, 0, 1]);
    ce.add_ballot(vec![0, 2, 1]);
    ce.add_ballot(vec![1, 2, 0]);
    assert_eq!(ce.pairwise(0, 2), (1, 2));
    assert_eq!(ce.pairwise(2, 0), (2, 1));
    assert_eq!(ce.pairwise(1, 1), (0, 0));
    assert_eq!(ce.winner(), Some(2));
}

#[test]
fn unranked_candidates_come_last() {
    let mut ce = CondorcetElection::new(3);
    ce.add_ballot(vec![2]);
    ce.add_ballot(vec![1, 2]);
    // Ballot 1 ranks 2 and omits 0 and 1; ballot 2 omits 0.
    assert_eq!(ce.pairwise(2, 0), (2, 0));
    assert_eq!(ce.pairwise(1, 0), (1, 0));
    assert_eq!(ce.pairwise(2, 1), (1, 1));
    assert_eq!(ce.winner(), None);
}

#[test]
fn winner_beats_every_other_candidate() {
    let mut ce = CondorcetElection::new(3);
    ce.add_ballot(vec![1, 0, 2]);
    ce.add_ballot(vec![1, 2, 0]);
    ce.add_ballot(vec![0, 1, 2]);
    assert_eq!(ce.winner(), Some(1));
    let m = ce.comparison_matrix();
    assert_eq!(m[1][0], TernaryVote::For);
    assert_eq!(m[1][2], TernaryVote::For);
}

#[test]
fn comparison_matrix_tie_is_abstain() {
    let mut ce = CondorcetElection::new(2);
    ce.add_ballot(vec![0, 1]);
    ce.add_ballot(vec![1, 0]);
    let m = ce.comparison_matrix();
    assert_eq!(m, vec![vec![TernaryVote::Abstain; 2]; 2]);
}

#[test]
fn comparison_matrix_is_antisymmetric() {
    let mut ce = CondorcetElection::new(3);
    ce.add_ballot(vec![0, 1, 2]);
    ce.add_ballot(vec![1, 0, 2]);
    ce.add_ballot(vec![2, 1, 0]);
    let m = ce.comparison_matrix();
    assert_eq!(m.len(), 3);
    for i in 0..3 {
        assert_eq!(m[i].len(), 3);
        assert_eq!(m[i][i], TernaryVote::Abstain);
    }
    assert_eq!(m[0][1], TernaryVote::Against);
    assert_eq!(m[1][0], TernaryVote::For);
    assert_eq!(m[0][2], TernaryVote::For);
    assert_eq!(m[2][0], TernaryVote::Against);
    assert_eq!(m[1][2], TernaryVote::For);
    assert_eq!(m[2][1], TernaryVote::Against);
}
