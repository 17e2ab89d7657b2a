use ternary_voting::{ByzantineAgreement, TernaryVote};

#[test]
fn test_byzantine_can_agree() {
    let ba = ByzantineAgreement::new(4);
    assert!(ba.can_agree()); // 4 > 3*1 = 3
}

#[test]
fn test_byzantine_consensus_round() {
    let ba = ByzantineAgreement::new(4);
    // Need > 2/3 = 3 votes to agree
    let votes = vec![TernaryVote::For; 4];
    assert_eq!(ba.consensus_round(&votes), Some(TernaryVote::For));
}

#[test]
fn test_byzantine_no_consensus() {
    let ba = ByzantineAgreement::new(4);
    let votes = vec![TernaryVote::For, TernaryVote::For, TernaryVote::Against, TernaryVote::Against];
    assert_eq!(ba.consensus_round(&votes), None);
}

#[test]
fn fault_threshold_is_largest_tolerated() {
    assert_eq!(ByzantineAgreement::new(1).byzantine_threshold, 0);
    assert_eq!(ByzantineAgreement::new(3).byzantine_threshold, 0);
    assert_eq!(ByzantineAgreement::new(4).byzantine_threshold, 1);
    assert_eq!(ByzantineAgreement::new(7).byzantine_threshold, 2);
    assert_eq!(ByzantineAgreement::new(10).byzantine_threshold, 3);
    for n in 1..50usize {
        let ba = ByzantineAgreement::new(n);
        assert_eq!(ba.node_count, n);
        assert!(ba.can_agree());
    }
}

#[test]
fn too_many_faults_cannot_agree() {
    let ba = ByzantineAgreement { node_count: 3, byzantine_threshold: 1 };
    assert!(!ba.can_agree());
}

#[test]
fn missing_votes_give_no_decision() {
    let ba = ByzantineAgreement::new(4);
    let votes = vec![TernaryVote::For; 3];
    assert_eq!(ba.consensus_round(&votes), None);
}

#[test]
fn against_supermajority_decides_against() {
    let ba = ByzantineAgreement::new(4);
    let votes = vec![TernaryVote::Against, TernaryVote::Against, TernaryVote::Against, TernaryVote::For];
    assert_eq!(ba.consensus_round(&votes), Some(TernaryVote::Against));
}

#[test]
fn supermajority_threshold_is_exact() {
    // 2 * 6 / 3 + 1 = 5 votes needed among 6 nodes.
    let ba = ByzantineAgreement::new(6);
    let mut votes = vec![TernaryVote::For; 4];
    votes.extend(vec![TernaryVote::Abstain; 2]);
    assert_eq!(ba.consensus_round(&votes), None);
    votes[4] = TernaryVote::For;
    assert_eq!(ba.consensus_round(&votes), Some(TernaryVote::For));
}

#[test]
fn abstentions_never_decide() {
    let ba = ByzantineAgreement::new(3);
    let votes = vec![TernaryVote::Abstain; 3];
    assert_eq!(ba.consensus_round(&votes), None);
}

#[test]
fn single_node_decides_alone() {
    let ba = ByzantineAgreement::new(1);
    assert_eq!(ba.consensus_round(&[TernaryVote::Against]), Some(TernaryVote::Against));
}
