use ternary_voting::{LiquidDemocracy, TernaryVote};

#[test]
fn test_liquid_democracy_direct() {
    let mut ld = LiquidDemocracy::new(3);
    ld.vote_direct(0, TernaryVote::For);
    ld.vote_direct(1, TernaryVote::For);
    ld.vote_direct(2, TernaryVote::Against);
    let tally = ld.final_tally();
    assert_eq!(tally.result(), TernaryVote::For);
}

#[test]
fn test_liquid_democracy_delegation() {
    let mut ld = LiquidDemocracy::new(3);
    ld.vote_direct(0, TernaryVote::For);
    ld.delegate(1, 0); // voter 1 delegates to voter 0
    ld.delegate(2, 0); // voter 2 delegates directly to voter 0
    let tally = ld.final_tally();
    assert_eq!(tally.for_count, 3);
}

#[test]
fn new_democracy_everybody_abstains_directly() {
    let ld = LiquidDemocracy::new(4);
    assert_eq!(ld.delegations, vec![None; 4]);
    assert_eq!(ld.direct_votes, vec![TernaryVote::Abstain; 4]);
    let tally = ld.final_tally();
    assert_eq!(tally.abstain_count, 4);
    assert_eq!(tally.total(), 4);
}

#[test]
fn resolve_without_delegation_lists_every_voter() {
    let mut ld = LiquidDemocracy::new(3);
    ld.vote_direct(0, TernaryVote::For);
    ld.vote_direct(2, TernaryVote::Against);
    assert_eq!(
        ld.resolve(),
        vec![(0, TernaryVote::For, 1), (1, TernaryVote::Abstain, 1), (2, TernaryVote::Against, 1)]
    );
}

#[test]
fn delegators_drop_out_of_resolution() {
    let mut ld = LiquidDemocracy::new(3);
    ld.vote_direct(0, TernaryVote::Against);
    ld.delegate(1, 0);
    ld.delegate(2, 0);
    assert_eq!(ld.resolve(), vec![(0, TernaryVote::Against, 3)]);
}

#[test]
fn transitive_delegation_counts_each_vote_once() {
    // 2 -> 1 -> 0: both delegated votes end at voter 0.
    let mut ld = LiquidDemocracy::new(3);
    ld.vote_direct(0, TernaryVote::For);
    ld.delegate(1, 0);
    ld.delegate(2, 1);
    assert_eq!(ld.resolve(), vec![(0, TernaryVote::For, 3)]);
    let tally = ld.final_tally();
    assert_eq!(tally.for_count, 3);
    assert_eq!(tally.total(), 3);
}

#[test]
fn long_chain_gathers_every_vote_once() {
    let n = 1000;
    let mut ld = LiquidDemocracy::new(n);
    ld.vote_direct(0, TernaryVote::Against);
    for i in 1..n {
        ld.delegate(i, i - 1);
    }
    assert_eq!(ld.resolve(), vec![(0, TernaryVote::Against, n as u32)]);
    assert_eq!(ld.final_tally().against_count, n);
}

#[test]
fn weights_sum_to_number_of_voters() {
    let mut ld = LiquidDemocracy::new(6);
    ld.vote_direct(0, TernaryVote::For);
    ld.vote_direct(3, TernaryVote::Against);
    ld.delegate(1, 0);
    ld.delegate(2, 1);
    ld.delegate(4, 3);
    ld.delegate(5, 5);
    let resolved = ld.resolve();
    assert_eq!(resolved, vec![(0, TernaryVote::For, 3), (3, TernaryVote::Against, 2), (5, TernaryVote::Abstain, 1)]);
    let sum: u32 = resolved.iter().map(|e| e.2).sum();
    assert_eq!(sum, 6);
    let tally = ld.final_tally();
    assert_eq!((tally.for_count, tally.against_count, tally.abstain_count), (3, 2, 1));
}

#[test]
fn delegation_cycle_is_broken() {
    // 0 <-> 1: the cycle's weight goes to the member settled last.
    let mut ld = LiquidDemocracy::new(2);
    ld.vote_direct(0, TernaryVote::For);
    ld.vote_direct(1, TernaryVote::Against);
    ld.delegate(0, 1);
    ld.delegate(1, 0);
    assert_eq!(ld.resolve(), vec![(1, TernaryVote::Against, 2)]);
    assert_eq!(ld.final_tally().against_count, 2);
}

#[test]
fn three_cycle_goes_to_last_member() {
    let mut ld = LiquidDemocracy::new(3);
    ld.vote_direct(0, TernaryVote::For);
    ld.vote_direct(1, TernaryVote::Against);
    ld.vote_direct(2, TernaryVote::Abstain);
    ld.delegate(0, 1);
    ld.delegate(1, 2);
    ld.delegate(2, 0);
    assert_eq!(ld.resolve(), vec![(2, TernaryVote::Abstain, 3)]);
}

#[test]
fn chain_into_a_cycle_ends_where_the_cycle_closes() {
    // 2 -> 0, 0 <-> 1: voter 2's chain 2, 0, 1 comes back to 0 and takes the
    // cycle's weight there.
    let mut ld = LiquidDemocracy::new(3);
    ld.vote_direct(0, TernaryVote::For);
    ld.vote_direct(1, TernaryVote::Against);
    ld.vote_direct(2, TernaryVote::Against);
    ld.delegate(0, 1);
    ld.delegate(1, 0);
    ld.delegate(2, 0);
    assert_eq!(ld.resolve(), vec![(0, TernaryVote::For, 3)]);
}

#[test]
fn self_delegation_keeps_own_vote() {
    let mut ld = LiquidDemocracy::new(2);
    ld.vote_direct(0, TernaryVote::For);
    ld.delegate(0, 0);
    assert_eq!(ld.resolve(), vec![(0, TernaryVote::For, 1), (1, TernaryVote::Abstain, 1)]);
}

#[test]
fn out_of_range_requests_are_ignored() {
    let mut ld = LiquidDemocracy::new(2);
    ld.delegate(0, 5);
    ld.delegate(5, 0);
    ld.vote_direct(9, TernaryVote::For);
    assert_eq!(ld.delegations, vec![None, None]);
    assert_eq!(ld.direct_votes, vec![TernaryVote::Abstain, TernaryVote::Abstain]);
}

#[test]
fn direct_vote_overrides_delegation() {
    let mut ld = LiquidDemocracy::new(2);
    ld.delegate(1, 0);
    ld.vote_direct(1, TernaryVote::Against);
    assert_eq!(ld.delegations, vec![None, None]);
    assert_eq!(ld.direct_votes[1], TernaryVote::Against);
    let tally = ld.final_tally();
    assert_eq!(tally.against_count, 1);
    assert_eq!(tally.abstain_count, 1);
}

#[test]
fn invalid_delegate_in_field_is_not_followed() {
    let ld = LiquidDemocracy {
        delegations: vec![Some(7), None],
        direct_votes: vec![TernaryVote::For, TernaryVote::Against],
    };
    assert_eq!(ld.resolve(), vec![(0, TernaryVote::For, 1), (1, TernaryVote::Against, 1)]);
}
