use vstd::prelude::*;

use crate::tally::{VoteTally, law_record_adds_one};
use crate::vote::{TernaryVote, count_votes, lemma_counts_sum};

verus! {

/// Votes needed for a decision among `n` nodes: more than two thirds.
pub open spec fn supermajority(n: int) -> int {
    (2 * n) / 3 + 1
}

/// Outcome of one consensus round among `n` nodes on the received `votes`:
/// nothing until every node has voted, then the value (For before Against)
/// that reaches a supermajority, if any.
pub open spec fn consensus_outcome(n: int, votes: Seq<TernaryVote>) -> Option<TernaryVote> {
    if votes.len() < n {
        None
    } else if count_votes(votes, TernaryVote::For) >= supermajority(n) {
        Some(TernaryVote::For)
    } else if count_votes(votes, TernaryVote::Against) >= supermajority(n) {
        Some(TernaryVote::Against)
    } else {
        None
    }
}

/// The number of faulty nodes tolerated among `n`: the largest `f` with `n > 3f`.
pub open spec fn fault_bound(n: int) -> int {
    (n - 1) / 3
}

/// Simplified Byzantine agreement on ternary values.
#[derive(Debug, Clone)]
pub struct ByzantineAgreement {
    pub node_count: usize,
    pub byzantine_threshold: usize,  // max faulty nodes (f)
}

/// `2 * n / 3 + 1`, computed without overflow.
fn supermajority_of(n: usize) -> (r: usize)
    ensures
        r == supermajority(n as int),
{
    let q = n / 3;
    let rem = n % 3;
    proof {
        assert(2 * (n as int) / 3 == 2 * q + (2 * rem) / 3) by (nonlinear_arith)
            requires
                q == n / 3,
                rem == n % 3,
        ;
        assert(q <= n / 3);
    }
    2 * q + (2 * rem) / 3 + 1
}

impl ByzantineAgreement {
    pub fn new(node_count: usize) -> (r: Self)
        requires
            node_count >= 1,
        ensures
            r.node_count == node_count,
            r.byzantine_threshold == fault_bound(node_count as int),
    {
        // Byzantine fault tolerance: need n > 3f
        let f = (node_count - 1) / 3;
        Self { node_count, byzantine_threshold: f }
    }

    /// Check if agreement is possible.
    pub fn can_agree(&self) -> (r: bool)
        requires
            3 * self.byzantine_threshold <= usize::MAX,
        ensures
            r == (self.node_count > 3 * self.byzantine_threshold),
    {
        self.node_count > 3 * self.byzantine_threshold
    }

    /// Run one round of majority voting (simplified).
    pub fn consensus_round(&self, votes: &[TernaryVote]) -> (r: Option<TernaryVote>)
        ensures
            r == consensus_outcome(self.node_count as int, votes@),
    {
        if votes.len() < self.node_count {
            return None;  // not all votes received
        }
        let mut tally = VoteTally::new();
        let mut k: usize = 0;
        while k < votes.len()
            invariant
                k <= votes@.len(),
                forall|v: TernaryVote|
                    #[trigger] tally.count_of(v) == count_votes(votes@.take(k as int), v),
            decreases votes@.len() - k,
        {
            let v = votes[k];
            proof {
                assert(votes@.take(k + 1).drop_last() =~= votes@.take(k as int));
                lemma_counts_sum(votes@.take(k as int));
                law_record_adds_one(tally, v);
            }
            let ghost prev = tally;
            tally.record(v);
            proof {
                assert forall|w: TernaryVote| #[trigger] tally.count_of(w) == count_votes(
                    votes@.take(k + 1),
                    w,
                ) by {
                    assert(prev.count_of(w) == count_votes(votes@.take(k as int), w));
                }
            }
            k += 1;
        }
        proof {
            assert(votes@.take(votes@.len() as int) =~= votes@);
            assert(tally.count_of(TernaryVote::For) == count_votes(votes@, TernaryVote::For));
            assert(tally.count_of(TernaryVote::Against) == count_votes(votes@, TernaryVote::Against));
        }
        // Need > 2/3 agreement for Byzantine tolerance
        let needed = supermajority_of(self.node_count);
        if tally.for_count >= needed {
            Some(TernaryVote::For)
        } else if tally.against_count >= needed {
            Some(TernaryVote::Against)
        } else {
            None  // no supermajority
        }
    }
}

/// An agreement made by `new` for `n` nodes always satisfies the classic
/// bound `n > 3f`, and `f` is the largest number of faults with that property.
pub proof fn law_new_can_agree(n: int)
    requires
        n >= 1,
    ensures
        n > 3 * fault_bound(n),
        n <= 3 * (fault_bound(n) + 1),
{
    assert(n > 3 * ((n - 1) / 3)) by (nonlinear_arith)
        requires
            n >= 1,
    ;
    assert(n <= 3 * ((n - 1) / 3 + 1)) by (nonlinear_arith)
        requires
            n >= 1,
    ;
}

/// Two supermajorities of `n` cannot fit among `n` votes.
proof fn lemma_supermajorities_overlap(n: int)
    requires
        n >= 0,
    ensures
        2 * supermajority(n) > n,
{
    assert(2 * ((2 * n) / 3 + 1) > n) by (nonlinear_arith)
        requires
            n >= 0,
    ;
}

/// Agreement: when exactly the `n` nodes have voted, For and Against cannot
/// both reach a supermajority, so a decision is never ambiguous.
pub proof fn law_no_conflicting_supermajorities(n: int, votes: Seq<TernaryVote>)
    requires
        votes.len() == n,
    ensures
        !(count_votes(votes, TernaryVote::For) >= supermajority(n) && count_votes(
            votes,
            TernaryVote::Against,
        ) >= supermajority(n)),
{
    lemma_counts_sum(votes);
    lemma_supermajorities_overlap(n);
}

/// A decision is only ever For or Against, and is backed by more than two
/// thirds of the nodes.
pub proof fn law_decision_needs_supermajority(n: int, votes: Seq<TernaryVote>)
    requires
        n >= 0,
    ensures
        consensus_outcome(n, votes) matches Some(v) ==> v != TernaryVote::Abstain && 3
            * count_votes(votes, v) > 2 * n && votes.len() >= n,
{
    assert(3 * ((2 * n) / 3 + 1) > 2 * n) by (nonlinear_arith)
        requires
            n >= 0,
    ;
}

/// Validity: when all `n >= 1` nodes vote the same For or Against value, the
/// round decides that value.
pub proof fn law_unanimity_decides(n: int, votes: Seq<TernaryVote>, v: TernaryVote)
    requires
        n >= 1,
        votes.len() == n,
        v != TernaryVote::Abstain,
        forall|i: int| 0 <= i < votes.len() ==> votes[i] == v,
    ensures
        consensus_outcome(n, votes) == Some(v),
{
    lemma_count_all(votes, v);
    assert((2 * n) / 3 + 1 <= n) by (nonlinear_arith)
        requires
            n >= 1,
    ;
}

/// A sequence made of one kind of vote counts that kind once per element and
/// nothing else.
proof fn lemma_count_all(s: Seq<TernaryVote>, v: TernaryVote)
    requires
        forall|i: int| 0 <= i < s.len() ==> s[i] == v,
    ensures
        count_votes(s, v) == s.len(),
        forall|w: TernaryVote| w != v ==> #[trigger] count_votes(s, w) == 0,
    decreases s.len(),
{
    if s.len() > 0 {
        lemma_count_all(s.drop_last(), v);
        assert forall|w: TernaryVote| w != v implies #[trigger] count_votes(s, w) == 0 by {
            assert(count_votes(s.drop_last(), w) == 0);
            assert(s.last() == v);
        }
    }
}

/// The supermajority of `n` nodes is the least number of votes that is more
/// than two thirds of `n`.
pub proof fn law_supermajority_least(n: int)
    requires
        n >= 0,
    ensures
        3 * supermajority(n) > 2 * n,
        3 * (supermajority(n) - 1) <= 2 * n,
{
    assert(3 * ((2 * n) / 3 + 1) > 2 * n) by (nonlinear_arith)
        requires
            n >= 0,
    ;
    assert(3 * ((2 * n) / 3) <= 2 * n) by (nonlinear_arith)
        requires
            n >= 0,
    ;
}

/// A value backed by more than two thirds of the `n` nodes is decided, once
/// every node has voted.
pub proof fn law_two_thirds_decides(n: int, votes: Seq<TernaryVote>, v: TernaryVote)
    requires
        n >= 0,
        votes.len() == n,
        v != TernaryVote::Abstain,
        3 * count_votes(votes, v) > 2 * n,
    ensures
        consensus_outcome(n, votes) == Some(v),
{
    law_supermajority_least(n);
    lemma_counts_sum(votes);
}

} // verus!
