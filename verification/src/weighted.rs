use vstd::prelude::*;

use crate::tally::plurality;
use crate::vote::{TernaryVote, count_votes};

verus! {

/// Total weight of the votes of kind `v` in a sequence of `(weight, vote)`.
pub open spec fn total_weight(s: Seq<(u32, TernaryVote)>, v: TernaryVote) -> nat
    decreases s.len(),
{
    if s.len() == 0 {
        0
    } else {
        total_weight(s.drop_last(), v) + if s.last().1 == v {
            s.last().0 as nat
        } else {
            0nat
        }
    }
}

/// The plurality outcome of weighted votes.
pub open spec fn weighted_outcome(s: Seq<(u32, TernaryVote)>) -> TernaryVote {
    plurality(
        total_weight(s, TernaryVote::For) as int,
        total_weight(s, TernaryVote::Against) as int,
        total_weight(s, TernaryVote::Abstain) as int,
    )
}

/// A prefix never weighs more than the whole sequence.
pub proof fn lemma_total_weight_prefix(s: Seq<(u32, TernaryVote)>, k: int, v: TernaryVote)
    requires
        0 <= k <= s.len(),
    ensures
        total_weight(s.take(k), v) <= total_weight(s, v),
    decreases s.len() - k,
{
    if k < s.len() {
        lemma_total_weight_prefix(s, k + 1, v);
        assert(s.take(k + 1).drop_last() =~= s.take(k));
    } else {
        assert(s.take(k) =~= s);
    }
}

/// Every vote given with weight one.
pub open spec fn unit_weights(s: Seq<TernaryVote>) -> Seq<(u32, TernaryVote)> {
    s.map_values(|v: TernaryVote| (1u32, v))
}

/// With every weight equal to one, the weight of a kind of vote is the number
/// of such votes, so the weighted result is the plain plurality result.
pub proof fn law_unit_weights(s: Seq<TernaryVote>, v: TernaryVote)
    ensures
        total_weight(unit_weights(s), v) == count_votes(s, v),
        weighted_outcome(unit_weights(s)) == plurality(
            count_votes(s, TernaryVote::For) as int,
            count_votes(s, TernaryVote::Against) as int,
            count_votes(s, TernaryVote::Abstain) as int,
        ),
{
    lemma_unit_weights_count(s, v);
    lemma_unit_weights_count(s, TernaryVote::For);
    lemma_unit_weights_count(s, TernaryVote::Against);
    lemma_unit_weights_count(s, TernaryVote::Abstain);
}

proof fn lemma_unit_weights_count(s: Seq<TernaryVote>, v: TernaryVote)
    ensures
        total_weight(unit_weights(s), v) == count_votes(s, v),
    decreases s.len(),
{
    if s.len() > 0 {
        lemma_unit_weights_count(s.drop_last(), v);
        assert(unit_weights(s).drop_last() =~= unit_weights(s.drop_last()));
    }
}

/// The weight of a concatenation is the sum of the weights of its parts.
pub proof fn lemma_total_weight_concat(s1: Seq<(u32, TernaryVote)>, s2: Seq<(u32, TernaryVote)>, v: TernaryVote)
    ensures
        total_weight(s1 + s2, v) == total_weight(s1, v) + total_weight(s2, v),
    decreases s2.len(),
{
    if s2.len() == 0 {
        assert(s1 + s2 =~= s1);
    } else {
        lemma_total_weight_concat(s1, s2.drop_last(), v);
        assert((s1 + s2).drop_last() =~= s1 + s2.drop_last());
    }
}

/// The weighted result does not depend on the order in which the votes come:
/// giving one group of votes before or after another yields the same result.
pub proof fn law_weighted_order_independent(s1: Seq<(u32, TernaryVote)>, s2: Seq<(u32, TernaryVote)>)
    ensures
        weighted_outcome(s1 + s2) == weighted_outcome(s2 + s1),
        forall|v: TernaryVote| #[trigger] total_weight(s1 + s2, v) == total_weight(s2 + s1, v),
{
    assert forall|v: TernaryVote| #[trigger] total_weight(s1 + s2, v) == total_weight(s2 + s1, v) by {
        lemma_total_weight_concat(s1, s2, v);
        lemma_total_weight_concat(s2, s1, v);
    }
    assert(total_weight(s1 + s2, TernaryVote::For) == total_weight(s2 + s1, TernaryVote::For));
    assert(total_weight(s1 + s2, TernaryVote::Against) == total_weight(s2 + s1, TernaryVote::Against));
    assert(total_weight(s1 + s2, TernaryVote::Abstain) == total_weight(s2 + s1, TernaryVote::Abstain));
}

/// Weighted voting with voter weights.
#[derive(Debug, Clone)]
pub struct WeightedVoting {
    /// The recorded `(weight, vote)` pairs.
    pub weights: Vec<(u32, TernaryVote)>,
}

impl WeightedVoting {
    pub fn new() -> (r: Self)
        ensures
            r.weights@ == Seq::<(u32, TernaryVote)>::empty(),
    {
        Self { weights: Vec::new() }
    }

    /// Record a vote with its weight.
    pub fn add_vote(&mut self, voter_id: u32, weight: u32, vote: TernaryVote)
        ensures
            final(self).weights@ == old(self).weights@.push((weight, vote)),
    {
        self.weights.push((weight, vote));
    }

    /// Compute weighted result.
    pub fn weighted_result(votes: &[(u32, TernaryVote)]) -> (r: TernaryVote)
        requires
            forall|v: TernaryVote| #[trigger] total_weight(votes@, v) <= u64::MAX,
        ensures
            r == weighted_outcome(votes@),
    {
        let mut for_w = 0u64;
        let mut against_w = 0u64;
        let mut abstain_w = 0u64;
        let mut k: usize = 0;
        while k < votes.len()
            invariant
                k <= votes@.len(),
                forall|v: TernaryVote| #[trigger] total_weight(votes@, v) <= u64::MAX,
                for_w == total_weight(votes@.take(k as int), TernaryVote::For),
                against_w == total_weight(votes@.take(k as int), TernaryVote::Against),
                abstain_w == total_weight(votes@.take(k as int), TernaryVote::Abstain),
            decreases votes@.len() - k,
        {
            let (weight, vote) = votes[k];
            proof {
                assert(votes@.take(k + 1).drop_last() =~= votes@.take(k as int));
                lemma_total_weight_prefix(votes@, k + 1, vote);
            }
            match vote {
                TernaryVote::For => for_w += weight as u64,
                TernaryVote::Against => against_w += weight as u64,
                TernaryVote::Abstain => abstain_w += weight as u64,
            }
            k += 1;
        }
        proof {
            assert(votes@.take(votes@.len() as int) =~= votes@);
        }
        if for_w > against_w && for_w > abstain_w {
            TernaryVote::For
        } else if against_w > for_w && against_w > abstain_w {
            TernaryVote::Against
        } else {
            TernaryVote::Abstain
        }
    }
}

/// The weight of a kind of vote is the plain sum of the weights given with
/// it: no votes weigh nothing, and appending a vote of weight `w` for `v`
/// raises the weight of `v` by exactly `w` and leaves the other kinds alone.
pub proof fn law_total_weight_sum(s: Seq<(u32, TernaryVote)>, w: u32, v: TernaryVote, x: TernaryVote)
    ensures
        total_weight(Seq::empty(), x) == 0,
        total_weight(s.push((w, v)), x) == total_weight(s, x) + if x == v {
            w as nat
        } else {
            0nat
        },
{
    assert(s.push((w, v)).drop_last() =~= s);
}

/// The kind of vote with strictly the largest total weight wins; otherwise
/// the result is Abstain.
pub proof fn law_weighted_result_by_weights(s: Seq<(u32, TernaryVote)>)
    ensures
        weighted_outcome(s) == TernaryVote::For <==> (total_weight(s, TernaryVote::For)
            > total_weight(s, TernaryVote::Against) && total_weight(s, TernaryVote::For)
            > total_weight(s, TernaryVote::Abstain)),
        weighted_outcome(s) == TernaryVote::Against <==> (total_weight(s, TernaryVote::Against)
            > total_weight(s, TernaryVote::For) && total_weight(s, TernaryVote::Against)
            > total_weight(s, TernaryVote::Abstain)),
{
}

} // verus!
