use vstd::prelude::*;

use crate::vote::{TernaryVote, opposite};

verus! {

/// The plurality winner among the three categories: For or Against when it
/// has strictly more than each of the two other categories, Abstain otherwise
/// (ties included).
pub open spec fn plurality(f: int, a: int, ab: int) -> TernaryVote {
    if f > a && f > ab {
        TernaryVote::For
    } else if a > f && a > ab {
        TernaryVote::Against
    } else {
        TernaryVote::Abstain
    }
}

/// Simple vote tally.
#[derive(Debug, Clone)]
pub struct VoteTally {
    pub for_count: usize,
    pub against_count: usize,
    pub abstain_count: usize,
}

impl VoteTally {
    /// The count kept for one kind of vote.
    pub open spec fn count_of(self, v: TernaryVote) -> int {
        match v {
            TernaryVote::For => self.for_count as int,
            TernaryVote::Against => self.against_count as int,
            TernaryVote::Abstain => self.abstain_count as int,
        }
    }

    /// The tally with one more vote of kind `v`.
    pub open spec fn recorded(self, v: TernaryVote) -> VoteTally {
        match v {
            TernaryVote::For => VoteTally { for_count: (self.for_count + 1) as usize, ..self },
            TernaryVote::Against => VoteTally {
                against_count: (self.against_count + 1) as usize,
                ..self
            },
            TernaryVote::Abstain => VoteTally {
                abstain_count: (self.abstain_count + 1) as usize,
                ..self
            },
        }
    }

    /// Number of votes recorded.
    pub open spec fn total_votes(self) -> int {
        self.for_count + self.against_count + self.abstain_count
    }

    /// For votes minus Against votes.
    pub open spec fn net(self) -> int {
        self.for_count - self.against_count
    }

    /// The plurality outcome of the tally.
    pub open spec fn outcome(self) -> TernaryVote {
        plurality(self.for_count as int, self.against_count as int, self.abstain_count as int)
    }

    /// The empty tally.
    pub open spec fn is_empty(self) -> bool {
        self.for_count == 0 && self.against_count == 0 && self.abstain_count == 0
    }

    pub fn new() -> (r: Self)
        ensures
            r.is_empty(),
    {
        Self::default()
    }

    pub fn record(&mut self, vote: TernaryVote)
        requires
            old(self).count_of(vote) < usize::MAX,
        ensures
            *final(self) == old(self).recorded(vote),
    {
        match vote {
            TernaryVote::For => self.for_count += 1,
            TernaryVote::Against => self.against_count += 1,
            TernaryVote::Abstain => self.abstain_count += 1,
        }
    }

    pub fn total(&self) -> (r: usize)
        requires
            self.total_votes() <= usize::MAX,
        ensures
            r == self.total_votes(),
    {
        self.for_count + self.against_count + self.abstain_count
    }

    /// Net support as ternary: positive = for wins, negative = against wins, 0 = tie.
    pub fn net_support(&self) -> (r: i64)
        requires
            self.for_count <= i64::MAX,
            self.against_count <= i64::MAX,
        ensures
            r == self.net(),
    {
        self.for_count as i64 - self.against_count as i64
    }

    /// Simple majority result.
    pub fn result(&self) -> (r: TernaryVote)
        ensures
            r == self.outcome(),
    {
        if self.for_count > self.against_count && self.for_count > self.abstain_count {
            TernaryVote::For
        } else if self.against_count > self.for_count && self.against_count > self.abstain_count {
            TernaryVote::Against
        } else {
            TernaryVote::Abstain
        }
    }
}

impl Default for VoteTally {
    fn default() -> (r: Self)
        ensures
            r.is_empty(),
    {
        VoteTally { for_count: 0, against_count: 0, abstain_count: 0 }
    }
}

/// Recording a vote raises the total by exactly one.
pub proof fn law_record_adds_one(t: VoteTally, v: TernaryVote)
    requires
        t.count_of(v) < usize::MAX,
    ensures
        t.recorded(v).total_votes() == t.total_votes() + 1,
        t.recorded(v).count_of(v) == t.count_of(v) + 1,
        forall|w: TernaryVote| w != v ==> t.recorded(v).count_of(w) == t.count_of(w),
{
}

/// Abstentions do not move net support; a For vote raises it by one and an
/// Against vote lowers it by one.
pub proof fn law_net_support_step(t: VoteTally, v: TernaryVote)
    requires
        t.count_of(v) < usize::MAX,
    ensures
        v == TernaryVote::Abstain ==> t.recorded(v).net() == t.net(),
        v == TernaryVote::For ==> t.recorded(v).net() == t.net() + 1,
        v == TernaryVote::Against ==> t.recorded(v).net() == t.net() - 1,
{
}

/// The plurality winner has strictly more votes than each other category;
/// Abstain is the result exactly when neither For nor Against has that.
pub proof fn law_plurality_strict(f: int, a: int, ab: int)
    ensures
        plurality(f, a, ab) == TernaryVote::For <==> (f > a && f > ab),
        plurality(f, a, ab) == TernaryVote::Against <==> (a > f && a > ab),
        plurality(f, a, ab) == TernaryVote::Abstain <==> !(f > a && f > ab) && !(a > f
            && a > ab),
{
}

/// Exchanging the For and Against counts exchanges the result.
pub proof fn law_plurality_symmetric(f: int, a: int, ab: int)
    ensures
        plurality(a, f, ab) == opposite(plurality(f, a, ab)),
{
}

/// A result of For or Against implies the corresponding sign of net support.
pub proof fn law_result_agrees_with_net(t: VoteTally)
    ensures
        t.outcome() == TernaryVote::For ==> t.net() > 0,
        t.outcome() == TernaryVote::Against ==> t.net() < 0,
{
}

/// The result of a vote held under a quorum rule: the plurality result of the
/// tally when the quorum is met, no result otherwise.
pub fn quorum_result(tally: &VoteTally, quorum_met: bool) -> (r: Option<TernaryVote>)
    ensures
        r == if quorum_met {
            Some(tally.outcome())
        } else {
            None
        },
{
    if quorum_met {
        Some(tally.result())
    } else {
        None
    }
}

} // verus!
