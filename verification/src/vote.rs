use vstd::prelude::*;

verus! {

/// A ternary vote, read as a balanced-ternary digit: `For` is +1,
/// `Against` is -1 and `Abstain` is 0.
#[derive(Debug, Clone, Copy, PartialEq, Eq, Hash, Structural)]
pub enum TernaryVote {
    For,
    Against,
    Abstain,
}

/// The balanced-ternary digit of a vote.
pub open spec fn ternary_value(v: TernaryVote) -> int {
    match v {
        TernaryVote::For => 1,
        TernaryVote::Abstain => 0,
        TernaryVote::Against => -1,
    }
}

/// The vote denoted by a balanced-ternary digit, if the value is one.
pub open spec fn vote_of_value(v: int) -> Option<TernaryVote> {
    if v == 1 {
        Some(TernaryVote::For)
    } else if v == 0 {
        Some(TernaryVote::Abstain)
    } else if v == -1 {
        Some(TernaryVote::Against)
    } else {
        None
    }
}

impl TernaryVote {
    pub fn to_ternary(self) -> (r: i8)
        ensures
            r == ternary_value(self),
    {
        match self {
            TernaryVote::For => 1,
            TernaryVote::Abstain => 0,
            TernaryVote::Against => -1,
        }
    }

    pub fn from_ternary(v: i8) -> (r: Option<Self>)
        ensures
            r == vote_of_value(v as int),
            r is Some <==> (v == 1 || v == 0 || v == -1),
    {
        match v {
            1 => Some(TernaryVote::For),
            0 => Some(TernaryVote::Abstain),
            -1 => Some(TernaryVote::Against),
            _ => None,
        }
    }
}

/// Converting a vote to its ternary digit and back gives the vote again.
pub proof fn law_vote_roundtrip(v: TernaryVote)
    ensures
        vote_of_value(ternary_value(v)) == Some(v),
{
}

/// Every ternary digit -1, 0 or 1 names a vote whose digit is that value,
/// and no other integer names a vote.
pub proof fn law_value_roundtrip(x: int)
    ensures
        (-1 <= x <= 1) <==> vote_of_value(x) is Some,
        vote_of_value(x) matches Some(v) ==> ternary_value(v) == x,
{
}

} // verus!

verus! {

/// The vote with For and Against exchanged; Abstain stays.
pub open spec fn opposite(v: TernaryVote) -> TernaryVote {
    match v {
        TernaryVote::For => TernaryVote::Against,
        TernaryVote::Against => TernaryVote::For,
        TernaryVote::Abstain => TernaryVote::Abstain,
    }
}

/// Number of occurrences of `v` in a sequence of votes.
pub open spec fn count_votes(s: Seq<TernaryVote>, v: TernaryVote) -> nat
    decreases s.len(),
{
    if s.len() == 0 {
        0
    } else {
        count_votes(s.drop_last(), v) + if s.last() == v { 1nat } else { 0nat }
    }
}

/// The three counts of a sequence of votes add up to its length.
pub proof fn lemma_counts_sum(s: Seq<TernaryVote>)
    ensures
        count_votes(s, TernaryVote::For) + count_votes(s, TernaryVote::Against)
            + count_votes(s, TernaryVote::Abstain) == s.len(),
    decreases s.len(),
{
    if s.len() > 0 {
        lemma_counts_sum(s.drop_last());
    }
}

/// For counts +1, Against -1 and Abstain 0; exchanging For and Against
/// negates the digit.
pub proof fn law_ternary_digits(v: TernaryVote)
    ensures
        ternary_value(TernaryVote::For) == 1,
        ternary_value(TernaryVote::Against) == -1,
        ternary_value(TernaryVote::Abstain) == 0,
        ternary_value(opposite(v)) == -ternary_value(v),
{
}

/// Counting votes is a plain count: no votes count nothing, and one more vote
/// adds one to its own kind only.
pub proof fn law_count_votes_push(s: Seq<TernaryVote>, x: TernaryVote, v: TernaryVote)
    ensures
        count_votes(Seq::empty(), v) == 0,
        count_votes(s.push(x), v) == count_votes(s, v) + if x == v {
            1nat
        } else {
            0nat
        },
{
    assert(s.push(x).drop_last() =~= s);
}

} // verus!
