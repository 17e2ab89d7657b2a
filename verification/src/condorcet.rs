use vstd::prelude::*;

use crate::vote::{TernaryVote, opposite};

verus! {

/// Index of the first occurrence of `c` in `r` at or after index `i`, or
/// `usize::MAX` when there is none.
pub open spec fn pos_from(r: Seq<usize>, c: usize, i: int) -> int
    decreases r.len() - i,
{
    if i < 0 || i >= r.len() {
        usize::MAX as int
    } else if r[i] == c {
        i
    } else {
        pos_from(r, c, i + 1)
    }
}

/// Position of candidate `c` in a ranking (lower is preferred); a candidate
/// missing from the ranking has position `usize::MAX`.
pub open spec fn rank_of(r: Seq<usize>, c: usize) -> int {
    pos_from(r, c, 0)
}

/// The ranking puts `a` strictly before `b`.
pub open spec fn prefers(r: Seq<usize>, a: usize, b: usize) -> bool {
    rank_of(r, a) < rank_of(r, b)
}

/// Number of ballots that put `a` strictly before `b`.
pub open spec fn count_prefer(p: Seq<Seq<usize>>, a: usize, b: usize) -> nat
    decreases p.len(),
{
    if p.len() == 0 {
        0
    } else {
        count_prefer(p.drop_last(), a, b) + if prefers(p.last(), a, b) {
            1nat
        } else {
            0nat
        }
    }
}

/// `a` wins its head-to-head comparison against `b`.
pub open spec fn beats(p: Seq<Seq<usize>>, a: usize, b: usize) -> bool {
    count_prefer(p, a, b) > count_prefer(p, b, a)
}

/// `c` beats every other of the `candidates` pairwise.
pub open spec fn is_condorcet_winner(p: Seq<Seq<usize>>, candidates: usize, c: usize) -> bool {
    forall|o: usize| o < candidates && o != c ==> #[trigger] beats(p, c, o)
}

/// Ternary comparison of two counts: For when the first is larger, Against
/// when the second is larger, Abstain on a tie.
pub open spec fn compare_counts(x: int, y: int) -> TernaryVote {
    if x > y {
        TernaryVote::For
    } else if y > x {
        TernaryVote::Against
    } else {
        TernaryVote::Abstain
    }
}

/// Entry `(i, j)` of the pairwise comparison matrix: how `i` fares against `j`,
/// Abstain on the diagonal.
pub open spec fn matrix_entry(p: Seq<Seq<usize>>, i: usize, j: usize) -> TernaryVote {
    if i == j {
        TernaryVote::Abstain
    } else {
        compare_counts(count_prefer(p, i, j) as int, count_prefer(p, j, i) as int)
    }
}

/// Position of `c` in `ranking`, `usize::MAX` when absent.
fn position(ranking: &Vec<usize>, c: usize) -> (p: usize)
    ensures
        p == rank_of(ranking@, c),
{
    let mut i: usize = 0;
    while i < ranking.len()
        invariant
            i <= ranking@.len(),
            pos_from(ranking@, c, 0) == pos_from(ranking@, c, i as int),
        decreases ranking@.len() - i,
    {
        if ranking[i] == c {
            return i;
        }
        i += 1;
    }
    usize::MAX
}

fn compare_vote(x: usize, y: usize) -> (r: TernaryVote)
    ensures
        r == compare_counts(x as int, y as int),
{
    if x > y {
        TernaryVote::For
    } else if y > x {
        TernaryVote::Against
    } else {
        TernaryVote::Abstain
    }
}

/// Condorcet method for ternary pairwise comparisons.
#[derive(Debug, Clone)]
pub struct CondorcetElection {
    pub candidates: usize,
    /// preferences[voter] = ranking of candidates (lower is preferred).
    pub preferences: Vec<Vec<usize>>,
}

impl CondorcetElection {
    /// The ballots as mathematical sequences.
    pub open spec fn ballots(&self) -> Seq<Seq<usize>> {
        self.preferences@.map_values(|r: Vec<usize>| r@)
    }

    pub fn new(candidates: usize) -> (r: Self)
        ensures
            r.candidates == candidates,
            r.ballots() == Seq::<Seq<usize>>::empty(),
    {
        let r = Self { candidates, preferences: Vec::new() };
        assert(r.ballots() =~= Seq::<Seq<usize>>::empty());
        r
    }

    /// Add a voter's preference ranking.
    pub fn add_ballot(&mut self, ranking: Vec<usize>)
        ensures
            final(self).candidates == old(self).candidates,
            final(self).ballots() == old(self).ballots().push(ranking@),
    {
        self.preferences.push(ranking);
        assert(self.ballots() =~= old(self).ballots().push(ranking@));
    }

    /// Count how many voters prefer candidate a over candidate b.
    pub fn pairwise(&self, a: usize, b: usize) -> (r: (usize, usize))
        ensures
            r.0 == count_prefer(self.ballots(), a, b),
            r.1 == count_prefer(self.ballots(), b, a),
    {
        let ghost p = self.ballots();
        let mut prefer_a: usize = 0;
        let mut prefer_b: usize = 0;
        let mut k: usize = 0;
        while k < self.preferences.len()
            invariant
                p == self.ballots(),
                p.len() == self.preferences@.len(),
                k <= p.len(),
                prefer_a == count_prefer(p.take(k as int), a, b),
                prefer_b == count_prefer(p.take(k as int), b, a),
                prefer_a + prefer_b <= k,
            decreases p.len() - k,
        {
            let ranking = &self.preferences[k];
            let pos_a = position(ranking, a);
            let pos_b = position(ranking, b);
            proof {
                assert(p.take(k + 1).drop_last() =~= p.take(k as int));
                assert(p.take(k + 1).last() == ranking@);
            }
            if pos_a < pos_b {
                prefer_a += 1;
            } else if pos_b < pos_a {
                prefer_b += 1;
            }
            k += 1;
        }
        proof {
            assert(p.take(p.len() as int) =~= p);
        }
        (prefer_a, prefer_b)
    }

    /// Find Condorcet winner (candidate who beats all others pairwise).
    pub fn winner(&self) -> (r: Option<usize>)
        ensures
            match r {
                Some(c) => {
                    &&& c < self.candidates
                    &&& is_condorcet_winner(self.ballots(), self.candidates, c)
                    &&& forall|c2: usize|
                        c2 < c ==> !is_condorcet_winner(self.ballots(), self.candidates, c2)
                },
                None => forall|c: usize|
                    c < self.candidates ==> !is_condorcet_winner(
                        self.ballots(),
                        self.candidates,
                        c,
                    ),
            },
    {
        let ghost p = self.ballots();
        let mut candidate: usize = 0;
        while candidate < self.candidates
            invariant
                p == self.ballots(),
                candidate <= self.candidates,
                forall|c2: usize|
                    c2 < candidate ==> !is_condorcet_winner(p, self.candidates, c2),
            decreases self.candidates - candidate,
        {
            let mut wins_all = true;
            let mut other: usize = 0;
            while other < self.candidates
                invariant
                    p == self.ballots(),
                    candidate < self.candidates,
                    other <= self.candidates,
                    wins_all ==> forall|o: usize|
                        o < other && o != candidate ==> #[trigger] beats(p, candidate, o),
                    !wins_all ==> !is_condorcet_winner(p, self.candidates, candidate),
                ensures
                    wins_all <==> is_condorcet_winner(p, self.candidates, candidate),
                decreases self.candidates - other,
            {
                if candidate != other {
                    let (for_cand, for_other) = self.pairwise(candidate, other);
                    if for_cand <= for_other {
                        assert(!beats(p, candidate, other));
                        wins_all = false;
                        break;
                    }
                }
                other += 1;
            }
            if wins_all {
                return Some(candidate);
            }
            candidate += 1;
        }
        None
    }

    /// Build pairwise comparison matrix.
    pub fn comparison_matrix(&self) -> (m: Vec<Vec<TernaryVote>>)
        ensures
            m@.len() == self.candidates,
            forall|i: int| 0 <= i < self.candidates ==> (#[trigger] m@[i])@.len() == self.candidates,
            forall|i: int, j: int|
                0 <= i < self.candidates && 0 <= j < self.candidates ==> #[trigger] m@[i]@[j]
                    == matrix_entry(self.ballots(), i as usize, j as usize),
    {
        let ghost p = self.ballots();
        let n = self.candidates;
        let mut matrix: Vec<Vec<TernaryVote>> = Vec::new();
        let mut i: usize = 0;
        while i < n
            invariant
                p == self.ballots(),
                n == self.candidates,
                i <= n,
                matrix@.len() == i,
                forall|a: int| 0 <= a < i ==> (#[trigger] matrix@[a])@.len() == n,
                forall|a: int, b: int|
                    0 <= a < i && 0 <= b < n ==> #[trigger] matrix@[a]@[b] == matrix_entry(
                        p,
                        a as usize,
                        b as usize,
                    ),
            decreases n - i,
        {
            let mut row: Vec<TernaryVote> = Vec::new();
            let mut j: usize = 0;
            while j < n
                invariant
                    p == self.ballots(),
                    n == self.candidates,
                    i < n,
                    j <= n,
                    row@.len() == j,
                    forall|b: int| 0 <= b < j ==> #[trigger] row@[b] == matrix_entry(p, i, b as usize),
                decreases n - j,
            {
                let entry = if i == j {
                    TernaryVote::Abstain
                } else if i < j {
                    let (for_i, for_j) = self.pairwise(i, j);
                    compare_vote(for_i, for_j)
                } else {
                    let (for_j, for_i) = self.pairwise(j, i);
                    compare_vote(for_i, for_j)
                };
                row.push(entry);
                j += 1;
            }
            matrix.push(row);
            i += 1;
        }
        matrix
    }
}

/// Each ballot prefers at most one of two candidates, and none prefers a
/// candidate over itself.
pub proof fn law_pairwise_counts(p: Seq<Seq<usize>>, a: usize, b: usize)
    ensures
        count_prefer(p, a, b) + count_prefer(p, b, a) <= p.len(),
        count_prefer(p, a, a) == 0,
    decreases p.len(),
{
    if p.len() > 0 {
        law_pairwise_counts(p.drop_last(), a, b);
    }
}

/// There is at most one Condorcet winner: two winners would each beat the other.
pub proof fn law_condorcet_winner_unique(p: Seq<Seq<usize>>, candidates: usize, c1: usize, c2: usize)
    requires
        c1 < candidates,
        c2 < candidates,
        is_condorcet_winner(p, candidates, c1),
        is_condorcet_winner(p, candidates, c2),
    ensures
        c1 == c2,
{
    if c1 != c2 {
        assert(beats(p, c1, c2));
        assert(beats(p, c2, c1));
    }
}

/// The comparison matrix is antisymmetric: `i` wins against `j` exactly when
/// `j` loses against `i`, and ties show on both sides.
pub proof fn law_matrix_antisymmetric(p: Seq<Seq<usize>>, i: usize, j: usize)
    ensures
        matrix_entry(p, i, j) == opposite(matrix_entry(p, j, i)),
{
}

/// A candidate is the Condorcet winner exactly when its row of the comparison
/// matrix reads For against every other candidate.
pub proof fn law_winner_row(p: Seq<Seq<usize>>, candidates: usize, c: usize)
    ensures
        is_condorcet_winner(p, candidates, c) <==> forall|o: usize|
            o < candidates && o != c ==> #[trigger] matrix_entry(p, c, o) == TernaryVote::For,
{
    if is_condorcet_winner(p, candidates, c) {
        assert forall|o: usize| o < candidates && o != c implies #[trigger] matrix_entry(p, c, o)
            == TernaryVote::For by {
            assert(beats(p, c, o));
        }
    }
    if forall|o: usize| o < candidates && o != c ==> #[trigger] matrix_entry(p, c, o)
        == TernaryVote::For {
        assert forall|o: usize| o < candidates && o != c implies #[trigger] beats(p, c, o) by {
            assert(matrix_entry(p, c, o) == TernaryVote::For);
        }
    }
}

/// A search position is at least where the search starts, or `usize::MAX`.
proof fn lemma_pos_from_lower(r: Seq<usize>, c: usize, i: int)
    requires
        i >= 0,
    ensures
        pos_from(r, c, i) >= i || pos_from(r, c, i) == usize::MAX,
    decreases r.len() - i,
{
    if i < r.len() && r[i] != c {
        lemma_pos_from_lower(r, c, i + 1);
    }
}

/// When every ballot prefers `a` over `b`, all ballots count for `a` and none for `b`.
proof fn lemma_count_unanimous(p: Seq<Seq<usize>>, a: usize, b: usize)
    requires
        forall|k: int| 0 <= k < p.len() ==> prefers(#[trigger] p[k], a, b),
    ensures
        count_prefer(p, a, b) == p.len(),
        count_prefer(p, b, a) == 0,
    decreases p.len(),
{
    if p.len() > 0 {
        lemma_count_unanimous(p.drop_last(), a, b);
        assert(prefers(p[p.len() - 1], a, b));
    }
}

/// A candidate ranked first on every one of a non-empty set of ballots is the
/// Condorcet winner.
pub proof fn law_first_choice_everywhere_wins(p: Seq<Seq<usize>>, candidates: usize, c: usize)
    requires
        p.len() > 0,
        c < candidates,
        forall|k: int| 0 <= k < p.len() ==> (#[trigger] p[k]).len() > 0 && p[k][0] == c,
    ensures
        is_condorcet_winner(p, candidates, c),
{
    assert forall|o: usize| o < candidates && o != c implies #[trigger] beats(p, c, o) by {
        assert forall|k: int| 0 <= k < p.len() implies prefers(#[trigger] p[k], c, o) by {
            lemma_pos_from_lower(p[k], o, 1);
            assert(rank_of(p[k], c) == 0);
            assert(rank_of(p[k], o) == pos_from(p[k], o, 1));
        }
        lemma_count_unanimous(p, c, o);
    }
}

/// Scanning for `c` from `j` skips over the entries before `k` that are not `c`.
proof fn lemma_pos_skip(r: Seq<usize>, c: usize, j: int, k: int)
    requires
        0 <= j <= k <= r.len(),
        forall|x: int| j <= x < k ==> r[x] != c,
    ensures
        pos_from(r, c, j) == pos_from(r, c, k),
    decreases k - j,
{
    if j < k {
        lemma_pos_skip(r, c, j + 1, k);
    }
}

/// The rank of a candidate is the index of its first occurrence in the
/// ranking, wherever it stands.
pub proof fn law_rank_is_first_position(r: Seq<usize>, c: usize, i: int)
    requires
        0 <= i < r.len(),
        r[i] == c,
        forall|j: int| 0 <= j < i ==> r[j] != c,
    ensures
        rank_of(r, c) == i,
{
    lemma_pos_skip(r, c, 0, i);
}

/// A candidate missing from a ranking ranks after every listed candidate.
pub proof fn law_rank_absent(r: Seq<usize>, c: usize)
    requires
        !r.contains(c),
    ensures
        rank_of(r, c) == usize::MAX,
{
    assert forall|x: int| 0 <= x < r.len() implies r[x] != c by {
        if r[x] == c {
            assert(r.contains(c));
        }
    }
    lemma_pos_skip(r, c, 0, r.len() as int);
}

/// A ballot prefers `a` over `b` when `a` is listed before any occurrence of
/// `b`, and then not the other way round.
pub proof fn law_prefers_by_position(r: Seq<usize>, a: usize, b: usize, i: int)
    requires
        r.len() <= usize::MAX,
        0 <= i < r.len(),
        r[i] == a,
        forall|j: int| 0 <= j <= i ==> r[j] != b,
        forall|j: int| 0 <= j < i ==> r[j] != a,
    ensures
        prefers(r, a, b),
        !prefers(r, b, a),
{
    law_rank_is_first_position(r, a, i);
    lemma_pos_skip(r, b, 0, i + 1);
    lemma_pos_from_lower(r, b, i + 1);
}

/// A ballot that lists neither candidate prefers neither.
pub proof fn law_prefers_neither_unlisted(r: Seq<usize>, a: usize, b: usize)
    requires
        !r.contains(a),
        !r.contains(b),
    ensures
        !prefers(r, a, b),
        !prefers(r, b, a),
{
    law_rank_absent(r, a);
    law_rank_absent(r, b);
}

/// Counting preferences is a plain count over the ballots: no ballots count
/// nothing, and one more ballot adds one exactly when it prefers `a` over `b`.
pub proof fn law_count_prefer_push(p: Seq<Seq<usize>>, r: Seq<usize>, a: usize, b: usize)
    ensures
        count_prefer(Seq::empty(), a, b) == 0,
        count_prefer(p.push(r), a, b) == count_prefer(p, a, b) + if prefers(r, a, b) {
            1nat
        } else {
            0nat
        },
{
    assert(p.push(r).drop_last() =~= p);
}

/// Head to head, the candidate more ballots prefer wins: `a` beats `b` exactly
/// when more ballots prefer `a` over `b` than `b` over `a`, and the matrix reads
/// For, Against or Abstain as the count for `a` is larger, smaller or equal.
pub proof fn law_head_to_head(p: Seq<Seq<usize>>, a: usize, b: usize)
    ensures
        beats(p, a, b) <==> count_prefer(p, a, b) > count_prefer(p, b, a),
        a != b ==> (matrix_entry(p, a, b) == TernaryVote::For <==> count_prefer(p, a, b)
            > count_prefer(p, b, a)),
        a != b ==> (matrix_entry(p, a, b) == TernaryVote::Against <==> count_prefer(p, a, b)
            < count_prefer(p, b, a)),
        a != b ==> (matrix_entry(p, a, b) == TernaryVote::Abstain <==> count_prefer(p, a, b)
            == count_prefer(p, b, a)),
{
}

/// A candidate is the Condorcet winner exactly when, against every other
/// candidate, more ballots prefer it than prefer the other.
pub proof fn law_winner_by_counts(p: Seq<Seq<usize>>, candidates: usize, c: usize)
    ensures
        is_condorcet_winner(p, candidates, c) <==> forall|o: usize|
            o < candidates && o != c ==> #[trigger] count_prefer(p, c, o) > count_prefer(p, o, c),
{
    if is_condorcet_winner(p, candidates, c) {
        assert forall|o: usize| o < candidates && o != c implies #[trigger] count_prefer(p, c, o)
            > count_prefer(p, o, c) by {
            assert(beats(p, c, o));
        }
    }
}

} // verus!
