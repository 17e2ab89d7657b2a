use vstd::prelude::*;

use crate::tally::{VoteTally, law_record_adds_one};
use crate::vote::{TernaryVote, count_votes};

verus! {

// ---------------------------------------------------------------------------
// Delegation chains
// ---------------------------------------------------------------------------

/// The walk along delegations that starts at `current` with `chain` already
/// walked: it stops at a voter who votes directly, at a voter whose delegate
/// is out of range, or at a voter already on the chain (a cycle). It returns
/// the walked chain and the voter where it stopped. `fuel` only bounds the
/// recursion; `n + 1` is always enough (see `lemma_walk_shape`).
pub open spec fn walk(d: Seq<Option<usize>>, current: usize, chain: Seq<usize>, fuel: nat) -> (
    Seq<usize>,
    usize,
)
    decreases fuel,
{
    if fuel == 0 {
        (chain, current)
    } else {
        match d[current as int] {
            Some(t) => if chain.contains(current) || t >= d.len() {
                (chain, current)
            } else {
                walk(d, t, chain.push(current), (fuel - 1) as nat)
            },
            None => (chain, current),
        }
    }
}

/// The voters passed through when following delegations from voter `i`.
pub open spec fn chain_of(d: Seq<Option<usize>>, i: usize) -> Seq<usize> {
    walk(d, i, Seq::empty(), (d.len() + 1) as nat).0
}

/// The voter where following delegations from voter `i` stops.
pub open spec fn end_of(d: Seq<Option<usize>>, i: usize) -> usize {
    walk(d, i, Seq::empty(), (d.len() + 1) as nat).1
}

// ---------------------------------------------------------------------------
// Weights
// ---------------------------------------------------------------------------

/// Number of voters among `0 .. k` whose delegation chain ends at voter `t`.
pub open spec fn ending_at(d: Seq<Option<usize>>, t: usize, k: nat) -> nat
    decreases k,
{
    if k == 0 {
        0
    } else {
        ending_at(d, t, (k - 1) as nat) + if end_of(d, (k - 1) as usize) == t {
            1nat
        } else {
            0nat
        }
    }
}

/// Total weight of the voters on `chain`.
pub open spec fn chain_weight(w: Seq<int>, chain: Seq<usize>) -> int
    decreases chain.len(),
{
    if chain.len() == 0 {
        0
    } else {
        chain_weight(w, chain.drop_last()) + w[chain.last() as int]
    }
}

/// `w` with the weight of every voter on `chain` set to zero.
pub open spec fn zeroed(w: Seq<int>, chain: Seq<usize>) -> Seq<int>
    decreases chain.len(),
{
    if chain.len() == 0 {
        w
    } else {
        zeroed(w, chain.drop_last()).update(chain.last() as int, 0)
    }
}

/// Transfer the weight held by the voters on a chain to the voter where the
/// chain stops. An empty chain changes nothing.
pub open spec fn transfer(w: Seq<int>, chain: Seq<usize>, end: usize) -> Seq<int> {
    if chain.len() == 0 {
        w
    } else {
        let z = zeroed(w, chain);
        z.update(end as int, z[end as int] + chain_weight(w, chain))
    }
}

/// Voter weights after the chains of voters `0 .. k` have been settled in
/// turn, starting from one vote each.
pub open spec fn weights_after(d: Seq<Option<usize>>, k: nat) -> Seq<int>
    decreases k,
{
    if k == 0 {
        Seq::new(d.len(), |v: int| 1int)
    } else {
        let i = (k - 1) as usize;
        transfer(weights_after(d, (k - 1) as nat), chain_of(d, i), end_of(d, i))
    }
}

/// The final weight of every voter.
pub open spec fn final_weights(d: Seq<Option<usize>>) -> Seq<int> {
    weights_after(d, d.len())
}

/// Settling the chain of voter `k` leaves the receiving voter with at most
/// `u32::MAX` votes.
pub open spec fn step_fits(d: Seq<Option<usize>>, k: nat) -> bool {
    let chain = chain_of(d, k as usize);
    let w = weights_after(d, k);
    chain.len() > 0 ==> zeroed(w, chain)[end_of(d, k as usize) as int] + chain_weight(w, chain)
        <= u32::MAX
}

/// No voter ever holds more than `u32::MAX` votes while delegations are
/// resolved (always so with at most `u32::MAX` voters, see
/// `law_fits_small_electorate`).
pub open spec fn resolution_fits(d: Seq<Option<usize>>) -> bool {
    forall|k: nat| k < d.len() ==> #[trigger] step_fits(d, k)
}

/// The entries `(voter, direct vote, weight)` of voters `0 .. k` whose weight
/// is positive, in voter order.
pub open spec fn resolved_upto(dv: Seq<TernaryVote>, w: Seq<int>, k: nat) -> Seq<
    (usize, TernaryVote, u32),
>
    decreases k,
{
    if k == 0 {
        Seq::empty()
    } else {
        let r = resolved_upto(dv, w, (k - 1) as nat);
        let v = k - 1;
        if w[v] > 0 {
            r.push(((v as usize), dv[v], w[v] as u32))
        } else {
            r
        }
    }
}

/// The resolution of a liquid democracy: every voter with positive final
/// weight, with their own direct vote and that weight.
pub open spec fn resolution(d: Seq<Option<usize>>, dv: Seq<TernaryVote>) -> Seq<
    (usize, TernaryVote, u32),
> {
    resolved_upto(dv, final_weights(d), d.len())
}

/// Total weight carried by the entries of `r` that vote `v`.
pub open spec fn weight_for(r: Seq<(usize, TernaryVote, u32)>, v: TernaryVote) -> nat
    decreases r.len(),
{
    if r.len() == 0 {
        0
    } else {
        weight_for(r.drop_last(), v) + if r.last().1 == v {
            r.last().2 as nat
        } else {
            0nat
        }
    }
}

// ---------------------------------------------------------------------------
// Supporting lemmas
// ---------------------------------------------------------------------------

/// A finite set of indices below `n` has at most `n` elements.
proof fn lemma_bounded_set_len(s: Set<usize>, n: nat)
    requires
        s.finite(),
        n <= usize::MAX,
        forall|x: usize| #[trigger] s.contains(x) ==> x < n,
    ensures
        s.len() <= n,
    decreases n,
{
    if n == 0 {
        if s.len() > 0 {
            let x = s.choose();
            assert(s.contains(x));
        }
    } else {
        let top = (n - 1) as usize;
        let rest = s.remove(top);
        lemma_bounded_set_len(rest, (n - 1) as nat);
    }
}

/// A duplicate-free chain of voters below `n` that misses some voter below
/// `n` is shorter than `n`.
proof fn lemma_room_left(chain: Seq<usize>, current: usize, n: nat)
    requires
        chain.no_duplicates(),
        n <= usize::MAX,
        forall|j: int| 0 <= j < chain.len() ==> chain[j] < n,
        current < n,
        !chain.contains(current),
    ensures
        chain.len() < n,
{
    chain.unique_seq_to_set();
    let s = chain.to_set().insert(current);
    assert forall|x: usize| #[trigger] s.contains(x) implies x < n by {
        if x != current {
            assert(chain.to_set().contains(x));
            let j = choose|j: int| 0 <= j < chain.len() && chain[j] == x;
        }
    }
    lemma_bounded_set_len(s, n);
}
/// The weight of a prefix never exceeds the weight of the whole sequence.
proof fn lemma_weight_for_prefix(r: Seq<(usize, TernaryVote, u32)>, k: int, v: TernaryVote)
    requires
        0 <= k <= r.len(),
    ensures
        weight_for(r.take(k), v) <= weight_for(r, v),
    decreases r.len() - k,
{
    if k < r.len() {
        lemma_weight_for_prefix(r, k + 1, v);
        assert(r.take(k + 1).drop_last() =~= r.take(k));
    } else {
        assert(r.take(k) =~= r);
    }
}

/// Zeroing keeps one weight per voter.
proof fn lemma_zeroed_len(w: Seq<int>, c: Seq<usize>)
    requires
        forall|k: int| 0 <= k < c.len() ==> c[k] < w.len(),
    ensures
        zeroed(w, c).len() == w.len(),
    decreases c.len(),
{
    if c.len() > 0 {
        lemma_zeroed_len(w, c.drop_last());
    }
}

/// Zeroing sets the chain's voters to zero and keeps everybody else.
proof fn lemma_zeroed_at(w: Seq<int>, c: Seq<usize>, v: int)
    requires
        forall|k: int| 0 <= k < c.len() ==> c[k] < w.len(),
        0 <= v < w.len(),
        v <= usize::MAX,
    ensures
        zeroed(w, c)[v] == if c.contains(v as usize) { 0 } else { w[v] },
    decreases c.len(),
{
    if c.len() > 0 {
        let c0 = c.drop_last();
        lemma_zeroed_at(w, c0, v);
        lemma_zeroed_len(w, c0);
        if c0.contains(v as usize) {
            let k = choose|k: int| 0 <= k < c0.len() && c0[k] == v as usize;
            assert(c[k] == v as usize);
        }
        if c.contains(v as usize) && v != c.last() as int {
            let k = choose|k: int| 0 <= k < c.len() && c[k] == v as usize;
            assert(k < c.len() - 1);
            assert(c0[k] == v as usize);
        }
    }
}

/// The weight of a prefix of a chain is at most the weight of the chain, and
/// neither is negative, when no weight is negative.
proof fn lemma_chain_weight_prefix(w: Seq<int>, c: Seq<usize>, j: int)
    requires
        0 <= j <= c.len(),
        forall|k: int| 0 <= k < c.len() ==> c[k] < w.len(),
        forall|v: int| 0 <= v < w.len() ==> #[trigger] w[v] >= 0,
    ensures
        0 <= chain_weight(w, c.take(j)) <= chain_weight(w, c),
    decreases c.len() - j,
{
    if j < c.len() {
        lemma_chain_weight_prefix(w, c, j + 1);
        assert(c.take(j + 1).drop_last() =~= c.take(j));
        assert(c.take(j + 1).last() == c[j]);
        assert(w[c[j] as int] >= 0);
        lemma_chain_weight_nonneg(w, c.take(j));
    } else {
        assert(c.take(j) =~= c);
        lemma_chain_weight_nonneg(w, c);
    }
}

proof fn lemma_chain_weight_nonneg(w: Seq<int>, c: Seq<usize>)
    requires
        forall|k: int| 0 <= k < c.len() ==> c[k] < w.len(),
        forall|v: int| 0 <= v < w.len() ==> #[trigger] w[v] >= 0,
    ensures
        chain_weight(w, c) >= 0,
    decreases c.len(),
{
    if c.len() > 0 {
        lemma_chain_weight_nonneg(w, c.drop_last());
        assert(w[c.last() as int] >= 0);
    }
}

/// Weights keep one entry per voter.
proof fn lemma_weights_len(d: Seq<Option<usize>>, k: nat)
    requires
        k <= d.len() <= usize::MAX,
    ensures
        weights_after(d, k).len() == d.len(),
    decreases k,
{
    if k > 0 {
        lemma_weights_len(d, (k - 1) as nat);
        law_chain_shape(d, (k - 1) as usize);
        lemma_zeroed_len(weights_after(d, (k - 1) as nat), chain_of(d, (k - 1) as usize));
    }
}

/// Weights are never negative.
proof fn lemma_weights_nonneg(d: Seq<Option<usize>>, k: nat)
    requires
        k <= d.len() <= usize::MAX,
    ensures
        forall|v: int| 0 <= v < d.len() ==> #[trigger] weights_after(d, k)[v] >= 0,
    decreases k,
{
    lemma_weights_len(d, k);
    if k > 0 {
        let i = (k - 1) as usize;
        let w = weights_after(d, (k - 1) as nat);
        let c = chain_of(d, i);
        lemma_weights_nonneg(d, (k - 1) as nat);
        lemma_weights_len(d, (k - 1) as nat);
        law_chain_shape(d, i);
        lemma_chain_weight_nonneg(w, c);
        lemma_zeroed_len(w, c);
        assert forall|v: int| 0 <= v < d.len() implies #[trigger] weights_after(d, k)[v] >= 0 by {
            lemma_zeroed_at(w, c, v);
            lemma_zeroed_at(w, c, end_of(d, i) as int);
        }
    }
}

/// A vector of `n` copies of `x`.
fn filled<T: Copy>(n: usize, x: T) -> (v: Vec<T>)
    ensures
        v@.len() == n,
        forall|i: int| 0 <= i < n ==> v@[i] == x,
{
    let mut v: Vec<T> = Vec::new();
    let mut k: usize = 0;
    while k < n
        invariant
            k <= n,
            v@.len() == k,
            forall|i: int| 0 <= i < k ==> v@[i] == x,
        decreases n - k,
    {
        v.push(x);
        k += 1;
    }
    v
}

// ---------------------------------------------------------------------------
// Liquid democracy
// ---------------------------------------------------------------------------

/// Liquid democracy with ternary delegation.
#[derive(Debug, Clone)]
pub struct LiquidDemocracy {
    /// For each voter: Some(delegate) or None (votes directly).
    pub delegations: Vec<Option<usize>>,
    pub direct_votes: Vec<TernaryVote>,
}

impl LiquidDemocracy {
    pub fn new(voter_count: usize) -> (r: Self)
        ensures
            r.delegations@ == Seq::new(voter_count as nat, |i: int| None::<usize>),
            r.direct_votes@ == Seq::new(voter_count as nat, |i: int| TernaryVote::Abstain),
    {
        let delegations = filled(voter_count, None);
        let direct_votes = filled(voter_count, TernaryVote::Abstain);
        let r = Self { delegations, direct_votes };
        assert(r.delegations@ =~= Seq::new(voter_count as nat, |i: int| None::<usize>));
        assert(r.direct_votes@ =~= Seq::new(voter_count as nat, |i: int| TernaryVote::Abstain));
        r
    }

    /// Delegate voter's vote to another voter.
    pub fn delegate(&mut self, from: usize, to: usize)
        ensures
            final(self).direct_votes@ == old(self).direct_votes@,
            final(self).delegations@ == if from < old(self).delegations@.len() && to < old(
                self,
            ).delegations@.len() {
                old(self).delegations@.update(from as int, Some(to))
            } else {
                old(self).delegations@
            },
    {
        if from < self.delegations.len() && to < self.delegations.len() {
            self.delegations.set(from, Some(to));
        }
    }

    /// Cast a direct vote (overrides any delegation).
    pub fn vote_direct(&mut self, voter: usize, vote: TernaryVote)
        requires
            voter < old(self).direct_votes@.len() ==> voter < old(self).delegations@.len(),
        ensures
            voter < old(self).direct_votes@.len() ==> {
                &&& final(self).direct_votes@ == old(self).direct_votes@.update(voter as int, vote)
                &&& final(self).delegations@ == old(self).delegations@.update(voter as int, None)
            },
            voter >= old(self).direct_votes@.len() ==> *final(self) == *old(self),
    {
        if voter < self.direct_votes.len() {
            self.direct_votes.set(voter, vote);
            self.delegations.set(voter, None);
        }
    }

    /// Resolve delegations and compute final result.
    /// Returns effective vote weight per voter.
    ///
    /// Voters are settled in index order: the delegation chain of each voter
    /// is followed until a voter who votes directly, a delegate out of range,
    /// or a voter already on the chain (a cycle), and the weight held by the
    /// voters of the chain is transferred to the voter where it stops. Every
    /// vote is counted once (`law_each_vote_counted_once`); with acyclic
    /// delegations it ends at the voter where its chain stops
    /// (`law_acyclic_weights`), and the weight of a delegation cycle goes to the
    /// cycle member settled last.
    pub fn resolve(&self) -> (r: Vec<(usize, TernaryVote, u32)>)
        requires
            self.delegations@.len() <= self.direct_votes@.len(),
            resolution_fits(self.delegations@),
        ensures
            r@ == resolution(self.delegations@, self.direct_votes@),
    {
        broadcast use vstd::seq_lib::group_seq_properties;

        let ghost d = self.delegations@;
        let n = self.delegations.len();
        let mut weight = filled(n, 1u32);
        proof {
            assert(weights_after(d, 0) =~= Seq::new(n as nat, |v: int| 1int));
        }

        // Resolve delegation chains
        let mut i: usize = 0;
        while i < n
            invariant
                n == d.len(),
                d == self.delegations@,
                resolution_fits(d),
                i <= n,
                weight@.len() == n,
                weights_after(d, i as nat).len() == n,
                forall|v: int| 0 <= v < n ==> weight@[v] as int == #[trigger] weights_after(d, i as nat)[v],
            decreases n - i,
        {
            let ghost w_prev = weights_after(d, i as nat);
            let mut visited = filled(n, false);
            let mut current = i;
            let mut chain: Vec<usize> = Vec::new();

            loop
                invariant
                    n == d.len(),
                    d == self.delegations@,
                    i < n,
                    current < n,
                    visited@.len() == n,
                    forall|v: int| 0 <= v < n ==> (visited@[v] <==> chain@.contains(v as usize)),
                    chain@.no_duplicates(),
                    forall|j: int| 0 <= j < chain@.len() ==> chain@[j] < n,
                    chain@.len() <= n,
                    walk(d, i, Seq::empty(), (n + 1) as nat) == walk(
                        d,
                        current,
                        chain@,
                        (n + 1 - chain@.len()) as nat,
                    ),
                ensures
                    walk(d, i, Seq::empty(), (n + 1) as nat) == (chain@, current),
                decreases n + 1 - chain@.len(),
            {
                match self.delegations[current] {
                    Some(delegate) => {
                        if visited[current] || delegate >= n {
                            break;
                        }
                        proof {
                            lemma_room_left(chain@, current, n as nat);
                        }
                        let ghost old_chain = chain@;
                        visited.set(current, true);
                        chain.push(current);
                        proof {
                            assert forall|v: int| 0 <= v < n implies (visited@[v]
                                <==> chain@.contains(v as usize)) by {
                                if v == current as int {
                                    assert(chain@[old_chain.len() as int] == current);
                                } else {
                                    if old_chain.contains(v as usize) {
                                        let j = choose|j: int| 0 <= j < old_chain.len() && #[trigger] old_chain[j] == v as usize;
                                        assert(chain@[j] == v as usize);
                                    }
                                    if chain@.contains(v as usize) {
                                        let j = choose|j: int| 0 <= j < chain@.len() && chain@[j] == v as usize;
                                        assert(j < old_chain.len());
                                        assert(old_chain[j] == v as usize);
                                    }
                                }
                            }
                        }
                        current = delegate;
                    },
                    None => {
                        break;
                    },
                }
            }

            // Transfer the weight of the chain to the voter where it stops
            if chain.len() > 0 {
                proof {
                    assert(step_fits(d, i as nat));
                    assert(((i as nat) as usize) == i);
                    assert(chain@ == chain_of(d, i));
                    assert(current == end_of(d, i));
                    lemma_weights_nonneg(d, i as nat);
                    lemma_chain_weight_prefix(w_prev, chain@, chain@.len() as int);
                    lemma_zeroed_at(w_prev, chain@, current as int);
                    assert(chain@.take(0) =~= Seq::<usize>::empty());
                }
                let mut moved: u32 = 0;
                let mut j: usize = 0;
                while j < chain.len()
                    invariant
                        n == d.len(),
                        weight@.len() == n,
                        w_prev.len() == n,
                        forall|v: int| 0 <= v < n ==> #[trigger] w_prev[v] >= 0,
                        j <= chain@.len(),
                        chain@.no_duplicates(),
                        forall|k: int| 0 <= k < chain@.len() ==> chain@[k] < n,
                        zeroed(w_prev, chain@.take(j as int)).len() == n,
                        forall|v: int|
                            0 <= v < n ==> weight@[v] as int == #[trigger] zeroed(
                                w_prev,
                                chain@.take(j as int),
                            )[v],
                        moved == chain_weight(w_prev, chain@.take(j as int)),
                        chain_weight(w_prev, chain@) <= u32::MAX,
                    decreases chain@.len() - j,
                {
                    let voter = chain[j];
                    proof {
                        let pre = chain@.take(j as int);
                        let post = chain@.take(j + 1);
                        assert(post.drop_last() =~= pre);
                        assert(post.last() == voter);
                        assert(!pre.contains(voter)) by {
                            if pre.contains(voter) {
                                let t = choose|t: int| 0 <= t < pre.len() && pre[t] == voter;
                                assert(chain@[t] == chain@[j as int]);
                            }
                        }
                        lemma_zeroed_at(w_prev, pre, voter as int);
                        lemma_chain_weight_prefix(w_prev, chain@, j + 1);
                        lemma_zeroed_len(w_prev, post);
                    }
                    moved = moved + weight[voter];
                    weight.set(voter, 0);
                    j += 1;
                }
                proof {
                    assert(chain@.take(chain@.len() as int) =~= chain@);
                }
                weight.set(current, weight[current] + moved);
            }
            proof {
                assert forall|v: int| 0 <= v < n implies weight@[v] as int == #[trigger] weights_after(
                    d,
                    (i + 1) as nat,
                )[v] by {
                    assert(((i + 1 - 1) as usize) == i);
                }
                lemma_weights_len(d, (i + 1) as nat);
            }
            i += 1;
        }

        // Collect the voters that received at least one vote
        let ghost w_final = final_weights(d);
        let mut out: Vec<(usize, TernaryVote, u32)> = Vec::new();
        let mut k: usize = 0;
        while k < n
            invariant
                n == d.len(),
                n <= self.direct_votes@.len(),
                k <= n,
                weight@.len() == n,
                w_final.len() == n,
                forall|v: int| 0 <= v < n ==> weight@[v] as int == w_final[v],
                out@ == resolved_upto(self.direct_votes@, w_final, k as nat),
            decreases n - k,
        {
            if weight[k] > 0 {
                out.push((k, self.direct_votes[k], weight[k]));
            }
            k += 1;
        }
        out
    }

    /// Compute the final tally.
    pub fn final_tally(&self) -> (t: VoteTally)
        requires
            self.delegations@.len() <= self.direct_votes@.len(),
            resolution_fits(self.delegations@),
        ensures
            forall|v: TernaryVote|
                #[trigger] t.count_of(v) == weight_for(
                    resolution(self.delegations@, self.direct_votes@),
                    v,
                ),
    {
        let resolved = self.resolve();
        let ghost r = resolved@;
        let n = self.delegations.len();
        proof {
            law_each_vote_counted_once(self.delegations@, self.direct_votes@);
        }
        let mut tally = VoteTally::new();
        let mut k: usize = 0;
        while k < resolved.len()
            invariant
                r == resolved@,
                k <= r.len(),
                forall|v: TernaryVote| #[trigger] weight_for(r, v) <= usize::MAX,
                forall|v: TernaryVote|
                    #[trigger] tally.count_of(v) == weight_for(r.take(k as int), v),
            decreases r.len() - k,
        {
            let (_, vote, weight) = resolved[k];
            proof {
                assert(r.take(k + 1).drop_last() =~= r.take(k as int));
                lemma_weight_for_prefix(r, k + 1, vote);
            }
            let ghost before = tally;
            let mut c: u32 = 0;
            while c < weight
                invariant
                    c <= weight,
                    forall|v: TernaryVote|
                        #[trigger] tally.count_of(v) == before.count_of(v) + if v == vote {
                            c as int
                        } else {
                            0
                        },
                    before.count_of(vote) + weight <= usize::MAX,
                decreases weight - c,
            {
                let ghost prev = tally;
                proof {
                    law_record_adds_one(tally, vote);
                }
                tally.record(vote);
                c += 1;
                proof {
                    assert forall|v: TernaryVote| #[trigger] tally.count_of(v) == before.count_of(v) + if v == vote {
                        c as int
                    } else {
                        0
                    } by {
                        assert(prev.count_of(v) == before.count_of(v) + if v == vote { (c - 1) as int } else { 0 });
                        if v != vote {
                            assert(tally.count_of(v) == prev.count_of(v));
                        }
                    }
                }
            }
            k += 1;
        }
        proof {
            assert(r.take(r.len() as int) =~= r);
        }
        tally
    }
}

// ---------------------------------------------------------------------------
// Laws
// ---------------------------------------------------------------------------

/// Each voter of `c` delegates, validly, to the next voter of `c`, and the last
/// one to `e`.
pub open spec fn follows(d: Seq<Option<usize>>, c: Seq<usize>, e: usize) -> bool {
    forall|k: int|
        0 <= k < c.len() ==> d[#[trigger] c[k] as int] == Some(
            if k + 1 < c.len() {
                c[k + 1]
            } else {
                e
            },
        )
}

/// Where a walk stops: the voter votes directly, delegates out of range, or
/// is already on the chain.
pub open spec fn stops_at(d: Seq<Option<usize>>, c: Seq<usize>, e: usize) -> bool {
    match d[e as int] {
        None => true,
        Some(t) => t >= d.len() || c.contains(e),
    }
}

/// Voters below `n` only, none twice.
pub open spec fn simple_chain(c: Seq<usize>, n: nat) -> bool {
    &&& c.no_duplicates()
    &&& forall|k: int| 0 <= k < c.len() ==> #[trigger] c[k] < n
}

/// The shape of a walk with enough fuel: it extends the chain it started
/// with into a simple chain of valid delegations and stops where it must.
proof fn lemma_walk(d: Seq<Option<usize>>, cur: usize, chain: Seq<usize>, fuel: nat)
    requires
        d.len() <= usize::MAX,
        cur < d.len(),
        simple_chain(chain, d.len()),
        follows(d, chain, cur),
        chain.len() + fuel > d.len(),
    ensures
        ({
            let (c, e) = walk(d, cur, chain, fuel);
            &&& chain.len() <= c.len() <= d.len()
            &&& c.take(chain.len() as int) == chain
            &&& simple_chain(c, d.len())
            &&& e < d.len()
            &&& follows(d, c, e)
            &&& stops_at(d, c, e)
        }),
    decreases fuel,
{
    let n = d.len();
    chain.unique_seq_to_set();
    assert forall|x: usize| #[trigger] chain.to_set().contains(x) implies x < n by {
        let j = choose|j: int| 0 <= j < chain.len() && chain[j] == x;
        assert(chain[j] < n);
    }
    lemma_bounded_set_len(chain.to_set(), n);
    assert(chain.take(chain.len() as int) =~= chain);
    match d[cur as int] {
        Some(t) => {
            if !(chain.contains(cur) || t >= n) {
                let next = chain.push(cur);
                lemma_room_left(chain, cur, n);
                assert(next.no_duplicates()) by {
                    assert forall|a: int, b: int| 0 <= a < b < next.len() implies next[a] != next[b] by {
                        if b == chain.len() {
                            assert(chain[a] == next[a]);
                        }
                    }
                }
                assert forall|k: int| 0 <= k < next.len() implies d[#[trigger] next[k] as int] == Some(
                    if k + 1 < next.len() { next[k + 1] } else { t },
                ) by {
                    if k < chain.len() {
                        assert(next[k] == chain[k]);
                        assert(d[chain[k] as int] == Some(if k + 1 < chain.len() { chain[k + 1] } else { cur }));
                    }
                }
                lemma_walk(d, t, next, (fuel - 1) as nat);
                let c = walk(d, t, next, (fuel - 1) as nat).0;
                assert(c.take(chain.len() as int) =~= next.take(chain.len() as int));
                assert(next.take(chain.len() as int) =~= chain);
            }
        },
        None => {},
    }
}

/// Every delegation chain is simple (no voter twice, so cycles are broken),
/// consists of voters that delegate validly to the next one, and ends at a
/// voter in range where following delegations must stop.
pub proof fn law_chain_shape(d: Seq<Option<usize>>, i: usize)
    requires
        i < d.len() <= usize::MAX,
    ensures
        simple_chain(chain_of(d, i), d.len()),
        chain_of(d, i).len() <= d.len(),
        end_of(d, i) < d.len(),
        follows(d, chain_of(d, i), end_of(d, i)),
        stops_at(d, chain_of(d, i), end_of(d, i)),
{
    lemma_walk(d, i, Seq::empty(), (d.len() + 1) as nat);
}

/// The entries of `resolved_upto` are exactly the voters below `k` with
/// positive weight, each with its direct vote and weight.
proof fn lemma_resolved_entries(dv: Seq<TernaryVote>, w: Seq<int>, k: nat)
    requires
        k <= usize::MAX,
    ensures
        forall|x: int|
            0 <= x < resolved_upto(dv, w, k).len() ==> {
                let e = #[trigger] resolved_upto(dv, w, k)[x];
                &&& e.0 < k
                &&& w[e.0 as int] > 0
                &&& e.1 == dv[e.0 as int]
                &&& e.2 == w[e.0 as int] as u32
            },
        forall|x: int, y: int|
            0 <= x < y < resolved_upto(dv, w, k).len() ==> (#[trigger] resolved_upto(dv, w, k)[x]).0
                < (#[trigger] resolved_upto(dv, w, k)[y]).0,
        forall|i: int|
            0 <= i < k && w[i] > 0 ==> #[trigger] resolved_upto(dv, w, k).contains(
                ((i as usize), dv[i], w[i] as u32),
            ),
    decreases k,
{
    if k > 0 {
        lemma_resolved_entries(dv, w, (k - 1) as nat);
        let r = resolved_upto(dv, w, (k - 1) as nat);
        let full = resolved_upto(dv, w, k);
        assert forall|x: int| 0 <= x < full.len() implies {
            let e = #[trigger] full[x];
            &&& e.0 < k
            &&& w[e.0 as int] > 0
            &&& e.1 == dv[e.0 as int]
            &&& e.2 == w[e.0 as int] as u32
        } by {
            if x < r.len() {
                assert(full[x] == r[x]);
            }
        }
        assert forall|x: int, y: int| 0 <= x < y < full.len() implies (#[trigger] full[x]).0
            < (#[trigger] full[y]).0 by {
            assert(full[x] == r[x]);
            if y < r.len() {
                assert(full[y] == r[y]);
            }
        }
        assert forall|i: int|
            0 <= i < k && w[i] > 0 implies #[trigger] resolved_upto(dv, w, k).contains(
            ((i as usize), dv[i], w[i] as u32),
        ) by {
            if i < k - 1 {
                assert(r.contains(((i as usize), dv[i], w[i] as u32)));
                let x = choose|x: int| 0 <= x < r.len() && r[x] == ((i as usize), dv[i], w[i] as u32);
                assert(resolved_upto(dv, w, k)[x] == r[x]);
            } else {
                let full = resolved_upto(dv, w, k);
                assert(full[full.len() - 1] == ((i as usize), dv[i], w[i] as u32));
            }
        }
    }
}


/// Sum of a sequence of integers.
pub open spec fn seq_sum(w: Seq<int>) -> int
    decreases w.len(),
{
    if w.len() == 0 {
        0
    } else {
        seq_sum(w.drop_last()) + w.last()
    }
}


/// Changing one entry changes the sum by the difference.
proof fn lemma_seq_sum_update(w: Seq<int>, i: int, x: int)
    requires
        0 <= i < w.len(),
    ensures
        seq_sum(w.update(i, x)) == seq_sum(w) - w[i] + x,
    decreases w.len(),
{
    let u = w.update(i, x);
    if i == w.len() - 1 {
        assert(u.drop_last() =~= w.drop_last());
    } else {
        lemma_seq_sum_update(w.drop_last(), i, x);
        assert(u.drop_last() =~= w.drop_last().update(i, x));
    }
}

/// An entry of a sequence without negative entries is at most its sum.
proof fn lemma_entry_le_sum(w: Seq<int>, i: int)
    requires
        0 <= i < w.len(),
        forall|v: int| 0 <= v < w.len() ==> #[trigger] w[v] >= 0,
    ensures
        w[i] <= seq_sum(w),
    decreases w.len(),
{
    lemma_sum_nonneg(w.drop_last());
    if i < w.len() - 1 {
        lemma_entry_le_sum(w.drop_last(), i);
    }
}

proof fn lemma_sum_nonneg(w: Seq<int>)
    requires
        forall|v: int| 0 <= v < w.len() ==> #[trigger] w[v] >= 0,
    ensures
        seq_sum(w) >= 0,
    decreases w.len(),
{
    if w.len() > 0 {
        lemma_sum_nonneg(w.drop_last());
        assert(w[w.len() - 1] >= 0);
    }
}

/// Zeroing a chain of distinct voters removes exactly the chain's weight.
proof fn lemma_zeroed_sum(w: Seq<int>, c: Seq<usize>)
    requires
        w.len() <= usize::MAX,
        c.no_duplicates(),
        forall|k: int| 0 <= k < c.len() ==> c[k] < w.len(),
    ensures
        seq_sum(zeroed(w, c)) == seq_sum(w) - chain_weight(w, c),
    decreases c.len(),
{
    if c.len() > 0 {
        let c0 = c.drop_last();
        let l = c.last();
        assert(c0.no_duplicates());
        lemma_zeroed_sum(w, c0);
        lemma_zeroed_len(w, c0);
        assert(!c0.contains(l)) by {
            if c0.contains(l) {
                let k = choose|k: int| 0 <= k < c0.len() && c0[k] == l;
                assert(c[k] == c[c.len() - 1]);
            }
        }
        lemma_zeroed_at(w, c0, l as int);
        lemma_seq_sum_update(zeroed(w, c0), l as int, 0);
    }
}

/// Transferring a chain's weight keeps the total weight.
proof fn lemma_transfer_sum(w: Seq<int>, c: Seq<usize>, e: usize)
    requires
        w.len() <= usize::MAX,
        c.no_duplicates(),
        forall|k: int| 0 <= k < c.len() ==> c[k] < w.len(),
        e < w.len(),
    ensures
        seq_sum(transfer(w, c, e)) == seq_sum(w),
        transfer(w, c, e).len() == w.len(),
{
    lemma_zeroed_len(w, c);
    if c.len() > 0 {
        lemma_zeroed_sum(w, c);
        let z = zeroed(w, c);
        lemma_seq_sum_update(z, e as int, z[e as int] + chain_weight(w, c));
    }
}

proof fn lemma_ones_sum(m: nat)
    ensures
        seq_sum(Seq::new(m, |v: int| 1int)) == m,
    decreases m,
{
    if m > 0 {
        lemma_ones_sum((m - 1) as nat);
        assert(Seq::new(m, |v: int| 1int).drop_last() =~= Seq::new((m - 1) as nat, |v: int| 1int));
    }
}

/// Settling chains never creates or destroys votes: the weights always add up
/// to the number of voters.
proof fn lemma_weights_sum(d: Seq<Option<usize>>, k: nat)
    requires
        k <= d.len() <= usize::MAX,
    ensures
        seq_sum(weights_after(d, k)) == d.len(),
    decreases k,
{
    if k == 0 {
        lemma_ones_sum(d.len());
    } else {
        let i = (k - 1) as usize;
        lemma_weights_sum(d, (k - 1) as nat);
        lemma_weights_len(d, (k - 1) as nat);
        law_chain_shape(d, i);
        lemma_transfer_sum(weights_after(d, (k - 1) as nat), chain_of(d, i), end_of(d, i));
    }
}

/// Under `resolution_fits`, every weight stays within `u32`.
proof fn lemma_weights_bounded(d: Seq<Option<usize>>, k: nat)
    requires
        k <= d.len() <= usize::MAX,
        resolution_fits(d),
    ensures
        forall|v: int| 0 <= v < d.len() ==> 0 <= #[trigger] weights_after(d, k)[v] <= u32::MAX,
    decreases k,
{
    lemma_weights_len(d, k);
    lemma_weights_nonneg(d, k);
    if k > 0 {
        let i = (k - 1) as usize;
        let w = weights_after(d, (k - 1) as nat);
        let c = chain_of(d, i);
        lemma_weights_bounded(d, (k - 1) as nat);
        lemma_weights_len(d, (k - 1) as nat);
        law_chain_shape(d, i);
        lemma_zeroed_len(w, c);
        assert(step_fits(d, (k - 1) as nat));
        assert forall|v: int| 0 <= v < d.len() implies #[trigger] weights_after(d, k)[v] <= u32::MAX by {
            lemma_zeroed_at(w, c, v);
        }
    }
}

/// With at most `u32::MAX` voters, no voter can ever hold more votes than a
/// `u32` holds, so `resolve` and `final_tally` accept every delegation.
pub proof fn law_fits_small_electorate(d: Seq<Option<usize>>)
    requires
        d.len() <= u32::MAX,
    ensures
        resolution_fits(d),
{
    assert forall|k: nat| k < d.len() implies #[trigger] step_fits(d, k) by {
        let i = k as usize;
        let w = weights_after(d, k);
        let c = chain_of(d, i);
        let e = end_of(d, i);
        law_chain_shape(d, i);
        lemma_weights_len(d, k);
        lemma_weights_len(d, k + 1);
        lemma_weights_nonneg(d, k + 1);
        lemma_weights_sum(d, k + 1);
        assert(((k + 1 - 1) as usize) == i);
        if c.len() > 0 {
            lemma_zeroed_len(w, c);
            lemma_entry_le_sum(weights_after(d, k + 1), e as int);
        }
    }
}

/// The summed weights of the entries of `resolved_upto` are the summed weights
/// of voters `0 .. k`.
proof fn lemma_resolved_sum(dv: Seq<TernaryVote>, w: Seq<int>, k: nat)
    requires
        k <= w.len(),
        k <= usize::MAX,
        forall|v: int| 0 <= v < w.len() ==> 0 <= #[trigger] w[v] <= u32::MAX,
    ensures
        weight_for(resolved_upto(dv, w, k), TernaryVote::For) + weight_for(
            resolved_upto(dv, w, k),
            TernaryVote::Against,
        ) + weight_for(resolved_upto(dv, w, k), TernaryVote::Abstain) == seq_sum(
            w.take(k as int),
        ),
    decreases k,
{
    if k > 0 {
        lemma_resolved_sum(dv, w, (k - 1) as nat);
        assert(w.take(k as int).drop_last() =~= w.take(k - 1));
        let r = resolved_upto(dv, w, (k - 1) as nat);
        let full = resolved_upto(dv, w, k);
        if w[k - 1] > 0 {
            assert(full.drop_last() =~= r);
        }
    } else {
        assert(w.take(0) =~= Seq::<int>::empty());
    }
}


/// Each vote is counted exactly once: for any delegations (cycles included)
/// the final weights of all voters add up to the number of voters, and so do
/// the weights in the resolution, which bounds every count of the tally.
pub proof fn law_each_vote_counted_once(d: Seq<Option<usize>>, dv: Seq<TernaryVote>)
    requires
        d.len() <= dv.len(),
        d.len() <= usize::MAX,
        resolution_fits(d),
    ensures
        seq_sum(final_weights(d)) == d.len(),
        weight_for(resolution(d, dv), TernaryVote::For) + weight_for(
            resolution(d, dv),
            TernaryVote::Against,
        ) + weight_for(resolution(d, dv), TernaryVote::Abstain) == d.len(),
        forall|v: TernaryVote| #[trigger] weight_for(resolution(d, dv), v) <= d.len(),
{
    let n = d.len();
    let w = final_weights(d);
    lemma_weights_sum(d, n);
    lemma_weights_len(d, n);
    lemma_weights_bounded(d, n);
    assert(w.take(n as int) =~= w);
    lemma_resolved_sum(dv, w, n);
}

/// The resolution is well formed: voters appear in increasing order, each in
/// range, with their own direct vote and the weight they gathered, which is at
/// least one; every voter who votes directly appears.
pub proof fn law_resolution_well_formed(d: Seq<Option<usize>>, dv: Seq<TernaryVote>)
    requires
        d.len() <= dv.len(),
        d.len() <= usize::MAX,
        resolution_fits(d),
    ensures
        forall|x: int, y: int|
            0 <= x < y < resolution(d, dv).len() ==> (#[trigger] resolution(d, dv)[x]).0 < (
            #[trigger] resolution(d, dv)[y]).0,
        forall|x: int|
            0 <= x < resolution(d, dv).len() ==> {
                let e = #[trigger] resolution(d, dv)[x];
                &&& e.0 < d.len()
                &&& e.1 == dv[e.0 as int]
                &&& e.2 >= 1
                &&& e.2 == final_weights(d)[e.0 as int]
            },
        forall|t: int|
            0 <= t < d.len() && d[t] is None ==> exists|x: int|
                0 <= x < resolution(d, dv).len() && (#[trigger] resolution(d, dv)[x]).0 == t,
{
    let n = d.len();
    let w = final_weights(d);
    lemma_resolved_entries(dv, w, n);
    lemma_weights_bounded(d, n);
    let r = resolution(d, dv);
    assert forall|x: int| 0 <= x < r.len() implies {
        let e = #[trigger] r[x];
        &&& e.0 < d.len()
        &&& e.1 == dv[e.0 as int]
        &&& e.2 >= 1
        &&& e.2 == final_weights(d)[e.0 as int]
    } by {
        let e = r[x];
        assert(0 <= w[e.0 as int] <= u32::MAX);
    }
    assert forall|t: int| 0 <= t < d.len() && d[t] is None implies exists|x: int|
        0 <= x < r.len() && (#[trigger] r[x]).0 == t by {
        law_direct_voter_counts(d, dv, t as usize);
        let x = choose|x: int| 0 <= x < r.len() && r[x] == ((t as usize), dv[t], w[t] as u32);
        assert(r[x].0 == t);
    }
}


/// A voter who votes directly is on no delegation chain.
proof fn lemma_direct_voter_off_chains(d: Seq<Option<usize>>, v: usize, i: usize)
    requires
        i < d.len() <= usize::MAX,
        v < d.len(),
        d[v as int] is None,
    ensures
        !chain_of(d, i).contains(v),
{
    law_chain_shape(d, i);
    let c = chain_of(d, i);
    if c.contains(v) {
        let k = choose|k: int| 0 <= k < c.len() && c[k] == v;
        assert(d[c[k] as int] is Some);
    }
}

/// A voter on no chain never loses weight.
proof fn lemma_weight_kept(d: Seq<Option<usize>>, v: usize, k: nat)
    requires
        k <= d.len() <= usize::MAX,
        v < d.len(),
        forall|i: usize| i < d.len() ==> !#[trigger] chain_of(d, i).contains(v),
    ensures
        weights_after(d, k)[v as int] >= 1,
    decreases k,
{
    if k > 0 {
        let i = (k - 1) as usize;
        let w = weights_after(d, (k - 1) as nat);
        let c = chain_of(d, i);
        lemma_weight_kept(d, v, (k - 1) as nat);
        lemma_weights_len(d, (k - 1) as nat);
        lemma_weights_nonneg(d, (k - 1) as nat);
        law_chain_shape(d, i);
        assert(!c.contains(v));
        lemma_zeroed_len(w, c);
        lemma_zeroed_at(w, c, v as int);
        lemma_chain_weight_nonneg(w, c);
    }
}

/// A voter who votes directly keeps their own vote: they appear in the
/// resolution with weight at least one.
pub proof fn law_direct_voter_counts(d: Seq<Option<usize>>, dv: Seq<TernaryVote>, v: usize)
    requires
        d.len() <= dv.len(),
        d.len() <= usize::MAX,
        v < d.len(),
        d[v as int] is None,
        resolution_fits(d),
    ensures
        end_of(d, v) == v,
        final_weights(d)[v as int] >= 1,
        resolution(d, dv).contains((v, dv[v as int], final_weights(d)[v as int] as u32)),
        final_weights(d)[v as int] as u32 >= 1,
{
    let n = d.len();
    assert(end_of(d, v) == v);
    assert forall|i: usize| i < n implies !#[trigger] chain_of(d, i).contains(v) by {
        lemma_direct_voter_off_chains(d, v, i);
    }
    lemma_weight_kept(d, v, n);
    lemma_weights_bounded(d, n);
    lemma_resolved_entries(dv, final_weights(d), n);
    let w = final_weights(d);
    assert(w[v as int] > 0);
    assert(resolved_upto(dv, w, n).contains((((v as int) as usize), dv[v as int], w[v as int] as u32)));
}

/// The chain of `j` contains `j` itself when `j` delegates to a voter in range.
proof fn lemma_chain_starts_at(d: Seq<Option<usize>>, j: usize, t: usize)
    requires
        d.len() <= usize::MAX,
        j < d.len(),
        t < d.len(),
        d[j as int] == Some(t),
    ensures
        chain_of(d, j).contains(j),
{
    let n = d.len();
    assert(walk(d, j, Seq::empty(), (n + 1) as nat) == walk(d, t, seq![j], n));
    assert(follows(d, seq![j], t));
    assert(simple_chain(seq![j], n));
    lemma_walk(d, t, seq![j], n);
    assert(chain_of(d, j).take(1)[0] == j);
}

/// Once on a chain, a voter at whom no chain ends keeps weight zero.
proof fn lemma_weight_stays_zero(d: Seq<Option<usize>>, j: usize, k: nat)
    requires
        j < k <= d.len() <= usize::MAX,
        chain_of(d, j).contains(j),
        forall|i: usize| i < d.len() ==> #[trigger] end_of(d, i) != j,
    ensures
        weights_after(d, k)[j as int] == 0,
    decreases k,
{
    let i = (k - 1) as usize;
    let w = weights_after(d, (k - 1) as nat);
    let c = chain_of(d, i);
    lemma_weights_len(d, (k - 1) as nat);
    law_chain_shape(d, i);
    lemma_zeroed_len(w, c);
    lemma_zeroed_at(w, c, j as int);
    if k > j + 1 {
        lemma_weight_stays_zero(d, j, (k - 1) as nat);
    }
    assert(end_of(d, i) != j);
}

/// A voter who delegates to a voter in range and at whom no chain ends hands
/// over their vote: weight zero, left out of the resolution.
proof fn lemma_unreached_drops_out(d: Seq<Option<usize>>, dv: Seq<TernaryVote>, j: usize, t: usize)
    requires
        d.len() <= usize::MAX,
        j < d.len(),
        t < d.len(),
        d[j as int] == Some(t),
        forall|i: usize| i < d.len() ==> #[trigger] end_of(d, i) != j,
    ensures
        final_weights(d)[j as int] == 0,
        forall|x: int|
            0 <= x < resolution(d, dv).len() ==> (#[trigger] resolution(d, dv)[x]).0 != j,
{
    lemma_chain_starts_at(d, j, t);
    lemma_weight_stays_zero(d, j, d.len());
    lemma_resolved_entries(dv, final_weights(d), d.len());
}

/// Delegations are acyclic when every chain stops at a voter who votes for
/// themselves (no delegation, or a delegate out of range).
pub open spec fn acyclic(d: Seq<Option<usize>>) -> bool {
    forall|i: usize|
        i < d.len() ==> match d[#[trigger] end_of(d, i) as int] {
            None => true,
            Some(x) => x >= d.len(),
        }
}


/// With acyclic delegations, a voter who delegates to a voter in range hands
/// over their vote: they end with weight zero and are left out of the
/// resolution.
pub proof fn law_acyclic_delegator_drops_out(
    d: Seq<Option<usize>>,
    dv: Seq<TernaryVote>,
    j: usize,
    t: usize,
)
    requires
        d.len() <= usize::MAX,
        acyclic(d),
        j < d.len(),
        t < d.len(),
        d[j as int] == Some(t),
    ensures
        final_weights(d)[j as int] == 0,
        forall|x: int|
            0 <= x < resolution(d, dv).len() ==> (#[trigger] resolution(d, dv)[x]).0 != j,
{
    assert forall|i: usize| i < d.len() implies #[trigger] end_of(d, i) != j by {
        if end_of(d, i) == j {
            assert(match d[end_of(d, i) as int] {
                None => true,
                Some(x) => x >= d.len(),
            });
        }
    }
    lemma_unreached_drops_out(d, dv, j, t);
}

/// A voter who delegates to a voter who votes directly hands over their vote
/// (whatever the rest of the delegations): weight zero, left out of the
/// resolution.
pub proof fn law_delegator_drops_out(
    d: Seq<Option<usize>>,
    dv: Seq<TernaryVote>,
    j: usize,
    t: usize,
)
    requires
        d.len() <= usize::MAX,
        j < d.len(),
        t < d.len(),
        d[j as int] == Some(t),
        d[t as int] is None,
    ensures
        final_weights(d)[j as int] == 0,
        forall|x: int|
            0 <= x < resolution(d, dv).len() ==> (#[trigger] resolution(d, dv)[x]).0 != j,
{
    let n = d.len();
    assert forall|i: usize| i < n implies #[trigger] end_of(d, i) != j by {
        law_chain_shape(d, i);
        let c = chain_of(d, i);
        let e = end_of(d, i);
        if e == j {
            let k = choose|k: int| 0 <= k < c.len() && c[k] == j;
            assert(d[c[k] as int] == Some(if k + 1 < c.len() { c[k + 1] } else { e }));
            if k + 1 < c.len() {
                assert(d[c[k + 1] as int] is Some);
            }
        }
    }
    lemma_unreached_drops_out(d, dv, j, t);
}

/// With no delegations at all, everybody keeps weight one and the resolution
/// lists every voter with their direct vote.
pub proof fn law_no_delegation_resolution(d: Seq<Option<usize>>, dv: Seq<TernaryVote>)
    requires
        d.len() <= dv.len(),
        d.len() <= usize::MAX,
        forall|i: int| 0 <= i < d.len() ==> #[trigger] d[i] is None,
    ensures
        forall|v: int| 0 <= v < d.len() ==> #[trigger] final_weights(d)[v] == 1,
        resolution(d, dv) == Seq::new(d.len(), |i: int| ((i as usize), dv[i], 1u32)),
{
    lemma_ones(d, d.len());
    lemma_resolved_ones(dv, final_weights(d), d.len());
}

proof fn lemma_ones(d: Seq<Option<usize>>, k: nat)
    requires
        k <= d.len() <= usize::MAX,
        forall|i: int| 0 <= i < d.len() ==> #[trigger] d[i] is None,
    ensures
        weights_after(d, k) == Seq::new(d.len(), |v: int| 1int),
    decreases k,
{
    if k > 0 {
        lemma_ones(d, (k - 1) as nat);
        let i = (k - 1) as usize;
        assert(d[i as int] is None);
        assert(chain_of(d, i).len() == 0);
    } else {
        assert(weights_after(d, 0) =~= Seq::new(d.len(), |v: int| 1int));
    }
}

proof fn lemma_resolved_ones(dv: Seq<TernaryVote>, w: Seq<int>, k: nat)
    requires
        k <= w.len(),
        forall|v: int| 0 <= v < w.len() ==> #[trigger] w[v] == 1,
    ensures
        resolved_upto(dv, w, k) == Seq::new(k, |i: int| ((i as usize), dv[i], 1u32)),
    decreases k,
{
    if k > 0 {
        lemma_resolved_ones(dv, w, (k - 1) as nat);
        assert(w[k - 1] == 1);
        assert(resolved_upto(dv, w, k) =~= Seq::new(k, |i: int| ((i as usize), dv[i], 1u32)));
    } else {
        assert(resolved_upto(dv, w, k) =~= Seq::new(k, |i: int| ((i as usize), dv[i], 1u32)));
    }
}

/// With no delegations, the final tally counts each direct vote once.
pub proof fn law_no_delegation_tally(d: Seq<Option<usize>>, dv: Seq<TernaryVote>, v: TernaryVote)
    requires
        d.len() == dv.len(),
        d.len() <= usize::MAX,
        forall|i: int| 0 <= i < d.len() ==> #[trigger] d[i] is None,
    ensures
        weight_for(resolution(d, dv), v) == count_votes(dv, v),
{
    law_no_delegation_resolution(d, dv);
    lemma_unit_rows_weight(dv, dv.len(), v);
    assert(dv.take(dv.len() as int) =~= dv);
}

proof fn lemma_unit_rows_weight(dv: Seq<TernaryVote>, k: nat, v: TernaryVote)
    requires
        k <= dv.len(),
    ensures
        weight_for(Seq::new(k, |i: int| ((i as usize), dv[i], 1u32)), v) == count_votes(
            dv.take(k as int),
            v,
        ),
    decreases k,
{
    if k > 0 {
        lemma_unit_rows_weight(dv, (k - 1) as nat, v);
        assert(Seq::new(k, |i: int| ((i as usize), dv[i], 1u32)).drop_last() =~= Seq::new(
            (k - 1) as nat,
            |i: int| ((i as usize), dv[i], 1u32),
        ));
        assert(dv.take(k as int).drop_last() =~= dv.take(k - 1));
    }
}



// ---------------------------------------------------------------------------
// Acyclic delegations: every vote ends where its chain stops
// ---------------------------------------------------------------------------

/// Voter `u`'s vote has been moved by the time voters `0 .. k` are settled:
/// `u` is one of them or lies on one of their chains.
spec fn moved(d: Seq<Option<usize>>, k: nat, u: usize) -> bool
    decreases k,
{
    if k == 0 {
        false
    } else {
        let i = (k - 1) as usize;
        moved(d, (k - 1) as nat, u) || u == i || chain_of(d, i).contains(u)
    }
}

/// Where voter `u`'s vote sits after voters `0 .. k` are settled.
spec fn loc(d: Seq<Option<usize>>, k: nat, u: usize) -> usize {
    if moved(d, k, u) {
        end_of(d, u)
    } else {
        u
    }
}

/// Marks, per voter `u`, whether `u`'s vote sits at `v`.
spec fn sits_at(d: Seq<Option<usize>>, k: nat, v: usize) -> Seq<int> {
    Seq::new(d.len(), |u: int| if loc(d, k, u as usize) == v { 1int } else { 0int })
}

/// `s` with every voter on `c` set to one.
spec fn marked(s: Seq<int>, c: Seq<usize>) -> Seq<int>
    decreases c.len(),
{
    if c.len() == 0 {
        s
    } else {
        marked(s, c.drop_last()).update(c.last() as int, 1)
    }
}

proof fn lemma_marked_len(w: Seq<int>, c: Seq<usize>)
    requires
        forall|k: int| 0 <= k < c.len() ==> c[k] < w.len(),
    ensures
        marked(w, c).len() == w.len(),
    decreases c.len(),
{
    if c.len() > 0 {
        lemma_marked_len(w, c.drop_last());
    }
}

proof fn lemma_marked_at(w: Seq<int>, c: Seq<usize>, v: int)
    requires
        forall|k: int| 0 <= k < c.len() ==> c[k] < w.len(),
        0 <= v < w.len(),
        v <= usize::MAX,
    ensures
        marked(w, c)[v] == if c.contains(v as usize) { 1 } else { w[v] },
    decreases c.len(),
{
    if c.len() > 0 {
        let c0 = c.drop_last();
        lemma_marked_at(w, c0, v);
        lemma_marked_len(w, c0);
        if c0.contains(v as usize) {
            let k = choose|k: int| 0 <= k < c0.len() && c0[k] == v as usize;
            assert(c[k] == v as usize);
        }
        if c.contains(v as usize) && v != c.last() as int {
            let k = choose|k: int| 0 <= k < c.len() && c[k] == v as usize;
            assert(k < c.len() - 1);
            assert(c0[k] == v as usize);
        }
    }
}

/// One minus every entry.
spec fn complement(s: Seq<int>) -> Seq<int> {
    Seq::new(s.len(), |u: int| 1 - s[u])
}

/// Marking a chain of distinct voters adds, for each of them, one minus its entry.
proof fn lemma_marked_sum(w: Seq<int>, c: Seq<usize>)
    requires
        w.len() <= usize::MAX,
        c.no_duplicates(),
        forall|k: int| 0 <= k < c.len() ==> c[k] < w.len(),
    ensures
        seq_sum(marked(w, c)) == seq_sum(w) + chain_weight(complement(w), c),
    decreases c.len(),
{
    if c.len() > 0 {
        let c0 = c.drop_last();
        let l = c.last();
        assert(c0.no_duplicates());
        lemma_marked_sum(w, c0);
        lemma_marked_len(w, c0);
        assert(!c0.contains(l)) by {
            if c0.contains(l) {
                let k = choose|k: int| 0 <= k < c0.len() && c0[k] == l;
                assert(c[k] == c[c.len() - 1]);
            }
        }
        lemma_marked_at(w, c0, l as int);
        lemma_seq_sum_update(marked(w, c0), l as int, 1);
    }
}

/// The weight of a chain only depends on the weights of its voters.
proof fn lemma_chain_weight_congruent(a: Seq<int>, b: Seq<int>, c: Seq<usize>)
    requires
        forall|k: int| 0 <= k < c.len() ==> a[c[k] as int] == b[#[trigger] c[k] as int],
    ensures
        chain_weight(a, c) == chain_weight(b, c),
    decreases c.len(),
{
    if c.len() > 0 {
        let c0 = c.drop_last();
        assert forall|k: int| 0 <= k < c0.len() implies a[c0[k] as int] == b[#[trigger] c0[k] as int] by {
            assert(c0[k] == c[k]);
        }
        lemma_chain_weight_congruent(a, b, c0);
        assert(a[c[c.len() - 1] as int] == b[c[c.len() - 1] as int]);
    }
}

proof fn lemma_zeros_sum(m: nat)
    ensures
        seq_sum(Seq::new(m, |u: int| 0int)) == 0,
    decreases m,
{
    if m > 0 {
        lemma_zeros_sum((m - 1) as nat);
        assert(Seq::new(m, |u: int| 0int).drop_last() =~= Seq::new((m - 1) as nat, |u: int| 0int));
    }
}

/// A sequence that is zero everywhere but at `v` sums to its entry at `v`.
proof fn lemma_single_sum(s: Seq<int>, v: int)
    requires
        0 <= v < s.len(),
        forall|u: int| 0 <= u < s.len() && u != v ==> #[trigger] s[u] == 0,
    ensures
        seq_sum(s) == s[v],
{
    let z = Seq::new(s.len(), |u: int| 0int);
    lemma_zeros_sum(s.len());
    lemma_seq_sum_update(z, v, s[v]);
    assert(z.update(v, s[v]) =~= s);
}

/// A walk along a chain of valid delegations that ends at a voter who votes
/// for themselves stops there, from any voter of the chain.
proof fn lemma_walk_suffix(d: Seq<Option<usize>>, c: Seq<usize>, e: usize, j: int, jp: int, fuel: nat)
    requires
        d.len() <= usize::MAX,
        simple_chain(c, d.len()),
        follows(d, c, e),
        e < d.len(),
        stops_at(d, Seq::empty(), e),
        0 <= j <= jp <= c.len(),
        fuel > c.len() - jp,
    ensures
        walk(d, if jp < c.len() { c[jp] } else { e }, c.subrange(j, jp), fuel).1 == e,
    decreases c.len() - jp,
{
    if jp < c.len() {
        let cur = c[jp];
        let next = if jp + 1 < c.len() { c[jp + 1] } else { e };
        let sub = c.subrange(j, jp);
        assert(d[cur as int] == Some(next));
        assert(next < d.len());
        assert(!sub.contains(cur)) by {
            if sub.contains(cur) {
                let t = choose|t: int| 0 <= t < sub.len() && sub[t] == cur;
                assert(c[j + t] == c[jp]);
            }
        }
        assert(walk(d, cur, sub, fuel) == walk(d, next, sub.push(cur), (fuel - 1) as nat));
        assert(sub.push(cur) =~= c.subrange(j, jp + 1));
        lemma_walk_suffix(d, c, e, j, jp + 1, (fuel - 1) as nat);
    }
}

/// In acyclic delegations every voter on the chain of `i` ends where `i` ends.
proof fn lemma_end_of_member(d: Seq<Option<usize>>, i: usize, j: int)
    requires
        d.len() <= usize::MAX,
        acyclic(d),
        i < d.len(),
        0 <= j < chain_of(d, i).len(),
    ensures
        end_of(d, chain_of(d, i)[j]) == end_of(d, i),
{
    law_chain_shape(d, i);
    let c = chain_of(d, i);
    let e = end_of(d, i);
    assert(match d[end_of(d, i) as int] {
        None => true,
        Some(x) => x >= d.len(),
    });
    lemma_walk_suffix(d, c, e, j, j, (d.len() + 1) as nat);
    assert(c.subrange(j, j) =~= Seq::<usize>::empty());
}

/// In acyclic delegations no chain ends at a voter of a chain.
proof fn lemma_end_off_chain(d: Seq<Option<usize>>, u: usize, i: usize)
    requires
        d.len() <= usize::MAX,
        acyclic(d),
        u < d.len(),
        i < d.len(),
    ensures
        !chain_of(d, i).contains(end_of(d, u)),
{
    law_chain_shape(d, i);
    let c = chain_of(d, i);
    assert(match d[end_of(d, u) as int] {
        None => true,
        Some(x) => x >= d.len(),
    });
    if c.contains(end_of(d, u)) {
        let k = choose|k: int| 0 <= k < c.len() && c[k] == end_of(d, u);
        assert(d[c[k] as int] == Some(if k + 1 < c.len() { c[k + 1] } else { end_of(d, i) }));
    }
}

/// A chain starts with its own voter; an empty chain ends where it starts.
proof fn lemma_chain_head(d: Seq<Option<usize>>, i: usize)
    requires
        d.len() <= usize::MAX,
        i < d.len(),
    ensures
        chain_of(d, i).len() > 0 ==> chain_of(d, i)[0] == i,
        chain_of(d, i).len() == 0 ==> end_of(d, i) == i,
{
    let n = d.len();
    match d[i as int] {
        Some(t) => {
            if t < n {
                lemma_chain_starts_at(d, i, t);
                law_chain_shape(d, i);
                let c = chain_of(d, i);
                assert(walk(d, i, Seq::empty(), (n + 1) as nat) == walk(d, t, seq![i], n));
                assert(follows(d, seq![i], t));
                assert(simple_chain(seq![i], n));
                lemma_walk(d, t, seq![i], n);
                assert(c.take(1)[0] == i);
            }
        },
        None => {},
    }
}

/// Settling voter `k - 1` moves the votes on its chain to where it stops.
proof fn lemma_loc_step(d: Seq<Option<usize>>, k: nat, u: usize)
    requires
        d.len() <= usize::MAX,
        acyclic(d),
        0 < k <= d.len(),
        u < d.len(),
    ensures
        loc(d, k, u) == if chain_of(d, (k - 1) as usize).contains(u) {
            end_of(d, (k - 1) as usize)
        } else {
            loc(d, (k - 1) as nat, u)
        },
{
    let i = (k - 1) as usize;
    let c = chain_of(d, i);
    if c.contains(u) {
        let j = choose|j: int| 0 <= j < c.len() && c[j] == u;
        lemma_end_of_member(d, i, j);
    } else if u == i {
        lemma_chain_head(d, i);
        if c.len() > 0 {
            assert(c[0] == i);
        }
    }
}

/// Every voter's vote has moved once all voters are settled.
proof fn lemma_all_moved(d: Seq<Option<usize>>, k: nat, u: usize)
    requires
        u < k,
    ensures
        moved(d, k, u),
    decreases k,
{
    if k > u + 1 {
        lemma_all_moved(d, (k - 1) as nat, u);
    }
}

/// The votes resting at `t` once every voter is settled are the voters whose
/// chain ends at `t`.
proof fn lemma_final_count(d: Seq<Option<usize>>, t: usize, m: nat)
    requires
        m <= d.len() <= usize::MAX,
    ensures
        seq_sum(sits_at(d, d.len(), t).take(m as int)) == ending_at(d, t, m),
    decreases m,
{
    let s = sits_at(d, d.len(), t);
    if m > 0 {
        lemma_final_count(d, t, (m - 1) as nat);
        assert(s.take(m as int).drop_last() =~= s.take(m - 1));
        lemma_all_moved(d, d.len(), (m - 1) as usize);
    } else {
        assert(s.take(0) =~= Seq::<int>::empty());
    }
}

/// In acyclic delegations, the weight of every voter after voters `0 .. k`
/// are settled is the number of votes sitting there.
proof fn lemma_acyclic_weights(d: Seq<Option<usize>>, k: nat)
    requires
        d.len() <= usize::MAX,
        acyclic(d),
        k <= d.len(),
    ensures
        forall|v: int| 0 <= v < d.len() ==> #[trigger] weights_after(d, k)[v] == seq_sum(
            sits_at(d, k, v as usize),
        ),
    decreases k,
{
    let n = d.len();
    lemma_weights_len(d, k);
    if k == 0 {
        assert forall|v: int| 0 <= v < n implies #[trigger] weights_after(d, k)[v] == seq_sum(
            sits_at(d, k, v as usize),
        ) by {
            lemma_single_sum(sits_at(d, k, v as usize), v);
        }
    } else {
        let i = (k - 1) as usize;
        let w = weights_after(d, (k - 1) as nat);
        let c = chain_of(d, i);
        let e = end_of(d, i);
        lemma_acyclic_weights(d, (k - 1) as nat);
        lemma_weights_len(d, (k - 1) as nat);
        law_chain_shape(d, i);
        lemma_zeroed_len(w, c);
        lemma_end_off_chain(d, i, i);
        assert forall|v: int| 0 <= v < n implies #[trigger] weights_after(d, k)[v] == seq_sum(
            sits_at(d, k, v as usize),
        ) by {
            let now = sits_at(d, k, v as usize);
            let before = sits_at(d, (k - 1) as nat, v as usize);
            assert forall|u: int| 0 <= u < n implies #[trigger] now[u] == if c.contains(u as usize) {
                if e == v as usize { 1int } else { 0int }
            } else {
                before[u]
            } by {
                lemma_loc_step(d, k, u as usize);
            }
            lemma_zeroed_at(w, c, v);
            if c.len() == 0 {
                assert(now =~= before);
            } else if c.contains(v as usize) {
                assert forall|u: int| 0 <= u < n && u != v implies #[trigger] now[u] == 0 by {
                    if !c.contains(u as usize) {
                        lemma_end_off_chain(d, u as usize, i);
                    }
                }
                assert(now[v] == 0) by {
                    lemma_end_off_chain(d, v as usize, i);
                }
                lemma_single_sum(now, v);
            } else if v != e as int {
                assert forall|u: int| 0 <= u < n implies #[trigger] now[u] == before[u] by {
                    if c.contains(u as usize) {
                        let j = choose|j: int| 0 <= j < c.len() && c[j] == u as usize;
                        lemma_end_of_member(d, i, j);
                    }
                }
                assert(now =~= before);
            } else {
                // v is where the chain stops: it gathers the votes of the chain
                lemma_marked_len(before, c);
                assert forall|u: int| 0 <= u < n implies #[trigger] now[u] == marked(before, c)[u] by {
                    lemma_marked_at(before, c, u);
                }
                assert(now =~= marked(before, c));
                lemma_marked_sum(before, c);
                assert forall|x: int| 0 <= x < c.len() implies w[c[x] as int] == #[trigger] complement(
                    before,
                )[c[x] as int] by {
                    let cv = c[x];
                    let own = sits_at(d, (k - 1) as nat, cv);
                    lemma_end_of_member(d, i, x);
                    assert forall|u: int| 0 <= u < n && u != cv as int implies #[trigger] own[u] == 0 by {
                        lemma_end_off_chain(d, u as usize, i);
                    }
                    lemma_single_sum(own, cv as int);
                }
                lemma_chain_weight_congruent(w, complement(before), c);
            }
        }
    }
}

/// With acyclic delegations each vote goes, once, to the voter where its
/// delegation chain stops: the final weight of `t` is the number of voters
/// whose chain ends at `t`.
pub proof fn law_acyclic_weights(d: Seq<Option<usize>>, t: usize)
    requires
        d.len() <= usize::MAX,
        acyclic(d),
        t < d.len(),
    ensures
        final_weights(d)[t as int] == ending_at(d, t, d.len()),
{
    lemma_acyclic_weights(d, d.len());
    lemma_final_count(d, t, d.len());
    let s = sits_at(d, d.len(), t);
    assert(s.take(d.len() as int) =~= s);
    assert(((t as int) as usize) == t);
}

/// The weight of a vote in a resolution is the plain sum of the weights of its
/// entries: no entries weigh nothing, and one more entry adds its weight to its
/// own vote only.
pub proof fn law_weight_for_push(
    r: Seq<(usize, TernaryVote, u32)>,
    e: (usize, TernaryVote, u32),
    v: TernaryVote,
)
    ensures
        weight_for(Seq::empty(), v) == 0,
        weight_for(r.push(e), v) == weight_for(r, v) + if e.1 == v {
            e.2 as nat
        } else {
            0nat
        },
{
    assert(r.push(e).drop_last() =~= r);
}

} // verus!
