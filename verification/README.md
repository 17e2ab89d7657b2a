# ternary_voting

Voting and consensus mechanisms over ternary votes (For = +1, Against = -1,
Abstain = 0), verified with Verus.

- `src/vote.rs` — `TernaryVote`, its balanced-ternary digit, vote counting over sequences.
- `src/tally.rs` — `VoteTally`: recording, totals, net support, plurality result; `quorum_result` for a vote held under a quorum rule.
- `src/weighted.rs` — `WeightedVoting`: plurality over summed weights.
- `src/byzantine.rs` — `ByzantineAgreement`: fault bound and supermajority rounds.
- `src/liquid.rs` — `LiquidDemocracy`: delegation chains (cycles broken), weight transferred along each chain to the voter where it stops with every vote counted once, final tally.
- `src/condorcet.rs` — `CondorcetElection`: pairwise counts, Condorcet winner, comparison matrix.
- `app/lib.rs` — `QuorumConfig` / `QuorumSystem`, whose participation rule uses
  floating point and therefore stays outside the verified library.

Each module states its contracts over spec functions and proves the library's
laws as public proof functions (named `law_*`).
