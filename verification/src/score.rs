use crate::overlap::{agreed, Outcome};
use vstd::prelude::*;

verus! {

/// `p` raised to the power `n`.
pub open spec fn power(p: real, n: nat) -> real
    decreases n,
{
    if n == 0 {
        1real
    } else {
        p * power(p, (n - 1) as nat)
    }
}

/// The weight of a rank under the persistence `p`: it falls geometrically
/// with the rank.
pub open spec fn weight(p: real, rank: nat) -> real {
    (1real - p) * power(p, rank)
}

/// The agreement at `rank`: the share of the ranks down to it that the gains
/// account for.
pub open spec fn agreement(gains: Seq<nat>, rank: nat) -> real {
    agreed(gains, rank + 1) as real / (rank + 1) as real
}

/// The sum of the agreements at the top `ranks` ranks.
pub open spec fn agreement_sum(gains: Seq<nat>, ranks: nat) -> real
    decreases ranks,
{
    if ranks == 0 {
        0real
    } else {
        agreement_sum(gains, (ranks - 1) as nat) + agreement(gains, (ranks - 1) as nat)
    }
}

/// The average overlap down to `rank`. A persistence of exactly 1 weighs all
/// ranks alike: the average overlap is the running mean of the agreements,
/// which at the top rank is the agreement there. Any other persistence adds up
/// the weighted agreement of each rank.
pub open spec fn average_overlap(p: real, gains: Seq<nat>, rank: nat) -> real
    decreases rank,
{
    if rank == 0 {
        if p == 1real {
            agreement(gains, 0)
        } else {
            weight(p, 0) * agreement(gains, 0)
        }
    } else if p == 1real {
        (average_overlap(p, gains, (rank - 1) as nat) * (rank as real) + agreement(gains, rank)) / (
        rank + 1) as real
    } else {
        average_overlap(p, gains, (rank - 1) as nat) + weight(p, rank) * agreement(gains, rank)
    }
}

/// The similarity score that an outcome stands for under the persistence `p`,
/// in exact arithmetic: 1 where both rankings are empty, 0 where one is, and
/// else the average overlap down to the last compared rank.
pub open spec fn score(p: real, result: Outcome) -> real {
    match result {
        Outcome::BothEmpty => 1real,
        Outcome::OneEmpty => 0real,
        Outcome::Ranked(gains) => if gains.len() == 0 {
            0real
        } else {
            average_overlap(p, gains, (gains.len() - 1) as nat)
        },
    }
}

} // verus!
