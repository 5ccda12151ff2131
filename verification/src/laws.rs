use crate::overlap::{agreed, effective_depth, outcome, rank_gain, rank_gains, shared};
use crate::score::{agreement, agreement_sum, average_overlap, power, score};
use vstd::prelude::*;
use vstd::seq_lib::seq_to_set_is_finite;

verus! {

/// Comparing is symmetric: exchanging the two rankings changes nothing in the
/// outcome.
pub proof fn lemma_compare_symmetric(
    cap: Option<usize>,
    left: Seq<Seq<char>>,
    right: Seq<Seq<char>>,
)
    ensures
        outcome(cap, left, right) == outcome(cap, right, left),
{
    assert(rank_gains(cap, left, right) =~= rank_gains(cap, right, left));
}

/// A cap that reaches the end of the shorter ranking, or lies beyond it, yields
/// the same outcome as no cap.
pub proof fn lemma_cap_beyond_shortest(cap: usize, left: Seq<Seq<char>>, right: Seq<Seq<char>>)
    requires
        cap >= left.len() || cap >= right.len(),
    ensures
        outcome(Some(cap), left, right) == outcome(None, left, right),
{
    assert(rank_gains(Some(cap), left, right) =~= rank_gains(None, left, right));
}

/// The cap does not change the gain of a rank that is compared: it only
/// decides how many ranks are.
pub proof fn lemma_gains_are_prefix_of_uncapped(
    cap: Option<usize>,
    left: Seq<Seq<char>>,
    right: Seq<Seq<char>>,
)
    ensures
        rank_gains(cap, left, right) == rank_gains(None, left, right).take(
            effective_depth(cap, left.len(), right.len()) as int,
        ),
{
    assert(rank_gains(cap, left, right) =~= rank_gains(None, left, right).take(
        effective_depth(cap, left.len(), right.len()) as int,
    ));
}

/// Between rankings without repeats, the gain of a rank is the number of
/// identifiers that the rank adds to those shared by the two tops.
proof fn lemma_gain_extends_shared(left: Seq<Seq<char>>, right: Seq<Seq<char>>, rank: int)
    requires
        left.no_duplicates(),
        right.no_duplicates(),
        0 <= rank < left.len(),
        rank < right.len(),
    ensures
        shared(left, right, rank).finite(),
        shared(left, right, rank + 1).len() == shared(left, right, rank).len() + rank_gain(
            left,
            right,
            rank,
        ),
        rank_gain(left, right, rank) <= 2,
{
    let l = left[rank];
    let r = right[rank];
    let left_top = left.take(rank);
    let right_top = right.take(rank);
    let before = shared(left, right, rank);
    let after = shared(left, right, rank + 1);
    assert(left.take(rank + 1) =~= left_top.push(l));
    assert(right.take(rank + 1) =~= right_top.push(r));
    left_top.lemma_push_to_set_commute(l);
    right_top.lemma_push_to_set_commute(r);
    seq_to_set_is_finite(left_top);
    seq_to_set_is_finite(right_top);
    assert(before.finite());
    assert(!left_top.contains(l)) by {
        if left_top.contains(l) {
            let j = choose|j: int| 0 <= j < left_top.len() && left_top[j] == l;
            assert(left[j] == left[rank]);
        }
    }
    assert(!right_top.contains(r)) by {
        if right_top.contains(r) {
            let j = choose|j: int| 0 <= j < right_top.len() && right_top[j] == r;
            assert(right[j] == right[rank]);
        }
    }
    assert(!before.contains(l));
    assert(!before.contains(r));
    if l == r {
        assert(after =~= before.insert(l));
    } else if right_top.contains(l) && left_top.contains(r) {
        assert(after =~= before.insert(l).insert(r));
    } else if right_top.contains(l) {
        assert(after =~= before.insert(l));
    } else if left_top.contains(r) {
        assert(after =~= before.insert(r));
    } else {
        assert(after =~= before);
    }
}

/// The gains count what the rankings share: between rankings without repeats,
/// the gains of the top `ranks` ranks add up to the number of identifiers that
/// both rankings show among those ranks.
pub proof fn lemma_agreed_counts_shared(left: Seq<Seq<char>>, right: Seq<Seq<char>>, ranks: nat)
    requires
        left.no_duplicates(),
        right.no_duplicates(),
        ranks <= left.len(),
        ranks <= right.len(),
    ensures
        shared(left, right, ranks as int).finite(),
        agreed(rank_gains(None, left, right), ranks) == shared(left, right, ranks as int).len(),
    decreases ranks,
{
    if ranks == 0 {
        assert(shared(left, right, 0) =~= Set::<Seq<char>>::empty());
    } else {
        lemma_agreed_counts_shared(left, right, (ranks - 1) as nat);
        lemma_gain_extends_shared(left, right, ranks - 1);
    }
}

/// The agreement lies between nothing and everything: between rankings
/// without repeats, the gains of the top `ranks` compared ranks add up to at
/// most `ranks`, so that the agreement at every compared depth is a fraction
/// between 0 and 1.
pub proof fn lemma_agreed_in_range(
    cap: Option<usize>,
    left: Seq<Seq<char>>,
    right: Seq<Seq<char>>,
    ranks: nat,
)
    requires
        left.no_duplicates(),
        right.no_duplicates(),
        ranks <= effective_depth(cap, left.len(), right.len()),
    ensures
        0 <= agreed(rank_gains(cap, left, right), ranks) <= ranks,
{
    lemma_agreed_counts_shared(left, right, ranks);
    lemma_agreed_of_prefix(
        rank_gains(cap, left, right),
        rank_gains(None, left, right),
        ranks,
    );
    let left_top = left.take(ranks as int);
    let right_top = right.take(ranks as int);
    seq_to_set_is_finite(left_top);
    seq_to_set_is_finite(right_top);
    left_top.lemma_cardinality_of_set();
    vstd::set_lib::lemma_len_intersect(left_top.to_set(), right_top.to_set());
}

/// Sums of gains depend only on the gains that they add up.
proof fn lemma_agreed_of_prefix(short: Seq<nat>, long: Seq<nat>, ranks: nat)
    requires
        ranks <= short.len(),
        short.len() <= long.len(),
        forall|k: int| 0 <= k < short.len() ==> short[k] == long[k],
    ensures
        agreed(short, ranks) == agreed(long, ranks),
    decreases ranks,
{
    if ranks > 0 {
        lemma_agreed_of_prefix(short, long, (ranks - 1) as nat);
    }
}

/// A ranking agrees fully with itself: compared with itself, a ranking
/// without repeats gains exactly one at every compared rank, so that its
/// agreement at every compared depth is 1.
pub proof fn lemma_identical_rankings_agree(cap: Option<usize>, list: Seq<Seq<char>>, ranks: nat)
    requires
        list.no_duplicates(),
        ranks <= effective_depth(cap, list.len(), list.len()),
    ensures
        forall|rank: int| 0 <= rank < ranks ==> #[trigger] rank_gains(cap, list, list)[rank] == 1,
        agreed(rank_gains(cap, list, list), ranks) == ranks,
    decreases ranks,
{
    if ranks > 0 {
        lemma_identical_rankings_agree(cap, list, (ranks - 1) as nat);
        let rank = ranks - 1;
        let top = list.take(rank);
        assert(!top.contains(list[rank])) by {
            if top.contains(list[rank]) {
                let j = choose|j: int| 0 <= j < top.len() && top[j] == list[rank];
                assert(list[j] == list[rank]);
            }
        }
        assert(rank_gain(list, list, rank) == 1);
    }
}

/// Only rankings that both hold something are compared rank by rank, and
/// then at least one rank is compared unless the cap is zero.
pub proof fn lemma_ranked_outcome_has_depth(
    cap: Option<usize>,
    left: Seq<Seq<char>>,
    right: Seq<Seq<char>>,
)
    requires
        cap != Some(0usize),
    ensures
        outcome(cap, left, right) is Ranked <==> left.len() > 0 && right.len() > 0,
        outcome(cap, left, right) is Ranked ==> outcome(cap, left, right)->Ranked_0.len() >= 1,
{
}

/// A power of a persistence is positive and at most 1.
proof fn lemma_power_bounds(p: real, n: nat)
    requires
        0real < p <= 1real,
    ensures
        0real < power(p, n) <= 1real,
    decreases n,
{
    if n > 0 {
        lemma_power_bounds(p, (n - 1) as nat);
        let q = power(p, (n - 1) as nat);
        assert(0real < p * q <= 1real) by (nonlinear_arith)
            requires
                0real < p <= 1real,
                0real < q <= 1real,
        ;
    }
}

/// Gains that add up to no more than the ranks they cover give an agreement
/// between 0 and 1.
proof fn lemma_agreement_bounds(gains: Seq<nat>, rank: nat)
    requires
        agreed(gains, rank + 1) <= rank + 1,
    ensures
        0real <= agreement(gains, rank) <= 1real,
{
    let sum = agreed(gains, rank + 1) as real;
    let ranks = (rank + 1) as real;
    assert(0real <= sum / ranks <= 1real) by (nonlinear_arith)
        requires
            0real <= sum <= ranks,
            ranks > 0real,
    ;
}

/// The average overlap stays below what the weights of the compared ranks
/// add up to.
proof fn lemma_average_overlap_bounds(p: real, gains: Seq<nat>, rank: nat)
    requires
        0real < p <= 1real,
        forall|ranks: nat| ranks <= rank + 1 ==> agreed(gains, ranks) <= ranks,
    ensures
        0real <= average_overlap(p, gains, rank) <= 1real,
        p < 1real ==> average_overlap(p, gains, rank) <= 1real - power(p, rank + 1),
    decreases rank,
{
    let a = agreement(gains, rank);
    lemma_agreement_bounds(gains, rank);
    lemma_power_bounds(p, rank);
    lemma_power_bounds(p, rank + 1);
    let q = power(p, rank);
    assert(power(p, rank + 1) == p * q);
    if rank == 0 {
        if p != 1real {
            assert(0real <= (1real - p) * q * a <= 1real - p * q) by (nonlinear_arith)
                requires
                    0real < p < 1real,
                    q == 1real,
                    0real <= a <= 1real,
            ;
        }
    } else {
        let before = average_overlap(p, gains, (rank - 1) as nat);
        lemma_average_overlap_bounds(p, gains, (rank - 1) as nat);
        if p == 1real {
            let r = rank as real;
            assert((rank + 1) as real == r + 1real);
            assert(0real <= (before * r + a) / (r + 1real) <= 1real) by (nonlinear_arith)
                requires
                    0real <= before <= 1real,
                    0real <= a <= 1real,
                    r >= 1real,
            ;
        } else {
            assert(0real <= before + (1real - p) * q * a <= 1real - p * q) by (nonlinear_arith)
                requires
                    0real < p < 1real,
                    0real < q <= 1real,
                    0real <= a <= 1real,
                    0real <= before <= 1real - q,
            ;
        }
    }
}

/// The score lies between 0 and 1: for every persistence above 0 and up to
/// 1, every cap and every two rankings without repeats.
pub proof fn lemma_score_in_range(
    p: real,
    cap: Option<usize>,
    left: Seq<Seq<char>>,
    right: Seq<Seq<char>>,
)
    requires
        0real < p <= 1real,
        left.no_duplicates(),
        right.no_duplicates(),
    ensures
        0real <= score(p, outcome(cap, left, right)) <= 1real,
{
    let gains = rank_gains(cap, left, right);
    if left.len() > 0 && right.len() > 0 && gains.len() > 0 {
        let last = (gains.len() - 1) as nat;
        assert forall|ranks: nat| ranks <= last + 1 implies agreed(gains, ranks) <= ranks by {
            lemma_agreed_in_range(cap, left, right, ranks);
        }
        lemma_average_overlap_bounds(p, gains, last);
    }
}

/// The score is symmetric: exchanging the two rankings leaves it unchanged.
pub proof fn lemma_score_symmetric(
    p: real,
    cap: Option<usize>,
    left: Seq<Seq<char>>,
    right: Seq<Seq<char>>,
)
    ensures
        score(p, outcome(cap, left, right)) == score(p, outcome(cap, right, left)),
{
    lemma_compare_symmetric(cap, left, right);
}

/// A cap that reaches the end of the shorter ranking, or lies beyond it, gives
/// the score that no cap gives.
pub proof fn lemma_score_cap_beyond_shortest(
    p: real,
    cap: usize,
    left: Seq<Seq<char>>,
    right: Seq<Seq<char>>,
)
    requires
        cap >= left.len() || cap >= right.len(),
    ensures
        score(p, outcome(Some(cap), left, right)) == score(p, outcome(None, left, right)),
{
    lemma_cap_beyond_shortest(cap, left, right);
}

/// Two empty rankings score 1; an empty ranking against one that holds
/// something scores 0, whichever side is empty.
pub proof fn lemma_score_of_empty(
    p: real,
    cap: Option<usize>,
    left: Seq<Seq<char>>,
    right: Seq<Seq<char>>,
)
    requires
        left.len() == 0 || right.len() == 0,
    ensures
        score(p, outcome(cap, left, right)) == if left.len() == 0 && right.len() == 0 {
            1real
        } else {
            0real
        },
{
}

/// At a persistence of exactly 1 the average overlap is the plain mean of the
/// agreements at all ranks down to `rank`.
pub proof fn lemma_uniform_average_is_mean(gains: Seq<nat>, rank: nat)
    ensures
        average_overlap(1real, gains, rank) == agreement_sum(gains, rank + 1) / (rank + 1) as real,
    decreases rank,
{
    let a = agreement(gains, rank);
    assert(agreement_sum(gains, rank + 1) == agreement_sum(gains, rank) + a);
    if rank == 0 {
        assert(agreement_sum(gains, 0) == 0real);
        assert((0real + a) / 1real == a) by (nonlinear_arith);
    } else {
        lemma_uniform_average_is_mean(gains, (rank - 1) as nat);
        let sum = agreement_sum(gains, rank);
        let r = rank as real;
        assert((rank + 1) as real == r + 1real);
        assert(((rank - 1) as nat + 1) as real == r);
        assert(((sum / r) * r + a) / (r + 1real) == (sum + a) / (r + 1real)) by (nonlinear_arith)
            requires
                r >= 1real,
        ;
    }
}

/// At a persistence of exactly 1 the score of two rankings that both hold
/// something is the mean, over the compared ranks, of the share of each top
/// that the two rankings have in common.
pub proof fn lemma_uniform_score_is_mean_agreement(
    cap: Option<usize>,
    left: Seq<Seq<char>>,
    right: Seq<Seq<char>>,
)
    requires
        effective_depth(cap, left.len(), right.len()) > 0,
    ensures
        score(1real, outcome(cap, left, right)) == ({
            let depth = effective_depth(cap, left.len(), right.len());
            agreement_sum(rank_gains(cap, left, right), depth) / depth as real
        }),
{
    let gains = rank_gains(cap, left, right);
    lemma_uniform_average_is_mean(gains, (gains.len() - 1) as nat);
}

/// Between rankings without repeats, the agreement at a compared rank is the
/// number of identifiers that the two tops down to that rank share, divided by
/// the number of ranks in each top.
pub proof fn lemma_agreement_is_shared_fraction(
    cap: Option<usize>,
    left: Seq<Seq<char>>,
    right: Seq<Seq<char>>,
    rank: nat,
)
    requires
        left.no_duplicates(),
        right.no_duplicates(),
        rank < effective_depth(cap, left.len(), right.len()),
    ensures
        agreement(rank_gains(cap, left, right), rank) == shared(left, right, rank as int + 1).len() as real
            / (rank + 1) as real,
{
    lemma_agreed_counts_shared(left, right, rank + 1);
    lemma_agreed_of_prefix(rank_gains(cap, left, right), rank_gains(None, left, right), rank + 1);
}

/// The average overlap of gains that are 1 at every rank.
proof fn lemma_average_overlap_of_full_agreement(p: real, gains: Seq<nat>, rank: nat)
    requires
        forall|ranks: nat| ranks <= rank + 1 ==> agreed(gains, ranks) == ranks,
    ensures
        average_overlap(p, gains, rank) == if p == 1real {
            1real
        } else {
            1real - power(p, rank + 1)
        },
    decreases rank,
{
    let ranks = (rank + 1) as real;
    assert(agreed(gains, rank + 1) as real == ranks);
    assert(agreement(gains, rank) == 1real) by {
        assert(ranks / ranks == 1real) by (nonlinear_arith)
            requires
                ranks > 0real,
        ;
    }
    let q = power(p, rank);
    assert(power(p, rank + 1) == p * q);
    if rank == 0 {
        assert(q == 1real);
        assert((1real - p) * q * 1real == 1real - p * q) by (nonlinear_arith)
            requires
                q == 1real,
        ;
    } else {
        let before = average_overlap(p, gains, (rank - 1) as nat);
        lemma_average_overlap_of_full_agreement(p, gains, (rank - 1) as nat);
        let r = rank as real;
        assert(ranks == r + 1real);
        if p == 1real {
            assert(before == 1real);
            assert((1real * r + 1real) / (r + 1real) == 1real) by (nonlinear_arith)
                requires
                    r >= 1real,
            ;
        } else {
            assert(before == 1real - q);
            assert((1real - q) + (1real - p) * q * 1real == 1real - p * q) by (nonlinear_arith);
        }
    }
}

/// What a ranking scores against itself: a persistence of exactly 1 gives 1;
/// any other persistence gives, where `depth` ranks are compared, 1 less the
/// `depth`-th power of the persistence, the weight of all the ranks that were
/// not compared.
pub proof fn lemma_score_of_identical(p: real, cap: Option<usize>, list: Seq<Seq<char>>)
    requires
        list.no_duplicates(),
        effective_depth(cap, list.len(), list.len()) > 0,
    ensures
        score(p, outcome(cap, list, list)) == ({
            let depth = effective_depth(cap, list.len(), list.len());
            if p == 1real {
                1real
            } else {
                1real - power(p, depth)
            }
        }),
{
    let gains = rank_gains(cap, list, list);
    let last = (gains.len() - 1) as nat;
    assert forall|ranks: nat| ranks <= last + 1 implies agreed(gains, ranks) == ranks by {
        lemma_identical_rankings_agree(cap, list, ranks);
    }
    lemma_average_overlap_of_full_agreement(p, gains, last);
}

} // verus!
