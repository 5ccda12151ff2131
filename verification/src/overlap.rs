use crate::config::Config;
use crate::ranked_list::RankedList;
use vstd::hash_set::StringHashSet;
use vstd::prelude::*;

verus! {

/// The number of ranks that are compared: the length of the shorter ranking,
/// or the cap where there is one and it is smaller. A cap beyond the shorter
/// ranking is cut down to it.
pub open spec fn effective_depth(cap: Option<usize>, left_len: nat, right_len: nat) -> nat {
    let shortest = if left_len < right_len {
        left_len
    } else {
        right_len
    };
    match cap {
        None => shortest,
        Some(limit) => if limit as nat > shortest {
            shortest
        } else {
            limit as nat
        },
    }
}

/// What the identifiers newly met at `rank` add to the agreement of the two
/// rankings: one for the left identifier if the right ranking showed it at an
/// earlier rank, one for the right identifier if the left ranking showed it at
/// an earlier rank, and one if the two identifiers are the same.
pub open spec fn rank_gain(left: Seq<Seq<char>>, right: Seq<Seq<char>>, rank: int) -> nat {
    let left_seen: nat = if right.take(rank).contains(left[rank]) {
        1
    } else {
        0
    };
    let right_seen: nat = if left.take(rank).contains(right[rank]) {
        1
    } else {
        0
    };
    let same: nat = if left[rank] == right[rank] {
        1
    } else {
        0
    };
    left_seen + right_seen + same
}

/// The gains of all compared ranks, from the top rank down.
pub open spec fn rank_gains(cap: Option<usize>, left: Seq<Seq<char>>, right: Seq<Seq<char>>) -> Seq<
    nat,
> {
    Seq::new(
        effective_depth(cap, left.len(), right.len()),
        |rank: int| rank_gain(left, right, rank),
    )
}

/// The sum of the gains of the top `ranks` ranks. Divided by `ranks` it is the
/// agreement of the two rankings at that depth.
pub open spec fn agreed(gains: Seq<nat>, ranks: nat) -> nat
    decreases ranks,
{
    if ranks == 0 {
        0
    } else {
        agreed(gains, (ranks - 1) as nat) + gains[ranks - 1]
    }
}

/// The identifiers that both rankings show among their top `ranks` ranks.
pub open spec fn shared(left: Seq<Seq<char>>, right: Seq<Seq<char>>, ranks: int) -> Set<Seq<char>> {
    left.take(ranks).to_set().intersect(right.take(ranks).to_set())
}

/// The result of a comparison, as a mathematical value.
pub enum Outcome {
    /// Neither ranking holds anything: they agree fully.
    BothEmpty,
    /// Exactly one ranking holds nothing: they cannot agree at all.
    OneEmpty,
    /// Both rankings hold something: the gain of each compared rank.
    Ranked(Seq<nat>),
}

/// What comparing `left` with `right` under the cap `cap` yields.
pub open spec fn outcome(cap: Option<usize>, left: Seq<Seq<char>>, right: Seq<Seq<char>>) -> Outcome {
    if left.len() == 0 && right.len() == 0 {
        Outcome::BothEmpty
    } else if left.len() == 0 || right.len() == 0 {
        Outcome::OneEmpty
    } else {
        Outcome::Ranked(rank_gains(cap, left, right))
    }
}

/// The result of comparing two rankings.
///
/// A score follows from it: 1 for `BothEmpty`, 0 for `OneEmpty`, and for
/// `Ranked` the weighted accumulation of the agreement at each rank, where the
/// agreement at a rank is the sum of the gains down to it divided by the
/// number of ranks so far.
#[derive(Debug, PartialEq, Eq)]
pub enum Overlap {
    /// Neither ranking holds anything.
    BothEmpty,
    /// Exactly one ranking holds nothing.
    OneEmpty,
    /// The gain of each compared rank, from the top rank down; at least one
    /// rank is compared.
    Ranked(Vec<u8>),
}

impl View for Overlap {
    type V = Outcome;

    open spec fn view(&self) -> Outcome {
        match *self {
            Overlap::BothEmpty => Outcome::BothEmpty,
            Overlap::OneEmpty => Outcome::OneEmpty,
            Overlap::Ranked(gains) => Outcome::Ranked(
                Seq::new(gains@.len(), |rank: int| gains@[rank] as nat),
            ),
        }
    }
}

/// The number of ranks to compare for rankings of the given lengths.
pub fn resolve_depth(cap: Option<usize>, left_len: usize, right_len: usize) -> (depth: usize)
    ensures
        depth == effective_depth(cap, left_len as nat, right_len as nat),
{
    let shortest = if left_len < right_len {
        left_len
    } else {
        right_len
    };
    match cap {
        None => shortest,
        Some(limit) => if limit > shortest {
            shortest
        } else {
            limit
        },
    }
}

/// Compares two rankings down to the depth that `conf` and their lengths
/// allow, and reports the gain of every compared rank.
///
/// Each ranking's identifiers are gathered in a running set as the ranks go
/// by, so every rank costs a constant number of set operations.
pub fn compare(conf: &Config, left: &RankedList, right: &RankedList) -> (result: Overlap)
    ensures
        result@ == outcome(conf.depth_cap(), left@, right@),
{
    let left_ids = left.elements();
    let right_ids = right.elements();
    if left_ids.len() == 0 && right_ids.len() == 0 {
        return Overlap::BothEmpty;
    } else if left_ids.len() == 0 || right_ids.len() == 0 {
        return Overlap::OneEmpty;
    }
    let depth = resolve_depth(conf.search_depth(), left_ids.len(), right_ids.len());
    let mut gains: Vec<u8> = Vec::new();
    let mut left_running = StringHashSet::new();
    let mut right_running = StringHashSet::new();
    let mut rank: usize = 0;
    while rank < depth
        invariant
            rank <= depth,
            depth <= left_ids.len(),
            depth <= right_ids.len(),
            left_ids.deep_view() == left@,
            right_ids.deep_view() == right@,
            left_running@ == left@.take(rank as int).to_set(),
            right_running@ == right@.take(rank as int).to_set(),
            gains@.len() == rank,
            forall|k: int| 0 <= k < rank ==> gains@[k] as nat == rank_gain(left@, right@, k),
        decreases depth - rank,
    {
        let mut count: u8 = 0;
        if right_running.contains(left_ids[rank].as_str()) {
            count += 1;
        }
        if left_running.contains(right_ids[rank].as_str()) {
            count += 1;
        }
        if left_ids[rank] == right_ids[rank] {
            count += 1;
        }
        gains.push(count);
        left_running.insert(left_ids[rank].clone());
        right_running.insert(right_ids[rank].clone());
        proof {
            let next = rank as int + 1;
            assert(left@.take(next) =~= left@.take(rank as int).push(left@[rank as int]));
            assert(right@.take(next) =~= right@.take(rank as int).push(right@[rank as int]));
            left@.take(rank as int).lemma_push_to_set_commute(left@[rank as int]);
            right@.take(rank as int).lemma_push_to_set_commute(right@[rank as int]);
        }
        rank += 1;
    }
    let result = Overlap::Ranked(gains);
    assert(result@ == outcome(conf.depth_cap(), left@, right@)) by {
        assert(result@->Ranked_0 =~= rank_gains(conf.depth_cap(), left@, right@));
    }
    result
}

} // verus!
