//! Ranking by non-dominated sorting, and the crowding distance.
//!
//! The members that no member dominates have the rank one; those that
//! only members of rank one dominate have the rank two; and so on. The
//! members of one rank are a front. Within its front a member is the more
//! crowded the nearer its neighbours are in each loss; the members at the
//! ends of a front have no neighbour on one side and count as not crowded
//! at all.

use crate::hypergrid::{inter_losses, intra_losses};
use crate::solution::{
    distinct, distinct_of, dominates, drawn_from, views, Solution, SolutionView,
};
use crate::standing::{best_of, take_best, Standing};
use vstd::prelude::*;

verus! {

/// The member at `index` lies at most `level` fronts behind the first
/// front: every member that dominates it lies fewer fronts behind.
pub open spec fn rank_at_most(all: Seq<SolutionView>, index: int, level: nat) -> bool
    decreases level,
{
    forall|j: int|
        #![trigger all[j]]
        0 <= j < all.len() && dominates(all[j].objectives, all[index].objectives) ==> level > 0
            && rank_at_most(all, j, (level - 1) as nat)
}

/// The least level from `level` on at which the member at `index` lies at
/// most; the number of members where there is none below it.
pub open spec fn least_level(all: Seq<SolutionView>, index: int, level: nat) -> nat
    decreases all.len() - level,
{
    if level >= all.len() {
        all.len()
    } else if rank_at_most(all, index, level) {
        level
    } else {
        least_level(all, index, level + 1)
    }
}

/// The rank of the member at `index`: one for the members that no member
/// dominates, and one more for each front that lies before the member's.
/// With `n` members no rank is above `n`.
pub open spec fn rank_of(all: Seq<SolutionView>, index: int) -> nat {
    if least_level(all, index, 0) < all.len() {
        least_level(all, index, 0) + 1
    } else {
        all.len()
    }
}

/// The ranks of all members.
pub open spec fn ranks_of(all: Seq<SolutionView>) -> Seq<usize> {
    Seq::new(all.len(), |i: int| rank_of(all, i) as usize)
}

/// A member that lies at most some fronts behind lies at most any more
/// fronts behind.
pub proof fn lemma_rank_monotone(all: Seq<SolutionView>, index: int, low: nat, high: nat)
    requires
        rank_at_most(all, index, low),
        low <= high,
    ensures
        rank_at_most(all, index, high),
    decreases low,
{
    assert forall|j: int|
        #![trigger all[j]]
        0 <= j < all.len() && dominates(all[j].objectives, all[index].objectives) implies high > 0
        && rank_at_most(all, j, (high - 1) as nat) by {
        lemma_rank_monotone(all, j, (low - 1) as nat, (high - 1) as nat);
    }
}

/// The least level of a member is the level at which it lies at most while
/// it does not lie at most at the level below.
pub proof fn lemma_rank_is(all: Seq<SolutionView>, index: int, from: nat, level: nat)
    requires
        from <= level < all.len(),
        rank_at_most(all, index, level),
        level > 0 ==> !rank_at_most(all, index, (level - 1) as nat),
    ensures
        least_level(all, index, from) == level,
    decreases level - from,
{
    if from < level {
        if rank_at_most(all, index, from) {
            lemma_rank_monotone(all, index, from, (level - 1) as nat);
        }
        lemma_rank_is(all, index, from + 1, level);
    }
}

/// A member that lies at no level below the number of members has that
/// number as its least level.
pub proof fn lemma_rank_capped(all: Seq<SolutionView>, index: int, from: nat)
    requires
        all.len() > 0,
        !rank_at_most(all, index, (all.len() - 1) as nat),
        from <= all.len(),
    ensures
        least_level(all, index, from) == all.len(),
    decreases all.len() - from,
{
    if from < all.len() {
        if rank_at_most(all, index, from) {
            lemma_rank_monotone(all, index, from, (all.len() - 1) as nat);
        }
        lemma_rank_capped(all, index, from + 1);
    }
}

/// Tells whether every solution that dominates the one at `index` is marked
/// in `done`.
fn dominators_done(solutions: &Vec<Solution>, done: &Vec<bool>, index: usize) -> (yes: bool)
    requires
        index < solutions@.len(),
        done@.len() == solutions@.len(),
    ensures
        yes == forall|j: int|
            #![trigger views(solutions@)[j]]
            0 <= j < solutions@.len() && dominates(
                views(solutions@)[j].objectives,
                views(solutions@)[index as int].objectives,
            ) ==> done@[j],
{
    let ghost all = views(solutions@);
    let candidate = solutions[index].objectives;
    let mut j: usize = 0;
    while j < solutions.len()
        invariant
            j <= solutions@.len(),
            index < solutions@.len(),
            done@.len() == solutions@.len(),
            all == views(solutions@),
            candidate == all[index as int].objectives,
            forall|k: int|
                #![trigger all[k]]
                0 <= k < j && dominates(all[k].objectives, candidate) ==> done@[k],
        decreases solutions@.len() - j,
    {
        let other = solutions[j].objectives;
        assert(other == all[j as int].objectives);
        if other.dominates(&candidate) && !done[j] {
            return false;
        }
        j += 1;
    }
    true
}

/// The rank of every solution.
pub fn ranks(solutions: &Vec<Solution>) -> (ranks: Vec<usize>)
    ensures
        ranks@ == ranks_of(views(solutions@)),
{
    let ghost all = views(solutions@);
    let count = solutions.len();
    let mut ranks: Vec<usize> = Vec::new();
    let mut done: Vec<bool> = Vec::new();
    let mut i: usize = 0;
    while i < count
        invariant
            i <= count,
            ranks@.len() == i,
            done@.len() == i,
            forall|k: int| 0 <= k < i ==> !(#[trigger] done@[k]) && ranks@[k] == count,
        decreases count - i,
    {
        ranks.push(count);
        done.push(false);
        i += 1;
    }
    let mut level: usize = 0;
    let mut left = count > 0;
    while level < count && left
        invariant
            level <= count,
            count == solutions@.len(),
            all == views(solutions@),
            ranks@.len() == count,
            done@.len() == count,
            forall|k: int|
                0 <= k < count ==> (#[trigger] done@[k] <==> level > 0 && rank_at_most(
                    all,
                    k,
                    (level - 1) as nat,
                )),
            forall|k: int| 0 <= k < count && #[trigger] done@[k] ==> ranks@[k] == rank_of(all, k),
            forall|k: int| 0 <= k < count && !(#[trigger] done@[k]) ==> ranks@[k] == count,
            !left ==> forall|k: int| 0 <= k < count ==> #[trigger] done@[k],
        decreases count - level,
    {
        let mut next_done: Vec<bool> = Vec::new();
        let mut next_ranks: Vec<usize> = Vec::new();
        let mut any_left = false;
        let mut i: usize = 0;
        while i < count
            invariant
                i <= count,
                level < count,
                count == solutions@.len(),
                all == views(solutions@),
                ranks@.len() == count,
                done@.len() == count,
                next_done@.len() == i,
                next_ranks@.len() == i,
                forall|k: int|
                    0 <= k < count ==> (#[trigger] done@[k] <==> level > 0 && rank_at_most(
                        all,
                        k,
                        (level - 1) as nat,
                    )),
                forall|k: int|
                    0 <= k < count && #[trigger] done@[k] ==> ranks@[k] == rank_of(all, k),
                forall|k: int| 0 <= k < count && !(#[trigger] done@[k]) ==> ranks@[k] == count,
                forall|k: int|
                    0 <= k < i ==> (#[trigger] next_done@[k] <==> rank_at_most(
                        all,
                        k,
                        level as nat,
                    )),
                forall|k: int|
                    0 <= k < i && #[trigger] next_done@[k] ==> next_ranks@[k] == rank_of(all, k),
                forall|k: int| 0 <= k < i && !(#[trigger] next_done@[k]) ==> next_ranks@[k] == count,
                !any_left ==> forall|k: int| 0 <= k < i ==> #[trigger] next_done@[k],
            decreases count - i,
        {
            let settled = !done[i] && dominators_done(solutions, &done, i);
            proof {
                if done@[i as int] {
                    lemma_rank_monotone(all, i as int, (level - 1) as nat, level as nat);
                }
                if settled {
                    assert(rank_at_most(all, i as int, level as nat));
                    lemma_rank_is(all, i as int, 0, level as nat);
                }
                if rank_at_most(all, i as int, level as nat) && !done@[i as int] {
                    assert(settled);
                }
            }
            let now_done = done[i] || settled;
            next_done.push(now_done);
            next_ranks.push(if settled {
                level + 1
            } else {
                ranks[i]
            });
            if !now_done {
                any_left = true;
            }
            i += 1;
        }
        done = next_done;
        ranks = next_ranks;
        left = any_left;
        level += 1;
    }
    proof {
        assert forall|k: int| 0 <= k < count implies ranks@[k] == #[trigger] ranks_of(all)[k] by {
            if !done@[k] {
                lemma_rank_capped(all, k, 0);
            }
        }
        assert(ranks@ =~= ranks_of(all));
    }
    ranks
}

/// Among the first `upto` members of the rank of the member at `index`,
/// the largest value below that member's; none where no value lies below.
pub open spec fn nearest_below(values: Seq<u64>, ranks: Seq<usize>, index: int, upto: int) -> Option<
    u64,
>
    decreases upto,
{
    if upto <= 0 {
        None
    } else {
        let before = nearest_below(values, ranks, index, upto - 1);
        if ranks[upto - 1] == ranks[index] && values[upto - 1] < values[index] && (before is None
            || values[upto - 1] > before->0) {
            Some(values[upto - 1])
        } else {
            before
        }
    }
}

/// Among the first `upto` members of the rank of the member at `index`,
/// the smallest value above that member's; none where no value lies above.
pub open spec fn nearest_above(values: Seq<u64>, ranks: Seq<usize>, index: int, upto: int) -> Option<
    u64,
>
    decreases upto,
{
    if upto <= 0 {
        None
    } else {
        let before = nearest_above(values, ranks, index, upto - 1);
        if ranks[upto - 1] == ranks[index] && values[upto - 1] > values[index] && (before is None
            || values[upto - 1] < before->0) {
            Some(values[upto - 1])
        } else {
            before
        }
    }
}

/// The nearest value below is the value of a member of the same rank, it
/// lies below the member's own, and no such value lies between the two.
/// There is none only where no member of the same rank has a value below.
pub proof fn lemma_nearest_below(values: Seq<u64>, ranks: Seq<usize>, index: int, upto: int)
    requires
        0 <= upto <= values.len(),
        ranks.len() == values.len(),
        0 <= index < values.len(),
    ensures
        match nearest_below(values, ranks, index, upto) {
            Some(value) => value < values[index] && (exists|j: int|
                0 <= j < upto && ranks[j] == ranks[index] && #[trigger] values[j] == value)
                && forall|j: int|
                0 <= j < upto && ranks[j] == ranks[index] && #[trigger] values[j] < values[index]
                    ==> values[j] <= value,
            None => forall|j: int|
                0 <= j < upto && ranks[j] == ranks[index] ==> #[trigger] values[j]
                    >= values[index],
        },
    decreases upto,
{
    if upto > 0 {
        lemma_nearest_below(values, ranks, index, upto - 1);
        let before = nearest_below(values, ranks, index, upto - 1);
        let now = nearest_below(values, ranks, index, upto);
        if now is Some {
            if now == before {
                let j = choose|j: int|
                    0 <= j < upto - 1 && ranks[j] == ranks[index] && #[trigger] values[j]
                        == before->0;
                assert(values[j] == now->0);
            } else {
                assert(values[upto - 1] == now->0);
            }
        }
    }
}

/// The nearest value above is the value of a member of the same rank, it
/// lies above the member's own, and no such value lies between the two.
/// There is none only where no member of the same rank has a value above.
pub proof fn lemma_nearest_above(values: Seq<u64>, ranks: Seq<usize>, index: int, upto: int)
    requires
        0 <= upto <= values.len(),
        ranks.len() == values.len(),
        0 <= index < values.len(),
    ensures
        match nearest_above(values, ranks, index, upto) {
            Some(value) => value > values[index] && (exists|j: int|
                0 <= j < upto && ranks[j] == ranks[index] && #[trigger] values[j] == value)
                && forall|j: int|
                0 <= j < upto && ranks[j] == ranks[index] && #[trigger] values[j] > values[index]
                    ==> values[j] >= value,
            None => forall|j: int|
                0 <= j < upto && ranks[j] == ranks[index] ==> #[trigger] values[j]
                    <= values[index],
        },
    decreases upto,
{
    if upto > 0 {
        lemma_nearest_above(values, ranks, index, upto - 1);
        let before = nearest_above(values, ranks, index, upto - 1);
        let now = nearest_above(values, ranks, index, upto);
        if now is Some {
            if now == before {
                let j = choose|j: int|
                    0 <= j < upto - 1 && ranks[j] == ranks[index] && #[trigger] values[j]
                        == before->0;
                assert(values[j] == now->0);
            } else {
                assert(values[upto - 1] == now->0);
            }
        }
    }
}

/// The gap between the two neighbours of the member at `index` in its
/// front; none where it has no neighbour on one side.
pub open spec fn gap_of(values: Seq<u64>, ranks: Seq<usize>, index: int) -> Option<u64> {
    let below = nearest_below(values, ranks, index, values.len() as int);
    let above = nearest_above(values, ranks, index, values.len() as int);
    if below is Some && above is Some && below->0 <= above->0 {
        Some((above->0 - below->0) as u64)
    } else {
        None
    }
}

/// The smallest value among the first `upto` members of the rank of the
/// member at `index`, that member among them.
pub open spec fn front_lowest(values: Seq<u64>, ranks: Seq<usize>, index: int, upto: int) -> u64
    decreases upto,
{
    if upto <= 0 {
        values[index]
    } else {
        let before = front_lowest(values, ranks, index, upto - 1);
        if ranks[upto - 1] == ranks[index] && values[upto - 1] < before {
            values[upto - 1]
        } else {
            before
        }
    }
}

/// The largest value among the first `upto` members of the rank of the
/// member at `index`, that member among them.
pub open spec fn front_highest(values: Seq<u64>, ranks: Seq<usize>, index: int, upto: int) -> u64
    decreases upto,
{
    if upto <= 0 {
        values[index]
    } else {
        let before = front_highest(values, ranks, index, upto - 1);
        if ranks[upto - 1] == ranks[index] && values[upto - 1] > before {
            values[upto - 1]
        } else {
            before
        }
    }
}

/// The width of the front of the member at `index`: its largest value less
/// its smallest.
pub open spec fn width_of(values: Seq<u64>, ranks: Seq<usize>, index: int) -> int {
    front_highest(values, ranks, index, values.len() as int) - front_lowest(
        values,
        ranks,
        index,
        values.len() as int,
    )
}

/// The crowding distance of the member at `index` within its front, as a
/// standing.
///
/// The distance is the sum, over the two losses, of the gap between the
/// member's two neighbours divided by the width of the front. All members
/// of a front share the two widths, so the sum is held over their product:
/// the gap in one loss times the width in the other, added up. A sum that
/// does not fit 128 bits is held as the largest number that does. A member
/// that lacks a neighbour on one side in either loss is unbounded.
pub open spec fn standing_of(all: Seq<SolutionView>, ranks: Seq<usize>, index: int) -> Standing {
    let intra = intra_losses(all);
    let inter = inter_losses(all);
    let intra_gap = gap_of(intra, ranks, index);
    let inter_gap = gap_of(inter, ranks, index);
    if intra_gap is Some && inter_gap is Some {
        let total = intra_gap->0 * width_of(inter, ranks, index) + inter_gap->0 * width_of(
            intra,
            ranks,
            index,
        );
        Standing {
            rank: ranks[index],
            unbounded: false,
            spread: if 0 <= total <= u128::MAX {
                total as u128
            } else {
                u128::MAX
            },
        }
    } else {
        Standing { rank: ranks[index], unbounded: true, spread: 0 }
    }
}

/// The standings of all members by rank and crowding distance.
pub open spec fn rank_crowding_of(all: Seq<SolutionView>) -> Seq<Standing> {
    Seq::new(all.len(), |i: int| standing_of(all, ranks_of(all), i))
}

/// The gap between the two neighbours of the value at `index` among the
/// values of its rank.
fn gap(values: &Vec<u64>, ranks: &Vec<usize>, index: usize) -> (gap: Option<u64>)
    requires
        index < values@.len(),
        ranks@.len() == values@.len(),
    ensures
        gap == gap_of(values@, ranks@, index as int),
{
    let mut below: Option<u64> = None;
    let mut above: Option<u64> = None;
    let own = values[index];
    let rank = ranks[index];
    let mut k: usize = 0;
    while k < values.len()
        invariant
            k <= values@.len(),
            index < values@.len(),
            ranks@.len() == values@.len(),
            own == values@[index as int],
            rank == ranks@[index as int],
            below == nearest_below(values@, ranks@, index as int, k as int),
            above == nearest_above(values@, ranks@, index as int, k as int),
        decreases values@.len() - k,
    {
        if ranks[k] == rank {
            let value = values[k];
            if value < own {
                below = match below {
                    Some(best) => if value > best {
                        Some(value)
                    } else {
                        Some(best)
                    },
                    None => Some(value),
                };
            }
            if value > own {
                above = match above {
                    Some(best) => if value < best {
                        Some(value)
                    } else {
                        Some(best)
                    },
                    None => Some(value),
                };
            }
        }
        k += 1;
    }
    match (below, above) {
        (Some(low), Some(high)) => if low <= high {
            Some(high - low)
        } else {
            None
        },
        _ => None,
    }
}

/// The width of the front of the value at `index`.
fn width(values: &Vec<u64>, ranks: &Vec<usize>, index: usize) -> (width: u64)
    requires
        index < values@.len(),
        ranks@.len() == values@.len(),
    ensures
        width == width_of(values@, ranks@, index as int),
{
    let mut low: u64 = values[index];
    let mut high: u64 = values[index];
    let rank = ranks[index];
    let mut k: usize = 0;
    while k < values.len()
        invariant
            k <= values@.len(),
            index < values@.len(),
            ranks@.len() == values@.len(),
            rank == ranks@[index as int],
            low == front_lowest(values@, ranks@, index as int, k as int),
            high == front_highest(values@, ranks@, index as int, k as int),
            low <= high,
        decreases values@.len() - k,
    {
        if ranks[k] == rank {
            let value = values[k];
            if value < low {
                low = value;
            }
            if value > high {
                high = value;
            }
        }
        k += 1;
    }
    high - low
}

/// The standing of every solution by rank and crowding distance.
pub fn rank_crowding(solutions: &Vec<Solution>) -> (standings: Vec<Standing>)
    ensures
        standings@ == rank_crowding_of(views(solutions@)),
        standings@.len() == solutions@.len(),
{
    let ghost all = views(solutions@);
    let ranks = ranks(solutions);
    let mut intra: Vec<u64> = Vec::new();
    let mut inter: Vec<u64> = Vec::new();
    let mut i: usize = 0;
    while i < solutions.len()
        invariant
            i <= solutions@.len(),
            all == views(solutions@),
            intra@ == intra_losses(all).take(i as int),
            inter@ == inter_losses(all).take(i as int),
        decreases solutions@.len() - i,
    {
        let objectives = solutions[i].objectives;
        intra.push(objectives.intra);
        inter.push(objectives.inter);
        assert(intra@ =~= intra_losses(all).take(i + 1));
        assert(inter@ =~= inter_losses(all).take(i + 1));
        i += 1;
    }
    assert(intra@ =~= intra_losses(all));
    assert(inter@ =~= inter_losses(all));
    let mut standings: Vec<Standing> = Vec::new();
    let mut i: usize = 0;
    while i < solutions.len()
        invariant
            i <= solutions@.len(),
            all == views(solutions@),
            ranks@ == ranks_of(all),
            intra@ == intra_losses(all),
            inter@ == inter_losses(all),
            standings@.len() == i,
            forall|k: int|
                0 <= k < i ==> #[trigger] standings@[k] == standing_of(all, ranks_of(all), k),
        decreases solutions@.len() - i,
    {
        let intra_gap = gap(&intra, &ranks, i);
        let inter_gap = gap(&inter, &ranks, i);
        let standing = match (intra_gap, inter_gap) {
            (Some(across), Some(along)) => {
                let inter_width = width(&inter, &ranks, i);
                let intra_width = width(&intra, &ranks, i);
                assert(across * inter_width <= 0xffff_ffff_ffff_ffff * 0xffff_ffff_ffff_ffff)
                    by (nonlinear_arith)
                    requires
                        0 <= across <= 0xffff_ffff_ffff_ffff,
                        0 <= inter_width <= 0xffff_ffff_ffff_ffff,
                ;
                assert(along * intra_width <= 0xffff_ffff_ffff_ffff * 0xffff_ffff_ffff_ffff)
                    by (nonlinear_arith)
                    requires
                        0 <= along <= 0xffff_ffff_ffff_ffff,
                        0 <= intra_width <= 0xffff_ffff_ffff_ffff,
                ;
                assert(across * inter_width >= 0 && along * intra_width >= 0) by (nonlinear_arith)
                    requires
                        0 <= across,
                        0 <= inter_width,
                        0 <= along,
                        0 <= intra_width,
                ;
                let first: u128 = across as u128 * (inter_width as u128);
                let second: u128 = along as u128 * (intra_width as u128);
                let spread = match first.checked_add(second) {
                    Some(total) => total,
                    None => u128::MAX,
                };
                Standing { rank: ranks[i], unbounded: false, spread }
            },
            _ => Standing { rank: ranks[i], unbounded: true, spread: 0 },
        };
        standings.push(standing);
        i += 1;
    }
    assert(standings@ =~= rank_crowding_of(all));
    standings
}

/// What the ranking selects from `all` under the bound `bound`: of the
/// members with distinct losses, the best `bound` by rank and, within a
/// rank, by crowding distance; best first.
pub open spec fn rank_selection_of(all: Seq<SolutionView>, bound: int) -> Seq<SolutionView> {
    let kept = distinct_of(all, all.len() as int);
    best_of(kept, rank_crowding_of(kept), bound)
}

/// Selects the survivors by rank and crowding distance.
pub fn rank_select(candidates: &Vec<Solution>, bound: usize) -> (survivors: Vec<Solution>)
    ensures
        views(survivors@) == rank_selection_of(views(candidates@), bound as int),
        drawn_from(views(survivors@), views(candidates@)),
        survivors@.len() <= bound,
        survivors@.len() <= candidates@.len(),
        candidates@.len() > 0 && bound > 0 ==> survivors@.len() > 0,
{
    let kept = distinct(candidates);
    let standings = rank_crowding(&kept);
    let survivors = take_best(&kept, &standings, bound);
    proof {
        assert forall|k: int| 0 <= k < survivors@.len() implies views(candidates@).contains(
            #[trigger] views(survivors@)[k],
        ) by {
            let member = views(survivors@)[k];
            assert(views(kept@).contains(member));
            let at = choose|at: int| 0 <= at < kept@.len() && views(kept@)[at] == member;
            assert(views(candidates@).contains(views(kept@)[at]));
        }
    }
    survivors
}

} // verus!
