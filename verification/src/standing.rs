//! The standing of a solution among the others, by which survivors and
//! parents are chosen, and the choice of the best by it.

use crate::solution::{drawn_from, views, Solution, SolutionView};
use vstd::prelude::*;

verus! {

/// How a solution stands among the others. A lower `rank` is better. Of
/// equal ranks a standing that is `unbounded` is better than one that is
/// not, and of two that are not the larger `spread` is better.
#[derive(Debug, Clone, Copy, PartialEq, Eq, Structural)]
pub struct Standing {
    pub rank: usize,
    pub unbounded: bool,
    pub spread: u128,
}

/// `a` is the better standing.
pub open spec fn outranks(a: Standing, b: Standing) -> bool {
    a.rank < b.rank || (a.rank == b.rank && ((a.unbounded && !b.unbounded) || (!a.unbounded
        && !b.unbounded && a.spread > b.spread)))
}

impl Standing {
    /// Tells whether this standing is better than `other`.
    pub fn outranks(&self, other: &Standing) -> (yes: bool)
        ensures
            yes == outranks(*self, *other),
    {
        self.rank < other.rank || (self.rank == other.rank && ((self.unbounded
            && !other.unbounded) || (!self.unbounded && !other.unbounded && self.spread
            > other.spread)))
    }
}

/// Of the members at `first` and `second`, the one of the better standing;
/// the first where neither is better.
pub open spec fn parent_of(standings: Seq<Standing>, first: int, second: int) -> int {
    if outranks(standings[second], standings[first]) {
        second
    } else {
        first
    }
}

/// Of two members picked at the indices `first` and `second`, the one of
/// the better standing is the parent; where neither is better it is the
/// first.
pub fn pick_parent(standings: &Vec<Standing>, first: usize, second: usize) -> (chosen: usize)
    requires
        first < standings@.len(),
        second < standings@.len(),
    ensures
        chosen == parent_of(standings@, first as int, second as int),
        chosen < standings@.len(),
{
    if standings[second].outranks(&standings[first]) {
        second
    } else {
        first
    }
}

/// Among the first `upto` members, the index of the first one of the best
/// standing that is not yet taken; `-1` where all are taken.
pub open spec fn best_untaken(standings: Seq<Standing>, taken: Seq<bool>, upto: int) -> int
    decreases upto,
{
    if upto <= 0 {
        -1
    } else {
        let before = best_untaken(standings, taken, upto - 1);
        if !taken[upto - 1] && (before < 0 || outranks(standings[upto - 1], standings[before])) {
            upto - 1
        } else {
            before
        }
    }
}

/// For each of `count` members, whether `picks` names it.
pub open spec fn taken_marks(count: nat, picks: Seq<int>) -> Seq<bool> {
    Seq::new(count, |i: int| picks.contains(i))
}

/// The indices of the members that are chosen in `rounds` rounds, each
/// round taking the best that is left.
pub open spec fn chosen(standings: Seq<Standing>, rounds: nat) -> Seq<int>
    decreases rounds,
{
    if rounds == 0 {
        Seq::empty()
    } else {
        let before = chosen(standings, (rounds - 1) as nat);
        before.push(
            best_untaken(
                standings,
                taken_marks(standings.len(), before),
                standings.len() as int,
            ),
        )
    }
}

/// The members of `all` at the indices `picks`, in the order of the picks.
pub open spec fn picked(all: Seq<SolutionView>, picks: Seq<int>) -> Seq<SolutionView> {
    Seq::new(picks.len(), |k: int| all[picks[k]])
}

/// The best `bound` members of `all` by their standings, best first; all
/// of them where there are no more than `bound`.
pub open spec fn best_of(all: Seq<SolutionView>, standings: Seq<Standing>, bound: int) -> Seq<
    SolutionView,
> {
    picked(
        all,
        chosen(
            standings,
            if all.len() <= bound {
                all.len()
            } else {
                bound as nat
            },
        ),
    )
}

/// The transitivity of the order of standings.
pub proof fn lemma_outranks_transitive(a: Standing, b: Standing, c: Standing)
    requires
        outranks(a, b),
        outranks(b, c),
    ensures
        outranks(a, c),
{
}

/// The member that `best_untaken` names is not taken, and no member that
/// is not taken has a better standing; of those that stand as well it is
/// the first. It names a member wherever one is not taken.
pub proof fn lemma_best_untaken(standings: Seq<Standing>, taken: Seq<bool>, upto: int)
    requires
        0 <= upto <= standings.len(),
        taken.len() == standings.len(),
    ensures
        -1 <= best_untaken(standings, taken, upto) < upto,
        best_untaken(standings, taken, upto) >= 0 ==> !taken[best_untaken(
            standings,
            taken,
            upto,
        )],
        forall|i: int|
            0 <= i < upto && !(#[trigger] taken[i]) ==> best_untaken(standings, taken, upto) >= 0
                && !outranks(standings[i], standings[best_untaken(standings, taken, upto)]),
        forall|i: int|
            0 <= i < best_untaken(standings, taken, upto) && !(#[trigger] taken[i]) ==> outranks(
                standings[best_untaken(standings, taken, upto)],
                standings[i],
            ),
    decreases upto,
{
    if upto > 0 {
        lemma_best_untaken(standings, taken, upto - 1);
        let before = best_untaken(standings, taken, upto - 1);
        let now = best_untaken(standings, taken, upto);
        if now == upto - 1 && before >= 0 {
            assert forall|i: int| 0 <= i < upto && !(#[trigger] taken[i]) implies !outranks(
                standings[i],
                standings[now],
            ) by {
                if i < upto - 1 && outranks(standings[i], standings[now]) {
                    lemma_outranks_transitive(standings[i], standings[now], standings[before]);
                }
            }
            assert forall|i: int| 0 <= i < now && !(#[trigger] taken[i]) implies outranks(
                standings[now],
                standings[i],
            ) by {
                if i != before {
                    if i < before {
                        lemma_outranks_transitive(standings[now], standings[before], standings[i]);
                    } else {
                        assert(!outranks(standings[i], standings[before]));
                    }
                }
            }
        }
    }
}

/// The members chosen in `rounds` rounds, where there are at least that
/// many, are `rounds` different members.
pub proof fn lemma_chosen(standings: Seq<Standing>, rounds: nat)
    requires
        rounds <= standings.len(),
    ensures
        chosen(standings, rounds).len() == rounds,
        chosen(standings, rounds).no_duplicates(),
        forall|k: int|
            0 <= k < rounds ==> 0 <= #[trigger] chosen(standings, rounds)[k] < standings.len(),
    decreases rounds,
{
    if rounds > 0 {
        let before = chosen(standings, (rounds - 1) as nat);
        lemma_chosen(standings, (rounds - 1) as nat);
        let taken = taken_marks(standings.len(), before);
        lemma_some_untaken(standings.len(), before);
        lemma_best_untaken(standings, taken, standings.len() as int);
        let next = best_untaken(standings, taken, standings.len() as int);
        let free = choose|i: int| 0 <= i < standings.len() && !before.contains(i);
        assert(!taken[free]);
        assert(next >= 0);
        assert(!taken[next]);
        assert(!before.contains(next));
        let now = before.push(next);
        assert forall|i: int, j: int| 0 <= i < now.len() && 0 <= j < now.len() && i != j implies now[i]
            != now[j] by {
            if i < before.len() && j < before.len() {
                assert(before[i] != before[j]);
            } else if i < before.len() {
                assert(before.contains(before[i]));
            } else {
                assert(before.contains(before[j]));
            }
        }
    }
}

/// The chosen members are the best: no member that is left has a better
/// standing than a member that is chosen.
pub proof fn lemma_chosen_are_best(standings: Seq<Standing>, rounds: nat)
    requires
        rounds <= standings.len(),
    ensures
        forall|k: int, i: int|
            0 <= k < rounds && 0 <= i < standings.len() && !chosen(standings, rounds).contains(i)
                ==> !outranks(
                #[trigger] standings[i],
                standings[#[trigger] chosen(standings, rounds)[k]],
            ),
    decreases rounds,
{
    if rounds > 0 {
        let before = chosen(standings, (rounds - 1) as nat);
        let now = chosen(standings, rounds);
        lemma_chosen_are_best(standings, (rounds - 1) as nat);
        lemma_chosen(standings, (rounds - 1) as nat);
        lemma_chosen(standings, rounds);
        let taken = taken_marks(standings.len(), before);
        lemma_best_untaken(standings, taken, standings.len() as int);
        let next = best_untaken(standings, taken, standings.len() as int);
        assert forall|k: int, i: int|
            0 <= k < rounds && 0 <= i < standings.len() && !now.contains(i) implies !outranks(
            #[trigger] standings[i],
            standings[#[trigger] now[k]],
        ) by {
            assert(!before.contains(i)) by {
                if before.contains(i) {
                    let at = choose|at: int| 0 <= at < before.len() && before[at] == i;
                    assert(now[at] == i);
                }
            }
            if k < rounds - 1 {
                assert(now[k] == before[k]);
            } else {
                assert(now[k] == next);
                assert(!taken[i]);
            }
        }
    }
}

/// Fewer than `count` different picks among the first `count` indices
/// leave one that is not picked.
pub proof fn lemma_some_untaken(count: nat, picks: Seq<int>)
    requires
        picks.len() < count,
        picks.no_duplicates(),
        forall|k: int| 0 <= k < picks.len() ==> 0 <= #[trigger] picks[k] < count,
    ensures
        exists|i: int| 0 <= i < count && !picks.contains(i),
{
    let all = vstd::set_lib::set_int_range(0, count as int);
    vstd::set_lib::lemma_int_range(0, count as int);
    picks.unique_seq_to_set();
    if forall|i: int| 0 <= i < count ==> picks.contains(i) {
        assert(all.subset_of(picks.to_set())) by {
            assert forall|i: int| all.contains(i) implies picks.to_set().contains(i) by {
                assert(picks.contains(i));
            }
        }
        vstd::set_lib::lemma_len_subset(all, picks.to_set());
    }
}

/// Takes the best `bound` solutions by their standings, best first; all of
/// them where there are no more than `bound`.
pub fn take_best(solutions: &Vec<Solution>, standings: &Vec<Standing>, bound: usize) -> (best: Vec<
    Solution,
>)
    requires
        standings@.len() == solutions@.len(),
    ensures
        views(best@) == best_of(views(solutions@), standings@, bound as int),
        best@.len() == if solutions@.len() <= bound {
            solutions@.len()
        } else {
            bound as nat
        },
        drawn_from(views(best@), views(solutions@)),
{
    let ghost all = views(solutions@);
    let count = solutions.len();
    let rounds = if count <= bound {
        count
    } else {
        bound
    };
    let mut taken: Vec<bool> = Vec::new();
    let mut i: usize = 0;
    while i < count
        invariant
            i <= count,
            taken@.len() == i,
            forall|k: int| 0 <= k < i ==> !(#[trigger] taken@[k]),
        decreases count - i,
    {
        taken.push(false);
        i += 1;
    }
    let ghost mut picks: Seq<int> = Seq::empty();
    assert(taken@ =~= taken_marks(count as nat, picks));
    let mut best: Vec<Solution> = Vec::new();
    let mut round: usize = 0;
    while round < rounds
        invariant
            round <= rounds <= count,
            count == solutions@.len(),
            standings@.len() == count,
            all == views(solutions@),
            picks == chosen(standings@, round as nat),
            taken@ == taken_marks(count as nat, picks),
            views(best@) == picked(all, picks),
        decreases rounds - round,
    {
        proof {
            lemma_chosen(standings@, round as nat);
            lemma_chosen(standings@, (round + 1) as nat);
            lemma_best_untaken(standings@, taken@, count as int);
        }
        let mut index: usize = 0;
        let mut found = false;
        let mut k: usize = 0;
        while k < count
            invariant
                k <= count,
                standings@.len() == count,
                taken@.len() == count,
                found == (best_untaken(standings@, taken@, k as int) >= 0),
                found ==> index == best_untaken(standings@, taken@, k as int),
                index < count,
                count > 0,
            decreases count - k,
        {
            proof {
                lemma_best_untaken(standings@, taken@, k as int);
            }
            if !taken[k] && (!found || standings[k].outranks(&standings[index])) {
                index = k;
                found = true;
            }
            k += 1;
        }
        let ghost before = picks;
        proof {
            picks = picks.push(index as int);
            assert(picks == chosen(standings@, (round + 1) as nat));
        }
        let ghost shown = views(best@);
        best.push(solutions[index].clone());
        assert(views(best@) =~= shown.push(all[index as int]));
        taken[index] = true;
        proof {
            assert(taken@ =~= taken_marks(count as nat, picks)) by {
                assert forall|i: int| 0 <= i < count implies taken@[i] == picks.contains(i) by {
                    if i == index {
                        assert(picks[before.len() as int] == i);
                    } else if before.contains(i) {
                        let at = choose|at: int| 0 <= at < before.len() && before[at] == i;
                        assert(picks[at] == i);
                    } else if picks.contains(i) {
                        let at = choose|at: int| 0 <= at < picks.len() && picks[at] == i;
                        assert(before[at] == i);
                    }
                }
            }
            assert forall|k: int| 0 <= k < picks.len() implies views(best@)[k] == all[picks[k]] by {
                if k < before.len() {
                    assert(shown[k] == all[before[k]]);
                }
            }
            assert(views(best@) =~= picked(all, picks));
        }
        round += 1;
    }
    proof {
        lemma_chosen(standings@, rounds as nat);
        assert forall|k: int| 0 <= k < best@.len() implies all.contains(
            #[trigger] views(best@)[k],
        ) by {
            assert(views(best@)[k] == all[picks[k]]);
        }
    }
    best
}

} // verus!
