//! The two ways of selecting survivors and ranking parents, behind one
//! interface.
//!
//! A strategy does two things. It selects, from a collection of candidates,
//! the survivors under a bound on their number. And it gives each member of
//! a population a standing, by which the better of two drawn members is
//! made a parent. The search holds a strategy and asks it for both; which
//! of the two it is makes no difference to the search.

use crate::hypergrid::{crowding, crowding_of, grid_select, grid_selection_of, lemma_truncated};
use crate::rank_crowding::{rank_crowding, rank_crowding_of, rank_select, rank_selection_of};
use crate::solution::{
    distinct_of, drawn_from, front_of, lemma_distinct_of, lemma_front_of_is_front,
    lemma_front_of_nonempty, views, Solution, SolutionView,
};
use crate::standing::{lemma_chosen, Standing};
use vstd::prelude::*;

verus! {

#[derive(Debug, Clone, Copy, PartialEq, Eq, Structural)]
pub enum SelectionStrategy {
    /// Non-dominated sorting: the survivors are taken rank by rank, and
    /// within the last rank by crowding distance.
    RankCrowding,
    /// The adaptive grid: the survivors are the non-dominated front, trimmed
    /// from its most crowded cells.
    Hypergrid,
}

impl SelectionStrategy {
    /// What the strategy selects from `all` under the bound `bound`.
    pub open spec fn selection_of(self, all: Seq<SolutionView>, bound: int) -> Seq<SolutionView> {
        match self {
            SelectionStrategy::RankCrowding => rank_selection_of(all, bound),
            SelectionStrategy::Hypergrid => grid_selection_of(all, bound),
        }
    }

    /// The standings that the strategy gives the members of `all`.
    pub open spec fn standings_of(self, all: Seq<SolutionView>) -> Seq<Standing> {
        match self {
            SelectionStrategy::RankCrowding => rank_crowding_of(all),
            SelectionStrategy::Hypergrid => crowding_of(all),
        }
    }

    /// Selects the survivors among the candidates: no more than `bound`,
    /// and at least one where there is a candidate and the bound is not
    /// zero.
    pub fn select(&self, candidates: &Vec<Solution>, bound: usize) -> (survivors: Vec<Solution>)
        ensures
            views(survivors@) == self.selection_of(views(candidates@), bound as int),
            drawn_from(views(survivors@), views(candidates@)),
            survivors@.len() <= bound,
            candidates@.len() > 0 && bound > 0 ==> survivors@.len() > 0,
    {
        match self {
            SelectionStrategy::RankCrowding => rank_select(candidates, bound),
            SelectionStrategy::Hypergrid => grid_select(candidates, bound),
        }
    }

    /// Gives every member of the population its standing.
    pub fn standings(&self, population: &Vec<Solution>) -> (standings: Vec<Standing>)
        ensures
            standings@ == self.standings_of(views(population@)),
            standings@.len() == population@.len(),
    {
        match self {
            SelectionStrategy::RankCrowding => rank_crowding(population),
            SelectionStrategy::Hypergrid => crowding(population),
        }
    }
}

/// What either strategy selects from a collection that is not empty, under
/// a bound of at least one, is at least one and at most `bound` members of
/// the collection.
pub proof fn lemma_selection_of(strategy: SelectionStrategy, all: Seq<SolutionView>, bound: int)
    requires
        all.len() > 0,
        bound >= 1,
    ensures
        1 <= strategy.selection_of(all, bound).len() <= bound,
        drawn_from(strategy.selection_of(all, bound), all),
{
    let selected = strategy.selection_of(all, bound);
    match strategy {
        SelectionStrategy::RankCrowding => {
            let kept = distinct_of(all, all.len() as int);
            lemma_distinct_of(all, all.len() as int);
            let rounds: nat = if kept.len() <= bound {
                kept.len()
            } else {
                bound as nat
            };
            assert(rank_crowding_of(kept).len() == kept.len());
            lemma_chosen(rank_crowding_of(kept), rounds);
            assert forall|k: int| 0 <= k < selected.len() implies all.contains(
                #[trigger] selected[k],
            ) by {
                let at = crate::standing::chosen(rank_crowding_of(kept), rounds)[k];
                assert(selected[k] == kept[at]);
                assert(all.contains(kept[at]));
            }
        },
        SelectionStrategy::Hypergrid => {
            let front = front_of(all, all.len() as int);
            lemma_front_of_is_front(all);
            lemma_front_of_nonempty(all);
            lemma_truncated(front, bound);
            assert forall|k: int| 0 <= k < selected.len() implies all.contains(
                #[trigger] selected[k],
            ) by {
                let member = selected[k];
                assert(front.contains(member));
                let at = choose|at: int| 0 <= at < front.len() && front[at] == member;
                assert(all.contains(front[at]));
            }
        },
    }
}

} // verus!
