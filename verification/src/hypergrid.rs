//! The adaptive grid over the objective space.
//!
//! The range that a collection of solutions occupies in each loss is cut
//! into `GRID_DIVISIONS` bins of equal width. A solution's hyperbox is the
//! pair of bins that it falls into, and the squeeze factor of the hyperbox
//! is the number of solutions of the collection that fall into it.

use crate::solution::{
    drawn_from, front_of, is_front, pareto_front, views, Solution, SolutionView,
};
use crate::standing::Standing;
use vstd::prelude::*;

verus! {

/// The number of bins along each loss.
pub const GRID_DIVISIONS: u64 = 8;

/// The grid cell of one solution, and how many solutions share it.
#[derive(Debug, Clone, Copy, PartialEq, Eq, Structural)]
pub struct HyperBox {
    pub intra_cell: u64,
    pub inter_cell: u64,
    pub squeeze_factor: usize,
}

/// The intra losses of the members, one by one.
pub open spec fn intra_losses(all: Seq<SolutionView>) -> Seq<u64> {
    all.map_values(|member: SolutionView| member.objectives.intra)
}

/// The inter losses of the members, one by one.
pub open spec fn inter_losses(all: Seq<SolutionView>) -> Seq<u64> {
    all.map_values(|member: SolutionView| member.objectives.inter)
}

/// The smallest of the first `upto` values; zero where there is none.
pub open spec fn lowest(values: Seq<u64>, upto: int) -> u64
    decreases upto,
{
    if upto <= 0 {
        0
    } else if upto == 1 {
        values[0]
    } else if values[upto - 1] < lowest(values, upto - 1) {
        values[upto - 1]
    } else {
        lowest(values, upto - 1)
    }
}

/// The largest of the first `upto` values; zero where there is none.
pub open spec fn highest(values: Seq<u64>, upto: int) -> u64
    decreases upto,
{
    if upto <= 0 {
        0
    } else if upto == 1 {
        values[0]
    } else if values[upto - 1] > highest(values, upto - 1) {
        values[upto - 1]
    } else {
        highest(values, upto - 1)
    }
}

/// The bin of `value` when the range from `low` to `high` is cut into
/// `GRID_DIVISIONS` bins of equal width. The upper end of the range belongs
/// to the last bin, and a range of width zero has the one bin zero.
pub open spec fn bin_of(value: u64, low: u64, high: u64) -> u64 {
    if high <= low || value <= low {
        0
    } else {
        let raw = (value - low) * GRID_DIVISIONS / (high - low);
        if raw >= GRID_DIVISIONS {
            (GRID_DIVISIONS - 1) as u64
        } else {
            raw as u64
        }
    }
}

/// The grid cell of the member at `index`.
pub open spec fn cell_of(all: Seq<SolutionView>, index: int) -> (u64, u64) {
    let intra = intra_losses(all);
    let inter = inter_losses(all);
    (
        bin_of(intra[index], lowest(intra, all.len() as int), highest(intra, all.len() as int)),
        bin_of(inter[index], lowest(inter, all.len() as int), highest(inter, all.len() as int)),
    )
}

/// The number of the first `upto` members whose cell is `cell`.
pub open spec fn occupancy(all: Seq<SolutionView>, cell: (u64, u64), upto: int) -> nat
    decreases upto,
{
    if upto <= 0 {
        0
    } else {
        occupancy(all, cell, upto - 1) + if cell_of(all, upto - 1) == cell {
            1nat
        } else {
            0nat
        }
    }
}

/// The hyperbox of the member at `index`: its cell, and the number of
/// members in that cell.
pub open spec fn hyperbox_of(all: Seq<SolutionView>, index: int) -> HyperBox {
    HyperBox {
        intra_cell: cell_of(all, index).0,
        inter_cell: cell_of(all, index).1,
        squeeze_factor: occupancy(all, cell_of(all, index), all.len() as int) as usize,
    }
}

/// `boxes` holds the hyperbox of each member of `all`.
pub open spec fn is_grid_of(boxes: Seq<HyperBox>, all: Seq<SolutionView>) -> bool {
    &&& boxes.len() == all.len()
    &&& forall|i: int| 0 <= i < all.len() ==> #[trigger] boxes[i] == hyperbox_of(all, i)
}

/// Among the first `upto` boxes, the index of the first one with the largest
/// squeeze factor.
pub open spec fn most_crowded(boxes: Seq<HyperBox>, upto: int) -> int
    decreases upto,
{
    if upto <= 1 {
        0
    } else {
        let before = most_crowded(boxes, upto - 1);
        if boxes[upto - 1].squeeze_factor > boxes[before].squeeze_factor {
            upto - 1
        } else {
            before
        }
    }
}

/// The hyperboxes of all members of `all`.
pub open spec fn grid_of(all: Seq<SolutionView>) -> Seq<HyperBox> {
    Seq::new(all.len(), |i: int| hyperbox_of(all, i))
}

/// The member that leaves a collection that is too large: the first member
/// of the most crowded cell.
pub open spec fn victim_of(all: Seq<SolutionView>) -> int {
    most_crowded(grid_of(all), all.len() as int)
}

/// What is left of `all` when members leave, one at a time and each from the
/// cell that is then the most crowded, until no more than `bound` are left.
pub open spec fn truncated(all: Seq<SolutionView>, bound: int) -> Seq<SolutionView>
    decreases all.len(),
{
    if all.len() <= bound || all.len() == 0 {
        all
    } else {
        let victim = victim_of(all);
        let leaving = if 0 <= victim < all.len() {
            victim
        } else {
            0
        };
        truncated(all.remove(leaving), bound)
    }
}

/// The lowest of the values is one of them and none is lower; the highest
/// is one of them and none is higher.
pub proof fn lemma_lowest_highest(values: Seq<u64>, upto: int)
    requires
        1 <= upto <= values.len(),
    ensures
        forall|i: int|
            0 <= i < upto ==> lowest(values, upto) <= #[trigger] values[i] <= highest(
                values,
                upto,
            ),
        exists|i: int| 0 <= i < upto && #[trigger] values[i] == lowest(values, upto),
        exists|i: int| 0 <= i < upto && #[trigger] values[i] == highest(values, upto),
    decreases upto,
{
    if upto > 1 {
        lemma_lowest_highest(values, upto - 1);
        let low = choose|i: int| 0 <= i < upto - 1 && #[trigger] values[i] == lowest(values, upto - 1);
        let high = choose|i: int|
            0 <= i < upto - 1 && #[trigger] values[i] == highest(values, upto - 1);
        if values[upto - 1] < lowest(values, upto - 1) {
            assert(values[upto - 1] == lowest(values, upto));
        } else {
            assert(values[low] == lowest(values, upto));
        }
        if values[upto - 1] > highest(values, upto - 1) {
            assert(values[upto - 1] == highest(values, upto));
        } else {
            assert(values[high] == highest(values, upto));
        }
    } else {
        assert(values[0] == lowest(values, upto));
        assert(values[0] == highest(values, upto));
    }
}

/// The box that `most_crowded` names has the largest squeeze factor, and
/// it is the first that has it.
pub proof fn lemma_most_crowded(boxes: Seq<HyperBox>, upto: int)
    requires
        1 <= upto <= boxes.len(),
    ensures
        0 <= most_crowded(boxes, upto) < upto,
        forall|i: int|
            0 <= i < upto ==> (#[trigger] boxes[i]).squeeze_factor <= boxes[most_crowded(
                boxes,
                upto,
            )].squeeze_factor,
        forall|i: int|
            0 <= i < most_crowded(boxes, upto) ==> (#[trigger] boxes[i]).squeeze_factor
                < boxes[most_crowded(boxes, upto)].squeeze_factor,
    decreases upto,
{
    if upto > 1 {
        lemma_most_crowded(boxes, upto - 1);
    }
}

/// Truncation leaves the smaller of the bound and the size, takes its
/// members from the collection, and keeps a front a front.
pub proof fn lemma_truncated(all: Seq<SolutionView>, bound: int)
    requires
        0 <= bound,
    ensures
        truncated(all, bound).len() == if all.len() <= bound {
            all.len() as int
        } else {
            bound
        },
        forall|k: int|
            0 <= k < truncated(all, bound).len() ==> all.contains(#[trigger] truncated(all, bound)[k]),
        is_front(all) ==> is_front(truncated(all, bound)),
    decreases all.len(),
{
    if all.len() <= bound || all.len() == 0 {
    } else {
        let victim = victim_of(all);
        let leaving = if 0 <= victim < all.len() {
            victim
        } else {
            0
        };
        let rest = all.remove(leaving);
        lemma_truncated(rest, bound);
        assert forall|k: int| 0 <= k < rest.len() implies all.contains(#[trigger] rest[k]) by {
            if k < leaving {
                assert(rest[k] == all[k]);
            } else {
                assert(rest[k] == all[k + 1]);
            }
        }
        assert forall|k: int| 0 <= k < truncated(all, bound).len() implies all.contains(
            #[trigger] truncated(all, bound)[k],
        ) by {
            let member = truncated(rest, bound)[k];
            assert(rest.contains(member));
            let at = choose|at: int| 0 <= at < rest.len() && rest[at] == member;
            assert(all.contains(rest[at]));
        }
        if is_front(all) {
            assert forall|i: int, j: int|
                0 <= i < rest.len() && 0 <= j < rest.len() && i != j implies !crate::solution::dominates(
                #[trigger] rest[i].objectives,
                #[trigger] rest[j].objectives,
            ) && !crate::solution::same_losses(rest[i].objectives, rest[j].objectives) by {
                let from_i = if i < leaving {
                    i
                } else {
                    i + 1
                };
                let from_j = if j < leaving {
                    j
                } else {
                    j + 1
                };
                assert(rest[i] == all[from_i]);
                assert(rest[j] == all[from_j]);
            }
        }
    }
}

/// The smallest and the largest intra loss, and the smallest and the
/// largest inter loss, of the solutions.
fn loss_ranges(solutions: &Vec<Solution>) -> (ranges: (u64, u64, u64, u64))
    ensures
        ranges.0 == lowest(intra_losses(views(solutions@)), solutions@.len() as int),
        ranges.1 == highest(intra_losses(views(solutions@)), solutions@.len() as int),
        ranges.2 == lowest(inter_losses(views(solutions@)), solutions@.len() as int),
        ranges.3 == highest(inter_losses(views(solutions@)), solutions@.len() as int),
{
    let ghost intra = intra_losses(views(solutions@));
    let ghost inter = inter_losses(views(solutions@));
    if solutions.len() == 0 {
        return (0, 0, 0, 0);
    }
    let first = solutions[0].objectives;
    let mut low_intra: u64 = first.intra;
    let mut high_intra: u64 = first.intra;
    let mut low_inter: u64 = first.inter;
    let mut high_inter: u64 = first.inter;
    let mut i: usize = 1;
    while i < solutions.len()
        invariant
            1 <= i <= solutions@.len(),
            intra == intra_losses(views(solutions@)),
            inter == inter_losses(views(solutions@)),
            low_intra == lowest(intra, i as int),
            high_intra == highest(intra, i as int),
            low_inter == lowest(inter, i as int),
            high_inter == highest(inter, i as int),
        decreases solutions@.len() - i,
    {
        let objectives = solutions[i].objectives;
        assert(objectives.intra == intra[i as int]);
        assert(objectives.inter == inter[i as int]);
        if objectives.intra < low_intra {
            low_intra = objectives.intra;
        }
        if objectives.intra > high_intra {
            high_intra = objectives.intra;
        }
        if objectives.inter < low_inter {
            low_inter = objectives.inter;
        }
        if objectives.inter > high_inter {
            high_inter = objectives.inter;
        }
        i += 1;
    }
    (low_intra, high_intra, low_inter, high_inter)
}

/// The bin of `value` in the range from `low` to `high`.
fn bin(value: u64, low: u64, high: u64) -> (index: u64)
    ensures
        index == bin_of(value, low, high),
        index < GRID_DIVISIONS,
{
    if high <= low || value <= low {
        0
    } else {
        let width: u128 = (value - low) as u128;
        assert(width * 8 <= 0xffff_ffff_ffff_ffff * 8) by (nonlinear_arith)
            requires
                width <= 0xffff_ffff_ffff_ffff,
        ;
        let raw: u128 = width * (GRID_DIVISIONS as u128) / ((high - low) as u128);
        if raw >= GRID_DIVISIONS as u128 {
            GRID_DIVISIONS - 1
        } else {
            raw as u64
        }
    }
}

/// Assigns each solution its hyperbox.
pub fn create(solutions: &Vec<Solution>) -> (boxes: Vec<HyperBox>)
    ensures
        is_grid_of(boxes@, views(solutions@)),
        boxes@ == grid_of(views(solutions@)),
{
    let ghost all = views(solutions@);
    let ranges = loss_ranges(solutions);
    let mut cells: Vec<(u64, u64)> = Vec::new();
    let mut i: usize = 0;
    while i < solutions.len()
        invariant
            i <= solutions@.len(),
            all == views(solutions@),
            ranges.0 == lowest(intra_losses(all), all.len() as int),
            ranges.1 == highest(intra_losses(all), all.len() as int),
            ranges.2 == lowest(inter_losses(all), all.len() as int),
            ranges.3 == highest(inter_losses(all), all.len() as int),
            cells@.len() == i,
            forall|k: int| 0 <= k < i ==> #[trigger] cells@[k] == cell_of(all, k),
        decreases solutions@.len() - i,
    {
        let objectives = solutions[i].objectives;
        assert(objectives.intra == intra_losses(all)[i as int]);
        assert(objectives.inter == inter_losses(all)[i as int]);
        let cell = (
            bin(objectives.intra, ranges.0, ranges.1),
            bin(objectives.inter, ranges.2, ranges.3),
        );
        cells.push(cell);
        i += 1;
    }
    let mut boxes: Vec<HyperBox> = Vec::new();
    let mut i: usize = 0;
    while i < cells.len()
        invariant
            i <= cells@.len(),
            cells@.len() == all.len(),
            forall|k: int| 0 <= k < cells@.len() ==> #[trigger] cells@[k] == cell_of(all, k),
            boxes@.len() == i,
            forall|k: int| 0 <= k < i ==> #[trigger] boxes@[k] == hyperbox_of(all, k),
        decreases cells@.len() - i,
    {
        let cell = cells[i];
        let mut count: usize = 0;
        let mut j: usize = 0;
        while j < cells.len()
            invariant
                j <= cells@.len(),
                cells@.len() == all.len(),
                forall|k: int| 0 <= k < cells@.len() ==> #[trigger] cells@[k] == cell_of(all, k),
                count == occupancy(all, cell, j as int),
                count <= j,
            decreases cells@.len() - j,
        {
            let other = cells[j];
            if other.0 == cell.0 && other.1 == cell.1 {
                count += 1;
            }
            j += 1;
        }
        boxes.push(HyperBox { intra_cell: cell.0, inter_cell: cell.1, squeeze_factor: count });
        i += 1;
    }
    assert(boxes@ =~= grid_of(all));
    boxes
}

/// The index of the first box with the largest squeeze factor.
pub fn most_crowded_index(boxes: &Vec<HyperBox>) -> (index: usize)
    requires
        boxes@.len() > 0,
    ensures
        index == most_crowded(boxes@, boxes@.len() as int),
        index < boxes@.len(),
{
    let mut index: usize = 0;
    let mut i: usize = 1;
    while i < boxes.len()
        invariant
            1 <= i <= boxes@.len(),
            index == most_crowded(boxes@, i as int),
            index < i,
        decreases boxes@.len() - i,
    {
        if boxes[i].squeeze_factor > boxes[index].squeeze_factor {
            index = i;
        }
        i += 1;
    }
    index
}

/// Takes members out of `archive`, one at a time and each the first member
/// of the cell that is then the most crowded, until no more than `bound`
/// are left.
pub fn truncate_archive(archive: &mut Vec<Solution>, bound: usize)
    ensures
        views(final(archive)@) == truncated(views(old(archive)@), bound as int),
        final(archive)@.len() == if old(archive)@.len() <= bound {
            old(archive)@.len()
        } else {
            bound as nat
        },
{
    proof {
        lemma_truncated(views(old(archive)@), bound as int);
    }
    while archive.len() > bound
        invariant
            truncated(views(archive@), bound as int) == truncated(
                views(old(archive)@),
                bound as int,
            ),
        decreases archive@.len(),
    {
        let ghost before = views(archive@);
        let boxes = create(archive);
        let victim = most_crowded_index(&boxes);
        archive.remove(victim);
        assert(views(archive@) =~= before.remove(victim as int));
    }
}

/// The standing that a hyperbox gives: the less crowded cell stands
/// better.
pub open spec fn standing_in(hyperbox: HyperBox) -> Standing {
    Standing { rank: hyperbox.squeeze_factor, unbounded: false, spread: 0 }
}

/// The standings of all members by the crowding of their cells.
pub open spec fn crowding_of(all: Seq<SolutionView>) -> Seq<Standing> {
    Seq::new(all.len(), |i: int| standing_in(hyperbox_of(all, i)))
}

/// The standing of every solution by the crowding of its cell.
pub fn crowding(solutions: &Vec<Solution>) -> (standings: Vec<Standing>)
    ensures
        standings@ == crowding_of(views(solutions@)),
        standings@.len() == solutions@.len(),
{
    let boxes = create(solutions);
    let mut standings: Vec<Standing> = Vec::new();
    let mut i: usize = 0;
    while i < boxes.len()
        invariant
            i <= boxes@.len(),
            is_grid_of(boxes@, views(solutions@)),
            standings@.len() == i,
            forall|k: int|
                0 <= k < i ==> #[trigger] standings@[k] == standing_in(
                    hyperbox_of(views(solutions@), k),
                ),
        decreases boxes@.len() - i,
    {
        standings.push(Standing { rank: boxes[i].squeeze_factor, unbounded: false, spread: 0 });
        i += 1;
    }
    assert(standings@ =~= crowding_of(views(solutions@)));
    standings
}

/// What the grid selects from `all` under the bound `bound`: the
/// non-dominated front, trimmed to the bound from its most crowded cells.
pub open spec fn grid_selection_of(all: Seq<SolutionView>, bound: int) -> Seq<SolutionView> {
    truncated(front_of(all, all.len() as int), bound)
}

/// Selects the survivors by the grid.
pub fn grid_select(candidates: &Vec<Solution>, bound: usize) -> (archive: Vec<Solution>)
    ensures
        views(archive@) == grid_selection_of(views(candidates@), bound as int),
        is_front(views(archive@)),
        drawn_from(views(archive@), views(candidates@)),
        archive@.len() <= bound,
        archive@.len() <= candidates@.len(),
        candidates@.len() > 0 && bound > 0 ==> archive@.len() > 0,
{
    let mut archive = pareto_front(candidates);
    proof {
        lemma_truncated(views(archive@), bound as int);
    }
    let ghost front = views(archive@);
    truncate_archive(&mut archive, bound);
    proof {
        assert forall|k: int| 0 <= k < archive@.len() implies views(candidates@).contains(
            #[trigger] views(archive@)[k],
        ) by {
            let member = views(archive@)[k];
            assert(front.contains(member));
            let at = choose|at: int| 0 <= at < front.len() && front[at] == member;
            assert(views(candidates@).contains(front[at]));
        }
    }
    archive
}

} // verus!
