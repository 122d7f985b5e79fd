//! Evaluated partitions, Pareto dominance between them, and the
//! non-dominated front of a collection.

use crate::fitness::Objectives;
use crate::graph::{CommunityId, NodeId, Partition};
use vstd::prelude::*;

verus! {

/// A partition together with its objectives.
#[derive(Debug)]
pub struct Solution {
    pub partition: Partition,
    pub objectives: Objectives,
}

/// What a solution holds: the partition as a map, and the objectives.
pub struct SolutionView {
    pub partition: Map<NodeId, CommunityId>,
    pub objectives: Objectives,
}

impl View for Solution {
    type V = SolutionView;

    open spec fn view(&self) -> SolutionView {
        SolutionView { partition: self.partition@, objectives: self.objectives }
    }
}

impl Clone for Solution {
    fn clone(&self) -> (copy: Self)
        ensures
            copy@ == self@,
    {
        Solution { partition: self.partition.clone(), objectives: self.objectives }
    }
}

/// The views of a sequence of solutions, one by one.
pub open spec fn views(solutions: Seq<Solution>) -> Seq<SolutionView> {
    solutions.map_values(|solution: Solution| solution@)
}

/// `a` dominates `b`: it is no worse in either loss and better in one. The
/// two are measured on the same scale.
pub open spec fn dominates(a: Objectives, b: Objectives) -> bool {
    a.intra <= b.intra && a.inter <= b.inter && (a.intra < b.intra || a.inter < b.inter)
}

/// `a` comes before `b` when the pairs are ordered by intra loss first and
/// inter loss second.
pub open spec fn precedes(a: Objectives, b: Objectives) -> bool {
    a.intra < b.intra || (a.intra == b.intra && a.inter < b.inter)
}

/// The two have the same losses.
pub open spec fn same_losses(a: Objectives, b: Objectives) -> bool {
    a.intra == b.intra && a.inter == b.inter
}

/// No member of `all` dominates the member at `index`, and none before it
/// has the same losses: the member belongs to the front.
pub open spec fn on_front(all: Seq<SolutionView>, index: int) -> bool {
    &&& forall|j: int| 0 <= j < all.len() ==> !dominates(#[trigger] all[j].objectives, all[index].objectives)
    &&& forall|j: int| 0 <= j < index ==> !same_losses(#[trigger] all[j].objectives, all[index].objectives)
}

/// The front of the first `upto` members of `all`, judged against all of
/// `all`: those that are on the front, in their order.
pub open spec fn front_of(all: Seq<SolutionView>, upto: int) -> Seq<SolutionView>
    decreases upto,
{
    if upto <= 0 {
        Seq::empty()
    } else if on_front(all, upto - 1) {
        front_of(all, upto - 1).push(all[upto - 1])
    } else {
        front_of(all, upto - 1)
    }
}

/// No member dominates another, and no two have the same losses.
pub open spec fn is_front(members: Seq<SolutionView>) -> bool {
    forall|i: int, j: int|
        0 <= i < members.len() && 0 <= j < members.len() && i != j ==> !dominates(
            #[trigger] members[i].objectives,
            #[trigger] members[j].objectives,
        ) && !same_losses(members[i].objectives, members[j].objectives)
}

/// Every member of `part` is a member of `whole`.
pub open spec fn drawn_from(part: Seq<SolutionView>, whole: Seq<SolutionView>) -> bool {
    forall|k: int| 0 <= k < part.len() ==> whole.contains(#[trigger] part[k])
}

impl Objectives {
    /// Tells whether these objectives dominate `other`.
    pub fn dominates(&self, other: &Objectives) -> (yes: bool)
        ensures
            yes == dominates(*self, *other),
    {
        self.intra <= other.intra && self.inter <= other.inter && (self.intra < other.intra
            || self.inter < other.inter)
    }
}

/// The index, among the first `upto` members, of the first member that
/// precedes all others.
pub open spec fn first_least(all: Seq<SolutionView>, upto: int) -> int
    decreases upto,
{
    if upto <= 1 {
        0
    } else {
        let before = first_least(all, upto - 1);
        if precedes(all[upto - 1].objectives, all[before].objectives) {
            upto - 1
        } else {
            before
        }
    }
}

proof fn lemma_first_least(all: Seq<SolutionView>, upto: int)
    requires
        1 <= upto <= all.len(),
    ensures
        0 <= first_least(all, upto) < upto,
        forall|j: int|
            0 <= j < upto ==> !precedes(
                #[trigger] all[j].objectives,
                all[first_least(all, upto)].objectives,
            ),
        forall|j: int|
            0 <= j < first_least(all, upto) ==> !same_losses(
                #[trigger] all[j].objectives,
                all[first_least(all, upto)].objectives,
            ),
    decreases upto,
{
    if upto > 1 {
        lemma_first_least(all, upto - 1);
    }
}

/// Each of the first `upto` members that is on the front is a member of
/// their front.
pub proof fn lemma_front_of_members(all: Seq<SolutionView>, upto: int)
    requires
        0 <= upto <= all.len(),
    ensures
        front_of(all, upto).len() <= upto,
        forall|i: int|
            0 <= i < upto && on_front(all, i) ==> front_of(all, upto).contains(#[trigger] all[i]),
    decreases upto,
{
    if upto > 0 {
        lemma_front_of_members(all, upto - 1);
        let before = front_of(all, upto - 1);
        let now = front_of(all, upto);
        if on_front(all, upto - 1) {
            assert(now == before.push(all[upto - 1]));
            assert forall|i: int| 0 <= i < upto && on_front(all, i) implies now.contains(
                #[trigger] all[i],
            ) by {
                if i < upto - 1 {
                    assert(before.contains(all[i]));
                    let k = choose|k: int| 0 <= k < before.len() && before[k] == all[i];
                    assert(now[k] == all[i]);
                } else {
                    assert(now[before.len() as int] == all[i]);
                }
            }
        }
    }
}

/// In the front of a collection no member dominates another, two members
/// never have the same losses, and every member comes from the collection.
pub proof fn lemma_front_of_is_front(all: Seq<SolutionView>)
    ensures
        is_front(front_of(all, all.len() as int)),
        drawn_from(front_of(all, all.len() as int), all),
{
    let front = front_of(all, all.len() as int);
    lemma_front_of_order(all, all.len() as int);
    lemma_front_of_members(all, all.len() as int);
    assert forall|i: int, j: int|
        0 <= i < front.len() && 0 <= j < front.len() && i != j implies !dominates(
        #[trigger] front[i].objectives,
        #[trigger] front[j].objectives,
    ) && !same_losses(front[i].objectives, front[j].objectives) by {
        let origin = front_origin(all, all.len() as int);
        assert(all[origin[i]] == front[i]);
        assert(all[origin[j]] == front[j]);
        assert(on_front(all, origin[i]));
        assert(on_front(all, origin[j]));
        if i < j {
            assert(origin[i] < origin[j]);
        } else {
            assert(origin[j] < origin[i]);
        }
    }
    assert forall|k: int| 0 <= k < front.len() implies all.contains(#[trigger] front[k]) by {
        let i = front_origin(all, all.len() as int)[k];
        assert(all[i] == front[k]);
    }
}

/// The places in `all` of the members of the front, in order.
pub open spec fn front_origin(all: Seq<SolutionView>, upto: int) -> Seq<int>
    decreases upto,
{
    if upto <= 0 {
        Seq::empty()
    } else if on_front(all, upto - 1) {
        front_origin(all, upto - 1).push(upto - 1)
    } else {
        front_origin(all, upto - 1)
    }
}

/// The members of the front stand in the collection at increasing places,
/// each of which is on the front.
pub proof fn lemma_front_of_order(all: Seq<SolutionView>, upto: int)
    requires
        0 <= upto <= all.len(),
    ensures
        front_origin(all, upto).len() == front_of(all, upto).len(),
        forall|k: int|
            0 <= k < front_of(all, upto).len() ==> 0 <= #[trigger] front_origin(all, upto)[k] < upto
                && on_front(all, front_origin(all, upto)[k]) && all[front_origin(all, upto)[k]]
                == front_of(all, upto)[k],
        forall|k: int, l: int|
            0 <= k < l < front_of(all, upto).len() ==> #[trigger] front_origin(all, upto)[k]
                < #[trigger] front_origin(all, upto)[l],
    decreases upto,
{
    if upto > 0 {
        lemma_front_of_order(all, upto - 1);
    }
}

/// A collection that is not empty has a front that is not empty.
pub proof fn lemma_front_of_nonempty(all: Seq<SolutionView>)
    requires
        all.len() > 0,
    ensures
        front_of(all, all.len() as int).len() > 0,
{
    let upto = all.len() as int;
    lemma_first_least(all, upto);
    let best = first_least(all, upto);
    assert(on_front(all, best)) by {
        assert forall|j: int| 0 <= j < all.len() implies !dominates(
            #[trigger] all[j].objectives,
            all[best].objectives,
        ) by {
            assert(!precedes(all[j].objectives, all[best].objectives));
        }
    }
    lemma_front_of_members(all, upto);
    assert(front_of(all, upto).contains(all[best]));
}

/// No member before the one at `index` has the same losses.
pub open spec fn first_of_its_losses(all: Seq<SolutionView>, index: int) -> bool {
    forall|j: int|
        0 <= j < index ==> !same_losses(#[trigger] all[j].objectives, all[index].objectives)
}

/// Of the first `upto` members of `all`, the first one for each pair of
/// losses, in their order.
pub open spec fn distinct_of(all: Seq<SolutionView>, upto: int) -> Seq<SolutionView>
    decreases upto,
{
    if upto <= 0 {
        Seq::empty()
    } else if first_of_its_losses(all, upto - 1) {
        distinct_of(all, upto - 1).push(all[upto - 1])
    } else {
        distinct_of(all, upto - 1)
    }
}

/// The distinct members come from the collection, there are no more of
/// them than members, and a collection that is not empty has one.
pub proof fn lemma_distinct_of(all: Seq<SolutionView>, upto: int)
    requires
        0 <= upto <= all.len(),
    ensures
        distinct_of(all, upto).len() <= upto,
        upto > 0 ==> distinct_of(all, upto).len() > 0,
        drawn_from(distinct_of(all, upto), all),
    decreases upto,
{
    if upto > 0 {
        lemma_distinct_of(all, upto - 1);
        let before = distinct_of(all, upto - 1);
        let now = distinct_of(all, upto);
        if upto == 1 {
            assert(first_of_its_losses(all, 0));
        }
        assert forall|k: int| 0 <= k < now.len() implies all.contains(#[trigger] now[k]) by {
            if k < before.len() {
                assert(now[k] == before[k]);
                assert(all.contains(before[k]));
            } else {
                assert(now[k] == all[upto - 1]);
            }
        }
    }
}

/// The solutions without those whose losses an earlier one has.
pub fn distinct(solutions: &Vec<Solution>) -> (kept: Vec<Solution>)
    ensures
        views(kept@) == distinct_of(views(solutions@), solutions@.len() as int),
        drawn_from(views(kept@), views(solutions@)),
        kept@.len() <= solutions@.len(),
        solutions@.len() > 0 ==> kept@.len() > 0,
{
    let ghost all = views(solutions@);
    let mut kept: Vec<Solution> = Vec::new();
    let mut i: usize = 0;
    while i < solutions.len()
        invariant
            i <= solutions@.len(),
            all == views(solutions@),
            views(kept@) == distinct_of(all, i as int),
        decreases solutions@.len() - i,
    {
        let candidate = solutions[i].objectives;
        let mut fresh = true;
        let mut j: usize = 0;
        while j < i
            invariant
                j <= i,
                i < solutions@.len(),
                all == views(solutions@),
                candidate == all[i as int].objectives,
                fresh == forall|k: int|
                    0 <= k < j ==> !same_losses(#[trigger] all[k].objectives, candidate),
            decreases i - j,
        {
            let other = solutions[j].objectives;
            assert(other == all[j as int].objectives);
            if other.intra == candidate.intra && other.inter == candidate.inter {
                fresh = false;
            }
            j += 1;
        }
        if fresh {
            let ghost before = views(kept@);
            kept.push(solutions[i].clone());
            assert(views(kept@) =~= before.push(all[i as int]));
        }
        i += 1;
    }
    proof {
        lemma_distinct_of(all, all.len() as int);
    }
    kept
}

/// Tells whether the member at `index` is on the front of `solutions`.
fn is_on_front(solutions: &Vec<Solution>, index: usize) -> (yes: bool)
    requires
        index < solutions@.len(),
    ensures
        yes == on_front(views(solutions@), index as int),
{
    let ghost all = views(solutions@);
    let candidate = solutions[index].objectives;
    let mut j: usize = 0;
    while j < solutions.len()
        invariant
            j <= solutions@.len(),
            index < solutions@.len(),
            all == views(solutions@),
            candidate == all[index as int].objectives,
            forall|k: int| 0 <= k < j ==> !dominates(#[trigger] all[k].objectives, candidate),
            forall|k: int|
                0 <= k < j && k < index ==> !same_losses(#[trigger] all[k].objectives, candidate),
        decreases solutions@.len() - j,
    {
        let other = solutions[j].objectives;
        assert(other == all[j as int].objectives);
        if other.dominates(&candidate) {
            return false;
        }
        if j < index && other.intra == candidate.intra && other.inter == candidate.inter {
            return false;
        }
        j += 1;
    }
    true
}

/// The non-dominated front of `solutions`: the members that no member
/// dominates, in their order, one for each pair of losses.
pub fn pareto_front(solutions: &Vec<Solution>) -> (front: Vec<Solution>)
    ensures
        views(front@) == front_of(views(solutions@), solutions@.len() as int),
        is_front(views(front@)),
        drawn_from(views(front@), views(solutions@)),
        solutions@.len() > 0 ==> front@.len() > 0,
        front@.len() <= solutions@.len(),
{
    let ghost all = views(solutions@);
    let mut front: Vec<Solution> = Vec::new();
    let mut i: usize = 0;
    while i < solutions.len()
        invariant
            i <= solutions@.len(),
            all == views(solutions@),
            views(front@) == front_of(all, i as int),
        decreases solutions@.len() - i,
    {
        if is_on_front(solutions, i) {
            let ghost before = views(front@);
            front.push(solutions[i].clone());
            assert(views(front@) =~= before.push(all[i as int]));
        }
        i += 1;
    }
    proof {
        lemma_front_of_is_front(all);
        lemma_front_of_members(all, all.len() as int);
        if all.len() > 0 {
            lemma_front_of_nonempty(all);
        }
    }
    front
}

} // verus!
