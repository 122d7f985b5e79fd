//! The search with the hypergrid selection, set up once for a graph and run on demand.

use crate::evolutionary::{all_sound, front_after, Run};
use crate::error::InputError;
use crate::fitness::Objectives;
use crate::graph::{Graph, Partition};
use crate::partition::is_normal_form_of;
use crate::search::{
    check, evolve, fault_of, max_q_member, max_q_partition, min_max_member, min_max_partition,
    normalized_front, run_of, Settings,
};
use crate::selection::SelectionStrategy;
use crate::solution::{is_front, views, Solution};
use vstd::prelude::*;

verus! {

/// A search that is ready to run: a graph and the settings, which were
/// checked when it was set up.
pub struct MocdPesaII {
    graph: Graph,
    debug_level: i8,
    settings: Settings,
}

impl MocdPesaII {
    #[verifier::type_invariant]
    spec fn valid(&self) -> bool {
        &&& self.graph.wf()
        &&& fault_of(&self.graph, self.settings) is None
        &&& self.settings.strategy == SelectionStrategy::Hypergrid
    }

    /// How much this search reports of its progress.
    pub closed spec fn verbosity(&self) -> i8 {
        self.debug_level
    }

    /// The settings of this search.
    pub closed spec fn settings(&self) -> Settings {
        self.settings
    }

    /// What a run of this search depends on.
    pub closed spec fn run(&self) -> Run {
        run_of(&self.graph, self.settings)
    }

    /// The number of generations of a run.
    pub open spec fn generations(&self) -> nat {
        self.settings().num_gens as nat
    }

    /// The number of randomized graphs that the min-max policy compares
    /// with.
    pub open spec fn networks(&self) -> nat {
        self.settings().rand_networks as nat
    }

    /// Sets a search up. The rates are given in parts per million. The
    /// settings are checked first, and a search comes back only where
    /// nothing is wrong with them.
    pub fn new(
        graph: Graph,
        debug_level: i8,
        rand_networks: usize,
        pop_size: usize,
        num_gens: usize,
        cross_rate: u32,
        mut_rate: u32,
        seed: u64,
    ) -> (outcome: Result<Self, InputError>)
        requires
            graph.wf(),
        ensures
            match fault_of(
                &graph,
                (Settings {
                    strategy: SelectionStrategy::Hypergrid,
                    rand_networks,
                    pop_size,
                    num_gens,
                    cross_rate,
                    mut_rate,
                    seed,
                }),
            ) {
                Some(fault) => outcome matches Err(error) && error == fault,
                None => outcome matches Ok(search) && search.settings() == (Settings {
                    strategy: SelectionStrategy::Hypergrid,
                    rand_networks,
                    pop_size,
                    num_gens,
                    cross_rate,
                    mut_rate,
                    seed,
                }) && search.run() == run_of(&graph, search.settings()) && search.verbosity()
                    == debug_level,
            },
    {
        let settings = Settings {
            strategy: SelectionStrategy::Hypergrid,
            rand_networks,
            pop_size,
            num_gens,
            cross_rate,
            mut_rate,
            seed,
        };
        match check(&graph, &settings) {
            Err(error) => Err(error),
            Ok(()) => Ok(MocdPesaII { graph, debug_level, settings }),
        }
    }

    /// Runs the search and returns its Pareto front: at least one and at
    /// most `pop_size` evaluated partitions of the graph's nodes, none of
    /// which dominates another.
    pub fn envolve(&self) -> (front: Vec<Solution>)
        ensures
            views(front@) == front_after(self.run(), self.generations()),
            is_front(views(front@)),
            1 <= front@.len() <= self.settings().pop_size,
            all_sound(self.run().nodes, self.run().edges, views(front@)),
    {
        proof {
            use_type_invariant(self);
        }
        evolve(&self.graph, &self.settings)
    }

    /// Runs the search and returns its front: each member's partition in
    /// normal form, with the member's objectives.
    pub fn generate_pareto_front(&self) -> (front: Vec<(Partition, Objectives)>)
        ensures
            front@.len() == front_after(self.run(), self.generations()).len(),
            1 <= front@.len() <= self.settings().pop_size,
            forall|i: int|
                0 <= i < front@.len() ==> is_normal_form_of(
                    (#[trigger] front@[i]).0@,
                    front_after(self.run(), self.generations())[i].partition,
                ) && front@[i].1 == front_after(self.run(), self.generations())[i].objectives
                    && front@[i].0@.dom() == self.run().nodes,
    {
        proof {
            use_type_invariant(self);
        }
        normalized_front(&self.graph, &self.settings)
    }

    /// Runs the search and returns, in normal form, the partition of the
    /// member of the front that has the highest modularity.
    pub fn max_q(&self) -> (partition: Partition)
        ensures
            is_normal_form_of(
                partition@,
                max_q_member(self.run(), self.generations()).partition,
            ),
            partition@.dom() == self.run().nodes,
    {
        proof {
            use_type_invariant(self);
        }
        max_q_partition(&self.graph, &self.settings)
    }

    /// Runs the search on the graph and on `rand_networks` randomized
    /// graphs of the same degrees, and returns, in normal form, the
    /// partition of the member of the front that lies farthest from the
    /// fronts of the randomized graphs.
    pub fn min_max(&self) -> (partition: Partition)
        ensures
            is_normal_form_of(
                partition@,
                min_max_member(self.run(), self.generations(), self.networks()).partition,
            ),
            partition@.dom() == self.run().nodes,
    {
        proof {
            use_type_invariant(self);
        }
        min_max_partition(&self.graph, &self.settings)
    }

    pub fn graph(&self) -> (graph: &Graph)
        ensures
            graph.wf(),
            graph.nodes@ == self.run().nodes,
            graph.edges@ == self.run().edges,
    {
        proof {
            use_type_invariant(self);
        }
        &self.graph
    }

    pub fn debug_level(&self) -> (level: i8)
        ensures
            level == self.verbosity(),
    {
        self.debug_level
    }

    pub fn rand_networks(&self) -> (count: usize)
        ensures
            count == self.settings().rand_networks,
    {
        self.settings.rand_networks
    }

    pub fn pop_size(&self) -> (size: usize)
        ensures
            size == self.settings().pop_size,
    {
        self.settings.pop_size
    }

    pub fn num_gens(&self) -> (count: usize)
        ensures
            count == self.settings().num_gens,
    {
        self.settings.num_gens
    }

    pub fn cross_rate(&self) -> (rate: u32)
        ensures
            rate == self.settings().cross_rate,
    {
        self.settings.cross_rate
    }

    pub fn mut_rate(&self) -> (rate: u32)
        ensures
            rate == self.settings().mut_rate,
    {
        self.settings.mut_rate
    }

    pub fn seed(&self) -> (seed: u64)
        ensures
            seed == self.settings().seed,
    {
        self.settings.seed
    }
}

} // verus!
