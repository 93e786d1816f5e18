//! The generational loop and its settings.
use vstd::prelude::*;

use crate::genetics::{single_point_mut, subtree_cross, MAX_DEPTH};
use crate::individual::{is_nan_bits, usable, Evaluation, Individual};
use crate::node::Node;
use crate::pop::{initial_member, lemma_rank_usable, rank, sorted_by_rank, Population, NAN_RANK};
use rand::rngs::StdRng;

use crate::random::random_ratio;
use crate::tree::{is_tree, tree_height};

verus! {

/// Probabilities are given in parts per million.
pub const CHANCE_SCALE: u32 = 1_000_000;

/// Maximum depth of the trees of a freshly initialised population.
pub const INITIAL_DEPTH: usize = 5;

/// Tournaments tried for one parent before falling back to the best usable member.
pub const SELECTION_ATTEMPTS: usize = 1000;

/// Why a run stopped early.
#[derive(Clone, Copy, Debug, PartialEq, Eq, Structural)]
pub enum GpError {
    /// The population holds no member with a usable training score, so no parent can
    /// be selected.
    NoUsableParent,
}

/// Whether some member of `s` has a usable training score.
pub open spec fn has_usable(s: Seq<Individual>) -> bool {
    exists|k: int| 0 <= k < s.len() && usable(#[trigger] s[k].train_score())
}

/// A member as the loop keeps them: a complete tree with both scores and its depth,
/// within `MAX_DEPTH`, recorded.
pub open spec fn settled_member(x: Individual) -> bool {
    &&& is_tree(x.nodes())
    &&& x.train_score() is Some
    &&& x.test_score() is Some
    &&& x.cached_depth() is Some
    &&& x.cached_depth().unwrap() == tree_height(x.nodes())
    &&& tree_height(x.nodes()) <= MAX_DEPTH
}

/// Every member of `s` is a settled member.
pub open spec fn all_settled(s: Seq<Individual>) -> bool {
    forall|k: int| 0 <= k < s.len() ==> settled_member(#[trigger] s[k])
}

/// `evaluate` never gives a NaN training score.
pub open spec fn never_nan<F: Fn(&Vec<Node>) -> Evaluation>(evaluate: &F) -> bool {
    forall|v: &Vec<Node>, e: Evaluation| #[trigger] evaluate.ensures((v,), e) ==> !is_nan_bits(e.train)
}

/// Every member of `s` is a settled member with a usable training score.
pub open spec fn all_usable_members(s: Seq<Individual>) -> bool {
    forall|k: int|
        0 <= k < s.len() ==> settled_member(#[trigger] s[k]) && usable(s[k].train_score())
}

/// The state of a run: the population and the settings of the search.
pub struct Gp {
    pub(crate) dimensions: usize,
    pub(crate) cross_chance: u32,
    pub(crate) mut_chance: u32,
    pub(crate) population: Population,
    pub(crate) population_size: usize,
    pub(crate) tournament_size: usize,
}

impl Gp {
    /// The current population.
    pub open(crate) spec fn members(&self) -> Seq<Individual> {
        self.population.members()
    }

    /// The settings are in range and every member is a complete tree.
    pub open(crate) spec fn well_formed(&self) -> bool {
        &&& self.dimensions > 0
        &&& self.tournament_size > 0
        &&& self.cross_chance <= CHANCE_SCALE
        &&& self.mut_chance <= CHANCE_SCALE
        &&& all_settled(self.members())
    }

    /// Number of input columns of the dataset.
    pub open(crate) spec fn input_count(&self) -> usize {
        self.dimensions
    }

    /// Number of members a fresh population gets.
    pub open(crate) spec fn target_size(&self) -> usize {
        self.population_size
    }

    /// A run over a dataset of `dimensions` inputs, with an empty population of
    /// target size 200, tournaments of 3, crossover chance 0.8 and mutation chance 0.2.
    pub fn new(dimensions: usize) -> (r: Gp)
        requires
            dimensions > 0,
        ensures
            r.well_formed(),
            r.members().len() == 0,
            r.target_size() == 200,
    {
        Gp {
            dimensions,
            cross_chance: 800_000,
            mut_chance: 200_000,
            population: Population::new(),
            population_size: 200,
            tournament_size: 3,
        }
    }

    /// Sets the size a fresh population gets.
    pub fn set_pop(self, pop_size: usize) -> (r: Gp)
        requires
            self.well_formed(),
        ensures
            r.well_formed(),
            r.target_size() == pop_size,
            r.members() == self.members(),
    {
        let mut s = self;
        s.population_size = pop_size;
        s
    }

    /// Sets the tournament size.
    pub fn set_tourn_size(self, tourn: usize) -> (r: Gp)
        requires
            self.well_formed(),
            tourn > 0,
        ensures
            r.well_formed(),
            r.target_size() == self.target_size(),
            r.members() == self.members(),
    {
        let mut s = self;
        s.tournament_size = tourn;
        s
    }

    /// Sets the mutation chance, in parts per million.
    pub fn set_mut_chance(self, mut_chance: u32) -> (r: Gp)
        requires
            self.well_formed(),
            mut_chance <= CHANCE_SCALE,
        ensures
            r.well_formed(),
            r.target_size() == self.target_size(),
            r.members() == self.members(),
    {
        let mut s = self;
        s.mut_chance = mut_chance;
        s
    }

    /// Sets the crossover chance, in parts per million.
    pub fn set_cross_chance(self, cross_chance: u32) -> (r: Gp)
        requires
            self.well_formed(),
            cross_chance <= CHANCE_SCALE,
        ensures
            r.well_formed(),
            r.target_size() == self.target_size(),
            r.members() == self.members(),
    {
        let mut s = self;
        s.cross_chance = cross_chance;
        s
    }

    /// The current population.
    pub fn population(&self) -> (r: &Population)
        ensures
            r.members() == self.members(),
    {
        &self.population
    }

    /// Replaces the population with a ramped half-and-half one of the target size,
    /// with trees up to `INITIAL_DEPTH` deep.
    pub fn init_pop<F: Fn(&Vec<Node>) -> Evaluation>(&mut self, rng: &mut StdRng, evaluate: &F)
        requires
            old(self).well_formed(),
            forall|v: &Vec<Node>| #[trigger] evaluate.requires((v,)),
        ensures
            final(self).well_formed(),
            final(self).members().len() == old(self).target_size(),
            final(self).target_size() == old(self).target_size(),
            final(self).input_count() == old(self).input_count(),
            forall|k: int|
                0 <= k < final(self).members().len() ==> initial_member(
                    #[trigger] final(self).members()[k],
                    INITIAL_DEPTH,
                    old(self).input_count(),
                    evaluate,
                ),
    {
        self.population = Population::ramped(
            rng,
            self.population_size,
            INITIAL_DEPTH,
            self.dimensions,
            evaluate,
        );
        proof {
            assert forall|k: int| 0 <= k < self.members().len() implies settled_member(
                #[trigger] self.members()[k],
            ) by {
                assert(initial_member(self.members()[k], INITIAL_DEPTH, self.dimensions, evaluate));
            }
        }
    }

    /// A parent by repeated tournaments until the winner has a usable training score;
    /// after `SELECTION_ATTEMPTS` tries, the best usable member.
    fn select_parent(&self, rng: &mut StdRng) -> (r: Individual)
        requires
            self.well_formed(),
            has_usable(self.members()),
        ensures
            usable(r.train_score()),
            settled_member(r),
    {
        let mut attempts: usize = 0;
        while attempts < SELECTION_ATTEMPTS
            invariant
                self.well_formed(),
                has_usable(self.members()),
            decreases SELECTION_ATTEMPTS - attempts,
        {
            let c = self.population.tournament(rng, self.tournament_size);
            if let Some(bits) = c.train_fit() {
                if !crate::individual::bits_are_nan(bits) {
                    return c;
                }
            }
            attempts = attempts + 1;
        }
        let n = self.population.size();
        let mut all: Vec<usize> = Vec::new();
        let mut k: usize = 0;
        while k < n
            invariant
                n == self.members().len(),
                k <= n,
                all@.len() == k,
                forall|j: int| 0 <= j < k ==> #[trigger] all@[j] == j,
            decreases n - k,
        {
            all.push(k);
            k = k + 1;
        }
        let w = self.population.tournament_winner(&all);
        proof {
            let m = self.members();
            let j = choose|j: int| 0 <= j < m.len() && usable(#[trigger] m[j].train_score());
            assert(all@[j] == j);
            lemma_rank_usable(m[j].train_score());
            lemma_rank_usable(m[all@[w as int] as int].train_score());
        }
        self.population.pop[all[w]].duplicate()
    }

    /// One offspring: a crossover of two selected parents with the crossover chance,
    /// else a mutation of one.
    fn offspring<F: Fn(&Vec<Node>) -> Evaluation>(&self, rng: &mut StdRng, evaluate: &F) -> (r: Individual)
        requires
            self.well_formed(),
            has_usable(self.members()),
            forall|v: &Vec<Node>| #[trigger] evaluate.requires((v,)),
        ensures
            usable(r.train_score()),
            settled_member(r),
    {
        let parent1 = self.select_parent(rng);
        if random_ratio(rng, self.cross_chance, CHANCE_SCALE) {
            let parent2 = self.select_parent(rng);
            subtree_cross(rng, &parent1, &parent2, evaluate)
        } else {
            single_point_mut(rng, &parent1, self.dimensions, evaluate)
        }
    }

    /// Whether some member has a usable training score.
    pub fn has_usable_member(&self) -> (r: bool)
        ensures
            r == has_usable(self.members()),
    {
        let n = self.population.size();
        let mut k: usize = 0;
        while k < n
            invariant
                n == self.members().len(),
                k <= n,
                forall|j: int| 0 <= j < k ==> !usable(#[trigger] self.members()[j].train_score()),
            decreases n - k,
        {
            if let Some(bits) = self.population.pop[k].train_fit() {
                if !crate::individual::bits_are_nan(bits) {
                    return true;
                }
            }
            k = k + 1;
        }
        false
    }

    /// Runs `numb_gens` generations. An empty population is first initialised. Each
    /// generation breeds as many offspring as there are members, replaces the
    /// population with them, sorts it by training score and hands it to `report`
    /// with the generation's number, counted from 0.
    pub fn evolve<F, R>(
        &mut self,
        rng: &mut StdRng,
        numb_gens: usize,
        evaluate: &F,
        report: &R,
    ) -> (r: Result<
        (),
        GpError,
    >) where F: Fn(&Vec<Node>) -> Evaluation, R: Fn(&Population, usize)
        requires
            old(self).well_formed(),
            forall|v: &Vec<Node>| #[trigger] evaluate.requires((v,)),
            forall|p: &Population, g: usize| #[trigger] report.requires((p, g)),
        ensures
            final(self).well_formed(),
            all_settled(final(self).members()),
            final(self).target_size() == old(self).target_size(),
            numb_gens == 0 ==> final(self).members() == old(self).members() && r is Ok,
            numb_gens > 0 && old(self).members().len() > 0 ==> final(self).members().len()
                == old(self).members().len(),
            numb_gens > 0 && old(self).members().len() == 0 ==> final(self).members().len()
                == old(self).target_size(),
            r is Ok && numb_gens > 0 ==> sorted_by_rank(final(self).members()) && all_usable_members(
                final(self).members(),
            ),
            r is Err ==> numb_gens > 0 && !has_usable(final(self).members()),
            numb_gens > 0 && old(self).members().len() > 0 && has_usable(old(self).members())
                ==> r is Ok,
            numb_gens > 0 && old(self).members().len() == 0 && old(self).target_size() > 0
                && never_nan(evaluate) ==> r is Ok,
    {
        let ghost start_len = self.members().len();
        if self.population.size() == 0 && numb_gens > 0 {
            self.init_pop(rng, evaluate);
        }
        let ghost first_len = self.members().len();
        proof {
            if start_len == 0 && numb_gens > 0 && first_len > 0 && never_nan(evaluate) {
                let m0 = self.members()[0];
                assert(initial_member(m0, INITIAL_DEPTH, self.dimensions, evaluate));
                assert(usable(m0.train_score()));
            }
        }
        let mut x: usize = 0;
        while x < numb_gens
            invariant
                self.well_formed(),
                self.target_size() == old(self).target_size(),
                forall|v: &Vec<Node>| #[trigger] evaluate.requires((v,)),
                forall|p: &Population, g: usize| #[trigger] report.requires((p, g)),
                x <= numb_gens,
                start_len == old(self).members().len(),
                self.members().len() == first_len,
                numb_gens > 0 && start_len > 0 ==> first_len == start_len,
                numb_gens > 0 && start_len == 0 ==> first_len == old(self).target_size(),
                start_len > 0 && has_usable(old(self).members()) ==> has_usable(self.members()),
                x > 0 ==> sorted_by_rank(self.members()) && all_usable_members(self.members()),
                x > 0 ==> first_len > 0,
                numb_gens == 0 ==> self.members() == old(self).members(),
                start_len == 0 && numb_gens > 0 && old(self).target_size() > 0 && never_nan(evaluate)
                    ==> has_usable(self.members()),
            decreases numb_gens - x,
        {
            if !self.has_usable_member() {
                return Err(GpError::NoUsableParent);
            }
            let mut children = Population::new();
            while children.size() < self.population.size()
                invariant
                    self.well_formed(),
                    has_usable(self.members()),
                    forall|v: &Vec<Node>| #[trigger] evaluate.requires((v,)),
                    self.members().len() == first_len,
                    children.members().len() <= first_len,
                    all_usable_members(children.members()),
                decreases first_len - children.members().len(),
            {
                let child = self.offspring(rng, evaluate);
                children.insert(child);
            }
            proof {
                assert(has_usable(self.members()));
            }
            self.population = children;
            self.population.fit_sort();
            proof {
                let m = self.members();
                assert forall|k: int| 0 <= k < m.len() implies settled_member(#[trigger] m[k])
                    && usable(m[k].train_score()) by {
                    let p = choose|p: Seq<int>| #[trigger]
                        crate::pop::rearranged(m, children.members(), p);
                    assert(m[k].same(&children.members()[p[k]]));
                }
                if m.len() > 0 {
                    assert(settled_member(m[0]));
                    assert(usable(m[0].train_score()));
                }
            }
            report(&self.population, x);
            x = x + 1;
        }
        Ok(())
    }
}

} // verus!
