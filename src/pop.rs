//! A population of genomes: ramped initialisation, sorting by fitness, tournament
//! selection and retrieval of the best.
use vstd::prelude::*;

use crate::individual::{is_nan_bits, usable, valid_nodes, Evaluation, Individual};
use crate::node::Node;
use rand::rngs::StdRng;

use crate::random::random_below;
use crate::tree::{is_tree, tree_floor, tree_height};

verus! {

/// The rank of a missing or NaN training score: above every number.
pub const NAN_RANK: u64 = 0x1_0000_0000;

/// The sorting key of a training score. Numbers are ordered as `f32::total_cmp`
/// orders them (for the non-negative errors a genome gets, by magnitude); a missing
/// or NaN score ranks after every number.
pub open spec fn rank(fitness: Option<u32>) -> u64 {
    match fitness {
        Some(bits) => if is_nan_bits(bits) {
            NAN_RANK
        } else if bits & 0x8000_0000u32 != 0 {
            (!bits) as u64
        } else {
            (bits | 0x8000_0000u32) as u64
        },
        None => NAN_RANK,
    }
}

/// Computes `rank`.
pub fn fitness_rank(fitness: Option<u32>) -> (r: u64)
    ensures
        r == rank(fitness),
{
    match fitness {
        Some(bits) => if crate::individual::bits_are_nan(bits) {
            NAN_RANK
        } else if bits & 0x8000_0000u32 != 0 {
            (!bits) as u64
        } else {
            (bits | 0x8000_0000u32) as u64
        },
        None => NAN_RANK,
    }
}

/// A score ranks below `NAN_RANK` exactly when it is usable.
pub proof fn lemma_rank_usable(fitness: Option<u32>)
    ensures
        usable(fitness) <==> rank(fitness) < NAN_RANK,
{
    if let Some(bits) = fitness {
        if !is_nan_bits(bits) {
            if bits & 0x8000_0000u32 != 0 {
                assert((!bits) as u64 <= 0xffff_ffffu64) by (bit_vector);
            } else {
                assert((bits | 0x8000_0000u32) as u64 <= 0xffff_ffffu64) by (bit_vector);
            }
        }
    }
}

/// For scores with the sign bit clear, which as `f32` values are non-negative, the
/// rank follows the bit patterns, and IEEE 754 orders such numbers as their bits.
pub proof fn lemma_rank_follows_non_negative_bits(a: u32, b: u32)
    requires
        a & 0x8000_0000u32 == 0,
        b & 0x8000_0000u32 == 0,
        !is_nan_bits(a),
        !is_nan_bits(b),
    ensures
        rank(Some(a)) <= rank(Some(b)) <==> a <= b,
{
    assert(a & 0x8000_0000u32 == 0 && b & 0x8000_0000u32 == 0 ==> ((a | 0x8000_0000u32) as u64
        <= (b | 0x8000_0000u32) as u64 <==> a <= b)) by (bit_vector);
}

/// A population sorted by rank whose training scores are all non-negative numbers
/// has its scores' bit patterns, and so the scores themselves, in ascending order.
pub proof fn law_sorted_scores_ascend(s: Seq<Individual>)
    requires
        sorted_by_rank(s),
        forall|k: int|
            0 <= k < s.len() ==> usable(#[trigger] s[k].train_score()) && s[k].train_score().unwrap()
                & 0x8000_0000u32 == 0,
    ensures
        forall|a: int, b: int|
            0 <= a < b < s.len() ==> (#[trigger] s[a].train_score()).unwrap() <= (
            #[trigger] s[b].train_score()).unwrap(),
{
    assert forall|a: int, b: int| 0 <= a < b < s.len() implies (
    #[trigger] s[a].train_score()).unwrap() <= (#[trigger] s[b].train_score()).unwrap() by {
        lemma_rank_follows_non_negative_bits(
            s[a].train_score().unwrap(),
            s[b].train_score().unwrap(),
        );
    }
}

/// `p` lists each of `0..n` exactly once.
pub open spec fn is_permutation(p: Seq<int>, n: int) -> bool {
    &&& p.len() == n
    &&& forall|a: int| 0 <= a < n ==> 0 <= #[trigger] p[a] < n
    &&& forall|a: int, b: int| 0 <= a < b < n ==> #[trigger] p[a] != #[trigger] p[b]
}

/// `after` holds the members of `before` in the order `p` gives.
pub open spec fn rearranged(after: Seq<Individual>, before: Seq<Individual>, p: Seq<int>) -> bool {
    &&& is_permutation(p, before.len() as int)
    &&& after.len() == before.len()
    &&& forall|k: int| 0 <= k < p.len() ==> #[trigger] after[k].same(&before[p[k]])
}

/// `p` lists each of `0..n` exactly once (machine-sized form).
spec fn is_index_permutation(p: Seq<usize>, n: int) -> bool {
    &&& p.len() == n
    &&& forall|a: int| 0 <= a < n ==> #[trigger] p[a] < n
    &&& forall|a: int, b: int| 0 <= a < b < n ==> #[trigger] p[a] != #[trigger] p[b]
}

/// Members in ascending order of training rank.
pub open spec fn sorted_by_rank(s: Seq<Individual>) -> bool {
    forall|a: int, b: int|
        0 <= a < b < s.len() ==> rank(#[trigger] s[a].train_score()) <= rank(
            #[trigger] s[b].train_score(),
        )
}

/// `w` indexes the winner of the tournament drawn as `sample` from `m`: the first
/// drawn member of least rank.
pub open spec fn wins(m: Seq<Individual>, sample: Seq<usize>, w: int) -> bool {
    &&& 0 <= w < sample.len()
    &&& forall|k: int| 0 <= k < sample.len() ==> #[trigger] sample[k] < m.len()
    &&& forall|k: int|
        0 <= k < sample.len() ==> rank(m[sample[w] as int].train_score()) <= rank(
            m[#[trigger] sample[k] as int].train_score(),
        )
    &&& forall|k: int|
        0 <= k < w ==> rank(m[sample[w] as int].train_score()) < rank(
            m[#[trigger] sample[k] as int].train_score(),
        )
}

/// How many members ramped initialisation builds at depth `e + 1`: an equal share,
/// the remainder going to the deepest level.
pub open spec fn level_quota(e: int, layer: int, remain: int, max_depth: int) -> int {
    if e == max_depth - 1 {
        layer + remain
    } else {
        layer
    }
}

/// How many of a level's `quota` members are full-built: the larger half.
pub open spec fn full_share(quota: int) -> int {
    quota - quota / 2
}

/// Where the `j`-th member of level `e` stands.
pub open spec fn ramped_index(e: int, j: int, layer: int) -> int {
    e * layer + j
}

/// A full-built tree has every leaf at `depth`; a grow-built one has none below it.
pub open spec fn ramped_shape(x: Individual, depth: int, full: bool) -> bool {
    if full {
        tree_height(x.nodes()) == depth && tree_floor(x.nodes()) == depth
    } else {
        tree_height(x.nodes()) <= depth
    }
}

/// An ordered collection of genomes.
#[derive(Debug)]
pub struct Population {
    pub(crate) pop: Vec<Individual>,
}

impl Population {
    /// The members in order.
    pub open(crate) spec fn members(&self) -> Seq<Individual> {
        self.pop@
    }

    /// Number of members.
    pub fn size(&self) -> (r: usize)
        ensures
            r == self.members().len(),
    {
        self.pop.len()
    }

    /// Copies of the members, in order.
    pub fn get_pop(&self) -> (r: Vec<Individual>)
        ensures
            r@.len() == self.members().len(),
            forall|k: int| 0 <= k < r@.len() ==> #[trigger] r@[k].same(&self.members()[k]),
    {
        self.get_best(self.pop.len())
    }

    /// An empty population.
    pub fn new() -> (r: Population)
        ensures
            r.members().len() == 0,
    {
        Population { pop: Vec::new() }
    }

    /// Whether there are no members.
    pub fn is_empty(&self) -> (r: bool)
        ensures
            r == (self.members().len() == 0),
    {
        self.pop.len() == 0
    }

    /// Adds one member at the end.
    pub fn insert(&mut self, indiv: Individual)
        ensures
            final(self).members() == old(self).members().push(indiv),
    {
        self.pop.push(indiv);
    }

    /// Adds members at the end, in order.
    pub fn insert_multiple(&mut self, indivs: Vec<Individual>)
        ensures
            final(self).members() == old(self).members() + indivs@,
    {
        let mut v = indivs;
        self.pop.append(&mut v);
    }

    /// The best member, once sorted: the first.
    pub fn first_getter(&self) -> (r: &Individual)
        requires
            self.members().len() > 0,
        ensures
            *r == self.members()[0],
    {
        &self.pop[0]
    }

    /// Copies of the first `numb` members, or of all if there are fewer.
    pub fn get_best(&self, numb: usize) -> (r: Vec<Individual>)
        ensures
            r@.len() == if numb < self.members().len() {
                numb as int
            } else {
                self.members().len() as int
            },
            forall|k: int| 0 <= k < r@.len() ==> #[trigger] r@[k].same(&self.members()[k]),
    {
        let n = if numb < self.pop.len() {
            numb
        } else {
            self.pop.len()
        };
        let mut r: Vec<Individual> = Vec::new();
        let mut k: usize = 0;
        while k < n
            invariant
                n <= self.pop@.len(),
                k <= n,
                r@.len() == k,
                forall|j: int| 0 <= j < k ==> #[trigger] r@[j].same(&self.pop@[j]),
            decreases n - k,
        {
            r.push(self.pop[k].duplicate());
            k = k + 1;
        }
        r
    }

    /// Sorts the members by training score, lowest error first, NaN scores last.
    /// Every member must have been scored.
    pub fn fit_sort(&mut self)
        requires
            forall|k: int|
                0 <= k < old(self).members().len() ==> (#[trigger] old(self).members()[k]).train_score() is Some,
        ensures
            final(self).members().len() == old(self).members().len(),
            sorted_by_rank(final(self).members()),
            exists|p: Seq<int>| #[trigger] rearranged(final(self).members(), old(self).members(), p),
    {
        let ghost before = self.pop@;
        let n = self.pop.len();
        let mut keys: Vec<u64> = Vec::new();
        let mut perm: Vec<usize> = Vec::new();
        let mut k: usize = 0;
        while k < n
            invariant
                n == self.pop@.len(),
                self.pop@ == before,
                k <= n,
                keys@.len() == k,
                perm@.len() == k,
                forall|j: int| 0 <= j < k ==> #[trigger] keys@[j] == rank(self.pop@[j].train_score()),
                forall|j: int| 0 <= j < k ==> #[trigger] perm@[j] == j,
            decreases n - k,
        {
            keys.push(fitness_rank(self.pop[k].train_fit()));
            perm.push(k);
            k = k + 1;
        }
        let mut i: usize = 1;
        while i < n
            invariant
                n == self.pop@.len(),
                self.pop@ == before,
                n == keys@.len(),
                forall|j: int| 0 <= j < n ==> #[trigger] keys@[j] == rank(self.pop@[j].train_score()),
                is_index_permutation(perm@, n as int),
                1 <= i || n == 0,
                forall|a: int, b: int|
                    0 <= a < b < i && b < n ==> keys@[#[trigger] perm@[a] as int] <= keys@[#[trigger] perm@[b] as int],
            decreases n - i,
        {
            let mut j: usize = i;
            while j > 0 && keys[perm[j - 1]] > keys[perm[j]]
                invariant
                    n == keys@.len(),
                    is_index_permutation(perm@, n as int),
                    i < n,
                    j <= i,
                    forall|a: int, b: int|
                        0 <= a < b <= i && a != j && b != j ==> keys@[#[trigger] perm@[a] as int]
                            <= keys@[#[trigger] perm@[b] as int],
                    forall|b: int| j < b <= i ==> keys@[perm@[j as int] as int] < keys@[#[trigger] perm@[b] as int],
                decreases j,
            {
                let x = perm[j];
                let y = perm[j - 1];
                perm.set(j - 1, x);
                perm.set(j, y);
                j = j - 1;
            }
            i = i + 1;
        }
        let mut sorted: Vec<Individual> = Vec::new();
        let mut m: usize = 0;
        while m < n
            invariant
                n == self.pop@.len(),
                self.pop@ == before,
                n == keys@.len(),
                forall|j: int| 0 <= j < n ==> #[trigger] keys@[j] == rank(self.pop@[j].train_score()),
                is_index_permutation(perm@, n as int),
                forall|a: int, b: int|
                    0 <= a < b < n ==> keys@[#[trigger] perm@[a] as int] <= keys@[#[trigger] perm@[b] as int],
                m <= n,
                sorted@.len() == m,
                forall|j: int| 0 <= j < m ==> #[trigger] sorted@[j].same(&self.pop@[perm@[j] as int]),
            decreases n - m,
        {
            sorted.push(self.pop[perm[m]].duplicate());
            m = m + 1;
        }
        let ghost p = Seq::new(n as nat, |j: int| perm@[j] as int);
        self.pop = sorted;
        proof {
            assert(is_permutation(p, n as int));
            assert forall|k: int| 0 <= k < p.len() implies #[trigger] self.pop@[k].same(
                &before[p[k]],
            ) by {}
            assert forall|a: int, b: int| 0 <= a < b < self.pop@.len() implies rank(
                #[trigger] self.pop@[a].train_score(),
            ) <= rank(#[trigger] self.pop@[b].train_score()) by {
                assert(keys@[perm@[a] as int] <= keys@[perm@[b] as int]);
                assert(self.pop@[a].same(&before[perm@[a] as int]));
                assert(self.pop@[b].same(&before[perm@[b] as int]));
                assert(keys@[perm@[a] as int] == rank(before[perm@[a] as int].train_score()));
                assert(keys@[perm@[b] as int] == rank(before[perm@[b] as int].train_score()));
            }
            assert(rearranged(self.pop@, before, p));
            assert(before == old(self).members());
            assert(self.pop@ == self.members());
            assert(rearranged(self.members(), old(self).members(), p));
        }
    }

    /// The index into `sample` of its winner: the first sample member of least rank,
    /// so a usable member whenever the sample holds one.
    pub fn tournament_winner(&self, sample: &Vec<usize>) -> (w: usize)
        requires
            sample@.len() > 0,
            forall|k: int| 0 <= k < sample@.len() ==> #[trigger] sample@[k] < self.members().len(),
        ensures
            w < sample@.len(),
            forall|k: int|
                0 <= k < sample@.len() ==> rank(self.members()[sample@[w as int] as int].train_score())
                    <= rank(self.members()[#[trigger] sample@[k] as int].train_score()),
            forall|k: int|
                0 <= k < w ==> rank(self.members()[sample@[w as int] as int].train_score()) < rank(
                    self.members()[#[trigger] sample@[k] as int].train_score(),
                ),
            wins(self.members(), sample@, w as int),
    {
        let mut w: usize = 0;
        let mut best = fitness_rank(self.pop[sample[0]].train_fit());
        let mut k: usize = 1;
        while k < sample.len()
            invariant
                1 <= k <= sample@.len(),
                w < k,
                forall|j: int| 0 <= j < sample@.len() ==> #[trigger] sample@[j] < self.pop@.len(),
                best == rank(self.pop@[sample@[w as int] as int].train_score()),
                forall|j: int|
                    0 <= j < k ==> best <= rank(self.pop@[#[trigger] sample@[j] as int].train_score()),
                forall|j: int|
                    0 <= j < w ==> best < rank(self.pop@[#[trigger] sample@[j] as int].train_score()),
            decreases sample@.len() - k,
        {
            let r = fitness_rank(self.pop[sample[k]].train_fit());
            if r < best {
                best = r;
                w = k;
            }
            k = k + 1;
        }
        w
    }

    /// Tournament selection: `size` members drawn uniformly with replacement; the
    /// winner is the best of them by training score, a usable one whenever the draw
    /// holds one. A copy of the winner comes back.
    pub fn tournament(&self, rng: &mut StdRng, size: usize) -> (r: Individual)
        requires
            self.members().len() > 0,
            size > 0,
        ensures
            exists|j: int| 0 <= j < self.members().len() && r.same(&#[trigger] self.members()[j]),
            exists|s: Seq<usize>, w: int|
                s.len() == size && #[trigger] wins(self.members(), s, w) && r.same(
                    &self.members()[s[w] as int],
                ),
    {
        let n = self.pop.len();
        let mut sample: Vec<usize> = Vec::new();
        while sample.len() < size
            invariant
                n == self.pop@.len(),
                n > 0,
                sample@.len() <= size,
                forall|k: int| 0 <= k < sample@.len() ==> #[trigger] sample@[k] < n,
            decreases size - sample@.len(),
        {
            sample.push(random_below(rng, n));
        }
        let w = self.tournament_winner(&sample);
        let r = self.pop[sample[w]].duplicate();
        proof {
            assert(r.same(&self.pop@[sample@[w as int] as int]));
            assert(wins(self.members(), sample@, w as int));
        }
        r
    }

    /// Ramped half-and-half initialisation: `psize` members spread over depths
    /// `1..=max_depth`, each depth holding about as many full-built as grow-built trees,
    /// the remainder going to the deepest level. Each member is scored and its depth
    /// recorded.
    pub fn ramped<F: Fn(&Vec<Node>) -> Evaluation>(
        rng: &mut StdRng,
        psize: usize,
        max_depth: usize,
        dimensions: usize,
        evaluate: &F,
    ) -> (r: Population)
        requires
            max_depth > 0,
            dimensions > 0,
            forall|v: &Vec<Node>| #[trigger] evaluate.requires((v,)),
        ensures
            r.members().len() == psize,
            forall|k: int|
                0 <= k < r.members().len() ==> initial_member(
                    #[trigger] r.members()[k],
                    max_depth,
                    dimensions,
                    evaluate,
                ),
            forall|e: int, j: int|
                0 <= e < max_depth && 0 <= j < level_quota(
                    e,
                    (psize / max_depth) as int,
                    (psize % max_depth) as int,
                    max_depth as int,
                ) ==> ramped_shape(
                    r.members()[#[trigger] ramped_index(e, j, (psize / max_depth) as int)],
                    e + 1,
                    j < full_share(level_quota(
                        e,
                        (psize / max_depth) as int,
                        (psize % max_depth) as int,
                        max_depth as int,
                    )),
                ),
    {
        let layer = psize / max_depth;
        let remain = psize % max_depth;
        proof {
            vstd::arithmetic::div_mod::lemma_fundamental_div_mod(psize as int, max_depth as int);
        }
        let mut pop = Population::new();
        let mut d: usize = 0;
        while d < max_depth
            invariant
                max_depth > 0,
                dimensions > 0,
                forall|v: &Vec<Node>| #[trigger] evaluate.requires((v,)),
                layer == psize / max_depth,
                remain == psize % max_depth,
                psize == max_depth * layer + remain,
                d <= max_depth,
                pop.pop@.len() == d * layer + if d == max_depth {
                    remain as int
                } else {
                    0
                },
                forall|k: int|
                    0 <= k < pop.pop@.len() ==> initial_member(
                        #[trigger] pop.pop@[k],
                        max_depth,
                        dimensions,
                        evaluate,
                    ),
                forall|e: int, j: int|
                    0 <= e < d && 0 <= j < level_quota(e, layer as int, remain as int, max_depth as int)
                        ==> ramped_shape(
                        pop.pop@[#[trigger] ramped_index(e, j, layer as int)],
                        e + 1,
                        j < full_share(level_quota(e, layer as int, remain as int, max_depth as int)),
                    ),
            decreases max_depth - d,
        {
            proof {
                assert(d * layer + layer <= max_depth * layer) by (nonlinear_arith)
                    requires
                        d < max_depth,
                ;
                assert(d * layer + layer + remain <= psize);
            }
            let quota = if d + 1 == max_depth {
                layer + remain
            } else {
                layer
            };
            let numb_pop_grow = quota / 2;
            let numb_pop_full = quota - numb_pop_grow;
            let depth = d + 1;
            let mut made: usize = 0;
            while made < quota
                invariant
                    dimensions > 0,
                    depth <= max_depth,
                    forall|v: &Vec<Node>| #[trigger] evaluate.requires((v,)),
                    numb_pop_full <= quota,
                    made <= quota,
                    pop.pop@.len() == d * layer + made,
                    forall|k: int|
                        0 <= k < pop.pop@.len() ==> initial_member(
                            #[trigger] pop.pop@[k],
                            max_depth,
                            dimensions,
                            evaluate,
                        ),
                    d < max_depth,
                    depth == d + 1,
                    layer == psize / max_depth,
                    remain == psize % max_depth,
                    quota == level_quota(d as int, layer as int, remain as int, max_depth as int),
                    numb_pop_full == full_share(quota as int),
                    forall|e: int, j: int|
                        0 <= e < d && 0 <= j < level_quota(e, layer as int, remain as int, max_depth as int)
                            ==> ramped_shape(
                            pop.pop@[#[trigger] ramped_index(e, j, layer as int)],
                            e + 1,
                            j < full_share(level_quota(e, layer as int, remain as int, max_depth as int)),
                        ),
                    forall|j: int|
                        0 <= j < made ==> ramped_shape(
                            pop.pop@[#[trigger] ramped_index(d as int, j, layer as int)],
                            d + 1,
                            j < numb_pop_full,
                        ),
                decreases quota - made,
            {
                let x = if made < numb_pop_full {
                    Individual::full(rng, depth, dimensions)
                } else {
                    Individual::grow(rng, depth, dimensions)
                };
                let x = scored(x, evaluate);
                let ghost before = pop.pop@;
                pop.pop.push(x);
                proof {
                    assert forall|e: int, j: int|
                        0 <= e < d && 0 <= j < level_quota(e, layer as int, remain as int, max_depth as int)
                            implies ramped_index(e, j, layer as int) < before.len() by {
                        vstd::arithmetic::mul::lemma_mul_inequality(e + 1, d as int, layer as int);
                        assert((e + 1) * layer == e * layer + layer) by (nonlinear_arith);
                    }
                    assert(ramped_index(d as int, made as int, layer as int) == before.len());
                }
                made = made + 1;
            }
            proof {
                assert(d * layer + layer == (d + 1) * layer) by (nonlinear_arith);
            }
            d = d + 1;
        }
        pop
    }
}

/// A member as ramped initialisation makes it: a tree over `dimensions` inputs no
/// deeper than `max_depth`, scored, with its depth recorded.
pub open spec fn initial_member<F: Fn(&Vec<Node>) -> Evaluation>(
    x: Individual,
    max_depth: usize,
    dimensions: usize,
    evaluate: &F,
) -> bool {
    &&& scored_by(x, evaluate)
    &&& is_tree(x.nodes())
    &&& tree_height(x.nodes()) <= max_depth
    &&& valid_nodes(x.nodes(), dimensions)
    &&& x.train_score() is Some
    &&& x.test_score() is Some
    &&& x.cached_depth() is Some
    &&& x.cached_depth().unwrap() == tree_height(x.nodes())
}

/// `x`'s scores are what `evaluate` gave for its nodes.
pub open spec fn scored_by<F: Fn(&Vec<Node>) -> Evaluation>(x: Individual, evaluate: &F) -> bool {
    &&& x.train_score() is Some
    &&& x.test_score() is Some
    &&& exists|v: &Vec<Node>|
        v@ == x.nodes() && #[trigger] evaluate.ensures(
            (v,),
            (Evaluation { train: x.train_score().unwrap(), test: x.test_score().unwrap() }),
        )
}

/// `x` scored by `evaluate`, with its depth recorded.
fn scored<F: Fn(&Vec<Node>) -> Evaluation>(x: Individual, evaluate: &F) -> (r: Individual)
    requires
        is_tree(x.nodes()),
        forall|v: &Vec<Node>| #[trigger] evaluate.requires((v,)),
    ensures
        r.nodes() == x.nodes(),
        r.train_score() is Some,
        r.test_score() is Some,
        r.cached_depth() is Some,
        r.cached_depth().unwrap() == tree_height(x.nodes()),
        scored_by(r, evaluate),
{
    let mut x = x;
    let ghost g = x.genome();
    x.eval_fitness(evaluate);
    x.depth_calc();
    proof {
        assert(g@ == x.nodes());
        assert(evaluate.ensures(
            (&g,),
            (Evaluation { train: x.train_score().unwrap(), test: x.test_score().unwrap() }),
        ));
    }
    x
}

} // verus!
