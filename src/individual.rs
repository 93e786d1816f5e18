//! A candidate program: a genome in prefix order with its cached scores and shape.
use vstd::prelude::*;

use crate::node::{arity_of, valid_node, Node};
use rand::rngs::StdRng;

use crate::random::random_coin;
use crate::tree::{
    is_tree, lemma_subtree_size, subtree_size, lemma_join_binary, lemma_join_unary, lemma_leaf, lemma_suffix_owes, subtree_len,
    subtree_shape, tree_floor, tree_height, render_subtree, render_tree,
};

verus! {

/// The scores of a genome on the two splits of a dataset: each is the bit pattern of
/// an `f32` root-mean-squared error, which may be NaN.
#[derive(Clone, Copy, Debug, PartialEq, Eq, Structural)]
pub struct Evaluation {
    pub train: u32,
    pub test: u32,
}

/// Whether every node of `s` may stand in a genome over `dimensions` inputs.
pub open spec fn valid_nodes(s: Seq<Node>, dimensions: usize) -> bool {
    forall|k: int| 0 <= k < s.len() ==> valid_node(#[trigger] s[k], dimensions)
}

/// Whether the bit pattern `bits` is an `f32` NaN: all exponent bits set and a
/// non-zero fraction.
pub open spec fn is_nan_bits(bits: u32) -> bool {
    (bits & 0x7f80_0000u32) == 0x7f80_0000u32 && (bits & 0x007f_ffffu32) != 0
}

/// Whether a training score is present and a number.
pub open spec fn usable(fitness: Option<u32>) -> bool {
    match fitness {
        Some(bits) => !is_nan_bits(bits),
        None => false,
    }
}

/// Tests whether the bit pattern `bits` is an `f32` NaN.
pub fn bits_are_nan(bits: u32) -> (r: bool)
    ensures
        r == is_nan_bits(bits),
{
    (bits & 0x7f80_0000u32) == 0x7f80_0000u32 && (bits & 0x007f_ffffu32) != 0
}

/// An expression tree flattened in prefix order, with its cached derived values.
#[derive(Clone, Debug)]
pub struct Individual {
    pub(crate) chromosome: Vec<Node>,
    pub(crate) train_fitness: Option<u32>,
    pub(crate) test_fitness: Option<u32>,
    pub(crate) size: Option<usize>,
    pub(crate) depth: Option<usize>,
}

/// The nodes of a fresh tree built by the full method: a function at every depth
/// below `depth_left`, a terminal at that depth.
fn full_nodes(rng: &mut StdRng, depth_left: usize, dimensions: usize) -> (r: Vec<Node>)
    requires
        dimensions > 0,
    ensures
        is_tree(r@),
        tree_height(r@) == depth_left,
        tree_floor(r@) == depth_left,
        valid_nodes(r@, dimensions),
    decreases depth_left,
{
    if depth_left == 0 {
        let n = terminal(rng, dimensions);
        let r = vec![n];
        proof {
            lemma_leaf(n);
            assert(r@ =~= seq![n]);
        }
        return r;
    }
    let f = Node::get_function(rng);
    let mut r = vec![f];
    let mut c1 = full_nodes(rng, depth_left - 1, dimensions);
    let ghost g1 = c1@;
    r.append(&mut c1);
    if f.arity() == 1 {
        proof {
            lemma_join_unary(f, g1);
            assert(r@ =~= seq![f] + g1);
        }
        return r;
    }
    let mut c2 = full_nodes(rng, depth_left - 1, dimensions);
    let ghost g2 = c2@;
    r.append(&mut c2);
    proof {
        lemma_join_binary(f, g1, g2);
        assert(r@ =~= seq![f] + g1 + g2);
    }
    r
}

/// The nodes of a fresh tree built by the grow method: below `depth_left` a function
/// or a terminal with even odds, at that depth a terminal.
fn grow_nodes(rng: &mut StdRng, depth_left: usize, dimensions: usize) -> (r: Vec<Node>)
    requires
        dimensions > 0,
    ensures
        is_tree(r@),
        tree_height(r@) <= depth_left,
        valid_nodes(r@, dimensions),
    decreases depth_left,
{
    if depth_left == 0 || !random_coin(rng) {
        let n = terminal(rng, dimensions);
        let r = vec![n];
        proof {
            lemma_leaf(n);
            assert(r@ =~= seq![n]);
        }
        return r;
    }
    let f = Node::get_function(rng);
    let mut r = vec![f];
    let mut c1 = grow_nodes(rng, depth_left - 1, dimensions);
    let ghost g1 = c1@;
    r.append(&mut c1);
    if f.arity() == 1 {
        proof {
            lemma_join_unary(f, g1);
            assert(r@ =~= seq![f] + g1);
        }
        return r;
    }
    let mut c2 = grow_nodes(rng, depth_left - 1, dimensions);
    let ghost g2 = c2@;
    r.append(&mut c2);
    proof {
        lemma_join_binary(f, g1, g2);
        assert(r@ =~= seq![f] + g1 + g2);
    }
    r
}

/// A terminal: an ephemeral constant or an input, with even odds.
fn terminal(rng: &mut StdRng, dimensions: usize) -> (r: Node)
    requires
        dimensions > 0,
    ensures
        arity_of(r) == 0,
        valid_node(r, dimensions),
{
    if random_coin(rng) {
        Node::get_ephemeral(rng)
    } else {
        Node::get_random_input(rng, dimensions)
    }
}

/// The nodes of `s` from `from` up to `to`.
fn copy_range(s: &Vec<Node>, from: usize, to: usize) -> (r: Vec<Node>)
    requires
        from <= to <= s@.len(),
    ensures
        r@ == s@.subrange(from as int, to as int),
{
    let mut r: Vec<Node> = Vec::new();
    let mut k = from;
    while k < to
        invariant
            from <= k <= to <= s@.len(),
            r@ == s@.subrange(from as int, k as int),
        decreases to - k,
    {
        r.push(s[k]);
        k = k + 1;
        proof {
            assert(r@ =~= s@.subrange(from as int, k as int));
        }
    }
    r
}

impl Individual {
    /// The genome's nodes in prefix order.
    pub open(crate) spec fn nodes(&self) -> Seq<Node> {
        self.chromosome@
    }

    /// The node vector itself.
    pub open(crate) spec fn genome(&self) -> Vec<Node> {
        self.chromosome
    }

    /// The cached training score.
    pub open(crate) spec fn train_score(&self) -> Option<u32> {
        self.train_fitness
    }

    /// The cached test score.
    pub open(crate) spec fn test_score(&self) -> Option<u32> {
        self.test_fitness
    }

    /// The cached node count.
    pub open(crate) spec fn cached_size(&self) -> Option<usize> {
        self.size
    }

    /// The cached depth.
    pub open(crate) spec fn cached_depth(&self) -> Option<usize> {
        self.depth
    }

    /// Either empty, or one complete tree.
    pub open(crate) spec fn well_formed(&self) -> bool {
        self.nodes().len() == 0 || is_tree(self.nodes())
    }

    /// The same genome with the same cached values.
    pub open(crate) spec fn same(&self, other: &Individual) -> bool {
        &&& self.nodes() == other.nodes()
        &&& self.train_fitness == other.train_fitness
        &&& self.test_fitness == other.test_fitness
        &&& self.size == other.size
        &&& self.depth == other.depth
    }

    /// A copy of the genome and its cached values.
    pub fn duplicate(&self) -> (r: Individual)
        ensures
            r.same(self),
    {
        proof {
            assert(self.chromosome@.subrange(0, self.chromosome@.len() as int) =~= self.chromosome@);
        }
        Individual {
            chromosome: copy_range(&self.chromosome, 0, self.chromosome.len()),
            train_fitness: self.train_fitness,
            test_fitness: self.test_fitness,
            size: self.size,
            depth: self.depth,
        }
    }

    /// An empty genome with nothing computed.
    pub fn new() -> (r: Individual)
        ensures
            r.nodes().len() == 0,
            r.train_score() is None,
            r.test_score() is None,
            r.cached_size() is None,
            r.cached_depth() is None,
    {
        Individual {
            chromosome: Vec::new(),
            train_fitness: None,
            test_fitness: None,
            size: None,
            depth: None,
        }
    }

    /// A copy of the node sequence.
    pub fn cloned(&self) -> (r: Vec<Node>)
        ensures
            r@ == self.nodes(),
    {
        self.duplicate().chromosome
    }

    /// The training score, once computed.
    pub fn train_fit(&self) -> (r: Option<u32>)
        ensures
            r == self.train_score(),
    {
        self.train_fitness
    }

    /// The test score, once computed.
    pub fn test_fit(&self) -> (r: Option<u32>)
        ensures
            r == self.test_score(),
    {
        self.test_fitness
    }

    /// The number of nodes; for an empty genome, the recorded size.
    pub fn size(&self) -> (r: usize)
        requires
            self.nodes().len() > 0 || self.cached_size() is Some,
        ensures
            self.nodes().len() > 0 ==> r == self.nodes().len(),
            self.nodes().len() == 0 ==> r == self.cached_size().unwrap(),
    {
        if self.chromosome.len() > 0 {
            self.chromosome.len()
        } else {
            self.size.unwrap()
        }
    }

    /// The depth if it has been computed.
    pub fn depth_if_computed(&self) -> (r: Option<usize>)
        ensures
            r == self.cached_depth(),
    {
        self.depth
    }

    /// The depth, once computed.
    pub fn depth(&self) -> (r: usize)
        requires
            self.cached_depth() is Some,
        ensures
            r == self.cached_depth().unwrap(),
    {
        self.depth.unwrap()
    }

    /// A tree built by the grow method: leaves may stand at any depth up to `depth_max`.
    pub fn grow(rng: &mut StdRng, depth_max: usize, dimensions: usize) -> (r: Individual)
        requires
            dimensions > 0,
        ensures
            is_tree(r.nodes()),
            tree_height(r.nodes()) <= depth_max,
            valid_nodes(r.nodes(), dimensions),
            r.train_score() is None,
            r.test_score() is None,
            r.cached_size() is None,
            r.cached_depth() is None,
    {
        let mut x = Individual::new();
        x.chromosome = grow_nodes(rng, depth_max, dimensions);
        x
    }

    /// A tree built by the full method: every leaf stands at depth `depth_max`.
    pub fn full(rng: &mut StdRng, depth_max: usize, dimensions: usize) -> (r: Individual)
        requires
            dimensions > 0,
        ensures
            is_tree(r.nodes()),
            tree_height(r.nodes()) == depth_max,
            tree_floor(r.nodes()) == depth_max,
            valid_nodes(r.nodes(), dimensions),
            r.train_score() is None,
            r.test_score() is None,
            r.cached_size() is None,
            r.cached_depth() is None,
    {
        let mut x = Individual::new();
        x.chromosome = full_nodes(rng, depth_max, dimensions);
        x
    }

    /// Computes and records the depth: the greatest depth of a leaf.
    pub fn depth_calc(&mut self)
        requires
            is_tree(old(self).nodes()),
        ensures
            final(self).cached_depth() is Some,
            final(self).cached_depth().unwrap() == tree_height(old(self).nodes()),
            tree_height(old(self).nodes()) < old(self).nodes().len(),
            final(self).nodes() == old(self).nodes(),
            final(self).train_score() == old(self).train_score(),
            final(self).test_score() == old(self).test_score(),
            final(self).cached_size() == old(self).cached_size(),
    {
        proof {
            lemma_suffix_owes(self.chromosome@, 0);
        }
        let (n, h) = subtree_shape(&self.chromosome, 0);
        proof {
            let s = self.chromosome@;
            assert(s.take(n as int) =~= s.subrange(0, n as int));
            assert(s.take(s.len() as int) =~= s);
            crate::tree::lemma_tree_prefix_unique(s, n as int, s.len() as int);
            assert(s.subrange(0, n as int) =~= s);
        }
        self.depth = Some(h);
    }

    /// The number of nodes in the subtree that starts at `start`.
    pub fn nodes_subtree(&self, start: usize) -> (r: usize)
        requires
            is_tree(self.nodes()),
            start < self.nodes().len(),
        ensures
            0 < r <= self.nodes().len() - start,
            is_tree(self.nodes().subrange(start as int, start + r)),
            r == subtree_size(self.nodes(), start as int),
            start == 0 ==> r == self.nodes().len(),
    {
        proof {
            lemma_suffix_owes(self.chromosome@, start as int);
        }
        let r = subtree_len(&self.chromosome, start);
        proof {
            let s = self.chromosome@;
            lemma_subtree_size(s, start as int, r as int);
            if start == 0 {
                assert(s.take(r as int) =~= s.subrange(0, r as int));
                assert(s.take(s.len() as int) =~= s);
                crate::tree::lemma_tree_prefix_unique(s, r as int, s.len() as int);
            }
        }
        r
    }

    /// The nodes before `node_location`.
    pub fn left_copy_outside(&self, node_location: usize) -> (r: Vec<Node>)
        requires
            node_location <= self.nodes().len(),
        ensures
            r@ == self.nodes().take(node_location as int),
    {
        let r = copy_range(&self.chromosome, 0, node_location);
        proof {
            assert(r@ =~= self.nodes().take(node_location as int));
        }
        r
    }

    /// The nodes from `node_location` on.
    pub fn right_copy_outside(&self, node_location: usize) -> (r: Vec<Node>)
        requires
            node_location <= self.nodes().len(),
        ensures
            r@ == self.nodes().skip(node_location as int),
    {
        let r = copy_range(&self.chromosome, node_location, self.chromosome.len());
        proof {
            assert(r@ =~= self.nodes().skip(node_location as int));
        }
        r
    }

    /// The `subtree` nodes from `from` on.
    pub fn subtree_copy(&self, from: usize, subtree: usize) -> (r: Vec<Node>)
        requires
            from + subtree <= self.nodes().len(),
        ensures
            r@ == self.nodes().subrange(from as int, from + subtree),
    {
        // the length bound keeps `from + subtree` within a usize
        let _len = self.chromosome.len();
        copy_range(&self.chromosome, from, from + subtree)
    }

    /// Appends nodes to the genome; every cached value is dropped.
    pub fn insert(&mut self, vec: Vec<Node>)
        ensures
            final(self).nodes() == old(self).nodes() + vec@,
            final(self).train_score() is None,
            final(self).test_score() is None,
            final(self).cached_size() is None,
            final(self).cached_depth() is None,
    {
        let mut v = vec;
        self.chromosome.append(&mut v);
        self.train_fitness = None;
        self.test_fitness = None;
        self.size = None;
        self.depth = None;
    }

    /// The genome as fully parenthesised text.
    pub fn render(&self) -> (r: Vec<char>)
        requires
            is_tree(self.nodes()),
        ensures
            r@ == render_tree(self.nodes()),
    {
        proof {
            lemma_suffix_owes(self.chromosome@, 0);
        }
        let mut out: Vec<char> = Vec::new();
        let n = render_subtree(&self.chromosome, 0, &mut out);
        proof {
            let s = self.chromosome@;
            assert(s.take(n as int) =~= s.subrange(0, n as int));
            assert(s.take(s.len() as int) =~= s);
            crate::tree::lemma_tree_prefix_unique(s, n as int, s.len() as int);
            assert(s.subrange(0, n as int) =~= s);
            assert(out@ =~= render_tree(s));
        }
        out
    }

    /// Records the node count.
    pub fn size_calc(&mut self)
        ensures
            final(self).cached_size() == Some(old(self).nodes().len() as usize),
            final(self).nodes() == old(self).nodes(),
            final(self).train_score() == old(self).train_score(),
            final(self).test_score() == old(self).test_score(),
            final(self).cached_depth() == old(self).cached_depth(),
    {
        self.size = Some(self.chromosome.len());
    }

    /// Scores the genome with `evaluate` and records both scores.
    pub fn eval_fitness<F: Fn(&Vec<Node>) -> Evaluation>(&mut self, evaluate: &F)
        requires
            forall|v: &Vec<Node>| #[trigger] evaluate.requires((v,)),
        ensures
            final(self).nodes() == old(self).nodes(),
            final(self).cached_size() == old(self).cached_size(),
            final(self).cached_depth() == old(self).cached_depth(),
            final(self).train_score() is Some,
            final(self).test_score() is Some,
            evaluate.ensures(
                (&old(self).genome(),),
                (Evaluation {
                    train: final(self).train_score().unwrap(),
                    test: final(self).test_score().unwrap(),
                }),
            ),
    {
        let e = evaluate(&self.chromosome);
        self.train_fitness = Some(e.train);
        self.test_fitness = Some(e.test);
    }
}

} // verus!
