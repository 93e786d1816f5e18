//! Subtree crossover and subtree mutation.
use vstd::prelude::*;

use crate::individual::{is_nan_bits, usable, Evaluation, Individual};
use crate::node::Node;
use rand::rngs::StdRng;

use crate::random::random_below;
use crate::tree::{is_tree, lemma_splice, subtree_size, tree_height};

verus! {

/// Offspring deeper than this are discarded in favour of their first parent.
pub const MAX_DEPTH: usize = 20;

/// Maximum depth of the subtree that a mutation grows.
pub const MUTATION_DEPTH: usize = 5;

/// `s` with the subtree at `point` replaced by `x`.
pub open spec fn spliced(s: Seq<Node>, point: int, x: Seq<Node>) -> Seq<Node> {
    s.take(point) + x + s.skip(point + subtree_size(s, point))
}

/// `s1` with its subtree at `p1` replaced by the subtree of `s2` at `p2`.
pub open spec fn crossed(s1: Seq<Node>, p1: int, s2: Seq<Node>, p2: int) -> Seq<Node> {
    spliced(s1, p1, s2.subrange(p2, p2 + subtree_size(s2, p2)))
}

/// `r` is `child` scored by `evaluate`, with its size and depth recorded, and accepted:
/// its training score is a number and its depth within `MAX_DEPTH`.
pub open spec fn accepted<F: Fn(&Vec<Node>) -> Evaluation>(
    r: &Individual,
    child: &Individual,
    evaluate: &F,
) -> bool {
    &&& r.nodes() == child.nodes()
    &&& usable(r.train_score())
    &&& r.test_score() is Some
    &&& evaluate.ensures(
        (&child.genome(),),
        (Evaluation { train: r.train_score().unwrap(), test: r.test_score().unwrap() }),
    )
    &&& r.cached_size() == Some(child.nodes().len() as usize)
    &&& r.cached_depth() is Some
    &&& r.cached_depth().unwrap() == tree_height(child.nodes())
    &&& tree_height(child.nodes()) <= MAX_DEPTH
}

/// Every training score `evaluate` may give a genome with nodes `c` is NaN.
pub open spec fn scores_nan<F: Fn(&Vec<Node>) -> Evaluation>(c: Seq<Node>, evaluate: &F) -> bool {
    forall|v: &Vec<Node>, e: Evaluation|
        v@ == c && #[trigger] evaluate.ensures((v,), e) ==> is_nan_bits(e.train)
}

/// No training score `evaluate` may give a genome with nodes `c` is NaN.
pub open spec fn scores_number<F: Fn(&Vec<Node>) -> Evaluation>(c: Seq<Node>, evaluate: &F) -> bool {
    forall|v: &Vec<Node>, e: Evaluation|
        v@ == c && #[trigger] evaluate.ensures((v,), e) ==> !is_nan_bits(e.train)
}

/// `r` is the child with nodes `c`, kept: its training score is a number, its test
/// score is recorded, and its size and depth (within `MAX_DEPTH`) are recorded.
pub open spec fn kept_child(r: &Individual, c: Seq<Node>) -> bool {
    &&& r.nodes() == c
    &&& usable(r.train_score())
    &&& r.test_score() is Some
    &&& r.cached_size() == Some(c.len() as usize)
    &&& r.cached_depth() is Some
    &&& r.cached_depth().unwrap() == tree_height(c)
    &&& tree_height(c) <= MAX_DEPTH
}

/// `r` is what settling the child with nodes `c` against `parent` gives: `parent`
/// unchanged when the child is too deep or scores NaN, the child kept when it is
/// neither.
pub open spec fn settled_from<F: Fn(&Vec<Node>) -> Evaluation>(
    r: &Individual,
    parent: &Individual,
    c: Seq<Node>,
    evaluate: &F,
) -> bool {
    &&& r.same(parent) || kept_child(r, c)
    &&& tree_height(c) > MAX_DEPTH ==> r.same(parent)
    &&& scores_nan(c, evaluate) ==> r.same(parent)
    &&& tree_height(c) <= MAX_DEPTH && scores_number(c, evaluate) ==> kept_child(r, c)
}

/// The genome of `parent` with the subtree at `point` replaced by `replacement`.
pub fn splice_at(parent: &Individual, point: usize, replacement: Vec<Node>) -> (r: Individual)
    requires
        is_tree(parent.nodes()),
        point < parent.nodes().len(),
        is_tree(replacement@),
    ensures
        r.nodes() == spliced(parent.nodes(), point as int, replacement@),
        is_tree(r.nodes()),
        r.train_score() is None,
        r.test_score() is None,
        r.cached_size() is None,
        r.cached_depth() is None,
{
    // the length bound keeps `point + n` within a usize
    let _len = parent.size();
    let n = parent.nodes_subtree(point);
    let left = parent.left_copy_outside(point);
    let right = parent.right_copy_outside(point + n);
    let mut child = Individual::new();
    child.insert(left);
    child.insert(replacement);
    child.insert(right);
    proof {
        lemma_splice(parent.nodes(), point as int, n as int, replacement@);
        assert(child.nodes() =~= spliced(parent.nodes(), point as int, replacement@));
    }
    child
}

/// Scores `child` and keeps it if its training score is a number and its depth is
/// within `MAX_DEPTH`; otherwise hands back `parent` unchanged.
pub fn settle_offspring<F: Fn(&Vec<Node>) -> Evaluation>(
    child: Individual,
    parent: &Individual,
    evaluate: &F,
) -> (r: Individual)
    requires
        is_tree(child.nodes()),
        forall|v: &Vec<Node>| #[trigger] evaluate.requires((v,)),
    ensures
        r.same(parent) || accepted(&r, &child, evaluate),
        settled_from(&r, parent, child.nodes(), evaluate),
{
    let mut c = child;
    c.eval_fitness(evaluate);
    let train = c.train_fit().unwrap();
    if crate::individual::bits_are_nan(train) {
        return parent.duplicate();
    }
    c.size_calc();
    c.depth_calc();
    if c.depth() > MAX_DEPTH {
        return parent.duplicate();
    }
    c
}

/// Subtree crossover: the subtree at a random point of `parent1` is replaced by the
/// subtree at a random point of `parent2`. The child is kept only if its training score
/// is a number and its depth within `MAX_DEPTH`; otherwise `parent1` comes back unchanged.
pub fn subtree_cross<F: Fn(&Vec<Node>) -> Evaluation>(
    rng: &mut StdRng,
    parent1: &Individual,
    parent2: &Individual,
    evaluate: &F,
) -> (r: Individual)
    requires
        is_tree(parent1.nodes()),
        is_tree(parent2.nodes()),
        forall|v: &Vec<Node>| #[trigger] evaluate.requires((v,)),
    ensures
        exists|p1: int, p2: int|
            0 <= p1 < parent1.nodes().len() && 0 <= p2 < parent2.nodes().len()
                && #[trigger] settled_from(
                &r,
                parent1,
                crossed(parent1.nodes(), p1, parent2.nodes(), p2),
                evaluate,
            ),
        r.same(parent1) || (is_tree(r.nodes()) && kept_child(&r, r.nodes())),
{
    let point1 = random_below(rng, parent1.size());
    let point2 = random_below(rng, parent2.size());
    let n2 = parent2.nodes_subtree(point2);
    let donor = parent2.subtree_copy(point2, n2);
    let child = splice_at(parent1, point1, donor);
    let ghost cn = child.nodes();
    let r = settle_offspring(child, parent1, evaluate);
    proof {
        assert(cn == crossed(parent1.nodes(), point1 as int, parent2.nodes(), point2 as int));
        assert(settled_from(
            &r,
            parent1,
            crossed(parent1.nodes(), point1 as int, parent2.nodes(), point2 as int),
            evaluate,
        ));
    }
    r
}

/// Subtree mutation: the subtree at a random point of `parent1` is replaced by a tree
/// grown to depth at most `MUTATION_DEPTH`. The child is kept only if its training score
/// is a number and its depth within `MAX_DEPTH`; otherwise `parent1` comes back unchanged.
pub fn single_point_mut<F: Fn(&Vec<Node>) -> Evaluation>(
    rng: &mut StdRng,
    parent1: &Individual,
    dimensions: usize,
    evaluate: &F,
) -> (r: Individual)
    requires
        is_tree(parent1.nodes()),
        dimensions > 0,
        forall|v: &Vec<Node>| #[trigger] evaluate.requires((v,)),
    ensures
        exists|p: int, x: Seq<Node>|
            0 <= p < parent1.nodes().len() && is_tree(x) && tree_height(x) <= MUTATION_DEPTH
                && #[trigger] settled_from(&r, parent1, spliced(parent1.nodes(), p, x), evaluate),
        r.same(parent1) || (is_tree(r.nodes()) && kept_child(&r, r.nodes())),
{
    let point = random_below(rng, parent1.size());
    let grown = Individual::grow(rng, MUTATION_DEPTH, dimensions);
    let x = grown.cloned();
    let ghost gx = x@;
    let child = splice_at(parent1, point, x);
    let ghost cn = child.nodes();
    let r = settle_offspring(child, parent1, evaluate);
    proof {
        assert(settled_from(&r, parent1, spliced(parent1.nodes(), point as int, gx), evaluate));
    }
    r
}

} // verus!
