use rand::rngs::StdRng;
use rand::SeedableRng;
use symreg_gp::genetics::{settle_offspring, single_point_mut, splice_at, subtree_cross, MAX_DEPTH};
use symreg_gp::individual::{bits_are_nan, Evaluation, Individual};
use symreg_gp::node::{Node, CONSTANT_SCALE, EPHEMERAL_BOUND, FUNCTION_COUNT};
use symreg_gp::pop::Population;
use symreg_gp::tree::checked_subtree_len;

fn genome(nodes: Vec<Node>) -> Individual {
    let mut x = Individual::new();
    x.insert(nodes);
    x
}

/// Depth of every leaf, walking the prefix sequence with a stack of pending children.
fn leaf_depths(nodes: &[Node]) -> Vec<usize> {
    let mut depths = Vec::new();
    let mut pending: Vec<(usize, usize)> = Vec::new();
    let mut depth = 0usize;
    for n in nodes {
        if n.arity() == 0 {
            depths.push(depth);
            loop {
                match pending.last_mut() {
                    Some((d, left)) => {
                        *left -= 1;
                        if *left == 0 {
                            pending.pop();
                        } else {
                            depth = *d + 1;
                            break;
                        }
                    }
                    None => break,
                }
            }
        } else {
            pending.push((depth, n.arity()));
            depth += 1;
        }
    }
    depths
}

fn sample() -> Vec<Node> {
    vec![
        Node::Addition,
        Node::Sine,
        Node::Input(0),
        Node::Multiplication,
        Node::Constant(500_000_000),
        Node::Input(0),
    ]
}

fn fixed_score(_: &Vec<Node>) -> Evaluation {
    Evaluation { train: 1.5f32.to_bits(), test: 2.5f32.to_bits() }
}

fn nan_score(_: &Vec<Node>) -> Evaluation {
    Evaluation { train: f32::NAN.to_bits(), test: f32::NAN.to_bits() }
}

fn chain(unary: usize) -> Vec<Node> {
    let mut v = vec![Node::Sine; unary];
    v.push(Node::Input(0));
    v
}

#[test]
fn arity_by_kind() {
    assert_eq!(Node::Addition.arity(), 2);
    assert_eq!(Node::Subtraction.arity(), 2);
    assert_eq!(Node::Multiplication.arity(), 2);
    assert_eq!(Node::Division.arity(), 2);
    assert_eq!(Node::Sine.arity(), 1);
    assert_eq!(Node::Ln.arity(), 1);
    assert_eq!(Node::Square.arity(), 1);
    assert_eq!(Node::Input(3).arity(), 0);
    assert_eq!(Node::Constant(-7).arity(), 0);
    assert!(Node::Input(0).is_terminal());
    assert!(!Node::Ln.is_terminal());
}

#[test]
fn every_function_can_be_numbered() {
    let mut rng = seeded();
    let all: Vec<Node> = (0..FUNCTION_COUNT).map(Node::function_by_number).collect();
    assert_eq!(
        all,
        vec![
            Node::Addition,
            Node::Subtraction,
            Node::Multiplication,
            Node::Division,
            Node::Sine,
            Node::Ln,
            Node::Square
        ]
    );
    for _ in 0..100 {
        assert!(Node::get_function(&mut rng).arity() > 0);
    }
}

#[test]
fn ephemeral_constants_stay_in_their_set() {
    let mut rng = seeded();
    for _ in 0..500 {
        match Node::get_ephemeral(&mut rng) {
            Node::Constant(c) => assert!(
                c == CONSTANT_SCALE || c == -CONSTANT_SCALE || (-EPHEMERAL_BOUND..=EPHEMERAL_BOUND).contains(&c)
            ),
            other => panic!("not a constant: {:?}", other),
        }
    }
}

#[test]
fn random_inputs_stay_below_dimensions() {
    let mut rng = seeded();
    for _ in 0..200 {
        match Node::get_random_input(&mut rng, 3) {
            Node::Input(i) => assert!(i < 3),
            other => panic!("not an input: {:?}", other),
        }
    }
}

#[test]
fn full_puts_every_leaf_at_the_given_depth() {
    let mut rng = seeded();
    for _ in 0..50 {
        let mut x = Individual::full(&mut rng, 2, 1);
        assert!(leaf_depths(&x.cloned()).iter().all(|d| *d == 2));
        x.depth_calc();
        assert_eq!(x.depth(), 2);
        assert_eq!(x.nodes_subtree(0), x.size());
    }
}

#[test]
fn grow_keeps_leaves_within_the_given_depth() {
    let mut rng = seeded();
    for _ in 0..50 {
        let mut x = Individual::grow(&mut rng, 2, 2);
        assert!(leaf_depths(&x.cloned()).iter().all(|d| *d <= 2));
        x.depth_calc();
        assert!(x.depth() <= 2);
        assert_eq!(x.nodes_subtree(0), x.size());
    }
}

#[test]
fn full_of_depth_zero_is_one_terminal() {
    let mut rng = seeded();
    let x = Individual::full(&mut rng, 0, 1);
    assert_eq!(x.size(), 1);
    assert!(x.cloned()[0].is_terminal());
}

#[test]
fn subtree_sizes_of_a_fixed_genome() {
    let x = genome(sample());
    assert_eq!(x.nodes_subtree(0), 6);
    assert_eq!(x.nodes_subtree(1), 2);
    assert_eq!(x.nodes_subtree(2), 1);
    assert_eq!(x.nodes_subtree(3), 3);
    assert_eq!(x.nodes_subtree(4), 1);
    assert_eq!(x.nodes_subtree(5), 1);
}

#[test]
fn subtree_sizes_fit_in_what_remains() {
    let mut rng = seeded();
    for d in 0..6 {
        let x = Individual::grow(&mut rng, d, 2);
        let n = x.size();
        assert_eq!(x.nodes_subtree(0), n);
        for i in 0..n {
            let k = x.nodes_subtree(i);
            assert!(k >= 1 && k <= n - i);
        }
    }
}

#[test]
fn copies_around_a_subtree() {
    let x = genome(sample());
    assert_eq!(x.left_copy_outside(3), sample()[..3].to_vec());
    assert_eq!(x.right_copy_outside(4), sample()[4..].to_vec());
    assert_eq!(x.subtree_copy(3, 3), sample()[3..6].to_vec());
    assert_eq!(x.left_copy_outside(0), Vec::<Node>::new());
}

#[test]
fn depth_of_a_fixed_genome() {
    let mut x = genome(sample());
    x.depth_calc();
    assert_eq!(x.depth(), 2);
    let mut leaf = genome(vec![Node::Input(0)]);
    leaf.depth_calc();
    assert_eq!(leaf.depth(), 0);
}

#[test]
fn render_a_fixed_genome() {
    let x = genome(sample());
    let text: String = x.render().into_iter().collect();
    assert_eq!(text, "(sin(x0) + ((0.500000000) * x0))");
    let y = genome(vec![Node::Square, Node::Constant(-CONSTANT_SCALE)]);
    let text: String = y.render().into_iter().collect();
    assert_eq!(text, "square((-1.000000000))");
    let z = genome(vec![Node::Division, Node::Input(12), Node::Constant(1_250_000_000)]);
    let text: String = z.render().into_iter().collect();
    assert_eq!(text, "(x12 / (1.250000000))");
}

#[test]
fn scoring_records_both_scores() {
    let mut x = genome(sample());
    assert_eq!(x.train_fit(), None);
    x.eval_fitness(&fixed_score);
    assert_eq!(x.train_fit(), Some(1.5f32.to_bits()));
    assert_eq!(x.test_fit(), Some(2.5f32.to_bits()));
    x.insert(vec![]);
    assert_eq!(x.train_fit(), None);
}

#[test]
fn nan_bits_are_recognised() {
    assert!(bits_are_nan(f32::NAN.to_bits()));
    assert!(bits_are_nan((-f32::NAN).to_bits()));
    assert!(!bits_are_nan(f32::INFINITY.to_bits()));
    assert!(!bits_are_nan(0.0f32.to_bits()));
    assert!(!bits_are_nan(3.25f32.to_bits()));
}

#[test]
fn splice_replaces_one_subtree() {
    let x = genome(sample());
    let child = splice_at(&x, 3, vec![Node::Input(1)]);
    assert_eq!(child.cloned(), vec![Node::Addition, Node::Sine, Node::Input(0), Node::Input(1)]);
    let child = splice_at(&x, 0, vec![Node::Ln, Node::Input(0)]);
    assert_eq!(child.cloned(), vec![Node::Ln, Node::Input(0)]);
}

#[test]
fn crossover_offspring_is_well_formed() {
    let mut rng = seeded();
    for _ in 0..100 {
        let p1 = Individual::grow(&mut rng, 4, 2);
        let p2 = Individual::full(&mut rng, 3, 2);
        let c = subtree_cross(&mut rng, &p1, &p2, &fixed_score);
        assert_eq!(c.nodes_subtree(0), c.size());
        if c.cloned() != p1.cloned() {
            assert_eq!(c.train_fit(), Some(1.5f32.to_bits()));
            assert!(c.depth() <= MAX_DEPTH);
        }
    }
}

#[test]
fn crossover_with_nan_score_returns_first_parent() {
    let mut rng = seeded();
    let mut p1 = genome(sample());
    p1.eval_fitness(&fixed_score);
    let p2 = genome(vec![Node::Ln, Node::Input(0)]);
    let c = subtree_cross(&mut rng, &p1, &p2, &nan_score);
    assert_eq!(c.cloned(), p1.cloned());
    assert_eq!(c.train_fit(), p1.train_fit());
}

#[test]
fn mutation_offspring_is_well_formed() {
    let mut rng = seeded();
    for _ in 0..100 {
        let p1 = Individual::full(&mut rng, 3, 1);
        let c = single_point_mut(&mut rng, &p1, 1, &fixed_score);
        assert_eq!(c.nodes_subtree(0), c.size());
        assert!(c.depth() <= MAX_DEPTH);
    }
}

#[test]
fn mutation_with_nan_score_returns_parent() {
    let mut rng = seeded();
    let mut p1 = genome(sample());
    p1.eval_fitness(&fixed_score);
    let c = single_point_mut(&mut rng, &p1, 1, &nan_score);
    assert_eq!(c.cloned(), p1.cloned());
    assert_eq!(c.test_fit(), p1.test_fit());
}

#[test]
fn offspring_deeper_than_the_cap_is_discarded() {
    let parent = genome(sample());
    let deep = genome(chain(MAX_DEPTH + 1));
    let r = settle_offspring(deep, &parent, &fixed_score);
    assert_eq!(r.cloned(), sample());
    let edge = genome(chain(MAX_DEPTH));
    let r = settle_offspring(edge, &parent, &fixed_score);
    assert_eq!(r.cloned(), chain(MAX_DEPTH));
    assert_eq!(r.depth(), MAX_DEPTH);
    assert_eq!(r.size(), MAX_DEPTH + 1);
}

#[test]
fn checked_subtree_len_finds_or_refuses() {
    let s = sample();
    assert_eq!(checked_subtree_len(&s, 0), Some(6));
    assert_eq!(checked_subtree_len(&s, 3), Some(3));
    assert_eq!(checked_subtree_len(&s, 6), None);
    assert_eq!(checked_subtree_len(&vec![Node::Addition, Node::Input(0)], 0), None);
    assert_eq!(checked_subtree_len(&vec![Node::Sine, Node::Sine], 0), None);
    assert_eq!(checked_subtree_len(&vec![Node::Input(0), Node::Input(1)], 1), Some(1));
}

#[test]
fn ramped_levels_follow_their_quotas() {
    let mut rng = seeded();
    // 7 members over 5 depths: one per level, three at the deepest (two full, one grown)
    let p = Population::ramped(&mut rng, 7, 5, 1, &fixed_score).get_pop();
    for e in 0..4 {
        assert!(leaf_depths(&p[e].cloned()).iter().all(|d| *d == e + 1));
    }
    assert!(leaf_depths(&p[4].cloned()).iter().all(|d| *d == 5));
    assert!(leaf_depths(&p[5].cloned()).iter().all(|d| *d == 5));
    assert!(leaf_depths(&p[6].cloned()).iter().all(|d| *d <= 5));
    // 10 members over 5 depths: each level one full-built, one grown
    let p = Population::ramped(&mut rng, 10, 5, 1, &fixed_score).get_pop();
    for e in 0..5 {
        assert!(leaf_depths(&p[2 * e].cloned()).iter().all(|d| *d == e + 1));
        assert!(leaf_depths(&p[2 * e + 1].cloned()).iter().all(|d| *d <= e + 1));
        assert_eq!(p[2 * e].depth_if_computed(), Some(e + 1));
    }
}

fn seeded() -> StdRng {
    StdRng::seed_from_u64(0x5eed)
}

#[test]
fn same_seed_builds_the_same_trees() {
    let mut a = StdRng::seed_from_u64(42);
    let mut b = StdRng::seed_from_u64(42);
    for d in 0..5 {
        assert_eq!(Individual::grow(&mut a, d, 3).cloned(), Individual::grow(&mut b, d, 3).cloned());
        assert_eq!(Individual::full(&mut a, d, 3).cloned(), Individual::full(&mut b, d, 3).cloned());
    }
}
