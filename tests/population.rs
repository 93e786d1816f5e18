use std::cell::RefCell;

use rand::rngs::StdRng;
use rand::SeedableRng;
use symreg_gp::gp::{Gp, GpError};
use symreg_gp::individual::{Evaluation, Individual};
use symreg_gp::node::Node;
use symreg_gp::pop::{fitness_rank, Population, NAN_RANK};
use symreg_gp::tree::checked_subtree_len;

fn scored(nodes: Vec<Node>, train: f32) -> Individual {
    let mut x = Individual::new();
    x.insert(nodes);
    x.eval_fitness(&move |_: &Vec<Node>| Evaluation { train: train.to_bits(), test: 0.0f32.to_bits() });
    x
}

fn population(scores: &[f32]) -> Population {
    let mut p = Population::new();
    for (i, s) in scores.iter().enumerate() {
        p.insert(scored(vec![Node::Input(i)], *s));
    }
    p
}

fn train_of(x: &Individual) -> f32 {
    f32::from_bits(x.train_fit().unwrap())
}

fn fixed_score(_: &Vec<Node>) -> Evaluation {
    Evaluation { train: 1.0f32.to_bits(), test: 1.0f32.to_bits() }
}

fn nan_score(_: &Vec<Node>) -> Evaluation {
    Evaluation { train: f32::NAN.to_bits(), test: f32::NAN.to_bits() }
}

/// Outputs of the subtree at `start` over the columns of `data`.
fn outputs(nodes: &Vec<Node>, start: usize, data: &[Vec<f32>]) -> Vec<f32> {
    let rows = data[0].len();
    match nodes[start] {
        Node::Constant(c) => vec![(c as f64 / 1e9) as f32; rows],
        Node::Input(i) => data[i].clone(),
        n => {
            let a = outputs(nodes, start + 1, data);
            if n.arity() == 1 {
                return a
                    .iter()
                    .map(|x| match n {
                        Node::Sine => x.sin(),
                        Node::Ln => x.ln(),
                        _ => x * x,
                    })
                    .collect();
            }
            let b = outputs(nodes, start + 1 + checked_subtree_len(nodes, start + 1).unwrap(), data);
            a.iter()
                .zip(b.iter())
                .map(|(x, y)| match n {
                    Node::Addition => x + y,
                    Node::Subtraction => x - y,
                    Node::Multiplication => x * y,
                    _ => {
                        if y.abs() > 0.00001 {
                            x / y
                        } else {
                            *x
                        }
                    }
                })
                .collect()
        }
    }
}

fn rmse(x: &[f32], y: &[f32]) -> f32 {
    let s: f32 = x.iter().zip(y.iter()).map(|(a, b)| (a - b) * (a - b)).sum();
    (s / x.len() as f32).sqrt()
}

#[test]
fn fit_sort_orders_by_training_score() {
    let mut p = population(&[3.0, 1.0, 2.0, 0.5]);
    p.fit_sort();
    let got: Vec<f32> = p.get_pop().iter().map(train_of).collect();
    assert_eq!(got, vec![0.5, 1.0, 2.0, 3.0]);
    assert_eq!(train_of(p.first_getter()), 0.5);
}

#[test]
fn fit_sort_puts_nan_last_without_failing() {
    let mut p = population(&[f32::NAN, 2.0, f32::INFINITY, 1.0, f32::NAN]);
    p.fit_sort();
    let got: Vec<f32> = p.get_pop().iter().map(train_of).collect();
    assert_eq!(got[0], 1.0);
    assert_eq!(got[1], 2.0);
    assert_eq!(got[2], f32::INFINITY);
    assert!(got[3].is_nan() && got[4].is_nan());
}

#[test]
fn fit_sort_keeps_ties_in_order() {
    let mut p = population(&[2.0, 1.0, 2.0, 1.0]);
    p.fit_sort();
    let inputs: Vec<Vec<Node>> = p.get_pop().iter().map(|x| x.cloned()).collect();
    assert_eq!(
        inputs,
        vec![vec![Node::Input(1)], vec![Node::Input(3)], vec![Node::Input(0)], vec![Node::Input(2)]]
    );
}

#[test]
fn ranks_order_scores() {
    assert!(fitness_rank(Some(0.5f32.to_bits())) < fitness_rank(Some(1.0f32.to_bits())));
    assert!(fitness_rank(Some((-1.0f32).to_bits())) < fitness_rank(Some(0.0f32.to_bits())));
    assert_eq!(fitness_rank(Some(f32::NAN.to_bits())), NAN_RANK);
    assert_eq!(fitness_rank(None), NAN_RANK);
    assert!(fitness_rank(Some(f32::INFINITY.to_bits())) < NAN_RANK);
}

#[test]
fn tournament_returns_a_member() {
    let mut rng = seeded();
    let p = population(&[4.0, 3.0, 2.0, 1.0, 5.0]);
    let members: Vec<Vec<Node>> = p.get_pop().iter().map(|x| x.cloned()).collect();
    for _ in 0..100 {
        let w = p.tournament(&mut rng, 3);
        assert!(members.contains(&w.cloned()));
    }
}

#[test]
fn tournament_winner_is_first_of_least_rank() {
    let p = population(&[4.0, f32::NAN, 2.0, 1.0, 2.0]);
    assert_eq!(p.tournament_winner(&vec![0, 1, 2, 4]), 2);
    assert_eq!(p.tournament_winner(&vec![1, 1]), 0);
    assert_eq!(p.tournament_winner(&vec![1, 0]), 1);
    assert_eq!(p.tournament_winner(&vec![4, 3, 3]), 1);
}

#[test]
fn tournament_of_whole_population_prefers_numbers() {
    let mut rng = seeded();
    let p = population(&[f32::NAN, f32::NAN, 7.0]);
    for _ in 0..50 {
        let w = p.tournament(&mut rng, 40);
        assert_eq!(train_of(&w), 7.0);
    }
}

#[test]
fn get_best_takes_a_prefix() {
    let p = population(&[1.0, 2.0, 3.0]);
    assert_eq!(p.get_best(2).len(), 2);
    assert_eq!(p.get_best(10).len(), 3);
    assert_eq!(train_of(&p.get_best(2)[1]), 2.0);
    assert!(Population::new().is_empty());
    assert_eq!(p.size(), 3);
}

#[test]
fn insert_multiple_appends_in_order() {
    let mut p = population(&[1.0]);
    p.insert_multiple(vec![scored(vec![Node::Input(7)], 9.0), scored(vec![Node::Input(8)], 8.0)]);
    assert_eq!(p.size(), 3);
    assert_eq!(p.get_pop()[2].cloned(), vec![Node::Input(8)]);
}

#[test]
fn ramped_has_the_requested_size() {
    let mut rng = seeded();
    let p = Population::ramped(&mut rng, 50, 5, 1, &fixed_score);
    assert_eq!(p.size(), 50);
    let p = Population::ramped(&mut rng, 7, 5, 1, &fixed_score);
    assert_eq!(p.size(), 7);
    let p = Population::ramped(&mut rng, 3, 5, 2, &fixed_score);
    assert_eq!(p.size(), 3);
    for x in p.get_pop() {
        assert!(x.depth() <= 5);
        assert_eq!(x.nodes_subtree(0), x.size());
        assert!(x.train_fit().is_some());
    }
}

#[test]
fn evolve_keeps_population_size_and_order() {
    let mut rng = seeded();
    let mut gp = Gp::new(1).set_pop(20).set_tourn_size(2).set_cross_chance(500_000).set_mut_chance(500_000);
    assert_eq!(gp.evolve(&mut rng, 3, &fixed_score, &|_: &Population, _: usize| {}), Ok(()));
    assert_eq!(gp.population().size(), 20);
    for x in gp.population().get_pop() {
        assert_eq!(x.nodes_subtree(0), x.size());
        assert!(x.test_fit().is_some());
        assert!(x.depth_if_computed().unwrap() <= 20);
    }
}

#[test]
fn evolve_stops_when_no_parent_is_usable() {
    let mut rng = seeded();
    let mut gp = Gp::new(1).set_pop(10);
    assert_eq!(gp.evolve(&mut rng, 2, &nan_score, &|_: &Population, _: usize| {}), Err(GpError::NoUsableParent));
    assert!(!gp.has_usable_member());
}

#[test]
fn evolve_reduces_error_on_a_quadratic() {
    let mut rng = seeded();
    let xs: Vec<f32> = (0..100).map(|i| -2.0 + 4.0 * i as f32 / 99.0).collect();
    let ys: Vec<f32> = xs.iter().map(|x| x * x + 1.0).collect();
    let data = vec![xs, ys.clone()];
    let evaluate = |nodes: &Vec<Node>| {
        let out = outputs(nodes, 0, &data[..1]);
        let f = rmse(&out, &ys).to_bits();
        Evaluation { train: f, test: f }
    };
    let best = RefCell::new(Vec::new());
    let report = |p: &Population, _: usize| best.borrow_mut().push(train_of(p.first_getter()));
    let mut gp = Gp::new(1).set_pop(50).set_tourn_size(3).set_cross_chance(800_000).set_mut_chance(200_000);
    assert_eq!(gp.evolve(&mut rng, 20, &evaluate, &report), Ok(()));
    let best = best.into_inner();
    assert_eq!(best.len(), 20);
    assert!(best[19] <= best[0]);
}

fn seeded() -> StdRng {
    StdRng::seed_from_u64(0x5eed)
}
