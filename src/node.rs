//! The primitives a genome is built from.
use vstd::prelude::*;

use rand::rngs::StdRng;

use crate::random::{random_below, random_between};

verus! {

/// Number of units in one: a constant terminal holds its value in billionths.
pub const CONSTANT_SCALE: i32 = 1_000_000_000;

/// Bound of the uniformly drawn ephemeral constants, in billionths (0.9).
pub const EPHEMERAL_BOUND: i32 = 900_000_000;

/// How many constants are drawn uniformly into each ephemeral set, besides -1 and 1.
pub const EPHEMERAL_DRAWS: usize = 8;

/// How many function primitives there are.
pub const FUNCTION_COUNT: usize = 7;

/// One primitive of a genome: a function of fixed arity or a terminal.
#[derive(Clone, Copy, Debug, PartialEq, Eq, Structural)]
pub enum Node {
    Addition,
    Subtraction,
    Multiplication,
    Division,
    Sine,
    Ln,
    Square,
    /// A reference to an input column of the dataset.
    Input(usize),
    /// A constant, in billionths (`CONSTANT_SCALE` stands for 1).
    Constant(i32),
}

/// The number of operand subtrees that follow a node in prefix order.
pub open spec fn arity_of(n: Node) -> nat {
    match n {
        Node::Input(_) | Node::Constant(_) => 0,
        Node::Sine | Node::Ln | Node::Square => 1,
        _ => 2,
    }
}

/// Whether `n` is a terminal that the builders may draw for a dataset of `dimensions` inputs.
pub open spec fn valid_terminal(n: Node, dimensions: usize) -> bool {
    match n {
        Node::Input(i) => i < dimensions,
        Node::Constant(c) => c == -CONSTANT_SCALE || c == CONSTANT_SCALE || (-EPHEMERAL_BOUND
            <= c <= EPHEMERAL_BOUND),
        _ => false,
    }
}

/// Whether `n` may stand in a genome over `dimensions` inputs.
pub open spec fn valid_node(n: Node, dimensions: usize) -> bool {
    arity_of(n) > 0 || valid_terminal(n, dimensions)
}

/// The function primitive with the given number, in declaration order.
pub open spec fn function_numbered(i: nat) -> Node {
    if i == 0 {
        Node::Addition
    } else if i == 1 {
        Node::Subtraction
    } else if i == 2 {
        Node::Multiplication
    } else if i == 3 {
        Node::Division
    } else if i == 4 {
        Node::Sine
    } else if i == 5 {
        Node::Ln
    } else {
        Node::Square
    }
}

impl Node {
    /// Returns how many arguments the node takes.
    pub fn arity(&self) -> (r: usize)
        ensures
            r == arity_of(*self),
            r <= 2,
    {
        match *self {
            Node::Input(_) => 0,
            Node::Constant(_) => 0,
            Node::Sine | Node::Ln | Node::Square => 1,
            _ => 2,
        }
    }

    /// Whether the node is a terminal.
    pub fn is_terminal(&self) -> (r: bool)
        ensures
            r == (arity_of(*self) == 0),
    {
        self.arity() == 0
    }

    /// The function primitive with number `i`.
    pub fn function_by_number(i: usize) -> (r: Node)
        requires
            i < FUNCTION_COUNT,
        ensures
            r == function_numbered(i as nat),
            arity_of(r) > 0,
    {
        if i == 0 {
            Node::Addition
        } else if i == 1 {
            Node::Subtraction
        } else if i == 2 {
            Node::Multiplication
        } else if i == 3 {
            Node::Division
        } else if i == 4 {
            Node::Sine
        } else if i == 5 {
            Node::Ln
        } else {
            Node::Square
        }
    }

    /// A constant picked uniformly from a fresh ephemeral set: -1, 1 and
    /// `EPHEMERAL_DRAWS` values drawn uniformly from [-0.9, 0.9].
    pub fn get_ephemeral(rng: &mut StdRng) -> (r: Node)
        ensures
            r is Constant,
            valid_terminal(r, 0),
    {
        let mut set_const: Vec<i32> = Vec::new();
        set_const.push(-CONSTANT_SCALE);
        let mut i: usize = 0;
        while i < EPHEMERAL_DRAWS
            invariant
                i <= EPHEMERAL_DRAWS,
                set_const@.len() == i + 1,
                set_const@[0] == -CONSTANT_SCALE,
                forall|k: int|
                    1 <= k < set_const@.len() ==> -EPHEMERAL_BOUND <= #[trigger] set_const@[k]
                        <= EPHEMERAL_BOUND,
            decreases EPHEMERAL_DRAWS - i,
        {
            let c = random_between(rng, -EPHEMERAL_BOUND, EPHEMERAL_BOUND);
            set_const.push(c);
            i = i + 1;
        }
        set_const.push(CONSTANT_SCALE);
        let k = random_below(rng, set_const.len());
        Node::Constant(set_const[k])
    }

    /// A function primitive picked uniformly.
    pub fn get_function(rng: &mut StdRng) -> (r: Node)
        ensures
            arity_of(r) > 0,
    {
        let i = random_below(rng, FUNCTION_COUNT);
        Node::function_by_number(i)
    }

    /// An input terminal picking a column uniformly from `0..dimensions`.
    pub fn get_random_input(rng: &mut StdRng, dimensions: usize) -> (r: Node)
        requires
            dimensions > 0,
        ensures
            r is Input,
            valid_terminal(r, dimensions),
    {
        Node::Input(random_below(rng, dimensions))
    }
}

} // verus!
