// A two-phase simplex engine over a dense tableau of exact rationals.
pub mod rational;
pub mod tableau;

pub use rational::Rational;
pub use tableau::{EnteringRule, Matrix, Outcome, Phase, Step, TableauError};
