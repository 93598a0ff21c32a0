//! Gradient-free and gradient-like optimization for ternary landscapes.
pub mod climbing;
pub mod descent;
pub mod genetic;
pub mod landscape;
pub mod point;
pub mod rng;
pub mod score;
pub mod search;
pub mod ternary;

pub use climbing::{ClimbState, HillClimbing};
pub use descent::{CoordinateDescent, DescentState};
pub use genetic::GeneticOptimizer;
pub use landscape::ScoreLandscape;
pub use point::TernaryPoint;
pub use ternary::Ternary;
