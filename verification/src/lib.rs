//! Assignment of bookable time slots to users: by minimum-cost flow, which
//! spreads the slots over the users, or by plain maximum matching.

pub mod sums;
pub mod graph;
pub mod flow;
pub mod search;
pub mod augment;
pub mod solve;
pub mod optimality;
pub mod levels;
pub mod layout;
pub mod wiring;
pub mod routing;
pub mod tally;
pub mod optimum;
pub mod fairness;
pub mod distribution;
pub mod matching;
pub mod config;

pub use crate::config::Config;
pub use crate::distribution::{distribute, max_flow, Distribution, InitError};
pub use crate::graph::{Edge, Mcmf};
pub use crate::layout::{Spare, User};
pub use crate::levels::dinic;
pub use crate::matching::max_matching;
