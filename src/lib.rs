//! Local search for spanning trees with conflicting edge pairs.

mod counting;
mod problem;
mod conflicts;
mod dfs;
mod order;
mod connectivity1;
mod connectivity2;
mod one;
mod two;
mod utils;
mod construct;
mod ils;
mod input;

pub use counting::{count_where, occ, sum_to};
pub use problem::{tree_weight, Graph, MstCcProblem};
pub use conflicts::TrackConflicts;
pub use connectivity1::TrackConnectivity1;
pub use connectivity2::TrackConnectivity2;
pub use one::OneEdgeReplacement;
pub use two::TwoEdgeReplacement;
pub use utils::{log_improvement, log_improvement_best, partition, Seed};
pub use construct::{new_greedy, Init, InitialTree};
pub use ils::{exclude_at, reconnect, Ils, LocalSearch};
pub use input::InputError;
