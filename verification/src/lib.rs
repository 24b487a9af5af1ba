//! An incremental grid pathfinder: an A* engine over a 2D grid with wall
//! cells, advanced one frontier expansion at a time so a driver can watch
//! the frontier, the visited set and the reconstructed path as the search
//! progresses. The engine implements the strategy-agnostic [`pathfinder::Pathfinder`]
//! contract; its behaviour — the octile heuristic, the relaxation rule, the
//! deterministic tie-break and the shape of every observable view — is
//! stated in the contracts of [`algorithms::a_star::AStar`] and proved.

pub mod algorithms;
pub mod pathfinder;
pub mod vector;
