pub mod algos;
pub mod executor;
pub mod grid;
pub mod search;

pub use algos::{Algo, AlgoStatus, Algorithm};
pub use executor::{Executor, Key};
pub use grid::{Coord, GridMap, MapError};
pub use search::{Heuristic, Search};
