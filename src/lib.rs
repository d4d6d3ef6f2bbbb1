//! A sparse, unbounded two-dimensional grid that stores one value per `i32`
//! coordinate in lazily allocated square chunks.
pub mod chunk;
pub mod grid;
pub mod index;
pub mod path;

pub use chunk::{Chunk, ChunkIter, ChunkIterMut, LayoutError};
pub use grid::Grid;
pub use index::{ChunkIndex, Index, CHUNK_SIZE};
pub use path::AStarVisit;
