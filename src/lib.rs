//! Greedy meshing of occupied tile cells into axis-aligned rectangles.
//!
//! A level's wall cells are grouped by region and by 64×64 chunk, each chunk
//! is packed into 64 column words, and a greedy pass turns the set bits into
//! non-overlapping rectangles that cover exactly the occupied cells. The
//! rectangles are then moved back to global grid coordinates, ready to
//! become static colliders.
pub mod chunk;
pub mod coordinator;
pub mod mesher;
pub mod packer;
pub mod region;

pub use chunk::{chunk_key, local_coord, GridCoords, CHUNK_SIZE};
pub use coordinator::{cell_chunk, mesh_chunk, mesh_region, GridRect};
pub use mesher::{binary_greedy_meshing, MeshedRect};
pub use packer::pack_chunk;
pub use region::{group_by_region, lookup_parent, mesh_level, HierarchyError, WallCell};
