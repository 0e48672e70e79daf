use vstd::prelude::*;

verus! {

/// Side length of a chunk, in cells.
pub const CHUNK_SIZE: i32 = 64;

/// One cell of the unbounded integer grid.
#[derive(Clone, Copy, Debug, PartialEq, Eq, Structural)]
pub struct GridCoords {
    pub x: i32,
    pub y: i32,
}

impl GridCoords {
    pub fn new(x: i32, y: i32) -> (r: GridCoords)
        ensures
            r.x == x,
            r.y == y,
    {
        GridCoords { x, y }
    }
}

/// The chunk that holds coordinate `v` along one axis: `floor(v / 64)`.
pub open spec fn chunk_of(v: int) -> int {
    v / 64
}

/// The position of coordinate `v` inside its chunk, always in `[0, 64)`.
pub open spec fn local_of(v: int) -> int {
    v % 64
}

/// Euclidean division of a coordinate by the chunk size.
pub fn chunk_key(v: i32) -> (r: i32)
    ensures
        r as int == chunk_of(v as int),
{
    // Division by a positive constant cannot overflow, so this never fails.
    v.checked_div_euclid(CHUNK_SIZE).unwrap()
}

/// Euclidean remainder of a coordinate by the chunk size.
pub fn local_coord(v: i32) -> (r: i32)
    ensures
        r as int == local_of(v as int),
        0 <= r < 64,
{
    // Remainder by a positive constant cannot overflow, so this never fails.
    v.checked_rem_euclid(CHUNK_SIZE).unwrap()
}

/// A coordinate is recovered from its chunk and its local position, for
/// negative coordinates too.
pub proof fn lemma_chunk_round_trip(v: int)
    ensures
        chunk_of(v) * 64 + local_of(v) == v,
        0 <= local_of(v) < 64,
{
}

} // verus!
