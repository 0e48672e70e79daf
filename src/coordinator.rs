use vstd::prelude::*;
use vstd::arithmetic::div_mod::lemma_fundamental_div_mod_converse;
use itertools::Itertools;
use crate::chunk::{chunk_key, chunk_of, lemma_chunk_round_trip, local_coord, local_of, GridCoords};
use crate::mesher::{
    binary_greedy_meshing, covered, exact_cover, greedy_mesh, occupied, rect_contains, rect_in_chunk, MeshedRect,
};
use crate::packer::{all_local, names_cell, pack_chunk, packs};

verus! {

/// A rectangle of global grid cells: columns `[x1, x2)` and rows `[y1, y2)`.
#[derive(Clone, Copy, Debug, PartialEq, Eq, Structural)]
pub struct GridRect {
    pub x1: i64,
    pub y1: i64,
    pub x2: i64,
    pub y2: i64,
}

/// Whether a global rectangle covers cell `(x, y)`.
pub open spec fn grid_rect_contains(r: GridRect, x: int, y: int) -> bool {
    r.x1 <= x < r.x2 && r.y1 <= y < r.y2
}

/// Whether some rectangle of `rects` covers cell `(x, y)`.
pub open spec fn grid_covered(rects: Seq<GridRect>, x: int, y: int) -> bool {
    exists|i: int| 0 <= i < rects.len() && #[trigger] grid_rect_contains(rects[i], x, y)
}

/// Every rectangle of `rects` has positive width and height, and no cell is
/// covered by two of them.
pub open spec fn disjoint_rects(rects: Seq<GridRect>) -> bool {
    &&& forall|i: int| 0 <= i < rects.len() ==> #[trigger] rects[i].x1 < rects[i].x2 && rects[i].y1 < rects[i].y2
    &&& forall|i: int, j: int, x: int, y: int|
        0 <= i < rects.len() && 0 <= j < rects.len() && i != j && #[trigger] grid_rect_contains(rects[i], x, y)
            ==> !#[trigger] grid_rect_contains(rects[j], x, y)
}

/// `rects` covers exactly the cells that `cells` names, each one by a single
/// rectangle of positive width and height.
pub open spec fn covers_exactly(cells: Seq<GridCoords>, rects: Seq<GridRect>) -> bool {
    &&& disjoint_rects(rects)
    &&& forall|x: int, y: int| names_cell(cells, x, y) <==> grid_covered(rects, x, y)
}

/// Whether cell `(x, y)` lies in chunk `key`.
pub open spec fn in_chunk(key: (i32, i32), x: int, y: int) -> bool {
    chunk_of(x) == key.0 && chunk_of(y) == key.1
}

/// A chunk-local rectangle moved to the chunk `key` of the global grid.
pub open spec fn to_global(r: MeshedRect, key: (i32, i32)) -> GridRect {
    GridRect {
        x1: (key.0 * 64 + r.x1) as i64,
        y1: (key.1 * 64 + r.y1) as i64,
        x2: (key.0 * 64 + r.x2) as i64,
        y2: (key.1 * 64 + r.y2) as i64,
    }
}

/// The chunk that holds a cell.
pub fn cell_chunk(c: &GridCoords) -> (r: (i32, i32))
    ensures
        in_chunk(r, c.x as int, c.y as int),
{
    (chunk_key(c.x), chunk_key(c.y))
}

/// The chunk-local positions of `cells`, in order.
pub open spec fn local_cells(cells: Seq<GridCoords>) -> Seq<GridCoords> {
    cells.map_values(|c: GridCoords| GridCoords { x: local_of(c.x as int) as i32, y: local_of(c.y as int) as i32 })
}

/// Every cell of `cells` lies in chunk `key`.
pub open spec fn all_in_chunk(key: (i32, i32), cells: Seq<GridCoords>) -> bool {
    forall|k: int| 0 <= k < cells.len() ==> in_chunk(key, #[trigger] cells[k].x as int, cells[k].y as int)
}

/// `groups` holds the cells of `cells` grouped by chunk: one nonempty group
/// per chunk key, each cell in the group of its own chunk, and no other cells.
pub open spec fn grouped_by_chunk(cells: Seq<GridCoords>, groups: Seq<((i32, i32), Vec<GridCoords>)>) -> bool {
    &&& forall|i: int, j: int| 0 <= i < j < groups.len() ==> groups[i].0 != groups[j].0
    &&& forall|i: int| 0 <= i < groups.len() ==> #[trigger] groups[i].1@.len() > 0
    &&& forall|i: int| 0 <= i < groups.len() ==> all_in_chunk(#[trigger] groups[i].0, groups[i].1@)
    &&& forall|c: GridCoords|
        cells.contains(c) <==> exists|i: int, k: int|
            0 <= i < groups.len() && 0 <= k < groups[i].1@.len() && #[trigger] groups[i].1@[k] == c
}

/// Relies on itertools::Itertools::into_group_map_by: each cell is pushed onto
/// the group of its chunk key, a group is created by its first cell, and a
/// key has one group. The groups come out in the hash map's order.
#[verifier::external_body]
fn group_by_chunk(cells: &Vec<GridCoords>) -> (r: Vec<((i32, i32), Vec<GridCoords>)>)
    ensures
        grouped_by_chunk(cells@, r@),
{
    cells.iter().copied().into_group_map_by(|c| cell_chunk(c)).into_iter().collect()
}

proof fn lemma_to_global(r: MeshedRect, key: (i32, i32), x: int, y: int)
    requires
        rect_in_chunk(r),
    ensures
        grid_rect_contains(to_global(r, key), x, y) <==> (in_chunk(key, x, y) && rect_contains(
            r,
            local_of(x),
            local_of(y),
        )),
{
    lemma_chunk_round_trip(x);
    lemma_chunk_round_trip(y);
    let g = to_global(r, key);
    if grid_rect_contains(g, x, y) {
        lemma_fundamental_div_mod_converse(x, 64, key.0 as int, x - key.0 * 64);
        lemma_fundamental_div_mod_converse(y, 64, key.1 as int, y - key.1 * 64);
    }
}

/// Meshes the cells of one chunk and returns the rectangles in global grid
/// coordinates. `buffer` is scratch space: it is cleared first and ends up
/// holding the chunk-local rectangles, in the order of the result.
pub fn mesh_chunk(key: (i32, i32), members: &Vec<GridCoords>, buffer: &mut Vec<MeshedRect>) -> (r: Vec<
    GridRect,
>)
    requires
        all_in_chunk(key, members@),
    ensures
        covers_exactly(members@, r@),
        exists|words: Seq<u64>| packs(#[trigger] local_cells(members@), words) && final(buffer)@ == greedy_mesh(words),
        r@.len() == final(buffer)@.len(),
        forall|i: int| 0 <= i < r@.len() ==> #[trigger] r@[i] == to_global(final(buffer)@[i], key),
{
    let mut locals: Vec<GridCoords> = Vec::new();
    let mut k: usize = 0;
    while k < members.len()
        invariant
            k <= members.len(),
            locals@.len() == k,
            forall|j: int|
                0 <= j < k ==> #[trigger] locals@[j].x == local_of(members@[j].x as int) && locals@[j].y
                    == local_of(members@[j].y as int),
        decreases members.len() - k,
    {
        let c = members[k];
        locals.push(GridCoords { x: local_coord(c.x), y: local_coord(c.y) });
        k += 1;
    }
    assert(all_local(locals@)) by {
        assert forall|j: int| 0 <= j < locals@.len() implies 0 <= #[trigger] locals@[j].x < 64 && 0
            <= locals@[j].y < 64 by {
            lemma_chunk_round_trip(members@[j].x as int);
            lemma_chunk_round_trip(members@[j].y as int);
        }
    }
    assert(locals@ =~= local_cells(members@)) by {
        assert forall|j: int| 0 <= j < locals@.len() implies #[trigger] locals@[j] == local_cells(members@)[j] by {
            lemma_chunk_round_trip(members@[j].x as int);
            lemma_chunk_round_trip(members@[j].y as int);
            assert(locals@[j].x == local_of(members@[j].x as int));
            assert(locals@[j].y == local_of(members@[j].y as int));
        }
    }
    let packed = pack_chunk(&locals);
    buffer.clear();
    binary_greedy_meshing(packed, buffer);
    let ghost b = buffer@;
    assert(exact_cover(packed@, b));
    let mut out: Vec<GridRect> = Vec::new();
    let mut i: usize = 0;
    while i < buffer.len()
        invariant
            buffer@ == b,
            exact_cover(packed@, b),
            i <= b.len(),
            out@.len() == i,
            forall|j: int| 0 <= j < i ==> #[trigger] out@[j] == to_global(b[j], key),
        decreases b.len() - i,
    {
        let lr = buffer[i];
        assert(rect_in_chunk(b[i as int]));
        out.push(
            GridRect {
                x1: key.0 as i64 * 64 + lr.x1 as i64,
                y1: key.1 as i64 * 64 + lr.y1 as i64,
                x2: key.0 as i64 * 64 + lr.x2 as i64,
                y2: key.1 as i64 * 64 + lr.y2 as i64,
            },
        );
        i += 1;
    }
    proof {
        let o = out@;
        assert(packs(local_cells(members@), packed@));
        assert forall|j: int| 0 <= j < o.len() implies #[trigger] o[j].x1 < o[j].x2 && o[j].y1 < o[j].y2 by {
            assert(rect_in_chunk(b[j]));
        }
        assert forall|x: int, y: int| names_cell(members@, x, y) <==> grid_covered(o, x, y) by {
            let lx = local_of(x);
            let ly = local_of(y);
            lemma_chunk_round_trip(x);
            lemma_chunk_round_trip(y);
            if grid_covered(o, x, y) {
                let j = choose|j: int| 0 <= j < o.len() && #[trigger] grid_rect_contains(o[j], x, y);
                assert(rect_in_chunk(b[j]));
                lemma_to_global(b[j], key, x, y);
                assert(covered(b, lx, ly));
                assert(occupied(packed@, lx, ly));
                assert(names_cell(locals@, lx, ly));
                let m = choose|m: int| 0 <= m < locals@.len() && #[trigger] locals@[m].x == lx && locals@[m].y == ly;
                assert(locals@[m].x == local_of(members@[m].x as int));
                assert(in_chunk(key, members@[m].x as int, members@[m].y as int));
                lemma_chunk_round_trip(members@[m].x as int);
                lemma_chunk_round_trip(members@[m].y as int);
                assert(members@[m].x == x && members@[m].y == y);
            }
            if names_cell(members@, x, y) {
                let m = choose|m: int| 0 <= m < members@.len() && #[trigger] members@[m].x == x && members@[m].y == y;
                assert(in_chunk(key, members@[m].x as int, members@[m].y as int));
                assert(locals@[m].x == local_of(members@[m].x as int));
                assert(locals@[m].y == local_of(members@[m].y as int));
                assert(locals@[m].x == lx && locals@[m].y == ly);
                assert(names_cell(locals@, lx, ly));
                assert(occupied(packed@, lx, ly));
                assert(covered(b, lx, ly));
                let j = choose|j: int| 0 <= j < b.len() && #[trigger] rect_contains(b[j], lx, ly);
                assert(rect_in_chunk(b[j]));
                lemma_to_global(b[j], key, x, y);
                assert(grid_rect_contains(o[j], x, y));
            }
        }
        assert forall|i: int, j: int, x: int, y: int|
            0 <= i < o.len() && 0 <= j < o.len() && i != j && #[trigger] grid_rect_contains(o[i], x, y)
                implies !#[trigger] grid_rect_contains(o[j], x, y) by {
            assert(rect_in_chunk(b[i]));
            assert(rect_in_chunk(b[j]));
            lemma_to_global(b[i], key, x, y);
            lemma_to_global(b[j], key, x, y);
            assert(rect_contains(b[i], local_of(x), local_of(y)));
        }
    }
    out
}

/// Whether cell `(x, y)` lies in the chunk of one of the first `n` groups.
pub open spec fn in_first_chunks(groups: Seq<((i32, i32), Vec<GridCoords>)>, n: int, x: int, y: int) -> bool {
    exists|h: int| 0 <= h < n && #[trigger] in_chunk(groups[h].0, x, y)
}

/// Meshes the occupied cells of one region into global rectangles that cover
/// exactly those cells, each once.
///
/// The cells are grouped by chunk; each chunk is packed, meshed greedily and
/// moved back to global grid coordinates. Chunks come in no fixed order.
pub fn mesh_region(cells: &Vec<GridCoords>) -> (r: Vec<GridRect>)
    ensures
        covers_exactly(cells@, r@),
{
    let ghost all = cells@;
    let groups = group_by_chunk(cells);
    let mut buffer: Vec<MeshedRect> = Vec::new();
    let mut out: Vec<GridRect> = Vec::new();
    let mut g: usize = 0;
    while g < groups.len()
        invariant
            g <= groups.len(),
            grouped_by_chunk(all, groups@),
            forall|i: int| 0 <= i < out@.len() ==> #[trigger] out@[i].x1 < out@[i].x2 && out@[i].y1 < out@[i].y2,
            forall|x: int, y: int|
                grid_covered(out@, x, y) <==> (names_cell(all, x, y) && in_first_chunks(groups@, g as int, x, y)),
            forall|i: int, j: int, x: int, y: int|
                0 <= i < out@.len() && 0 <= j < out@.len() && i != j && #[trigger] grid_rect_contains(out@[i], x, y)
                    ==> !#[trigger] grid_rect_contains(out@[j], x, y),
        decreases groups.len() - g,
    {
        let key = groups[g].0;
        assert(all_in_chunk(groups@[g as int].0, groups@[g as int].1@));
        let mut rects = mesh_chunk(key, &groups[g].1, &mut buffer);
        let ghost prev = out@;
        let ghost new = rects@;
        let ghost members = groups@[g as int].1@;
        proof {
            assert forall|x: int, y: int|
                names_cell(members, x, y) <==> (names_cell(all, x, y) && in_chunk(key, x, y)) by {
                if names_cell(members, x, y) {
                    let k = choose|k: int| 0 <= k < members.len() && #[trigger] members[k].x == x && members[k].y == y;
                    assert(groups@[g as int].1@[k] == members[k]);
                    assert(all.contains(members[k]));
                    let i = choose|i: int| 0 <= i < all.len() && all[i] == members[k];
                    assert(all[i].x == x && all[i].y == y);
                }
                if names_cell(all, x, y) && in_chunk(key, x, y) {
                    let i = choose|i: int| 0 <= i < all.len() && #[trigger] all[i].x == x && all[i].y == y;
                    assert(all.contains(all[i]));
                    let (h, k) = choose|h: int, k: int|
                        0 <= h < groups@.len() && 0 <= k < groups@[h].1@.len() && #[trigger] groups@[h].1@[k] == all[i];
                    assert(all_in_chunk(groups@[h].0, groups@[h].1@));
                    assert(in_chunk(groups@[h].0, groups@[h].1@[k].x as int, groups@[h].1@[k].y as int));
                    assert(groups@[h].0 == key);
                    if h != g {
                        if h < g {
                            assert(groups@[h].0 != groups@[g as int].0);
                        } else {
                            assert(groups@[g as int].0 != groups@[h].0);
                        }
                    }
                    assert(members[k] == all[i]);
                }
            }
        }
        out.append(&mut rects);
        proof {
            let o = out@;
            assert(o == prev + new);
            assert forall|x: int, y: int| grid_covered(o, x, y) <==> (grid_covered(prev, x, y) || grid_covered(new, x, y)) by {
                if grid_covered(prev, x, y) {
                    let j = choose|j: int| 0 <= j < prev.len() && #[trigger] grid_rect_contains(prev[j], x, y);
                    assert(o[j] == prev[j]);
                }
                if grid_covered(new, x, y) {
                    let j = choose|j: int| 0 <= j < new.len() && #[trigger] grid_rect_contains(new[j], x, y);
                    assert(o[prev.len() + j] == new[j]);
                }
                if grid_covered(o, x, y) {
                    let j = choose|j: int| 0 <= j < o.len() && #[trigger] grid_rect_contains(o[j], x, y);
                    if j < prev.len() {
                        assert(o[j] == prev[j]);
                    } else {
                        assert(o[j] == new[j - prev.len()]);
                    }
                }
            }
            assert forall|x: int, y: int| in_first_chunks(groups@, g + 1, x, y) <==> (in_first_chunks(groups@, g as int, x, y) || in_chunk(key, x, y)) by {
                if in_first_chunks(groups@, g + 1, x, y) {
                    let h = choose|h: int| 0 <= h < g + 1 && #[trigger] in_chunk(groups@[h].0, x, y);
                    if h < g {
                        assert(in_first_chunks(groups@, g as int, x, y));
                    }
                }
                if in_chunk(key, x, y) {
                    assert(in_chunk(groups@[g as int].0, x, y));
                }
            }
            // A cell of this chunk is not covered by the earlier chunks.
            assert forall|x: int, y: int| grid_covered(new, x, y) implies !grid_covered(prev, x, y) by {
                if grid_covered(prev, x, y) {
                    let h = choose|h: int| 0 <= h < g && #[trigger] in_chunk(groups@[h].0, x, y);
                    assert(groups@[h].0 == key);
                    assert(groups@[h].0 != groups@[g as int].0);
                }
            }
            assert forall|x: int, y: int|
                grid_covered(o, x, y) <==> (names_cell(all, x, y) && in_first_chunks(groups@, g + 1, x, y)) by {
                assert(names_cell(members, x, y) <==> grid_covered(new, x, y));
            }
            assert forall|i: int| 0 <= i < o.len() implies #[trigger] o[i].x1 < o[i].x2 && o[i].y1 < o[i].y2 by {
                if i < prev.len() {
                    assert(o[i] == prev[i]);
                } else {
                    assert(o[i] == new[i - prev.len()]);
                }
            }
            assert forall|i: int, j: int, x: int, y: int|
                0 <= i < o.len() && 0 <= j < o.len() && i != j && #[trigger] grid_rect_contains(o[i], x, y)
                    implies !#[trigger] grid_rect_contains(o[j], x, y) by {
                if i < prev.len() && j < prev.len() {
                    assert(o[i] == prev[i] && o[j] == prev[j]);
                } else if i >= prev.len() && j >= prev.len() {
                    assert(o[i] == new[i - prev.len()] && o[j] == new[j - prev.len()]);
                } else if grid_rect_contains(o[j], x, y) {
                    if i < prev.len() {
                        assert(o[i] == prev[i] && o[j] == new[j - prev.len()]);
                        assert(grid_covered(prev, x, y));
                        assert(grid_covered(new, x, y));
                    } else {
                        assert(o[j] == prev[j] && o[i] == new[i - prev.len()]);
                        assert(grid_covered(prev, x, y));
                        assert(grid_covered(new, x, y));
                    }
                }
            }
        }
        g += 1;
    }
    proof {
        assert forall|x: int, y: int| names_cell(all, x, y) implies in_first_chunks(groups@, groups@.len() as int, x, y) by {
            let i = choose|i: int| 0 <= i < all.len() && #[trigger] all[i].x == x && all[i].y == y;
            assert(all.contains(all[i]));
            let (h, k) = choose|h: int, k: int|
                0 <= h < groups@.len() && 0 <= k < groups@[h].1@.len() && #[trigger] groups@[h].1@[k] == all[i];
            assert(all_in_chunk(groups@[h].0, groups@[h].1@));
            assert(in_chunk(groups@[h].0, groups@[h].1@[k].x as int, groups@[h].1@[k].y as int));
        }
    }
    out
}

} // verus!
