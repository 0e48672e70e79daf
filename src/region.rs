use vstd::prelude::*;
use crate::chunk::GridCoords;
use crate::coordinator::{covers_exactly, disjoint_rects, grid_covered, mesh_region, GridRect};
use crate::packer::names_cell;

verus! {

/// A wall cell as the level loader hands it over: its grid position and the
/// entity that holds it.
#[derive(Clone, Copy, Debug, PartialEq, Eq, Structural)]
pub struct WallCell {
    pub coords: GridCoords,
    pub parent: u64,
}

/// The holder of a wall cell has no parent of its own, so the cell belongs
/// to no region: the level data is malformed.
#[derive(Clone, Copy, Debug, PartialEq, Eq, Structural)]
pub struct HierarchyError {
    /// The holder whose parent is missing.
    pub orphan: u64,
}

/// The parent of entity `e` in a table of `(child, parent)` links: the first
/// entry for `e`, if any.
pub open spec fn parent_of(links: Seq<(u64, u64)>, e: u64) -> Option<u64> {
    if exists|i: int| 0 <= i < links.len() && #[trigger] links[i].0 == e {
        let i = choose|i: int|
            0 <= i < links.len() && #[trigger] links[i].0 == e && forall|j: int| 0 <= j < i ==> links[j].0 != e;
        Some(links[i].1)
    } else {
        None
    }
}

/// The region of a wall cell: the parent of its holder.
pub open spec fn region_of(links: Seq<(u64, u64)>, w: WallCell) -> Option<u64> {
    parent_of(links, w.parent)
}

/// Whether some wall of `walls` in region `region` lies at `(x, y)`.
pub open spec fn region_has_cell(walls: Seq<WallCell>, links: Seq<(u64, u64)>, region: u64, x: int, y: int) -> bool {
    exists|i: int|
        0 <= i < walls.len() && #[trigger] walls[i].coords.x == x && walls[i].coords.y == y && region_of(links, walls[i])
            == Some(region)
}

/// `e` is the error for the first wall of `walls` whose region is missing.
pub open spec fn first_orphan(walls: Seq<WallCell>, links: Seq<(u64, u64)>, e: HierarchyError) -> bool {
    exists|i: int|
        0 <= i < walls.len() && region_of(links, #[trigger] walls[i]) is None && e.orphan == walls[i].parent
            && forall|j: int| 0 <= j < i ==> region_of(links, #[trigger] walls[j]) is Some
}

/// Every wall of `walls` has a region.
pub open spec fn all_resolved(walls: Seq<WallCell>, links: Seq<(u64, u64)>) -> bool {
    forall|i: int| 0 <= i < walls.len() ==> region_of(links, #[trigger] walls[i]) is Some
}

/// `groups` holds the walls' cells grouped by region: one nonempty group per
/// region, each cell in the group of its own region.
pub open spec fn grouped_by_region(
    walls: Seq<WallCell>,
    links: Seq<(u64, u64)>,
    groups: Seq<(u64, Vec<GridCoords>)>,
) -> bool {
    &&& forall|g: int, h: int| 0 <= g < h < groups.len() ==> groups[g].0 != groups[h].0
    &&& forall|g: int| 0 <= g < groups.len() ==> #[trigger] groups[g].1@.len() > 0
    &&& forall|i: int|
        0 <= i < walls.len() ==> has_group(groups, region_of(links, #[trigger] walls[i]), walls[i].coords)
    &&& forall|g: int, k: int|
        0 <= g < groups.len() && 0 <= k < groups[g].1@.len() ==> is_wall_of(
            walls,
            links,
            groups[g].0,
            #[trigger] groups[g].1@[k],
        )
}

/// Whether some group of region `region` holds cell `c`.
pub open spec fn has_group(groups: Seq<(u64, Vec<GridCoords>)>, region: Option<u64>, c: GridCoords) -> bool {
    exists|g: int| 0 <= g < groups.len() && Some(groups[g].0) == region && #[trigger] groups[g].1@.contains(c)
}

/// Whether some wall of region `region` lies at cell `c`.
pub open spec fn is_wall_of(walls: Seq<WallCell>, links: Seq<(u64, u64)>, region: u64, c: GridCoords) -> bool {
    exists|i: int| 0 <= i < walls.len() && #[trigger] walls[i].coords == c && region_of(links, walls[i]) == Some(region)
}

/// Whether some wall whose resolved region is `key` lies at cell `c`.
spec fn picked(walls: Seq<WallCell>, regions: Seq<u64>, key: u64, c: GridCoords) -> bool {
    exists|i: int| 0 <= i < walls.len() && #[trigger] walls[i].coords == c && regions[i] == key
}

/// Looks up the parent of entity `e`.
pub fn lookup_parent(links: &Vec<(u64, u64)>, e: u64) -> (r: Option<u64>)
    ensures
        r == parent_of(links@, e),
{
    let mut i: usize = 0;
    while i < links.len()
        invariant
            i <= links.len(),
            forall|j: int| 0 <= j < i ==> links@[j].0 != e,
        decreases links.len() - i,
    {
        if links[i].0 == e {
            proof {
                let k = choose|k: int|
                    0 <= k < links@.len() && #[trigger] links@[k].0 == e && forall|j: int| 0 <= j < k ==> links@[j].0 != e;
                if k < i {
                } else if k > i {
                    assert(links@[i as int].0 == e);
                }
            }
            return Some(links[i].1);
        }
        i += 1;
    }
    None
}

/// Resolves the region of each wall, in order, and stops at the first wall
/// whose holder has no parent.
fn resolve_regions(walls: &Vec<WallCell>, links: &Vec<(u64, u64)>) -> (r: Result<Vec<u64>, HierarchyError>)
    ensures
        match r {
            Ok(regions) => regions@.len() == walls@.len() && forall|i: int|
                0 <= i < walls@.len() ==> region_of(links@, #[trigger] walls@[i]) == Some(regions@[i]),
            Err(e) => first_orphan(walls@, links@, e),
        },
{
    let mut regions: Vec<u64> = Vec::new();
    let mut i: usize = 0;
    while i < walls.len()
        invariant
            i <= walls.len(),
            regions@.len() == i,
            forall|j: int| 0 <= j < i ==> region_of(links@, #[trigger] walls@[j]) == Some(regions@[j]),
        decreases walls.len() - i,
    {
        match lookup_parent(links, walls[i].parent) {
            Some(region) => regions.push(region),
            None => {
                let e = HierarchyError { orphan: walls[i].parent };
                assert(first_orphan(walls@, links@, e)) by {
                    assert(region_of(links@, walls@[i as int]) is None);
                    assert forall|j: int| 0 <= j < i implies region_of(links@, #[trigger] walls@[j]) is Some by {
                    }
                }
                return Err(e);
            },
        }
        i += 1;
    }
    Ok(regions)
}

/// Whether `keys` holds `k`.
fn holds_key(keys: &Vec<u64>, k: u64) -> (r: bool)
    ensures
        r == keys@.contains(k),
{
    let mut i: usize = 0;
    while i < keys.len()
        invariant
            i <= keys.len(),
            forall|j: int| 0 <= j < i ==> keys@[j] != k,
        decreases keys.len() - i,
    {
        if keys[i] == k {
            return true;
        }
        i += 1;
    }
    false
}

/// The distinct values of `regions`, in order of first appearance.
fn distinct_regions(regions: &Vec<u64>) -> (r: Vec<u64>)
    ensures
        forall|a: int, b: int| 0 <= a < b < r@.len() ==> r@[a] != r@[b],
        forall|i: int| 0 <= i < regions@.len() ==> r@.contains(#[trigger] regions@[i]),
        forall|a: int| 0 <= a < r@.len() ==> regions@.contains(#[trigger] r@[a]),
{
    let mut keys: Vec<u64> = Vec::new();
    let mut i: usize = 0;
    while i < regions.len()
        invariant
            i <= regions.len(),
            forall|a: int, b: int| 0 <= a < b < keys@.len() ==> keys@[a] != keys@[b],
            forall|j: int| 0 <= j < i ==> keys@.contains(#[trigger] regions@[j]),
            forall|a: int| 0 <= a < keys@.len() ==> regions@.contains(#[trigger] keys@[a]),
        decreases regions.len() - i,
    {
        let k = regions[i];
        if !holds_key(&keys, k) {
            let ghost prev = keys@;
            keys.push(k);
            proof {
                assert forall|j: int| 0 <= j < i implies keys@.contains(#[trigger] regions@[j]) by {
                    let a = choose|a: int| 0 <= a < prev.len() && prev[a] == regions@[j];
                    assert(keys@[a] == prev[a]);
                }
                assert(keys@[prev.len() as int] == k);
                assert forall|a: int| 0 <= a < keys@.len() implies regions@.contains(#[trigger] keys@[a]) by {
                    if a < prev.len() {
                        assert(keys@[a] == prev[a]);
                    } else {
                        assert(regions@[i as int] == k);
                    }
                }
            }
        }
        assert(keys@.contains(regions@[i as int]));
        i += 1;
    }
    keys
}

/// The cells of the walls whose region is `key`, in wall order.
fn cells_of_region(walls: &Vec<WallCell>, regions: &Vec<u64>, key: u64) -> (r: Vec<GridCoords>)
    requires
        regions@.len() == walls@.len(),
    ensures
        forall|i: int| 0 <= i < walls@.len() && regions@[i] == key ==> r@.contains(#[trigger] walls@[i].coords),
        forall|k: int| 0 <= k < r@.len() ==> picked(walls@, regions@, key, #[trigger] r@[k]),
{
    let mut cells: Vec<GridCoords> = Vec::new();
    let mut i: usize = 0;
    while i < walls.len()
        invariant
            i <= walls.len(),
            regions@.len() == walls@.len(),
            forall|j: int| 0 <= j < i && regions@[j] == key ==> cells@.contains(#[trigger] walls@[j].coords),
            forall|k: int| 0 <= k < cells@.len() ==> picked(walls@, regions@, key, #[trigger] cells@[k]),
        decreases walls.len() - i,
    {
        if regions[i] == key {
            let ghost prev = cells@;
            cells.push(walls[i].coords);
            proof {
                assert forall|j: int| 0 <= j < i && regions@[j] == key implies cells@.contains(
                    #[trigger] walls@[j].coords,
                ) by {
                    let a = choose|a: int| 0 <= a < prev.len() && prev[a] == walls@[j].coords;
                    assert(cells@[a] == prev[a]);
                }
                assert(cells@[prev.len() as int] == walls@[i as int].coords);
                assert forall|k: int| 0 <= k < cells@.len() implies picked(walls@, regions@, key, #[trigger] cells@[k]) by {
                    if k < prev.len() {
                        assert(cells@[k] == prev[k]);
                    } else {
                        assert(walls@[i as int].coords == cells@[k]);
                    }
                }
            }
        }
        i += 1;
    }
    cells
}

/// Groups wall cells by region, the parent of each wall's holder.
///
/// Fails on the first wall whose holder has no parent in `links`, a table of
/// `(child, parent)` entity pairs: such a level is malformed.
pub fn group_by_region(walls: &Vec<WallCell>, links: &Vec<(u64, u64)>) -> (r: Result<
    Vec<(u64, Vec<GridCoords>)>,
    HierarchyError,
>)
    ensures
        match r {
            Ok(groups) => all_resolved(walls@, links@) && grouped_by_region(walls@, links@, groups@),
            Err(e) => first_orphan(walls@, links@, e),
        },
{
    let regions = match resolve_regions(walls, links) {
        Ok(regions) => regions,
        Err(e) => return Err(e),
    };
    let keys = distinct_regions(&regions);
    let mut groups: Vec<(u64, Vec<GridCoords>)> = Vec::new();
    let mut g: usize = 0;
    while g < keys.len()
        invariant
            g <= keys.len(),
            groups@.len() == g,
            regions@.len() == walls@.len(),
            forall|i: int| 0 <= i < walls@.len() ==> region_of(links@, #[trigger] walls@[i]) == Some(regions@[i]),
            forall|a: int, b: int| 0 <= a < b < keys@.len() ==> keys@[a] != keys@[b],
            forall|a: int| 0 <= a < keys@.len() ==> regions@.contains(#[trigger] keys@[a]),
            forall|h: int| 0 <= h < g ==> #[trigger] groups@[h].0 == keys@[h],
            forall|h: int| 0 <= h < g ==> #[trigger] groups@[h].1@.len() > 0,
            forall|h: int, i: int|
                0 <= h < g && 0 <= i < walls@.len() && regions@[i] == keys@[h] ==> #[trigger] groups@[h].1@.contains(
                    #[trigger] walls@[i].coords,
                ),
            forall|h: int, k: int|
                0 <= h < g && 0 <= k < groups@[h].1@.len() ==> picked(walls@, regions@, keys@[h], #[trigger] groups@[h].1@[k]),
        decreases keys.len() - g,
    {
        let key = keys[g];
        let cells = cells_of_region(walls, &regions, key);
        proof {
            assert(regions@.contains(keys@[g as int]));
            let i = choose|i: int| 0 <= i < regions@.len() && regions@[i] == key;
            assert(cells@.contains(walls@[i].coords));
        }
        groups.push((key, cells));
        g += 1;
    }
    proof {
        let gs = groups@;
        assert forall|i: int| 0 <= i < walls@.len() implies has_group(gs, region_of(links@, #[trigger] walls@[i]), walls@[i].coords) by {
            let k = regions@[i];
            let h = choose|h: int| 0 <= h < keys@.len() && keys@[h] == k;
            assert(gs[h].0 == keys@[h]);
            assert(gs[h].1@.contains(walls@[i].coords));
        }
        assert forall|h: int, k: int| 0 <= h < gs.len() && 0 <= k < gs[h].1@.len() implies is_wall_of(walls@, links@, gs[h].0, #[trigger] gs[h].1@[k]) by {
            assert(gs[h].0 == keys@[h]);
            assert(picked(walls@, regions@, keys@[h], gs[h].1@[k]));
            let i = choose|i: int| 0 <= i < walls@.len() && #[trigger] walls@[i].coords == gs[h].1@[k] && regions@[i] == keys@[h];
            assert(region_of(links@, walls@[i]) == Some(regions@[i]));
        }
        assert forall|a: int, b: int| 0 <= a < b < gs.len() implies gs[a].0 != gs[b].0 by {
            assert(gs[a].0 == keys@[a] && gs[b].0 == keys@[b]);
        }
    }
    Ok(groups)
}

/// The rectangles of region `region` cover exactly the region's wall cells,
/// each one by a single rectangle of positive width and height.
pub open spec fn region_meshed(walls: Seq<WallCell>, links: Seq<(u64, u64)>, region: u64, rects: Seq<GridRect>) -> bool {
    &&& disjoint_rects(rects)
    &&& forall|x: int, y: int| region_has_cell(walls, links, region, x, y) <==> grid_covered(rects, x, y)
}

/// Whether `meshes` has an entry for region `region`.
pub open spec fn has_mesh(meshes: Seq<(u64, Vec<GridRect>)>, region: Option<u64>) -> bool {
    exists|g: int| 0 <= g < meshes.len() && Some(#[trigger] meshes[g].0) == region
}

/// Meshes the wall cells of a level into global rectangles, one list per
/// region.
///
/// Fails, as `group_by_region` does, on the first wall whose holder has no
/// parent in `links`. Otherwise each region of a wall has one entry, and the
/// entry's rectangles cover exactly that region's wall cells, each once.
pub fn mesh_level(walls: &Vec<WallCell>, links: &Vec<(u64, u64)>) -> (r: Result<
    Vec<(u64, Vec<GridRect>)>,
    HierarchyError,
>)
    ensures
        match r {
            Ok(meshes) => {
                &&& all_resolved(walls@, links@)
                &&& forall|a: int, b: int| 0 <= a < b < meshes@.len() ==> meshes@[a].0 != meshes@[b].0
                &&& forall|i: int| 0 <= i < walls@.len() ==> has_mesh(meshes@, region_of(links@, #[trigger] walls@[i]))
                &&& forall|g: int|
                    0 <= g < meshes@.len() ==> region_meshed(walls@, links@, #[trigger] meshes@[g].0, meshes@[g].1@)
            },
            Err(e) => first_orphan(walls@, links@, e),
        },
{
    let groups = match group_by_region(walls, links) {
        Ok(groups) => groups,
        Err(e) => return Err(e),
    };
    let mut meshes: Vec<(u64, Vec<GridRect>)> = Vec::new();
    let mut g: usize = 0;
    while g < groups.len()
        invariant
            g <= groups.len(),
            meshes@.len() == g,
            grouped_by_region(walls@, links@, groups@),
            forall|h: int| 0 <= h < g ==> #[trigger] meshes@[h].0 == groups@[h].0,
            forall|h: int| 0 <= h < g ==> region_meshed(walls@, links@, #[trigger] meshes@[h].0, meshes@[h].1@),
        decreases groups.len() - g,
    {
        let key = groups[g].0;
        let rects = mesh_region(&groups[g].1);
        proof {
            let members = groups@[g as int].1@;
            assert forall|x: int, y: int| region_has_cell(walls@, links@, key, x, y) <==> names_cell(members, x, y) by {
                if names_cell(members, x, y) {
                    let k = choose|k: int| 0 <= k < members.len() && #[trigger] members[k].x == x && members[k].y == y;
                    assert(is_wall_of(walls@, links@, key, groups@[g as int].1@[k]));
                    let i = choose|i: int|
                        0 <= i < walls@.len() && #[trigger] walls@[i].coords == members[k] && region_of(links@, walls@[i])
                            == Some(key);
                    assert(walls@[i].coords.x == x);
                }
                if region_has_cell(walls@, links@, key, x, y) {
                    let i = choose|i: int|
                        0 <= i < walls@.len() && #[trigger] walls@[i].coords.x == x && walls@[i].coords.y == y
                            && region_of(links@, walls@[i]) == Some(key);
                    assert(has_group(groups@, region_of(links@, walls@[i]), walls@[i].coords));
                    let h = choose|h: int|
                        0 <= h < groups@.len() && Some(groups@[h].0) == region_of(links@, walls@[i])
                            && #[trigger] groups@[h].1@.contains(walls@[i].coords);
                    if h < g {
                        assert(groups@[h].0 != groups@[g as int].0);
                    } else if h > g {
                        assert(groups@[g as int].0 != groups@[h].0);
                    }
                    let k = choose|k: int| 0 <= k < members.len() && members[k] == walls@[i].coords;
                    assert(members[k].x == x && members[k].y == y);
                }
            }
        }
        meshes.push((key, rects));
        g += 1;
    }
    proof {
        let ms = meshes@;
        assert forall|i: int| 0 <= i < walls@.len() implies has_mesh(ms, region_of(links@, #[trigger] walls@[i])) by {
            assert(has_group(groups@, region_of(links@, walls@[i]), walls@[i].coords));
            let h = choose|h: int|
                0 <= h < groups@.len() && Some(groups@[h].0) == region_of(links@, walls@[i])
                    && #[trigger] groups@[h].1@.contains(walls@[i].coords);
            assert(ms[h].0 == groups@[h].0);
        }
        assert forall|a: int, b: int| 0 <= a < b < ms.len() implies ms[a].0 != ms[b].0 by {
            assert(ms[a].0 == groups@[a].0 && ms[b].0 == groups@[b].0);
        }
    }
    Ok(meshes)
}

} // verus!
