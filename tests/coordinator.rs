use tile_mesher::{
    cell_chunk, chunk_key, group_by_region, local_coord, lookup_parent, mesh_chunk, mesh_level, mesh_region,
    GridCoords, GridRect, HierarchyError, MeshedRect, WallCell,
};

fn grect(x1: i64, y1: i64, x2: i64, y2: i64) -> GridRect {
    GridRect { x1, y1, x2, y2 }
}

fn cells(list: &[(i32, i32)]) -> Vec<GridCoords> {
    list.iter().map(|&(x, y)| GridCoords::new(x, y)).collect()
}

fn sorted(mut rects: Vec<GridRect>) -> Vec<GridRect> {
    rects.sort_by_key(|r| (r.x1, r.y1, r.x2, r.y2));
    rects
}

#[test]
fn chunk_key_and_local_coord_round_trip() {
    for v in [0, 1, 63, 64, 65, 127, 128, -1, -63, -64, -65, -128, -129, i32::MAX, i32::MIN] {
        let k = chunk_key(v);
        let l = local_coord(v);
        assert!((0..64).contains(&l));
        assert_eq!(k as i64 * 64 + l as i64, v as i64);
    }
}

#[test]
fn negative_coordinates_use_floor_division() {
    assert_eq!(chunk_key(-1), -1);
    assert_eq!(local_coord(-1), 63);
    assert_eq!(chunk_key(-64), -1);
    assert_eq!(local_coord(-64), 0);
    assert_eq!(chunk_key(-65), -2);
    assert_eq!(local_coord(-65), 63);
    assert_eq!(cell_chunk(&GridCoords::new(-1, 130)), (-1, 2));
}

#[test]
fn region_of_one_block_meshes_to_one_rect() {
    let rects = mesh_region(&cells(&[(0, 0), (1, 0), (0, 1), (1, 1)]));
    assert_eq!(rects, vec![grect(0, 0, 2, 2)]);
}

#[test]
fn region_with_no_cells_meshes_to_nothing() {
    assert!(mesh_region(&Vec::new()).is_empty());
}

#[test]
fn region_splits_at_chunk_borders() {
    let mut list = Vec::new();
    for x in 62..66 {
        for y in 0..2 {
            list.push((x, y));
        }
    }
    let rects = sorted(mesh_region(&cells(&list)));
    assert_eq!(rects, vec![grect(62, 0, 64, 2), grect(64, 0, 66, 2)]);
}

#[test]
fn region_with_negative_cells_maps_back_to_global() {
    // (-1, -1) and (-1, 0) lie in different chunks, so they do not merge.
    let rects = sorted(mesh_region(&cells(&[(-1, 0), (0, 0), (-64, -64), (-65, -1), (-1, -1)])));
    assert_eq!(
        rects,
        vec![
            grect(-65, -1, -64, 0),
            grect(-64, -64, -63, -63),
            grect(-1, -1, 0, 0),
            grect(-1, 0, 0, 1),
            grect(0, 0, 1, 1),
        ]
    );
}

#[test]
fn region_keeps_duplicate_cells_once() {
    let rects = mesh_region(&cells(&[(100, 100), (100, 100), (101, 100)]));
    assert_eq!(rects, vec![grect(100, 100, 102, 101)]);
}

#[test]
fn chunk_rects_are_moved_by_chunk_origin() {
    let mut buffer = vec![MeshedRect { x1: 0, y1: 0, x2: 1, y2: 1 }];
    let rects = mesh_chunk((2, -1), &cells(&[(130, -60), (131, -60)]), &mut buffer);
    assert_eq!(rects, vec![grect(130, -60, 132, -59)]);
    assert_eq!(buffer, vec![MeshedRect { x1: 2, y1: 4, x2: 4, y2: 5 }]);
}

#[test]
fn lookup_parent_takes_first_link() {
    let links = vec![(1, 10), (2, 20), (1, 30)];
    assert_eq!(lookup_parent(&links, 1), Some(10));
    assert_eq!(lookup_parent(&links, 2), Some(20));
    assert_eq!(lookup_parent(&links, 3), None);
}

fn wall(x: i32, y: i32, parent: u64) -> WallCell {
    WallCell { coords: GridCoords::new(x, y), parent }
}

#[test]
fn walls_group_by_grandparent() {
    let walls = vec![wall(0, 0, 5), wall(1, 0, 6), wall(2, 0, 5)];
    let links = vec![(5, 100), (6, 200)];
    let groups = group_by_region(&walls, &links).unwrap();
    assert_eq!(
        groups,
        vec![(100, cells(&[(0, 0), (2, 0)])), (200, cells(&[(1, 0)]))]
    );
}

#[test]
fn walls_of_two_layers_share_a_region() {
    let walls = vec![wall(0, 0, 5), wall(1, 0, 6)];
    let links = vec![(5, 100), (6, 100)];
    let groups = group_by_region(&walls, &links).unwrap();
    assert_eq!(groups, vec![(100, cells(&[(0, 0), (1, 0)]))]);
}

#[test]
fn missing_grandparent_is_an_error() {
    let walls = vec![wall(0, 0, 5), wall(1, 0, 7), wall(2, 0, 8)];
    let links = vec![(5, 100)];
    assert_eq!(group_by_region(&walls, &links), Err(HierarchyError { orphan: 7 }));
    assert_eq!(mesh_level(&walls, &links), Err(HierarchyError { orphan: 7 }));
}

#[test]
fn level_meshes_each_region() {
    let walls = vec![wall(0, 0, 5), wall(1, 0, 5), wall(10, 10, 6), wall(-1, 0, 5)];
    let links = vec![(5, 100), (6, 200)];
    let meshes = mesh_level(&walls, &links).unwrap();
    assert_eq!(meshes.len(), 2);
    assert_eq!(meshes[0].0, 100);
    assert_eq!(sorted(meshes[0].1.clone()), vec![grect(-1, 0, 0, 1), grect(0, 0, 2, 1)]);
    assert_eq!(meshes[1], (200, vec![grect(10, 10, 11, 11)]));
}

#[test]
fn level_without_walls_has_no_regions() {
    assert_eq!(mesh_level(&Vec::new(), &Vec::new()), Ok(Vec::new()));
}
