use tile_mesher::{binary_greedy_meshing, pack_chunk, GridCoords, MeshedRect};

fn pack(cells: &[(i32, i32)]) -> [u64; 64] {
    let coords: Vec<GridCoords> = cells.iter().map(|&(x, y)| GridCoords::new(x, y)).collect();
    pack_chunk(&coords)
}

fn mesh(data: [u64; 64]) -> Vec<MeshedRect> {
    let mut buffer = Vec::new();
    binary_greedy_meshing(data, &mut buffer);
    buffer
}

fn rect(x1: i32, y1: i32, x2: i32, y2: i32) -> MeshedRect {
    MeshedRect { x1, y1, x2, y2 }
}

/// Counts, for each cell of the chunk, how many rectangles cover it.
fn cover_counts(rects: &[MeshedRect]) -> Vec<Vec<u32>> {
    let mut counts = vec![vec![0u32; 64]; 64];
    for r in rects {
        assert!(0 <= r.x1 && r.x1 < r.x2 && r.x2 <= 64);
        assert!(0 <= r.y1 && r.y1 < r.y2 && r.y2 <= 64);
        for x in r.x1..r.x2 {
            for y in r.y1..r.y2 {
                counts[x as usize][y as usize] += 1;
            }
        }
    }
    counts
}

fn assert_exact_cover(data: &[u64; 64], rects: &[MeshedRect]) {
    let counts = cover_counts(rects);
    for x in 0..64 {
        for y in 0..64 {
            let occupied = (data[x] >> y) & 1 == 1;
            assert_eq!(counts[x][y], if occupied { 1 } else { 0 }, "cell ({x}, {y})");
        }
    }
}

#[test]
fn two_by_two_block_meshes_to_one_rect() {
    let rects = mesh(pack(&[(0, 0), (1, 0), (0, 1), (1, 1)]));
    assert_eq!(rects, vec![rect(0, 0, 2, 2)]);
}

#[test]
fn separated_cells_mesh_to_two_unit_rects() {
    let rects = mesh(pack(&[(0, 0), (2, 0)]));
    assert_eq!(rects, vec![rect(0, 0, 1, 1), rect(2, 0, 3, 1)]);
}

#[test]
fn checkerboard_meshes_to_four_unit_rects() {
    let rects = mesh(pack(&[(0, 0), (1, 1), (0, 2), (1, 3)]));
    assert_eq!(
        rects,
        vec![rect(0, 0, 1, 1), rect(0, 2, 1, 3), rect(1, 1, 2, 2), rect(1, 3, 2, 4)]
    );
}

#[test]
fn full_chunk_meshes_to_one_rect() {
    let rects = mesh([!0u64; 64]);
    assert_eq!(rects, vec![rect(0, 0, 64, 64)]);
}

#[test]
fn single_cell_meshes_to_unit_rect() {
    for &(x, y) in &[(0, 0), (17, 42), (63, 0), (0, 63), (63, 63)] {
        let rects = mesh(pack(&[(x, y)]));
        assert_eq!(rects, vec![rect(x, y, x + 1, y + 1)]);
    }
}

#[test]
fn empty_chunk_meshes_to_nothing() {
    assert!(mesh([0u64; 64]).is_empty());
}

#[test]
fn full_column_uses_all_ones_mask() {
    let mut data = [0u64; 64];
    data[5] = !0u64;
    assert_eq!(mesh(data), vec![rect(5, 0, 6, 64)]);
    data[6] = !0u64;
    assert_eq!(mesh(data), vec![rect(5, 0, 7, 64)]);
}

#[test]
fn extension_stops_at_partial_match() {
    // Column 0 holds rows 0..4, column 1 only rows 0..2: no mask splitting.
    let rects = mesh(pack(&[(0, 0), (0, 1), (0, 2), (0, 3), (1, 0), (1, 1)]));
    assert_eq!(rects, vec![rect(0, 0, 1, 4), rect(1, 0, 2, 2)]);
}

#[test]
fn extension_claims_only_the_mask() {
    // Column 1 holds rows 0..3; the run of column 0 takes rows 0..2 of it.
    let rects = mesh(pack(&[(0, 0), (0, 1), (1, 0), (1, 1), (1, 2)]));
    assert_eq!(rects, vec![rect(0, 0, 2, 2), rect(1, 2, 2, 3)]);
}

#[test]
fn rectangle_reaches_last_column() {
    let cells: Vec<(i32, i32)> = (60..64).map(|x| (x, 7)).collect();
    assert_eq!(mesh(pack(&cells)), vec![rect(60, 7, 64, 8)]);
}

#[test]
fn meshing_appends_to_buffer() {
    let mut buffer = vec![rect(9, 9, 10, 10)];
    binary_greedy_meshing(pack(&[(3, 4)]), &mut buffer);
    assert_eq!(buffer, vec![rect(9, 9, 10, 10), rect(3, 4, 4, 5)]);
}

#[test]
fn meshing_twice_gives_same_rects() {
    let data = pack(&[(0, 0), (5, 9), (5, 10), (6, 9), (6, 10), (30, 63), (31, 1)]);
    let first = mesh(data);
    let second = mesh(data);
    assert_eq!(first, second);
}

#[test]
fn irregular_shape_is_covered_exactly_once() {
    let mut data = [0u64; 64];
    let mut seed: u64 = 0x9e37_79b9_7f4a_7c15;
    for word in data.iter_mut() {
        seed = seed.wrapping_mul(6364136223846793005).wrapping_add(1442695040888963407);
        *word = seed ^ (seed >> 17);
    }
    let rects = mesh(data);
    assert_exact_cover(&data, &rects);
}

#[test]
fn blocks_are_covered_exactly_once() {
    let mut cells = Vec::new();
    for x in 10..20 {
        for y in 0..64 {
            if (x + y) % 7 != 0 {
                cells.push((x, y));
            }
        }
    }
    let data = pack(&cells);
    let rects = mesh(data);
    assert_exact_cover(&data, &rects);
}
