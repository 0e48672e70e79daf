use tile_mesher::{pack_chunk, GridCoords};

#[test]
fn packing_sets_bit_y_of_word_x() {
    let data = pack_chunk(&vec![GridCoords::new(3, 5), GridCoords::new(63, 63), GridCoords::new(3, 0)]);
    assert_eq!(data[3], (1u64 << 5) | 1);
    assert_eq!(data[63], 1u64 << 63);
    assert_eq!(data.iter().filter(|&&w| w != 0).count(), 2);
}

#[test]
fn packing_nothing_gives_empty_chunk() {
    assert_eq!(pack_chunk(&Vec::new()), [0u64; 64]);
}

#[test]
fn packing_ignores_duplicates() {
    let with_duplicates = vec![
        GridCoords::new(1, 2),
        GridCoords::new(4, 4),
        GridCoords::new(1, 2),
        GridCoords::new(4, 4),
        GridCoords::new(1, 2),
    ];
    let deduplicated = vec![GridCoords::new(4, 4), GridCoords::new(1, 2)];
    assert_eq!(pack_chunk(&with_duplicates), pack_chunk(&deduplicated));
}
