use voxel_tensor::terrain::{random, TerrainMask, FOV};

#[test]
fn full_mask_names_every_block_in_turn() {
    let mask = TerrainMask::all();
    let mut from = 0;
    let mut seen = Vec::new();
    while let Some(k) = mask.next_block(from) {
        seen.push(k);
        from = k + 1;
    }
    assert_eq!(seen, (0..FOV * FOV).collect::<Vec<usize>>());
    assert!(mask.get(0, 0));
    assert!(mask.get(5, 5));
}

#[test]
fn next_block_skips_cleared_blocks() {
    let mut flags = [[false; FOV]; FOV];
    flags[0][4] = true;
    flags[2][1] = true;
    flags[5][5] = true;
    let mask = TerrainMask(flags);
    assert_eq!(mask.next_block(0), Some(4));
    assert_eq!(mask.next_block(4), Some(4));
    assert_eq!(mask.next_block(5), Some(13));
    assert_eq!(mask.next_block(14), Some(35));
    assert_eq!(mask.next_block(36), None);
    assert_eq!(mask.next_block(usize::MAX), None);
    assert!(mask.get(2, 1));
    assert!(!mask.get(1, 2));
}

#[test]
fn cleared_mask_names_no_block() {
    let mask = TerrainMask([[false; FOV]; FOV]);
    assert_eq!(mask.next_block(0), None);
}

#[test]
fn drawing_a_number_for_a_grid_point() {
    assert_eq!(random(0, 0, 0, 0, 9, 0), 0);
    assert_eq!(random(12, 10, 3, 0, 9, 0), 1);
    assert_eq!(random(12, 10, 3, 0, 9, 5), 6);
    assert_eq!(random(0b1010, 0b0110, 0b0101, 3, 5, 0), 3);
    assert_eq!(random(0b1010, 0b0111, 0b0101, 3, 5, 0), 4);
    assert_eq!(random(usize::MAX, usize::MAX, 0, 10, 11, 0), 10);
    for y in 0..100 {
        let r = random(12345, y, 678, 2, 9, 1);
        assert!((2..9).contains(&r));
    }
}
