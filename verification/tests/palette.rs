use block_mosaic::block_map::{distance, get_best_block, get_blocks_map, tile_key, BlockMap, BLOCK_SIZE};
use block_mosaic::error::MosaicError;
use block_mosaic::raster::ImgBuffer;

fn uniform(width: u32, height: u32, color: [u8; 3]) -> ImgBuffer {
    let mut data = Vec::new();
    for _ in 0..(width as usize * height as usize) {
        data.extend_from_slice(&color);
    }
    ImgBuffer::from_samples(width, height, data).unwrap()
}

fn tile(color: [u8; 3]) -> ImgBuffer {
    uniform(BLOCK_SIZE, BLOCK_SIZE, color)
}

fn palette(keys: &[[u8; 3]], fills: &[[u8; 3]]) -> BlockMap {
    keys.iter().zip(fills.iter()).map(|(key, fill)| (*key, tile(*fill))).collect()
}

#[test]
fn block_size_is_sixteen() {
    assert_eq!(BLOCK_SIZE, 16);
}

#[test]
fn distance_sums_the_channel_gaps() {
    assert_eq!(distance(&[200, 10, 10], &[255, 0, 0]), 75);
    assert_eq!(distance(&[200, 10, 10], &[0, 0, 255]), 455);
}

#[test]
fn distance_is_the_same_both_ways() {
    assert_eq!(distance(&[1, 250, 7], &[9, 3, 7]), 255);
    assert_eq!(distance(&[9, 3, 7], &[1, 250, 7]), 255);
}

#[test]
fn distance_spans_nought_to_the_farthest() {
    assert_eq!(distance(&[12, 34, 56], &[12, 34, 56]), 0);
    assert_eq!(distance(&[0, 0, 0], &[255, 255, 255]), 765);
}

#[test]
fn key_of_a_uniform_tile_is_its_colour() {
    for color in [[0, 0, 0], [255, 255, 255], [17, 200, 3], [255, 0, 1]] {
        assert_eq!(tile_key(&tile(color)), color);
    }
}

#[test]
fn key_is_the_floor_of_the_average() {
    // 255 pixels of (10, 0, 255) and one of (11, 255, 0).
    let mut data = Vec::new();
    for _ in 0..255 {
        data.extend_from_slice(&[10, 0, 255]);
    }
    data.extend_from_slice(&[11, 255, 0]);
    let img = ImgBuffer::from_samples(16, 16, data).unwrap();
    // (2550 + 11) / 256 = 10, 255 / 256 = 0, 255 * 255 / 256 = 254.
    assert_eq!(tile_key(&img), [10, 0, 254]);
}

#[test]
fn key_of_a_small_tile_is_divided_by_the_block_all_the_same() {
    // 8 by 8 pixels of 200: 64 * 200 / 256 = 50.
    assert_eq!(tile_key(&uniform(8, 8, [200, 100, 4])), [50, 25, 1]);
}

#[test]
fn key_of_a_large_tile_is_cut_to_a_byte() {
    // 32 by 32 pixels of 255: 1024 * 255 / 256 = 1020, and 1020 mod 256 = 252.
    assert_eq!(tile_key(&uniform(32, 32, [255, 64, 1])), [252, 0, 4]);
}

#[test]
fn key_of_an_empty_tile_is_black() {
    assert_eq!(tile_key(&uniform(0, 0, [9, 9, 9])), [0, 0, 0]);
}

#[test]
fn palette_skips_what_did_not_decode() {
    let map = get_blocks_map(vec![Some(tile([40, 50, 60])), None]);
    assert_eq!(map.len(), 1);
    assert_eq!(map[0].0, [40, 50, 60]);
}

#[test]
fn palette_keeps_the_order_of_the_files() {
    let files = vec![
        None,
        Some(tile([3, 3, 3])),
        Some(tile([1, 1, 1])),
        None,
        None,
        Some(tile([2, 2, 2])),
    ];
    let map = get_blocks_map(files);
    let keys: Vec<[u8; 3]> = map.iter().map(|entry| entry.0).collect();
    assert_eq!(keys, vec![[3, 3, 3], [1, 1, 1], [2, 2, 2]]);
}

#[test]
fn palette_keeps_each_tile_with_its_key() {
    let map = get_blocks_map(vec![Some(tile([9, 8, 7])), Some(uniform(8, 8, [200, 100, 4]))]);
    assert_eq!(map.len(), 2);
    assert_eq!(map[0].0, [9, 8, 7]);
    assert_eq!(map[1].0, [50, 25, 1]);
    let mut tiles = map.into_iter().map(|entry| entry.1);
    let first = tiles.next().unwrap();
    assert_eq!(first.dimensions(), (16, 16));
    assert_eq!(&first.into_samples()[..3], &[9, 8, 7]);
    let second = tiles.next().unwrap();
    assert_eq!(second.dimensions(), (8, 8));
    assert_eq!(&second.into_samples()[..3], &[200, 100, 4]);
}

#[test]
fn palette_keeps_tiles_of_one_colour_apart() {
    let map = get_blocks_map(vec![Some(tile([5, 5, 5])), Some(tile([5, 5, 5]))]);
    assert_eq!(map.len(), 2);
}

#[test]
fn palette_of_no_files_is_empty() {
    assert!(get_blocks_map(Vec::new()).is_empty());
    assert!(get_blocks_map(vec![None, None]).is_empty());
}

#[test]
fn red_tile_matches_a_reddish_query() {
    let map = palette(&[[255, 0, 0], [0, 0, 255]], &[[255, 0, 0], [0, 0, 255]]);
    let found = get_best_block(&map, &[200, 10, 10]).unwrap();
    assert_eq!(found.dimensions(), (16, 16));
    assert_eq!(found.into_samples(), tile([255, 0, 0]).into_samples());
}

#[test]
fn blue_tile_matches_a_bluish_query() {
    let map = palette(&[[255, 0, 0], [0, 0, 255]], &[[255, 0, 0], [0, 0, 255]]);
    let found = get_best_block(&map, &[10, 10, 200]).unwrap();
    assert_eq!(found.into_samples(), tile([0, 0, 255]).into_samples());
}

#[test]
fn match_goes_by_the_key_not_by_the_tile() {
    // The keys are swapped against what the tiles hold.
    let map = palette(&[[255, 0, 0], [0, 0, 255]], &[[1, 2, 3], [4, 5, 6]]);
    let found = get_best_block(&map, &[250, 0, 0]).unwrap();
    assert_eq!(&found.into_samples()[..3], &[1, 2, 3]);
}

#[test]
fn earliest_of_equal_matches_wins() {
    // Both keys are 20 away from the query.
    let map = palette(&[[110, 100, 100], [100, 110, 100], [90, 100, 100]], &[[1, 1, 1], [2, 2, 2], [3, 3, 3]]);
    let found = get_best_block(&map, &[100, 100, 100]).unwrap();
    assert_eq!(&found.into_samples()[..3], &[1, 1, 1]);
}

#[test]
fn later_entry_wins_only_when_nearer() {
    let map = palette(&[[110, 100, 100], [100, 105, 100], [100, 100, 105]], &[[1, 1, 1], [2, 2, 2], [3, 3, 3]]);
    let found = get_best_block(&map, &[100, 100, 100]).unwrap();
    assert_eq!(&found.into_samples()[..3], &[2, 2, 2]);
}

#[test]
fn farthest_key_still_matches_alone() {
    let map = palette(&[[255, 255, 255]], &[[7, 7, 7]]);
    let found = get_best_block(&map, &[0, 0, 0]).unwrap();
    assert_eq!(&found.into_samples()[..3], &[7, 7, 7]);
}

#[test]
fn match_is_a_copy_of_the_tile() {
    let map = palette(&[[10, 20, 30]], &[[10, 20, 30]]);
    let found = get_best_block(&map, &[0, 0, 0]).unwrap();
    let again = get_best_block(&map, &[0, 0, 0]).unwrap();
    assert_eq!(found.into_samples(), again.into_samples());
    assert_eq!(map.len(), 1);
}

#[test]
fn empty_palette_has_no_match() {
    let map: BlockMap = Vec::new();
    match get_best_block(&map, &[1, 2, 3]) {
        Err(e) => assert_eq!(e, MosaicError::EmptyPalette),
        Ok(_) => panic!("a tile came out of an empty palette"),
    }
}

#[test]
fn empty_palette_error_has_a_message() {
    assert_eq!(MosaicError::EmptyPalette.message(), "the palette holds no tile to match");
}
