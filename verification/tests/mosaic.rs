use block_mosaic::block_map::{BlockMap, BLOCK_SIZE};
use block_mosaic::error::MosaicError;
use block_mosaic::grid::{blank_output, cell_origins};
use block_mosaic::mosaic::{build_mosaic, can_place_tile, cell_color, covers_block, place_tile};
use block_mosaic::raster::ImgBuffer;

fn uniform(width: u32, height: u32, color: [u8; 3]) -> ImgBuffer {
    let mut data = Vec::new();
    for _ in 0..(width as usize * height as usize) {
        data.extend_from_slice(&color);
    }
    ImgBuffer::from_samples(width, height, data).unwrap()
}

fn painted(width: u32, height: u32, paint: fn(u32, u32) -> [u8; 3]) -> ImgBuffer {
    let mut data = Vec::new();
    for y in 0..height {
        for x in 0..width {
            data.extend_from_slice(&paint(x, y));
        }
    }
    ImgBuffer::from_samples(width, height, data).unwrap()
}

fn pixel(samples: &[u8], width: u32, x: u32, y: u32) -> [u8; 3] {
    let at = 3 * (y as usize * width as usize + x as usize);
    [samples[at], samples[at + 1], samples[at + 2]]
}

fn shaded_tile(x: u32, y: u32) -> [u8; 3] {
    [x as u8, y as u8, 200]
}

fn other_tile(x: u32, y: u32) -> [u8; 3] {
    [100 + y as u8, 100 + x as u8, 0]
}

fn black_white() -> BlockMap {
    vec![
        ([0, 0, 0], painted(16, 16, shaded_tile)),
        ([255, 255, 255], painted(16, 16, other_tile)),
    ]
}

fn checker(x: u32, y: u32) -> [u8; 3] {
    if (x / 2 + y / 2) % 2 == 0 {
        [250, 250, 250]
    } else {
        [5, 5, 5]
    }
}

fn gradient(x: u32, y: u32) -> [u8; 3] {
    [(x * 40) as u8, (y * 50) as u8, (x + y) as u8]
}

#[test]
fn cell_color_is_the_floor_of_the_average() {
    let img = painted(4, 4, gradient);
    // Cell at (2, 0): pixels (2,0) (3,0) (2,1) (3,1).
    // red 80 + 120 + 80 + 120 = 400 -> 100; green 0 + 0 + 50 + 50 -> 25;
    // blue 2 + 3 + 3 + 4 = 12 -> 3.
    assert_eq!(cell_color(&img, 2, 0, 2), [100, 25, 3]);
    // Cell of three by three at (1, 1): red (40 + 80 + 120) * 3 / 9 = 80,
    // green (50 + 100 + 150) * 3 / 9 = 100, blue (2+3+4+3+4+5+4+5+6) / 9 = 4.
    assert_eq!(cell_color(&img, 1, 1, 3), [80, 100, 4]);
}

#[test]
fn cell_color_rounds_down() {
    let img = painted(2, 2, |x, y| if x == 0 && y == 0 { [0, 3, 255] } else { [1, 0, 255] });
    assert_eq!(cell_color(&img, 0, 0, 2), [0, 0, 255]);
}

#[test]
fn cell_color_of_one_pixel_is_the_pixel() {
    let img = painted(4, 4, gradient);
    assert_eq!(cell_color(&img, 3, 2, 1), [120, 100, 5]);
}

#[test]
fn cell_color_of_the_whole_raster() {
    let img = uniform(5, 5, [255, 128, 1]);
    assert_eq!(cell_color(&img, 0, 0, 5), [255, 128, 1]);
}

#[test]
fn cell_origins_go_row_by_row() {
    assert_eq!(cell_origins(6, 4, 2), vec![(0, 0), (2, 0), (4, 0), (0, 2), (2, 2), (4, 2)]);
}

#[test]
fn cell_origins_leave_the_remainder_out() {
    assert_eq!(cell_origins(7, 5, 3), vec![(0, 0), (3, 0)]);
    assert_eq!(cell_origins(5, 5, 2).len(), 4);
}

#[test]
fn cell_origins_of_a_raster_smaller_than_a_cell() {
    assert!(cell_origins(3, 9, 4).is_empty());
    assert!(cell_origins(9, 3, 4).is_empty());
    assert!(cell_origins(0, 0, 1).is_empty());
}

#[test]
fn cell_origins_at_scale_one_are_the_pixels() {
    assert_eq!(cell_origins(2, 2, 1), vec![(0, 0), (1, 0), (0, 1), (1, 1)]);
}

#[test]
fn blank_output_has_a_tile_for_each_cell() {
    let out = blank_output(32, 32, 2).unwrap();
    assert_eq!(out.dimensions(), (256, 256));
    let samples = out.into_samples();
    assert_eq!(samples.len(), 3 * 256 * 256);
    assert!(samples.iter().all(|s| *s == 0));
}

#[test]
fn blank_output_drops_the_remainder() {
    assert_eq!(blank_output(7, 5, 3).unwrap().dimensions(), (32, 16));
    assert_eq!(blank_output(2, 9, 3).unwrap().dimensions(), (0, 48));
}

#[test]
fn blank_output_of_no_rows_goes_by_the_machine_word() {
    // 268435455 cells across give 4294967280 pixels; the samples of one row
    // are counted even where there is no row.
    let countable = 3u128 * 4294967280u128 <= usize::MAX as u128;
    let made = blank_output(u32::MAX, 0, 16);
    assert_eq!(made.is_some(), countable);
    if let Some(out) = made {
        assert_eq!(out.dimensions(), (4294967280, 0));
        assert!(out.into_samples().is_empty());
    }
}

#[test]
fn blank_output_of_no_columns_is_held() {
    let out = blank_output(0, u32::MAX, 16).unwrap();
    assert_eq!(out.dimensions(), (0, 4294967280));
}

#[test]
fn mosaic_of_a_wide_source_without_rows() {
    let img = ImgBuffer::from_samples(40, 0, Vec::new()).unwrap();
    let out = build_mosaic(&img, &black_white(), 2).unwrap();
    assert_eq!(out.dimensions(), (320, 0));
    assert!(out.into_samples().is_empty());
}

#[test]
fn blank_output_refuses_what_cannot_be_held() {
    assert!(blank_output(u32::MAX, 1, 1).is_none());
    assert!(blank_output(1, u32::MAX, 1).is_none());
    assert!(blank_output(u32::MAX, u32::MAX, 16).is_none());
}

#[test]
fn place_tile_writes_one_block_and_nothing_else() {
    let mut out = uniform(48, 32, [9, 9, 9]);
    let tile = painted(16, 16, shaded_tile);
    // The cell at source (2, 1) with scale 2 goes to (16, 8).
    place_tile(&mut out, &tile, 2, 1, 2);
    assert_eq!(out.dimensions(), (48, 32));
    let samples = out.into_samples();
    for y in 0..32 {
        for x in 0..48 {
            let inside = (16..32).contains(&x) && (8..24).contains(&y);
            let want = if inside { shaded_tile(x - 16, y - 8) } else { [9, 9, 9] };
            assert_eq!(pixel(&samples, 48, x, y), want, "at ({}, {})", x, y);
        }
    }
}

#[test]
fn covers_block_asks_a_whole_block_of_every_tile() {
    assert!(covers_block(&black_white()));
    assert!(covers_block(&Vec::new()));
    assert!(covers_block(&vec![([0, 0, 0], uniform(16, 16, [0, 0, 0])), ([9, 9, 9], uniform(40, 17, [0, 0, 0]))]));
    assert!(!covers_block(&vec![([0, 0, 0], uniform(16, 16, [0, 0, 0])), ([9, 9, 9], uniform(15, 16, [0, 0, 0]))]));
    assert!(!covers_block(&vec![([9, 9, 9], uniform(16, 15, [0, 0, 0])), ([0, 0, 0], uniform(16, 16, [0, 0, 0]))]));
    assert!(!covers_block(&vec![([9, 9, 9], uniform(0, 0, [0, 0, 0]))]));
}

#[test]
fn can_place_tile_tells_where_a_tile_fits() {
    let out = uniform(48, 32, [0, 0, 0]);
    let tile = uniform(16, 16, [1, 1, 1]);
    assert!(can_place_tile(&out, &tile, 0, 0, 1));
    assert!(can_place_tile(&out, &tile, 2, 1, 1));
    assert!(can_place_tile(&out, &tile, 4, 2, 2));
    // One tile further to the right or down there is no room.
    assert!(!can_place_tile(&out, &tile, 3, 0, 1));
    assert!(!can_place_tile(&out, &tile, 0, 2, 1));
    // A coordinate between two cells: 16 * 5 / 2 = 40, and 40 + 16 > 48.
    assert!(!can_place_tile(&out, &tile, 5, 0, 2));
    assert!(can_place_tile(&out, &tile, 4, 1, 2));
}

#[test]
fn can_place_tile_refuses_a_small_tile_and_no_scale() {
    let out = uniform(48, 32, [0, 0, 0]);
    assert!(!can_place_tile(&out, &uniform(15, 16, [1, 1, 1]), 0, 0, 1));
    assert!(!can_place_tile(&out, &uniform(16, 15, [1, 1, 1]), 0, 0, 1));
    assert!(can_place_tile(&out, &uniform(17, 40, [1, 1, 1]), 0, 0, 1));
    assert!(!can_place_tile(&out, &uniform(16, 16, [1, 1, 1]), 0, 0, 0));
}

#[test]
fn place_tile_takes_the_corner_of_a_larger_tile() {
    let mut out = uniform(16, 16, [0, 0, 0]);
    let tile = painted(20, 18, other_tile);
    place_tile(&mut out, &tile, 0, 0, 1);
    let samples = out.into_samples();
    assert_eq!(pixel(&samples, 16, 0, 0), [100, 100, 0]);
    assert_eq!(pixel(&samples, 16, 15, 0), [100, 115, 0]);
    assert_eq!(pixel(&samples, 16, 0, 15), [115, 100, 0]);
    assert_eq!(pixel(&samples, 16, 15, 15), [115, 115, 0]);
}

#[test]
fn place_tile_overwrites_what_was_there() {
    let mut out = uniform(32, 16, [1, 2, 3]);
    place_tile(&mut out, &uniform(16, 16, [50, 60, 70]), 3, 0, 3);
    place_tile(&mut out, &uniform(16, 16, [80, 90, 100]), 3, 0, 3);
    let samples = out.into_samples();
    assert_eq!(pixel(&samples, 32, 15, 7), [1, 2, 3]);
    assert_eq!(pixel(&samples, 32, 16, 7), [80, 90, 100]);
    assert_eq!(pixel(&samples, 32, 31, 15), [80, 90, 100]);
}

#[test]
fn mosaic_of_a_checkerboard() {
    let img = painted(32, 32, checker);
    let map = black_white();
    let out = build_mosaic(&img, &map, 2).unwrap();
    assert_eq!(out.dimensions(), (256, 256));
    let samples = out.into_samples();
    for py in 0..256u32 {
        for px in 0..256u32 {
            let (cx, cy) = (px / 16, py / 16);
            let want = if (cx + cy) % 2 == 0 {
                other_tile(px % 16, py % 16)
            } else {
                shaded_tile(px % 16, py % 16)
            };
            assert_eq!(pixel(&samples, 256, px, py), want, "at ({}, {})", px, py);
        }
    }
}

#[test]
fn mosaic_matches_the_average_of_each_cell() {
    // Each cell of two by two holds two black and two white pixels: its
    // colour is (127, 127, 127), which is nearer to black.
    let img = painted(4, 2, |x, _| if x % 2 == 0 { [0, 0, 0] } else { [255, 255, 255] });
    let out = build_mosaic(&img, &black_white(), 2).unwrap();
    assert_eq!(out.dimensions(), (32, 16));
    let samples = out.into_samples();
    assert_eq!(pixel(&samples, 32, 0, 0), shaded_tile(0, 0));
    assert_eq!(pixel(&samples, 32, 31, 15), shaded_tile(15, 15));
}

#[test]
fn mosaic_with_exact_division_drops_no_cell() {
    let img = painted(12, 6, gradient);
    let out = build_mosaic(&img, &black_white(), 3).unwrap();
    assert_eq!(out.dimensions(), (4 * BLOCK_SIZE, 2 * BLOCK_SIZE));
    assert_eq!(cell_origins(12, 6, 3).len(), 8);
}

#[test]
fn mosaic_leaves_the_remainder_out() {
    let img = painted(7, 5, checker);
    let out = build_mosaic(&img, &black_white(), 2).unwrap();
    assert_eq!(out.dimensions(), (48, 32));
    // The whole cells of the same source, cut to six by four pixels, give
    // the same mosaic.
    let cut = painted(6, 4, checker);
    let of_cut = build_mosaic(&cut, &black_white(), 2).unwrap();
    assert_eq!(out.into_samples(), of_cut.into_samples());
}

#[test]
fn mosaic_does_not_read_the_remainder() {
    let first = painted(5, 5, |x, y| if x < 4 && y < 4 { checker(x, y) } else { [0, 0, 0] });
    let second = painted(5, 5, |x, y| if x < 4 && y < 4 { checker(x, y) } else { [255, 255, 255] });
    let map = black_white();
    assert_eq!(
        build_mosaic(&first, &map, 2).unwrap().into_samples(),
        build_mosaic(&second, &map, 2).unwrap().into_samples()
    );
}

#[test]
fn mosaic_is_the_same_each_time() {
    let img = painted(9, 9, gradient);
    let map = black_white();
    let first = build_mosaic(&img, &map, 3).unwrap();
    let second = build_mosaic(&img, &map, 3).unwrap();
    assert_eq!(first.dimensions(), second.dimensions());
    assert_eq!(first.into_samples(), second.into_samples());
}

#[test]
fn mosaic_covers_every_pixel_of_the_output() {
    // No tile holds a zero sample, so a sample left at zero was not written.
    let map: BlockMap = vec![([0, 0, 0], uniform(16, 16, [1, 2, 3])), ([255, 255, 255], uniform(16, 16, [4, 5, 6]))];
    let out = build_mosaic(&painted(10, 7, checker), &map, 2).unwrap();
    assert_eq!(out.dimensions(), (80, 48));
    assert!(out.into_samples().iter().all(|s| *s != 0));
}

#[test]
fn mosaic_is_what_the_steps_give_cell_by_cell() {
    let img = painted(9, 6, gradient);
    let map = black_white();
    let whole = build_mosaic(&img, &map, 3).unwrap();
    let mut out = blank_output(9, 6, 3).unwrap();
    for (x, y) in cell_origins(9, 6, 3) {
        let color = cell_color(&img, x, y, 3);
        let tile = block_mosaic::block_map::get_best_block(&map, &color).unwrap();
        place_tile(&mut out, &tile, x, y, 3);
    }
    assert_eq!(whole.dimensions(), out.dimensions());
    assert_eq!(whole.into_samples(), out.into_samples());
}

#[test]
fn mosaic_at_scale_one_has_a_tile_for_each_pixel() {
    let img = painted(3, 2, |x, y| if (x + y) % 2 == 0 { [255, 255, 255] } else { [0, 0, 0] });
    let out = build_mosaic(&img, &black_white(), 1).unwrap();
    assert_eq!(out.dimensions(), (48, 32));
    let samples = out.into_samples();
    assert_eq!(pixel(&samples, 48, 0, 0), other_tile(0, 0));
    assert_eq!(pixel(&samples, 48, 16, 0), shaded_tile(0, 0));
    assert_eq!(pixel(&samples, 48, 47, 31), shaded_tile(15, 15));
}

#[test]
fn mosaic_with_an_empty_palette_fails() {
    let map: BlockMap = Vec::new();
    match build_mosaic(&uniform(4, 4, [1, 1, 1]), &map, 2) {
        Err(e) => assert_eq!(e, MosaicError::EmptyPalette),
        Ok(_) => panic!("a mosaic came out of an empty palette"),
    }
}

#[test]
fn mosaic_without_cells_needs_no_palette() {
    let map: BlockMap = Vec::new();
    let out = build_mosaic(&uniform(3, 9, [1, 1, 1]), &map, 4).unwrap();
    assert_eq!(out.dimensions(), (0, 32));
    assert!(out.into_samples().is_empty());
}
