use flood_fill::{flood_fill, get_pixel, match_colors, match_tolerance, set_pixel, FillError};

fn image(width: u32, height: u32, px: [u8; 4]) -> Vec<u8> {
    let mut v = Vec::new();
    for _ in 0..(width * height) {
        v.extend_from_slice(&px);
    }
    v
}

fn pixel(data: &Vec<u8>, width: u32, x: u32, y: u32) -> [u8; 4] {
    let (r, g, b, a) = get_pixel(data, width, x, y);
    [r, g, b, a]
}

const BLACK: [u8; 4] = [0, 0, 0, 255];
const WHITE: [u8; 4] = [255, 255, 255, 255];
const RED: [u8; 4] = [255, 0, 0, 255];

#[test]
fn black_frame_around_white_center_turns_red() {
    let mut data = image(3, 3, BLACK);
    set_pixel(&mut data, 3, 1, 1, 255, 255, 255, 255);
    let out = flood_fill(data, 3, 3, 0, 0, 255, 0, 0, 10).unwrap();
    for y in 0..3 {
        for x in 0..3 {
            let expected = if x == 1 && y == 1 { WHITE } else { RED };
            assert_eq!(pixel(&out, 3, x, y), expected);
        }
    }
}

#[test]
fn uniform_image_filled_with_its_own_color_is_unchanged() {
    let c = [12, 34, 56, 78];
    let data = image(2, 2, c);
    let out = flood_fill(data.clone(), 2, 2, 1, 1, 12, 34, 56, 200).unwrap();
    assert_eq!(out, data);
}

#[test]
fn single_pixel_takes_the_fill_color() {
    let data = vec![10, 20, 30, 40];
    let out = flood_fill(data, 1, 1, 0, 0, 1, 2, 3, 1).unwrap();
    assert_eq!(out, vec![1, 2, 3, 255]);
}

#[test]
fn seed_outside_the_image_is_out_of_bounds() {
    let data = image(4, 4, BLACK);
    let kept = data.clone();
    assert_eq!(flood_fill(data, 4, 4, 5, 5, 255, 0, 0, 10), Err(FillError::OutOfBounds));
    assert_eq!(kept, image(4, 4, BLACK));
}

#[test]
fn seed_on_the_edge_is_out_of_bounds() {
    let data = image(4, 4, BLACK);
    assert_eq!(flood_fill(data.clone(), 4, 4, 4, 0, 255, 0, 0, 10), Err(FillError::OutOfBounds));
    assert_eq!(flood_fill(data, 4, 4, 0, 4, 255, 0, 0, 10), Err(FillError::OutOfBounds));
}

#[test]
fn wrong_buffer_length_is_a_dimension_mismatch() {
    let data = image(4, 3, BLACK);
    assert_eq!(flood_fill(data, 4, 4, 0, 0, 255, 0, 0, 10), Err(FillError::DimensionMismatch));
    let ragged = vec![0u8; 4 * 4 * 4 + 1];
    assert_eq!(flood_fill(ragged, 4, 4, 0, 0, 255, 0, 0, 10), Err(FillError::DimensionMismatch));
}

#[test]
fn out_of_bounds_is_reported_before_a_dimension_mismatch() {
    let data = vec![0u8; 7];
    assert_eq!(flood_fill(data, 4, 4, 9, 0, 255, 0, 0, 10), Err(FillError::OutOfBounds));
}

#[test]
fn seed_already_of_fill_color_changes_nothing() {
    let mut data = image(3, 2, BLACK);
    set_pixel(&mut data, 3, 2, 1, 255, 0, 0, 17);
    let out = flood_fill(data.clone(), 3, 2, 2, 1, 255, 0, 0, 255).unwrap();
    assert_eq!(out, data);
}

#[test]
fn second_fill_with_same_arguments_changes_nothing() {
    let mut data = image(5, 4, BLACK);
    for y in 0..4 {
        set_pixel(&mut data, 5, 2, y, 200, 200, 200, 255);
    }
    set_pixel(&mut data, 5, 0, 3, 3, 3, 3, 255);
    let once = flood_fill(data, 5, 4, 0, 0, 0, 0, 255, 5).unwrap();
    let twice = flood_fill(once.clone(), 5, 4, 0, 0, 0, 0, 255, 5).unwrap();
    assert_eq!(once, twice);
}

#[test]
fn fill_reaches_only_connected_similar_pixels() {
    // Two black areas split by a white column; a diagonal contact does not
    // connect pixels.
    let mut data = image(4, 3, BLACK);
    for y in 0..3 {
        set_pixel(&mut data, 4, 1, y, 255, 255, 255, 255);
    }
    let out = flood_fill(data.clone(), 4, 3, 0, 1, 0, 255, 0, 10).unwrap();
    for y in 0..3 {
        assert_eq!(pixel(&out, 4, 0, y), [0, 255, 0, 255]);
        for x in 1..4 {
            assert_eq!(pixel(&out, 4, x, y), pixel(&data, 4, x, y));
        }
    }
}

#[test]
fn diagonal_neighbours_are_not_connected() {
    let mut data = image(2, 2, WHITE);
    set_pixel(&mut data, 2, 0, 0, 0, 0, 0, 255);
    set_pixel(&mut data, 2, 1, 1, 0, 0, 0, 255);
    let out = flood_fill(data, 2, 2, 0, 0, 9, 9, 9, 5).unwrap();
    assert_eq!(pixel(&out, 2, 0, 0), [9, 9, 9, 255]);
    assert_eq!(pixel(&out, 2, 1, 1), BLACK);
    assert_eq!(pixel(&out, 2, 1, 0), WHITE);
}

#[test]
fn boundary_row_stops_the_fill() {
    let mut data = image(3, 5, BLACK);
    for x in 0..3 {
        set_pixel(&mut data, 3, x, 2, 100, 100, 100, 255);
    }
    let out = flood_fill(data.clone(), 3, 5, 1, 4, 255, 0, 0, 50).unwrap();
    for y in 0..5 {
        for x in 0..3 {
            let expected = if y > 2 { RED } else { pixel(&data, 3, x, y) };
            assert_eq!(pixel(&out, 3, x, y), expected);
        }
    }
}

#[test]
fn boundary_column_stops_the_fill_from_the_right() {
    let mut data = image(5, 2, BLACK);
    for y in 0..2 {
        set_pixel(&mut data, 5, 2, y, 60, 0, 0, 255);
    }
    let out = flood_fill(data.clone(), 5, 2, 4, 0, 1, 1, 1, 60).unwrap();
    for y in 0..2 {
        for x in 0..5 {
            let expected = if x > 2 { [1, 1, 1, 255] } else { pixel(&data, 5, x, y) };
            assert_eq!(pixel(&out, 5, x, y), expected);
        }
    }
}

#[test]
fn tolerance_is_strict() {
    // Differences of exactly the tolerance are not similar.
    let mut data = image(3, 1, [0, 0, 0, 255]);
    set_pixel(&mut data, 3, 1, 0, 9, 0, 0, 255);
    set_pixel(&mut data, 3, 2, 0, 10, 0, 0, 255);
    let out = flood_fill(data, 3, 1, 0, 0, 0, 0, 200, 10).unwrap();
    assert_eq!(pixel(&out, 3, 0, 0), [0, 0, 200, 255]);
    assert_eq!(pixel(&out, 3, 1, 0), [0, 0, 200, 255]);
    assert_eq!(pixel(&out, 3, 2, 0), [10, 0, 0, 255]);
}

#[test]
fn zero_tolerance_fills_nothing() {
    let data = image(3, 3, BLACK);
    let out = flood_fill(data.clone(), 3, 3, 1, 1, 255, 0, 0, 0).unwrap();
    assert_eq!(out, data);
}

#[test]
fn region_is_judged_against_the_seed_color_not_neighbours() {
    // A gradient whose steps are small but drift away from the seed colour.
    let mut data = image(4, 1, BLACK);
    for x in 0..4 {
        let v = (x * 4) as u8;
        set_pixel(&mut data, 4, x, 0, v, v, v, 255);
    }
    let out = flood_fill(data, 4, 1, 0, 0, 0, 0, 200, 6).unwrap();
    assert_eq!(pixel(&out, 4, 0, 0), [0, 0, 200, 255]);
    assert_eq!(pixel(&out, 4, 1, 0), [0, 0, 200, 255]);
    assert_eq!(pixel(&out, 4, 2, 0), [8, 8, 8, 255]);
    assert_eq!(pixel(&out, 4, 3, 0), [12, 12, 12, 255]);
}

#[test]
fn pixels_of_fill_color_block_the_fill() {
    let mut data = image(3, 1, BLACK);
    set_pixel(&mut data, 3, 1, 0, 4, 4, 4, 0);
    let out = flood_fill(data, 3, 1, 0, 0, 4, 4, 4, 50).unwrap();
    assert_eq!(pixel(&out, 3, 0, 0), [4, 4, 4, 255]);
    assert_eq!(pixel(&out, 3, 1, 0), [4, 4, 4, 0]);
    assert_eq!(pixel(&out, 3, 2, 0), BLACK);
}

#[test]
fn fill_color_similar_to_region_still_terminates() {
    let data = image(6, 6, [100, 100, 100, 255]);
    let out = flood_fill(data, 6, 6, 3, 2, 101, 100, 99, 20).unwrap();
    assert_eq!(out, image(6, 6, [101, 100, 99, 255]));
}

#[test]
fn alpha_is_ignored_and_written_opaque() {
    let mut data = image(2, 1, [7, 7, 7, 0]);
    set_pixel(&mut data, 2, 1, 0, 7, 7, 7, 128);
    let out = flood_fill(data, 2, 1, 1, 0, 50, 60, 70, 1).unwrap();
    assert_eq!(out, vec![50, 60, 70, 255, 50, 60, 70, 255]);
}

#[test]
fn large_uniform_image_is_filled() {
    let data = image(300, 200, WHITE);
    let out = flood_fill(data, 300, 200, 150, 100, 0, 0, 0, 1).unwrap();
    assert_eq!(out, image(300, 200, BLACK));
}

#[test]
fn match_colors_compares_each_channel() {
    assert!(match_colors(1, 2, 3, 1, 2, 3));
    assert!(!match_colors(1, 2, 3, 0, 2, 3));
    assert!(!match_colors(1, 2, 3, 1, 0, 3));
    assert!(!match_colors(1, 2, 3, 1, 2, 0));
}

#[test]
fn match_tolerance_is_strict_and_symmetric() {
    assert!(match_tolerance(10, 20, 30, 14, 16, 34, 5));
    assert!(!match_tolerance(10, 20, 30, 15, 20, 30, 5));
    assert!(!match_tolerance(15, 20, 30, 10, 20, 30, 5));
    assert!(!match_tolerance(10, 20, 30, 10, 25, 30, 5));
    assert!(!match_tolerance(10, 20, 30, 10, 20, 35, 5));
    assert!(match_tolerance(0, 255, 0, 255, 0, 255, 255) == false);
    assert!(match_tolerance(0, 0, 0, 254, 254, 254, 255));
}

#[test]
fn zero_tolerance_matches_nothing() {
    assert!(!match_tolerance(5, 5, 5, 5, 5, 5, 0));
}

#[test]
fn get_pixel_reads_row_major_offsets() {
    let data: Vec<u8> = (0..24).collect();
    assert_eq!(get_pixel(&data, 3, 0, 0), (0, 1, 2, 3));
    assert_eq!(get_pixel(&data, 3, 2, 0), (8, 9, 10, 11));
    assert_eq!(get_pixel(&data, 3, 1, 1), (16, 17, 18, 19));
}

#[test]
fn set_pixel_writes_only_its_four_bytes() {
    let mut data = vec![0u8; 16];
    set_pixel(&mut data, 2, 1, 1, 1, 2, 3, 4);
    let mut expected = vec![0u8; 16];
    expected[12] = 1;
    expected[13] = 2;
    expected[14] = 3;
    expected[15] = 4;
    assert_eq!(data, expected);
}
