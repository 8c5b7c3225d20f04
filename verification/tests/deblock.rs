use pixelpipe::deblock::deblock;
use pixelpipe::deblock::deblock_horiz;
use pixelpipe::deblock::deblock_vert;
use pixelpipe::deblock::deblock_with_passes;
use pixelpipe::edge::clipd1;
use pixelpipe::edge::process;
use pixelpipe::edge::up_down_ramp;
use pixelpipe::edge_simd::process_simd;
use pixelpipe::strength::strength_for_quant;
use pixelpipe::strength::QUANT_TO_STRENGTH;

fn filtered(a: u8, b: u8, c: u8, d: u8, strength: u8) -> (u8, u8, u8, u8) {
    let (mut a, mut b, mut c, mut d) = (a, b, c, d);
    process(&mut a, &mut b, &mut c, &mut d, strength);
    (a, b, c, d)
}

fn blocky_plane() -> Vec<u8> {
    vec![
        100, 100, 99, 100, 104, 98, 99, 99, 110, 110, 115, 110, 113, 113, 118, 110, 104, 99,
        102, 103, 96, 103, 104, 104, 101, 102, 110, 111, 111, 118, 111, 111, 115, 111, 104, 101,
        99, 99, 101, 98, 100, 99, 98, 98, 115, 114, 113, 118, 116, 116, 112, 116, 100, 104,
        99, 99, 101, 104, 103, 96, 97, 100, 111, 116, 112, 114, 114, 115, 115, 113, 101, 104,
        100, 104, 100, 96, 97, 99, 97, 96, 115, 117, 116, 115, 110, 114, 112, 118, 96, 100,
        97, 100, 104, 100, 99, 104, 97, 100, 117, 110, 117, 117, 116, 113, 112, 114, 98, 103,
        99, 103, 103, 97, 103, 100, 102, 100, 114, 112, 114, 115, 116, 111, 117, 117, 100, 104,
        100, 100, 98, 100, 97, 96, 99, 104, 110, 113, 118, 111, 110, 118, 118, 110, 100, 100,
        118, 118, 113, 117, 117, 117, 111, 113, 100, 98, 98, 100, 102, 100, 100, 103, 117, 117,
        115, 115, 117, 111, 114, 116, 116, 118, 97, 100, 101, 97, 98, 102, 97, 102, 113, 115,
        110, 114, 113, 114, 118, 117, 111, 113, 99, 102, 101, 96, 104, 97, 99, 99, 116, 116,
        110, 117, 115, 117, 110, 111, 117, 112, 101, 97, 99, 96, 99, 101, 96, 96, 110, 111,
        118, 114, 118, 114, 117, 111, 118, 110, 98, 100, 97, 98, 102, 99, 96, 98, 116, 116,
        118, 112, 115, 113, 114, 110, 114, 111, 98, 101, 104, 102, 98, 96, 97, 104, 116, 115,
        114, 111, 116, 115, 114, 116, 114, 115, 103, 100, 99, 97, 100, 96, 103, 101, 115, 116,
        111, 115, 117, 111, 117, 111, 110, 115, 104, 100, 100, 97, 96, 102, 100, 96, 111, 118,
        99, 102, 98, 97, 96, 104, 101, 99, 113, 117, 115, 111, 118, 112, 114, 114, 99, 99,
        98, 103, 99, 99, 100, 104, 99, 101, 110, 111, 115, 110, 117, 116, 112, 112, 104, 97,
    ]
}

#[test]
fn quant_to_strength_holds_the_table() {
    let expected: [u8; 32] = [
        0, 1, 1, 2, 2, 3, 3, 4, 4, 4, 5, 5, 6, 6, 7, 7, 7, 8, 8, 8, 9, 9, 9, 10, 10, 10, 11, 11,
        11, 12, 12, 12,
    ];
    assert_eq!(QUANT_TO_STRENGTH, expected);
    for quant in 1..=31u8 {
        assert_eq!(strength_for_quant(quant), expected[quant as usize]);
    }
}

#[test]
fn strength_grows_from_one_to_twelve() {
    assert_eq!(strength_for_quant(1), 1);
    assert_eq!(strength_for_quant(9), 4);
    assert_eq!(strength_for_quant(31), 12);
    for quant in 2..=31u8 {
        assert!(strength_for_quant(quant - 1) <= strength_for_quant(quant));
    }
}

#[test]
fn ramp_rises_then_falls() {
    assert_eq!(up_down_ramp(0, 5), 0);
    assert_eq!(up_down_ramp(3, 5), 3);
    assert_eq!(up_down_ramp(5, 5), 5);
    assert_eq!(up_down_ramp(7, 5), 3);
    assert_eq!(up_down_ramp(10, 5), 0);
    assert_eq!(up_down_ramp(159, 5), 0);
    assert_eq!(up_down_ramp(-3, 5), -3);
    assert_eq!(up_down_ramp(-7, 5), -3);
    assert_eq!(up_down_ramp(-11, 5), 0);
    assert_eq!(up_down_ramp(9, 12), 9);
    assert_eq!(up_down_ramp(4, 0), 0);
}

#[test]
fn clip_limits_by_magnitude_of_the_limit() {
    assert_eq!(clipd1(5, 3), 3);
    assert_eq!(clipd1(5, -3), 3);
    assert_eq!(clipd1(-5, 3), -3);
    assert_eq!(clipd1(-5, -3), -3);
    assert_eq!(clipd1(2, 3), 2);
    assert_eq!(clipd1(-2, -3), -2);
    assert_eq!(clipd1(7, 0), 0);
}

#[test]
fn process_gives_the_filtered_samples() {
    assert_eq!(filtered(100, 100, 120, 120, 5), (101, 103, 117, 119));
    assert_eq!(filtered(0, 0, 0, 1, 3), (0, 0, 0, 1));
    assert_eq!(filtered(10, 200, 20, 250, 12), (10, 200, 20, 250));
    assert_eq!(filtered(255, 0, 255, 0, 12), (255, 0, 255, 0));
    assert_eq!(filtered(0, 255, 0, 255, 12), (0, 255, 0, 255));
    assert_eq!(filtered(50, 60, 90, 100, 4), (50, 60, 90, 100));
    assert_eq!(filtered(120, 120, 100, 100, 5), (119, 117, 103, 101));
    assert_eq!(filtered(90, 100, 60, 50, 4), (90, 100, 60, 50));
    assert_eq!(filtered(200, 10, 250, 20, 1), (200, 10, 250, 20));
    assert_eq!(filtered(30, 40, 47, 60, 12), (30, 40, 47, 60));
    assert_eq!(filtered(60, 47, 40, 30, 12), (60, 47, 40, 30));
    assert_eq!(filtered(0, 0, 255, 255, 12), (0, 0, 255, 255));
    assert_eq!(filtered(255, 255, 0, 0, 12), (255, 255, 0, 0));
    assert_eq!(filtered(100, 90, 110, 120, 2), (100, 90, 110, 120));
    assert_eq!(filtered(3, 250, 251, 2, 9), (3, 250, 251, 2));
}

#[test]
fn process_rounds_the_difference_toward_zero() {
    // A - 4B + 4C - D is -1 here: an eighth of it is nothing, not minus one.
    assert_eq!(filtered(0, 0, 0, 1, 3), (0, 0, 0, 1));
    assert_eq!(filtered(9, 0, 0, 16, 12), (9, 0, 0, 16));
    assert_eq!(filtered(16, 0, 0, 9, 12), (16, 0, 0, 9));
}

#[test]
fn process_leaves_a_flat_region_alone() {
    for strength in 0..=12u8 {
        for v in 0..=255u8 {
            assert_eq!(filtered(v, v, v, v, strength), (v, v, v, v));
        }
    }
}

#[test]
fn process_with_strength_zero_changes_nothing() {
    for &(a, b, c, d) in &[(0u8, 255u8, 0u8, 255u8), (10, 20, 200, 210), (255, 0, 0, 255)] {
        assert_eq!(filtered(a, b, c, d, 0), (a, b, c, d));
    }
}

#[test]
fn process_keeps_the_outer_samples_between_a_and_d() {
    let values = [0u8, 1, 3, 8, 31, 64, 127, 128, 200, 254, 255];
    for strength in 0..=12u8 {
        for &a in &values {
            for &b in &values {
                for &c in &values {
                    for &d in &values {
                        let (fa, _, _, fd) = filtered(a, b, c, d, strength);
                        let (lo, hi) = (a.min(d), a.max(d));
                        assert!(lo <= fa && fa <= hi);
                        assert!(lo <= fd && fd <= hi);
                    }
                }
            }
        }
    }
}

#[test]
fn process_simd_matches_process_in_every_lane() {
    let values = [0u8, 1, 2, 7, 9, 16, 33, 100, 127, 128, 129, 200, 250, 254, 255, 77];
    for strength in 0..=12u8 {
        for &a0 in &values {
            for &b0 in &values {
                for &c0 in &values {
                    let mut a = [a0; 8];
                    let mut b = [b0; 8];
                    let mut c = [c0; 8];
                    let mut d = [0u8; 8];
                    for lane in 0..8 {
                        a[lane] = a0.wrapping_add(lane as u8);
                        d[lane] = values[(lane * 2 + 1) % values.len()].wrapping_sub(c0 / 3);
                    }
                    let (a_in, b_in, c_in, d_in) = (a, b, c, d);
                    process_simd(&mut a, &mut b, &mut c, &mut d, strength);
                    for lane in 0..8 {
                        let expected =
                            filtered(a_in[lane], b_in[lane], c_in[lane], d_in[lane], strength);
                        assert_eq!((a[lane], b[lane], c[lane], d[lane]), expected);
                    }
                }
            }
        }
    }
}

#[test]
fn process_simd_rounds_toward_zero_like_process() {
    let mut a = [0u8, 9, 16, 0, 1, 0, 3, 7];
    let mut b = [0u8, 0, 0, 1, 0, 2, 0, 2];
    let mut c = [0u8, 0, 0, 0, 0, 1, 0, 1];
    let mut d = [1u8, 16, 9, 3, 8, 5, 0, 0];
    let (a_in, b_in, c_in, d_in) = (a, b, c, d);
    process_simd(&mut a, &mut b, &mut c, &mut d, 12);
    for lane in 0..8 {
        assert_eq!(
            (a[lane], b[lane], c[lane], d[lane]),
            filtered(a_in[lane], b_in[lane], c_in[lane], d_in[lane], 12)
        );
    }
    assert_eq!((a[0], b[0], c[0], d[0]), (0, 0, 0, 1));
}

#[test]
fn process_simd_gives_the_filtered_samples() {
    let mut a = [100u8, 120, 10, 255, 0, 50, 90, 3];
    let mut b = [100u8, 120, 200, 0, 255, 60, 100, 250];
    let mut c = [120u8, 100, 20, 255, 0, 90, 60, 251];
    let mut d = [120u8, 100, 250, 0, 255, 100, 50, 2];
    process_simd(&mut a, &mut b, &mut c, &mut d, 5);
    assert_eq!(a, [101, 119, 10, 255, 0, 51, 90, 3]);
    assert_eq!(b, [103, 117, 200, 0, 255, 62, 100, 250]);
    assert_eq!(c, [117, 103, 20, 255, 0, 88, 60, 251]);
    assert_eq!(d, [119, 101, 250, 0, 255, 99, 50, 2]);
}

#[test]
fn process_simd_filters_eight_samples_and_no_more() {
    let mut a = vec![100u8; 11];
    let mut b = vec![100u8; 9];
    let mut c = vec![120u8; 8];
    let mut d = vec![120u8; 10];
    process_simd(&mut a, &mut b, &mut c, &mut d, 5);
    assert_eq!(a, vec![101, 101, 101, 101, 101, 101, 101, 101, 100, 100, 100]);
    assert_eq!(b, vec![103, 103, 103, 103, 103, 103, 103, 103, 100]);
    assert_eq!(c, vec![117; 8]);
    assert_eq!(d, vec![119, 119, 119, 119, 119, 119, 119, 119, 120, 120]);
}

#[test]
fn deblock_horiz_filters_across_horizontal_edges() {
    let mut plane = blocky_plane();
    deblock_horiz(&mut plane, 18, 18, 7);
    let expected: Vec<u8> = vec![
        100, 100, 99, 100, 104, 98, 99, 99, 110, 110, 115, 110, 113, 113, 118, 110, 104, 99,
        102, 103, 96, 103, 104, 104, 101, 102, 110, 111, 111, 118, 111, 111, 115, 111, 104, 101,
        99, 99, 101, 98, 100, 99, 98, 98, 115, 114, 113, 118, 116, 116, 112, 116, 100, 104,
        99, 99, 101, 104, 103, 96, 97, 100, 111, 116, 112, 114, 114, 115, 115, 113, 101, 104,
        100, 104, 100, 96, 97, 99, 97, 96, 115, 117, 116, 115, 110, 114, 112, 118, 96, 100,
        97, 100, 104, 100, 99, 104, 97, 100, 117, 110, 117, 117, 116, 113, 112, 114, 98, 103,
        102, 106, 105, 100, 105, 103, 104, 101, 113, 109, 111, 114, 116, 109, 114, 117, 103, 106,
        107, 107, 103, 106, 103, 102, 103, 106, 108, 107, 112, 108, 109, 111, 112, 109, 106, 107,
        111, 111, 108, 111, 111, 111, 107, 111, 102, 104, 104, 103, 103, 107, 106, 104, 111, 110,
        112, 112, 115, 108, 112, 113, 114, 117, 98, 103, 104, 98, 98, 104, 100, 102, 110, 113,
        110, 114, 113, 114, 118, 117, 111, 113, 99, 102, 101, 96, 104, 97, 99, 99, 116, 116,
        110, 117, 115, 117, 110, 111, 117, 112, 101, 97, 99, 96, 99, 101, 96, 96, 110, 111,
        118, 114, 118, 114, 117, 111, 118, 110, 98, 100, 97, 98, 102, 99, 96, 98, 116, 116,
        118, 112, 115, 113, 114, 110, 114, 111, 98, 101, 104, 102, 98, 96, 97, 104, 116, 115,
        112, 109, 113, 113, 111, 115, 113, 112, 104, 102, 101, 99, 103, 97, 105, 103, 113, 113,
        107, 110, 110, 106, 111, 109, 108, 109, 107, 107, 105, 102, 102, 104, 105, 103, 107, 111,
        103, 107, 105, 102, 102, 106, 103, 105, 110, 110, 110, 106, 112, 110, 109, 107, 103, 106,
        100, 105, 102, 101, 103, 105, 100, 104, 109, 109, 113, 108, 114, 115, 110, 110, 106, 100,
    ];
    assert_eq!(plane, expected);
}

#[test]
fn deblock_vert_filters_across_vertical_edges() {
    let mut plane = blocky_plane();
    deblock_vert(&mut plane, 18, 7);
    let expected: Vec<u8> = vec![
        100, 100, 99, 100, 104, 98, 101, 103, 106, 108, 115, 110, 113, 113, 118, 110, 104, 99,
        102, 103, 96, 103, 104, 104, 102, 104, 108, 110, 111, 118, 111, 111, 115, 110, 105, 101,
        99, 99, 101, 98, 100, 99, 101, 104, 109, 111, 113, 118, 116, 116, 110, 109, 107, 106,
        99, 99, 101, 104, 103, 96, 98, 103, 108, 115, 112, 114, 114, 115, 113, 109, 105, 106,
        100, 104, 100, 96, 97, 99, 100, 103, 108, 114, 116, 115, 110, 114, 110, 113, 101, 102,
        97, 100, 104, 100, 99, 104, 100, 106, 111, 107, 117, 117, 116, 113, 110, 108, 104, 105,
        99, 103, 103, 97, 103, 100, 104, 105, 109, 110, 114, 115, 116, 111, 114, 111, 106, 107,
        100, 100, 98, 100, 97, 96, 99, 105, 109, 113, 118, 111, 110, 118, 117, 108, 102, 101,
        118, 118, 113, 117, 117, 117, 109, 109, 104, 100, 98, 100, 102, 100, 102, 107, 113, 115,
        115, 115, 117, 111, 114, 116, 113, 112, 103, 103, 101, 97, 98, 102, 98, 105, 110, 114,
        110, 114, 113, 114, 118, 117, 109, 108, 104, 104, 101, 96, 104, 97, 102, 105, 110, 113,
        110, 117, 115, 117, 110, 111, 116, 109, 104, 98, 99, 96, 99, 101, 98, 101, 105, 109,
        118, 114, 118, 114, 117, 111, 117, 107, 101, 101, 97, 98, 102, 99, 99, 104, 110, 113,
        118, 112, 115, 113, 114, 110, 112, 107, 102, 103, 104, 102, 98, 96, 98, 107, 113, 114,
        114, 111, 116, 115, 114, 116, 112, 111, 107, 102, 99, 97, 100, 96, 105, 106, 110, 114,
        111, 115, 117, 111, 117, 111, 108, 111, 108, 102, 100, 97, 96, 102, 102, 101, 106, 116,
        99, 102, 98, 97, 96, 104, 103, 104, 108, 115, 115, 111, 118, 112, 112, 109, 104, 101,
        98, 103, 99, 99, 100, 104, 100, 104, 107, 110, 115, 110, 117, 116, 111, 110, 106, 98,
    ];
    assert_eq!(plane, expected);
}

#[test]
fn deblock_runs_the_horizontal_pass_then_the_vertical_pass() {
    let plane = blocky_plane();
    let expected: Vec<u8> = vec![
        100, 100, 99, 100, 104, 98, 101, 103, 106, 108, 115, 110, 113, 113, 118, 110, 104, 99,
        102, 103, 96, 103, 104, 104, 102, 104, 108, 110, 111, 118, 111, 111, 115, 110, 105, 101,
        99, 99, 101, 98, 100, 99, 101, 104, 109, 111, 113, 118, 116, 116, 110, 109, 107, 106,
        99, 99, 101, 104, 103, 96, 98, 103, 108, 115, 112, 114, 114, 115, 113, 109, 105, 106,
        100, 104, 100, 96, 97, 99, 100, 103, 108, 114, 116, 115, 110, 114, 110, 113, 101, 102,
        97, 100, 104, 100, 99, 104, 100, 106, 111, 107, 117, 117, 116, 113, 110, 108, 104, 105,
        102, 106, 105, 100, 105, 103, 105, 106, 108, 108, 111, 114, 116, 109, 112, 111, 109, 108,
        107, 107, 103, 106, 103, 102, 103, 106, 108, 107, 112, 108, 109, 111, 112, 109, 106, 107,
        111, 111, 108, 111, 111, 111, 107, 107, 106, 104, 104, 103, 103, 107, 107, 107, 108, 109,
        112, 112, 115, 108, 112, 113, 112, 111, 104, 105, 104, 98, 98, 104, 101, 104, 108, 112,
        110, 114, 113, 114, 118, 117, 109, 108, 104, 104, 101, 96, 104, 97, 102, 105, 110, 113,
        110, 117, 115, 117, 110, 111, 116, 109, 104, 98, 99, 96, 99, 101, 98, 101, 105, 109,
        118, 114, 118, 114, 117, 111, 117, 107, 101, 101, 97, 98, 102, 99, 99, 104, 110, 113,
        118, 112, 115, 113, 114, 110, 112, 107, 102, 103, 104, 102, 98, 96, 98, 107, 113, 114,
        112, 109, 113, 113, 111, 115, 112, 110, 106, 103, 101, 99, 103, 97, 107, 107, 109, 111,
        107, 110, 110, 106, 111, 109, 108, 109, 107, 107, 105, 102, 102, 104, 105, 104, 106, 111,
        103, 107, 105, 102, 102, 106, 103, 106, 109, 110, 110, 106, 112, 110, 109, 106, 104, 106,
        100, 105, 102, 101, 103, 105, 100, 105, 108, 109, 113, 108, 114, 115, 110, 110, 106, 100,
    ];
    assert_eq!(deblock(&plane, 18, 7), expected);

    let mut by_hand = plane.clone();
    deblock_horiz(&mut by_hand, 18, 18, 7);
    deblock_vert(&mut by_hand, 18, 7);
    assert_eq!(deblock(&plane, 18, 7), by_hand);

    let mut other_order = plane.clone();
    deblock_vert(&mut other_order, 18, 7);
    deblock_horiz(&mut other_order, 18, 18, 7);
    assert_ne!(deblock(&plane, 18, 7), other_order);
}

#[test]
fn deblock_touches_only_the_two_samples_on_either_side_of_an_edge() {
    let plane = blocky_plane();
    let result = deblock(&plane, 18, 7);
    for row in 0..18 {
        for col in 0..18 {
            let near_edge = |t: usize| (6..=9).contains(&t) || (14..=17).contains(&t);
            if !near_edge(row) && !near_edge(col) {
                assert_eq!(result[row * 18 + col], plane[row * 18 + col]);
            }
        }
    }
}

#[test]
fn deblock_of_a_short_plane_is_the_vertical_pass_alone() {
    // nine rows: no horizontal edge has two rows below it
    let plane: Vec<u8> = blocky_plane()[..9 * 18].to_vec();
    let mut horizontal = plane.clone();
    deblock_horiz(&mut horizontal, 18, 9, 12);
    assert_eq!(horizontal, plane);

    let mut vertical = plane.clone();
    deblock_vert(&mut vertical, 18, 12);
    assert_ne!(vertical, plane);
    assert_eq!(deblock(&plane, 18, 12), vertical);
}

#[test]
fn deblock_of_a_narrow_plane_is_the_horizontal_pass_alone() {
    // nine columns: no vertical edge has two columns to its right
    let mut plane: Vec<u8> = Vec::new();
    for row in 0..18 {
        plane.extend_from_slice(&blocky_plane()[row * 18..row * 18 + 9]);
    }
    let mut vertical = plane.clone();
    deblock_vert(&mut vertical, 9, 12);
    assert_eq!(vertical, plane);

    let mut horizontal = plane.clone();
    deblock_horiz(&mut horizontal, 9, 18, 12);
    assert_ne!(horizontal, plane);
    assert_eq!(deblock(&plane, 9, 12), horizontal);
}

#[test]
fn deblock_of_a_plane_without_edges_changes_nothing() {
    let plane: Vec<u8> = (0..81u32).map(|i| (i * 37 % 256) as u8).collect();
    assert_eq!(deblock(&plane, 9, 12), plane);
    assert_eq!(deblock(&plane[..9], 9, 12), plane[..9].to_vec());
    assert_eq!(deblock(&plane[..9], 1, 12), plane[..9].to_vec());
    let empty: Vec<u8> = Vec::new();
    assert_eq!(deblock(&empty, 4, 12), empty);
}

#[test]
fn deblock_needs_ten_rows_or_columns_for_the_first_edge() {
    // a step between row 7 and row 8 of a plane of exactly ten rows
    let mut plane = vec![50u8; 10 * 3];
    for sample in plane[8 * 3..].iter_mut() {
        *sample = 58;
    }
    let result = deblock(&plane, 3, 12);
    assert_eq!(&result[..6 * 3], &plane[..6 * 3]);
    assert_eq!(&result[6 * 3..], &[51, 51, 51, 53, 53, 53, 55, 55, 55, 57, 57, 57]);

    // the same step across columns, in a plane of exactly ten columns
    let row: [u8; 10] = [50, 50, 50, 50, 50, 50, 50, 50, 58, 58];
    assert_eq!(deblock(&row, 10, 12), vec![50, 50, 50, 50, 50, 50, 51, 53, 55, 57]);
}

#[test]
fn deblock_with_passes_runs_the_passes_switched_on() {
    let plane = blocky_plane();
    assert_eq!(deblock_with_passes(&plane, 18, 7, false, false), plane);
    assert_eq!(deblock_with_passes(&plane, 18, 7, true, true), deblock(&plane, 18, 7));

    let mut horizontal = plane.clone();
    deblock_horiz(&mut horizontal, 18, 18, 7);
    assert_eq!(deblock_with_passes(&plane, 18, 7, true, false), horizontal);

    let mut vertical = plane.clone();
    deblock_vert(&mut vertical, 18, 7);
    assert_eq!(deblock_with_passes(&plane, 18, 7, false, true), vertical);
}

#[test]
fn deblock_vert_of_a_narrow_plane_needs_no_whole_rows() {
    let mut ragged = vec![1u8, 200, 3, 190, 5];
    deblock_vert(&mut ragged, 3, 12);
    assert_eq!(ragged, vec![1, 200, 3, 190, 5]);
    deblock_vert(&mut ragged, 0, 12);
    assert_eq!(ragged, vec![1, 200, 3, 190, 5]);
    deblock_vert(&mut ragged, 9, 12);
    assert_eq!(ragged, vec![1, 200, 3, 190, 5]);
}

#[test]
fn deblock_horiz_of_an_empty_plane_does_nothing() {
    let mut empty: Vec<u8> = Vec::new();
    deblock_horiz(&mut empty, 0, 40, 12);
    assert!(empty.is_empty());
    deblock_horiz(&mut empty, 40, 0, 12);
    assert!(empty.is_empty());
}

#[test]
fn deblock_leaves_a_flat_plane_alone() {
    for strength in [0u8, 1, 6, 12] {
        let plane = vec![93u8; 24 * 20];
        assert_eq!(deblock(&plane, 24, strength), plane);
    }
}

#[test]
fn deblock_with_strength_zero_changes_nothing() {
    let plane = blocky_plane();
    assert_eq!(deblock(&plane, 18, 0), plane);
}

#[test]
fn deblock_horiz_filters_the_columns_past_the_last_full_eight() {
    // 11 columns: eight filtered together, three one by one
    let mut plane = vec![50u8; 10 * 11];
    for sample in plane[8 * 11..].iter_mut() {
        *sample = 58;
    }
    deblock_horiz(&mut plane, 11, 10, 12);
    for col in 0..11 {
        let column: Vec<u8> = (6..10).map(|row| plane[row * 11 + col]).collect();
        assert_eq!(column, vec![51, 53, 55, 57]);
    }
}
