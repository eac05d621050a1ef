use boulder_dash::cave::{conv, fill_symbol, CaveBuilder, CaveError};
use boulder_dash::screen::Screen;

const DIRT: u8 = 46; // '.'
const BORDER: u8 = 64; // '@'
const BOULDER: u8 = 79; // 'O'
const DIAMOND: u8 = 36; // '$'
const WALL: u8 = 87; // 'W'
const EMPTY: u8 = 32; // ' '
const EXIT: u8 = 95; // '_'

/// A minimal 32-byte header: seed at 0x04, object codes at 0x18..0x1C,
/// thresholds at 0x1C..0x20.
fn header(seed: u8, objects: [u8; 4], probs: [u8; 4]) -> Vec<u8> {
    let mut buf = vec![0u8; 32];
    buf[0x04] = seed;
    buf[0x18..0x1C].copy_from_slice(&objects);
    buf[0x1C..0x20].copy_from_slice(&probs);
    buf
}

#[test]
fn rng_reference_vector() {
    // Seed 0x00: the first four outputs of the legacy generator.
    let mut seeds = [0u8, 0u8];
    let mut outputs = Vec::new();
    for _ in 0..4 {
        Screen::bdrandom(&mut seeds);
        outputs.push(seeds[0]);
    }
    assert_eq!(outputs, vec![0, 9, 220, 56]);
}

#[test]
fn rng_first_step_state() {
    let mut seeds = [0u8, 0u8];
    Screen::bdrandom(&mut seeds);
    assert_eq!(seeds, [0x00, 0x13]);
}

#[test]
fn ror1b_moves_low_bit_to_top() {
    assert_eq!(Screen::ror1b(0x01), 0x80);
    assert_eq!(Screen::ror1b(0xFE), 0x00);
    assert_eq!(Screen::ror1b(0x13), 0x80);
}

#[test]
fn conv_maps_legacy_codes() {
    assert_eq!(conv(0x00), EMPTY);
    assert_eq!(conv(0x01), DIRT);
    assert_eq!(conv(0x02), WALL);
    assert_eq!(conv(0x07), BORDER);
    assert_eq!(conv(0x10), BOULDER);
    assert_eq!(conv(0x14), DIAMOND);
    assert_eq!(conv(0x30), 69); // butterfly 'E'
    assert_eq!(conv(0x25), 83); // spawn 'S'
    assert_eq!(conv(0x38), 82); // player 'R'
    assert_eq!(conv(0x04), EXIT);
    assert_eq!(conv(0x03), 63); // magic wall placeholder '?'
    assert_eq!(conv(0x3F), EXIT); // unknown code falls back to the exit symbol
}

#[test]
fn header_parse_fields() {
    let buf = header(0xAB, [0x00, 0x01, 0x02, 0x07], [50, 100, 150, 200]);
    let cb = CaveBuilder::new(&buf).unwrap();
    assert_eq!(cb.width, 40);
    assert_eq!(cb.height, 22);
    assert_eq!(cb.random_seed, 0xAB);
    assert_eq!(cb.random_objects, [EMPTY, DIRT, WALL, BORDER]);
    assert_eq!(cb.random_object_prob, [50, 100, 150, 200]);
}

#[test]
fn header_too_short_rejected() {
    let buf = vec![0u8; 31];
    assert_eq!(CaveBuilder::new(&buf).unwrap_err(), CaveError::MalformedCave);
}

#[test]
fn fill_override_last_match_wins() {
    // Drawn byte 120 satisfies thresholds 150 and 200; the later entry wins.
    assert_eq!(fill_symbol(120, &[1, 2, 3, 4], &[50, 100, 150, 200]), 4);
    // Only threshold 150 admits 120 here.
    assert_eq!(fill_symbol(120, &[1, 2, 3, 4], &[50, 100, 150, 0]), 3);
    // No threshold admits 255: dirt by default.
    assert_eq!(fill_symbol(255, &[1, 2, 3, 4], &[50, 100, 150, 200]), DIRT);
    // Every threshold admits 0: the last entry wins.
    assert_eq!(fill_symbol(0, &[1, 2, 3, 4], &[50, 100, 150, 200]), 4);
}

#[test]
fn point_command_places_symbol() {
    let mut buf = header(0, [0, 0, 0, 0], [0, 0, 0, 0]);
    buf.extend_from_slice(&[0x00, 5, 7, 0xFF]);
    let mut s = Screen::new(1, 1, 0);
    s.load_cave(&buf).unwrap();
    // Symbol code 0 maps to "empty"; y is corrected from 7 to 5.
    assert_eq!(s.scr[5 * 40 + 5], EMPTY);
    assert_eq!(s.scr[5 * 40 + 6], DIRT);
}

#[test]
fn line_command_draws_east() {
    let mut buf = header(0, [0, 0, 0, 0], [0, 0, 0, 0]);
    // Tag 1, symbol code 2 (brick wall), from (0, 0) after correction,
    // length 3, direction 2 (east).
    buf.extend_from_slice(&[0x42, 0, 2, 3, 2, 0xFF]);
    let mut s = Screen::new(1, 1, 0);
    s.load_cave(&buf).unwrap();
    assert_eq!(s.scr[0], WALL);
    assert_eq!(s.scr[1], WALL);
    assert_eq!(s.scr[2], WALL);
    assert_eq!(s.scr[3], BORDER);
}

#[test]
fn terminator_stops_decoding() {
    let mut buf = header(0, [0, 0, 0, 0], [0, 0, 0, 0]);
    buf.extend_from_slice(&[0x42, 0, 2, 3, 2]);
    buf.push(0xFF);
    // Trailing bytes would be a hopelessly out-of-bounds rectangle if read.
    buf.extend_from_slice(&[0xC1, 200, 0, 100, 100]);
    let mut s = Screen::new(1, 1, 0);
    s.load_cave(&buf).unwrap();
    assert_eq!(s.scr[0], WALL);
    assert_eq!(s.scr[2], WALL);
    assert_eq!(s.scr[3], BORDER);
}

#[test]
fn rect_out_of_bounds_rejected() {
    let mut buf = header(0, [0, 0, 0, 0], [0, 0, 0, 0]);
    // x + w = 45 exceeds the grid width of 40.
    buf.extend_from_slice(&[0xC1, 35, 2, 10, 3, 0xFF]);
    let mut s = Screen::new(1, 1, 0);
    assert_eq!(s.load_cave(&buf).unwrap_err(), CaveError::MalformedCave);
}

#[test]
fn rect_command_fills_whole_rectangle() {
    let mut buf = header(0, [0, 0, 0, 0], [0, 0, 0, 0]);
    // Tag 3, symbol code 7 (steel), at (5, 8) after correction, 3 x 2.
    buf.extend_from_slice(&[0xC7, 5, 10, 3, 2, 0xFF]);
    let mut s = Screen::new(1, 1, 0);
    s.load_cave(&buf).unwrap();
    for y in 8..10 {
        for x in 5..8 {
            assert_eq!(s.scr[y * 40 + x], BORDER);
        }
    }
    assert_eq!(s.scr[8 * 40 + 4], DIRT);
    assert_eq!(s.scr[8 * 40 + 8], DIRT);
    assert_eq!(s.scr[10 * 40 + 5], DIRT);
}

#[test]
fn filled_rect_draws_border_and_interior() {
    let mut buf = header(0, [0, 0, 0, 0], [0, 0, 0, 0]);
    // Tag 2, border code 2 (brick), 4 x 4 at (10, 2) after correction,
    // interior filled with code 0 (empty).
    buf.extend_from_slice(&[0x82, 10, 4, 4, 4, 0x00, 0xFF]);
    let mut s = Screen::new(1, 1, 0);
    s.load_cave(&buf).unwrap();
    assert_eq!(s.scr[2 * 40 + 10], WALL);
    assert_eq!(s.scr[2 * 40 + 13], WALL);
    assert_eq!(s.scr[5 * 40 + 10], WALL);
    assert_eq!(s.scr[5 * 40 + 13], WALL);
    assert_eq!(s.scr[3 * 40 + 11], EMPTY);
    assert_eq!(s.scr[4 * 40 + 12], EMPTY);
    assert_eq!(s.scr[3 * 40 + 9], DIRT);
}

#[test]
fn truncated_command_rejected() {
    let mut buf = header(0, [0, 0, 0, 0], [0, 0, 0, 0]);
    buf.extend_from_slice(&[0x00, 5]);
    let mut s = Screen::new(1, 1, 0);
    assert_eq!(s.load_cave(&buf).unwrap_err(), CaveError::MalformedCave);
}

#[test]
fn point_above_grid_rejected() {
    let mut buf = header(0, [0, 0, 0, 0], [0, 0, 0, 0]);
    // Raw y of 1 would land above the grid once corrected by -2.
    buf.extend_from_slice(&[0x00, 5, 1, 0xFF]);
    let mut s = Screen::new(1, 1, 0);
    assert_eq!(s.load_cave(&buf).unwrap_err(), CaveError::MalformedCave);
}

#[test]
fn bad_direction_rejected() {
    let mut buf = header(0, [0, 0, 0, 0], [0, 0, 0, 0]);
    buf.extend_from_slice(&[0x41, 5, 5, 3, 8, 0xFF]);
    let mut s = Screen::new(1, 1, 0);
    assert_eq!(s.load_cave(&buf).unwrap_err(), CaveError::MalformedCave);
}

#[test]
fn line_out_of_bounds_rejected() {
    let mut buf = header(0, [0, 0, 0, 0], [0, 0, 0, 0]);
    // East from column 38 for 5 cells runs off the right edge.
    buf.extend_from_slice(&[0x41, 38, 2, 5, 2, 0xFF]);
    let mut s = Screen::new(1, 1, 0);
    assert_eq!(s.load_cave(&buf).unwrap_err(), CaveError::MalformedCave);
}

#[test]
fn random_fill_uses_seed_and_thresholds() {
    // Seed 0 draws 0, 9, 220, 56, ... over the interior cells; with a single
    // threshold of 10 only draws below 10 become boulders.
    let buf = header(0, [0x10, 0, 0, 0], [10, 0, 0, 0]);
    let mut s = Screen::new(1, 1, 0);
    s.load_cave(&buf).unwrap();
    assert_eq!(s.scr[1 * 40 + 1], BOULDER); // second draw: 9 < 10
    assert_eq!(s.scr[1 * 40 + 2], DIRT); // third draw: 220
    assert_eq!(s.scr[1 * 40 + 3], DIRT); // fourth draw: 56
}

#[test]
fn empty_command_stream_is_bordered() {
    let buf = header(0, [0, 0, 0, 0], [0, 0, 0, 0]);
    let mut s = Screen::new(1, 1, 0);
    s.load_cave(&buf).unwrap();
    assert_eq!(s.w, 40);
    assert_eq!(s.h, 22);
    for x in 0..40 {
        assert_eq!(s.scr[x], BORDER);
        assert_eq!(s.scr[21 * 40 + x], BORDER);
    }
    for y in 0..22 {
        assert_eq!(s.scr[y * 40], BORDER);
        assert_eq!(s.scr[y * 40 + 39], BORDER);
    }
    // With all thresholds zero the whole interior is dirt.
    for y in 1..21 {
        for x in 1..39 {
            assert_eq!(s.scr[y * 40 + x], DIRT);
        }
    }
}
