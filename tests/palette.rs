use std::collections::HashMap;

use color_extractor::{
    accumulate, adjust_weights, extract, find_adjacent, isqrt, prefer_saturated,
    rank_and_truncate, reduce_gradients, round, search_hex, sort_by_weight, Color, ExtractError,
    Options,
};

fn color(r: i32, g: i32, b: i32, weight: i64) -> Color {
    Color { r, g, b, hex: (r << 16) + (g << 8) + b, weight }
}

fn buffer(runs: &[((u8, u8, u8), usize)]) -> Vec<u8> {
    let mut v = Vec::new();
    for &((r, g, b), n) in runs {
        for _ in 0..n {
            v.push(r);
            v.push(g);
            v.push(b);
        }
    }
    v
}

fn opts(count: usize, delta: u8, reduce: bool) -> Options {
    Options {
        count,
        delta,
        reduce_gradients: reduce,
        favor_saturated: false,
        neglect_yellow_skin: false,
    }
}

#[test]
fn identical_pixels_make_one_color() {
    let pixels = buffer(&[((100, 100, 100), 4)]);
    let out = extract(&pixels, 2, 2, &opts(10, 16, false)).unwrap();
    assert_eq!(out.len(), 1);
    assert_eq!((out[0].r, out[0].g, out[0].b), (96, 96, 96));
    assert_eq!(out[0].hex, 0x606060);
    assert_eq!(out[0].weight, 4);
}

#[test]
fn red_neighbor_merges_into_heavier_color() {
    let pixels = buffer(&[((96, 96, 96), 10), ((112, 96, 96), 3)]);
    let out = extract(&pixels, 13, 1, &opts(10, 16, true)).unwrap();
    assert_eq!(out.len(), 1);
    assert_eq!(out[0].hex, 0x606060);
    assert_eq!(out[0].weight, 13);
}

#[test]
fn reduce_gradients_moves_weight_to_first_color() {
    let colors = vec![color(96, 96, 96, 10), color(112, 96, 96, 3)];
    let out = reduce_gradients(&colors, 16);
    assert_eq!(out.len(), 1);
    assert_eq!(out[0].hex, 0x606060);
    assert_eq!(out[0].weight, 13);
}

#[test]
fn merges_chain_through_earlier_resolutions() {
    let colors = vec![color(96, 96, 96, 10), color(112, 96, 96, 3), color(128, 96, 96, 2)];
    let out = reduce_gradients(&colors, 16);
    assert_eq!(out.len(), 1);
    assert_eq!(out[0].hex, 0x606060);
    assert_eq!(out[0].weight, 15);
}

#[test]
fn count_one_keeps_heaviest() {
    let pixels = buffer(&[((200, 200, 200), 1), ((40, 40, 40), 5), ((120, 120, 120), 3)]);
    let out = extract(&pixels, 9, 1, &opts(1, 16, true)).unwrap();
    assert_eq!(out.len(), 1);
    assert_eq!(out[0].hex, 0x202020);
    assert_eq!(out[0].weight, 5);
}

#[test]
fn short_buffer_is_invalid() {
    let pixels = vec![0u8; 4 * 3 * 3 - 1];
    assert_eq!(extract(&pixels, 4, 3, &Options::default()).unwrap_err(), ExtractError::InvalidBuffer);
}

#[test]
fn long_buffer_is_invalid() {
    let pixels = vec![0u8; 4 * 3 * 3 + 1];
    assert_eq!(extract(&pixels, 4, 3, &Options::default()).unwrap_err(), ExtractError::InvalidBuffer);
}

#[test]
fn zero_delta_is_invalid() {
    let pixels = vec![0u8; 12];
    assert_eq!(extract(&pixels, 2, 2, &opts(10, 0, true)).unwrap_err(), ExtractError::InvalidOption);
}

#[test]
fn zero_count_is_invalid() {
    let pixels = vec![0u8; 12];
    assert_eq!(extract(&pixels, 2, 2, &opts(0, 16, true)).unwrap_err(), ExtractError::InvalidOption);
}

#[test]
fn empty_image_gives_empty_palette() {
    let pixels: Vec<u8> = Vec::new();
    assert!(extract(&pixels, 0, 5, &Options::default()).unwrap().is_empty());
}

#[test]
fn round_values() {
    assert_eq!(round(100, 16), 96);
    assert_eq!(round(0, 16), 0);
    assert_eq!(round(255, 16), 255);
    assert_eq!(round(254, 16), 255);
    assert_eq!(round(247, 16), 240);
    assert_eq!(round(0, 1), 255);
    assert_eq!(round(5, 1), 4);
    assert_eq!(round(255, 101), 255);
    assert_eq!(round(255, 255), 255);
    assert_eq!(round(17, 2), 16);
}

#[test]
fn round_keeps_bucket_values() {
    for delta in 2u8..=255 {
        let mut m: u32 = 0;
        while m + delta as u32 <= 255 {
            assert_eq!(round(m as u8, delta), m as i32);
            m += delta as u32;
        }
    }
}

#[test]
fn saturation_score() {
    assert_eq!(prefer_saturated(&color(255, 0, 0, 1)), 130050);
    assert_eq!(prefer_saturated(&color(10, 20, 40, 1)), 1000);
    assert_eq!(prefer_saturated(&color(0, 0, 255, 1)), 65025);
}

#[test]
fn integer_square_root() {
    assert_eq!(isqrt(0), 0);
    assert_eq!(isqrt(10), 3);
    assert_eq!(isqrt(16), 4);
    assert_eq!(isqrt(i64::MAX), 3037000499);
}

#[test]
fn accumulate_counts_and_sorts() {
    let pixels = buffer(&[((120, 120, 120), 2), ((40, 40, 40), 3), ((120, 120, 120), 1)]);
    let out = accumulate(&pixels, 6, 16);
    assert_eq!(out.len(), 2);
    assert_eq!((out[0].hex, out[0].weight), (0x202020, 3));
    assert_eq!((out[1].hex, out[1].weight), (0x707070, 3));
    let total: i64 = out.iter().map(|c| c.weight).sum();
    assert_eq!(total, 6);
}

#[test]
fn search_finds_place() {
    let v = vec![color(0, 0, 16, 1), color(0, 0, 48, 1)];
    assert_eq!(search_hex(&v, 48), Ok(1));
    assert_eq!(search_hex(&v, 32), Err(1));
    assert_eq!(search_hex(&v, 0), Err(0));
}

#[test]
fn sort_orders_by_weight_then_key() {
    let v = vec![color(0, 0, 16, 2), color(0, 0, 48, 7), color(0, 0, 32, 2)];
    let out = sort_by_weight(&v);
    let keys: Vec<i32> = out.iter().map(|c| c.hex).collect();
    assert_eq!(keys, vec![48, 16, 32]);
}

#[test]
fn truncation_keeps_top_colors() {
    let v = vec![color(0, 0, 16, 1), color(0, 0, 48, 5), color(0, 0, 96, 3)];
    let out = rank_and_truncate(&v, 2);
    let weights: Vec<i64> = out.iter().map(|c| c.weight).collect();
    assert_eq!(weights, vec![5, 3]);
    assert_eq!(rank_and_truncate(&v, 10).len(), 3);
}

#[test]
fn isolated_colors_are_untouched() {
    let colors = vec![color(192, 192, 192, 4), color(32, 32, 32, 2), color(112, 112, 112, 1)];
    let out = reduce_gradients(&colors, 16);
    assert_eq!(out.len(), 3);
    for (a, b) in out.iter().zip(colors.iter()) {
        assert_eq!((a.hex, a.weight), (b.hex, b.weight));
    }
}

#[test]
fn merging_conserves_weight() {
    let colors = vec![
        color(96, 96, 96, 9),
        color(96, 112, 96, 4),
        color(0, 0, 0, 3),
        color(96, 96, 80, 2),
        color(240, 240, 240, 1),
    ];
    let out = reduce_gradients(&colors, 16);
    let total: i64 = out.iter().map(|c| c.weight).sum();
    assert_eq!(total, 19);
    assert_eq!(out.len(), 3);
}

#[test]
fn adjacent_lookup_order() {
    let c = color(96, 96, 96, 1);
    let mut m = HashMap::new();
    assert_eq!(find_adjacent(&c, &m, 16), 0x606060);
    m.insert(0x606070, 7);
    assert_eq!(find_adjacent(&c, &m, 16), 7);
    m.insert(0x506060, 9);
    assert_eq!(find_adjacent(&c, &m, 16), 9);
    let edge = color(16, 0, 0, 1);
    let mut m2 = HashMap::new();
    m2.insert(0x000000, 5);
    assert_eq!(find_adjacent(&edge, &m2, 16), 5);
}

#[test]
fn saturation_preference_scales_weight() {
    let mut v = vec![color(255, 0, 0, 2), color(16, 16, 16, 3)];
    adjust_weights(&mut v, true, false);
    assert_eq!(v[0].weight, 260100);
    assert_eq!(v[1].weight, 0);
}

#[test]
fn skin_tones_are_damped() {
    let mut v = vec![color(208, 176, 160, 10), color(16, 16, 16, 10)];
    adjust_weights(&mut v, false, true);
    assert_eq!(v[0].weight, 3);
    assert_eq!(v[1].weight, 10);
}

#[test]
fn default_options() {
    let o = Options::default();
    assert_eq!(o.count, 10);
    assert_eq!(o.delta, 16);
    assert!(o.reduce_gradients);
    assert!(!o.favor_saturated);
    assert!(!o.neglect_yellow_skin);
}
