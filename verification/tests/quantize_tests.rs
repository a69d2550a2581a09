//! Tests for the palette builder, the ditherer and the quality formula.

use tinify::{build_palette, color_dist, dither, expand_palette, nearest_index, palette_size,
    rgba_to_rgb, Color};

fn opaque(r: u8, g: u8, b: u8) -> Color {
    Color { r, g, b, a: 255 }
}

#[test]
fn distance_is_sum_of_squared_channel_differences() {
    let c = Color { r: 0, g: 0, b: 0, a: 0 };
    let d = Color { r: 1, g: 2, b: 3, a: 4 };
    assert_eq!(color_dist(c, d), 1 + 4 + 9 + 16);
    assert_eq!(color_dist(d, d), 0);
}

#[test]
fn nearest_prefers_earliest_on_ties() {
    let pal = vec![opaque(10, 0, 0), opaque(0, 10, 0), opaque(10, 0, 0)];
    assert_eq!(nearest_index(&pal, opaque(10, 0, 0)), 0);
    assert_eq!(nearest_index(&pal, opaque(0, 9, 0)), 1);
}

#[test]
fn palette_size_follows_quality_floor() {
    assert_eq!(palette_size(0), 1);
    assert_eq!(palette_size(39), 1);
    assert_eq!(palette_size(7000), 179);
    assert_eq!(palette_size(10000), 256);
}

#[test]
fn palette_reproduces_distinct_colors_in_first_appearance_order() {
    let samples = vec![opaque(255, 0, 0), opaque(0, 255, 0), opaque(0, 0, 255), opaque(
        255, 255, 0,
    )];
    let pal = build_palette(&samples, 256);
    assert_eq!(pal, samples);
    let idx = dither(&samples, &pal, 2);
    assert_eq!(idx, vec![0, 1, 2, 3]);
}

#[test]
fn single_pixel_quality_zero_gives_one_exact_entry() {
    let samples = vec![opaque(12, 34, 56)];
    let k = palette_size(0);
    assert_eq!(k, 1);
    let pal = build_palette(&samples, k);
    assert_eq!(pal, vec![opaque(12, 34, 56)]);
    let idx = dither(&samples, &pal, 1);
    assert_eq!(idx, vec![0]);
}

#[test]
fn palette_is_capped_at_256_for_richer_images() {
    let mut samples = Vec::new();
    for i in 0..300u32 {
        samples.push(opaque((i % 256) as u8, (i / 256) as u8, 7));
    }
    let pal = build_palette(&samples, palette_size(10000));
    assert_eq!(pal.len(), 256);
}

#[test]
fn clustering_takes_the_weighted_mean() {
    // Two grays fall into one cluster whose centroid is their floor mean.
    let samples = vec![opaque(0, 0, 0), opaque(128, 128, 128), opaque(255, 255, 255)];
    let pal = build_palette(&samples, 2);
    assert_eq!(pal, vec![opaque(0, 0, 0), opaque(191, 191, 191)]);
}

#[test]
fn dithering_diffuses_the_residual_to_the_right() {
    let samples = vec![opaque(0, 0, 0), opaque(128, 128, 128), opaque(255, 255, 255)];
    let pal = build_palette(&samples, 2);
    let idx = dither(&samples, &pal, 3);
    assert_eq!(idx, vec![0, 1, 1]);
}

#[test]
fn index_stream_has_one_entry_per_pixel() {
    let samples = vec![
        opaque(0, 0, 0),
        opaque(50, 0, 0),
        opaque(100, 0, 0),
        opaque(150, 0, 0),
        opaque(200, 0, 0),
        opaque(250, 0, 0),
    ];
    let pal = build_palette(&samples, 3);
    assert!(pal.len() <= 3 && !pal.is_empty());
    let idx = dither(&samples, &pal, 3);
    assert_eq!(idx.len(), samples.len());
    for i in &idx {
        assert!((*i as usize) < pal.len());
    }
}

#[test]
fn expand_walks_the_palette() {
    let pal = vec![opaque(1, 2, 3), opaque(4, 5, 6)];
    let idx = vec![1, 0, 1];
    let out = expand_palette(&pal, &idx);
    assert_eq!(out, vec![4, 5, 6, 255, 1, 2, 3, 255, 4, 5, 6, 255]);
}

#[test]
fn rgb_flattening_drops_alpha() {
    let px = vec![Color { r: 1, g: 2, b: 3, a: 9 }, Color { r: 4, g: 5, b: 6, a: 8 }];
    assert_eq!(rgba_to_rgb(&px), vec![1, 2, 3, 4, 5, 6]);
}

#[test]
fn clustering_is_deterministic() {
    let mut samples = Vec::new();
    for i in 0..100u32 {
        samples.push(opaque((i * 7 % 256) as u8, (i * 13 % 256) as u8, (i * 29 % 256) as u8));
    }
    let a = build_palette(&samples, 16);
    let b = build_palette(&samples, 16);
    assert_eq!(a, b);
    assert_eq!(dither(&samples, &a, 10), dither(&samples, &b, 10));
}
