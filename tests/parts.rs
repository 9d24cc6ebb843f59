use bgtiles::{
    classify, compose, grid_origins, has_prefix, overlay, variant_index, Category, Raster,
};

fn solid(width: u32, height: u32, rgb: [u8; 3]) -> Raster {
    let mut data = Vec::new();
    for _ in 0..(width * height) {
        data.extend_from_slice(&rgb);
    }
    Raster { width, height, data }
}

fn pixel(r: &Raster, x: u32, y: u32) -> [u8; 3] {
    let i = ((y * r.width + x) * 3) as usize;
    [r.data[i], r.data[i + 1], r.data[i + 2]]
}

#[test]
fn variant_at_positive_extreme_is_last() {
    assert_eq!(variant_index(1.0f64.to_bits(), 16), 15);
    assert_eq!(classify(1.0f64.to_bits(), 21, 16), (Category::High, 15));
}

#[test]
fn variant_at_negative_extreme_is_last() {
    assert_eq!(classify((-1.0f64).to_bits(), 21, 16), (Category::Low, 20));
}

#[test]
fn variant_scales_linearly() {
    assert_eq!(classify(0.5f64.to_bits(), 21, 16), (Category::High, 8));
    assert_eq!(classify((-0.5f64).to_bits(), 21, 16), (Category::Low, 10));
    assert_eq!(classify(0.49f64.to_bits(), 21, 16), (Category::High, 7));
    assert_eq!(classify((-0.99f64).to_bits(), 21, 16), (Category::Low, 20));
    assert_eq!(classify((-0.95f64).to_bits(), 21, 16), (Category::Low, 19));
}

#[test]
fn zero_and_special_values() {
    assert_eq!(classify(0.0f64.to_bits(), 21, 16), (Category::High, 0));
    assert_eq!(classify((-0.0f64).to_bits(), 21, 16), (Category::High, 0));
    assert_eq!(classify(f64::NAN.to_bits(), 21, 16), (Category::High, 0));
    assert_eq!(classify(f64::INFINITY.to_bits(), 21, 16), (Category::High, 15));
    assert_eq!(classify(f64::NEG_INFINITY.to_bits(), 21, 16), (Category::Low, 20));
    assert_eq!(classify((-5e-324f64).to_bits(), 21, 16), (Category::Low, 0));
    assert_eq!(classify(1e300f64.to_bits(), 21, 16), (Category::High, 15));
}

fn float_choice(v: f64) -> (Category, usize) {
    if v < 0.0 {
        (Category::Low, ((-v * 21.0) as usize).min(20))
    } else {
        (Category::High, ((v * 16.0) as usize).min(15))
    }
}

#[test]
fn variant_matches_float_scaling_on_a_sweep() {
    for i in 0..=20000u32 {
        let v = i as f64 / 10000.0 - 1.0;
        assert_eq!(classify(v.to_bits(), 21, 16), float_choice(v), "v = {}", v);
    }
}

#[test]
fn variant_matches_float_scaling_at_cell_boundaries() {
    for k in 1..21u32 {
        let centre = -(k as f64) / 21.0;
        let bits = centre.to_bits();
        for d in 0..64u64 {
            for b in [bits - d, bits + d] {
                let v = f64::from_bits(b);
                assert_eq!(classify(b, 21, 16), float_choice(v), "v = {:e}", v);
            }
        }
    }
}

#[test]
fn grid_origins_column_major() {
    assert_eq!(
        grid_origins(256, 256, 128),
        vec![(0, 0), (0, 128), (128, 0), (128, 128)]
    );
}

#[test]
fn grid_origins_partial_cells() {
    let g = grid_origins(300, 130, 128);
    assert_eq!(g.len(), 6);
    assert_eq!(g[5], (256, 128));
    assert!(grid_origins(0, 100, 128).is_empty());
}

#[test]
fn new_raster_is_black() {
    let r = Raster::new(3, 2);
    assert_eq!(r.data, vec![0u8; 18]);
}

#[test]
fn overlay_clips_to_canvas() {
    let mut canvas = Raster::new(4, 3);
    let tile = solid(2, 2, [9, 8, 7]);
    overlay(&mut canvas, &tile, 3, 2);
    for y in 0..3 {
        for x in 0..4 {
            let expected = if x == 3 && y == 2 { [9, 8, 7] } else { [0, 0, 0] };
            assert_eq!(pixel(&canvas, x, y), expected);
        }
    }
    overlay(&mut canvas, &tile, 10, 10);
    assert_eq!(pixel(&canvas, 3, 2), [9, 8, 7]);
}

#[test]
fn overlay_copies_tile_pixels() {
    let mut canvas = solid(3, 3, [1, 1, 1]);
    let tile = Raster { width: 2, height: 1, data: vec![10, 11, 12, 20, 21, 22] };
    overlay(&mut canvas, &tile, 1, 1);
    assert_eq!(pixel(&canvas, 1, 1), [10, 11, 12]);
    assert_eq!(pixel(&canvas, 2, 1), [20, 21, 22]);
    assert_eq!(pixel(&canvas, 0, 1), [1, 1, 1]);
    assert_eq!(pixel(&canvas, 1, 0), [1, 1, 1]);
}

#[test]
fn compose_covers_every_pixel() {
    let a = solid(2, 2, [5, 5, 5]);
    let b = solid(2, 2, [7, 7, 7]);
    let samples = vec![(-0.5f64).to_bits(), 0.5f64.to_bits(), 0.25f64.to_bits(), (-1.0f64).to_bits()];
    let canvas = compose(4, 4, 2, &samples, &vec![&a], &vec![&b]);
    assert_eq!(canvas.width, 4);
    assert_eq!(pixel(&canvas, 0, 0), [5, 5, 5]);
    assert_eq!(pixel(&canvas, 1, 3), [7, 7, 7]);
    assert_eq!(pixel(&canvas, 3, 1), [7, 7, 7]);
    assert_eq!(pixel(&canvas, 3, 3), [5, 5, 5]);
    assert!(canvas.data.iter().all(|&v| v != 0));
}

#[test]
fn compose_partial_cells_stay_in_bounds() {
    let a = solid(2, 2, [5, 5, 5]);
    let samples = vec![0u64; 4];
    let canvas = compose(3, 3, 2, &samples, &vec![&a], &vec![&a]);
    assert_eq!(canvas.data.len(), 27);
    assert!(canvas.data.iter().all(|&v| v == 5));
}

#[test]
fn prefix_test() {
    assert!(has_prefix("factorio/dirt0.png", "factorio"));
    assert!(has_prefix("abc", ""));
    assert!(!has_prefix("fac", "factorio"));
    assert!(!has_prefix("other/dirt0.png", "factorio"));
}
