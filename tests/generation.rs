use bgtiles::{
    gen_background_factorio, generate, grid_origins, AssetNamespace, Assets, GenError,
    FACTORIO_TILE_SIZE,
};
use noise::{NoiseFn, Perlin, Seedable};

fn png_tile(size: u32, rgb: [u8; 3]) -> Vec<u8> {
    let mut data = Vec::new();
    for _ in 0..(size * size) {
        data.extend_from_slice(&rgb);
    }
    let mut out = Vec::new();
    image::codecs::png::PngEncoder::new(&mut out)
        .encode(&data, size, size, image::ColorType::Rgb8)
        .unwrap();
    out
}

fn factorio_namespace() -> AssetNamespace {
    let mut entries = Vec::new();
    for i in 0..21u8 {
        entries.push((format!("factorio/dirt{}.png", i), png_tile(128, [100 + i, 50, 10])));
    }
    for i in 0..16u8 {
        entries.push((format!("factorio/grass{}.png", i), png_tile(128, [10, 150 + i, 20])));
    }
    entries.push(("other/rock.png".to_string(), vec![1, 2, 3]));
    AssetNamespace { entries }
}

fn samples(width: u32, height: u32, seed: u32) -> Vec<u64> {
    let p = Perlin::new().set_seed(seed);
    grid_origins(width, height, FACTORIO_TILE_SIZE)
        .iter()
        .map(|&(x, y)| p.get([x as f64 * 0.001, y as f64 * 0.001]).to_bits())
        .collect()
}

fn run(width: u32, height: u32, seed: u32) -> Result<Vec<u8>, GenError> {
    let mut assets = Assets::new();
    generate(&mut assets, &factorio_namespace(), "factorio", width, height, &samples(width, height, seed))
}

#[test]
fn factorio_chunk_seed_seven() {
    let bytes = run(1024, 1024, 7).unwrap();
    assert!(!bytes.is_empty());
    assert_eq!(&bytes[0..2], b"BM");
    assert_eq!(&bytes[18..22], &1024u32.to_le_bytes());
    assert_eq!(&bytes[22..26], &1024u32.to_le_bytes());
    assert_eq!(bytes.len(), 54 + 1024 * 1024 * 3);
    let decoded = image::load_from_memory(&bytes).unwrap().into_rgb8();
    assert_eq!(decoded.dimensions(), (1024, 1024));
    let again = image::load_from_memory(&run(1024, 1024, 7).unwrap()).unwrap().into_rgb8();
    assert_eq!(decoded.into_raw(), again.into_raw());
}

#[test]
fn repeated_calls_are_byte_identical() {
    assert_eq!(run(512, 384, 42).unwrap(), run(512, 384, 42).unwrap());
    let mut assets = Assets::new();
    let ns = factorio_namespace();
    let s = samples(256, 256, 3);
    let first = gen_background_factorio(&mut assets, &ns, 256, 256, &s).unwrap();
    let second = gen_background_factorio(&mut assets, &ns, 256, 256, &s).unwrap();
    assert_eq!(first, second);
}

#[test]
fn unknown_generator_fails() {
    let mut assets = Assets::new();
    let r = generate(&mut assets, &factorio_namespace(), "not-a-real-id", 1024, 1024, &samples(1024, 1024, 42));
    assert_eq!(r, Err(GenError::UnsupportedGenerator));
    assert_eq!(assets.cached_count(), 0);
}

#[test]
fn odd_sizes_are_clipped() {
    let bytes = run(301, 130, 9).unwrap();
    // 54 header bytes, rows of 903 bytes padded to 904
    assert_eq!(bytes.len(), 54 + 130 * 904);
    let decoded = image::load_from_memory(&bytes).unwrap().into_rgb8();
    assert_eq!(decoded.dimensions(), (301, 130));
    assert!(decoded.pixels().all(|p| p.0 != [0, 0, 0]));
}

#[test]
fn every_pixel_comes_from_a_tile() {
    let bytes = run(1024, 256, 11).unwrap();
    let decoded = image::load_from_memory(&bytes).unwrap().into_rgb8();
    assert!(decoded.pixels().all(|p| p.0 != [0, 0, 0]));
}

#[test]
fn encoded_canvas_round_trips() {
    let width = 200;
    let height = 300;
    let ns = factorio_namespace();
    let s = samples(width, height, 5);
    let mut assets = Assets::new();
    let bytes = generate(&mut assets, &ns, "factorio", width, height, &s).unwrap();
    let tiles = bgtiles::factorio_tiles();
    let low: Vec<&bgtiles::Raster> = tiles.low.iter().map(|k| assets.get_image(k).unwrap()).collect();
    let high: Vec<&bgtiles::Raster> = tiles.high.iter().map(|k| assets.get_image(k).unwrap()).collect();
    let canvas = bgtiles::compose(width, height, FACTORIO_TILE_SIZE, &s, &low, &high);
    let decoded = image::load_from_memory(&bytes).unwrap().into_rgb8();
    assert_eq!(decoded.dimensions(), (width, height));
    assert_eq!(decoded.into_raw(), canvas.data);
}

#[test]
fn missing_tile_is_not_cached() {
    let mut ns = factorio_namespace();
    ns.entries.retain(|(k, _)| k != "factorio/grass15.png");
    let mut assets = Assets::new();
    let r = generate(&mut assets, &ns, "factorio", 256, 256, &samples(256, 256, 1));
    assert_eq!(r, Err(GenError::NotCached));
}

#[test]
fn bad_tile_bytes_fail_decoding() {
    let mut ns = factorio_namespace();
    ns.entries[3].1 = vec![0, 1, 2, 3];
    let mut assets = Assets::new();
    let r = generate(&mut assets, &ns, "factorio", 256, 256, &samples(256, 256, 1));
    assert_eq!(r, Err(GenError::DecodeError));
    // entries before the bad one stay cached
    assert_eq!(assets.cached_count(), 3);
}

#[test]
fn oversized_canvas_fails_encoding() {
    let mut assets = Assets::new();
    let r = generate(&mut assets, &factorio_namespace(), "factorio", 70000, 70000, &vec![0u64; 547 * 547]);
    assert_eq!(r, Err(GenError::EncodeError));
}

#[test]
fn decode_failure_repeats_with_warm_cache() {
    let mut ns = factorio_namespace();
    ns.entries[3].1 = vec![0, 1, 2, 3];
    let mut assets = Assets::new();
    let s = samples(256, 256, 1);
    assert_eq!(generate(&mut assets, &ns, "factorio", 256, 256, &s), Err(GenError::DecodeError));
    assert_eq!(generate(&mut assets, &ns, "factorio", 256, 256, &s), Err(GenError::DecodeError));
    assert_eq!(assets.cached_count(), 3);
}

#[test]
fn zero_height_wide_canvas_fails_encoding() {
    let mut assets = Assets::new();
    let r = generate(&mut assets, &factorio_namespace(), "factorio", 1_500_000_000, 0, &vec![]);
    assert_eq!(r, Err(GenError::EncodeError));
}

#[test]
fn bmp_rows_run_bottom_up_in_bgr() {
    let width = 130;
    let height = 129;
    let bytes = run(width, height, 2).unwrap();
    let decoded = image::load_from_memory(&bytes).unwrap().into_rgb8();
    let row = (width * 3 + 2) as usize; // 390 bytes padded to 392
    for &(x, y) in &[(0u32, 0u32), (129, 0), (0, 128), (129, 128), (64, 77)] {
        let at = 54 + (height - 1 - y) as usize * row + 3 * x as usize;
        let p = decoded.get_pixel(x, y).0;
        assert_eq!([bytes[at + 2], bytes[at + 1], bytes[at]], p);
    }
    assert_eq!(&bytes[54 + 390..54 + 392], &[0, 0]);
}
