use bgtiles::{AssetNamespace, Assets, GenError};

fn png(width: u32, height: u32, rgb: [u8; 3]) -> Vec<u8> {
    let mut data = Vec::new();
    for _ in 0..(width * height) {
        data.extend_from_slice(&rgb);
    }
    let mut out = Vec::new();
    image::codecs::png::PngEncoder::new(&mut out)
        .encode(&data, width, height, image::ColorType::Rgb8)
        .unwrap();
    out
}

fn namespace() -> AssetNamespace {
    AssetNamespace {
        entries: vec![
            ("set/a.png".to_string(), png(2, 1, [1, 2, 3])),
            ("set/b.png".to_string(), png(1, 1, [4, 5, 6])),
            ("other/c.png".to_string(), png(1, 1, [7, 8, 9])),
            ("broken/d.png".to_string(), vec![0x89, b'P', b'N', b'G']),
        ],
    }
}

#[test]
fn get_before_load_is_not_cached() {
    let assets = Assets::new();
    assert_eq!(assets.get_image("set/a.png").err(), Some(GenError::NotCached));
}

#[test]
fn load_decodes_into_rgb() {
    let mut assets = Assets::new();
    let img = assets.load_image(&namespace(), "set/a.png").unwrap();
    assert_eq!((img.width, img.height), (2, 1));
    assert_eq!(img.data, vec![1, 2, 3, 1, 2, 3]);
    let cached = assets.get_image("set/a.png").unwrap();
    assert_eq!(cached.data, vec![1, 2, 3, 1, 2, 3]);
}

#[test]
fn second_load_does_not_decode() {
    let ns = namespace();
    let mut assets = Assets::new();
    let first = assets.load_image(&ns, "set/b.png").unwrap().data.clone();
    assert_eq!(assets.cached_count(), 1);
    let second = assets.load_image(&ns, "set/b.png").unwrap().data.clone();
    assert_eq!(assets.cached_count(), 1);
    assert_eq!(second, first);
}

#[test]
fn load_missing_key_is_not_found() {
    let mut assets = Assets::new();
    assert_eq!(assets.load_image(&namespace(), "set/z.png").err(), Some(GenError::NotFound));
    assert_eq!(assets.cached_count(), 0);
}

#[test]
fn load_malformed_bytes_fails() {
    let mut assets = Assets::new();
    assert_eq!(assets.load_image(&namespace(), "broken/d.png").err(), Some(GenError::DecodeError));
    assert_eq!(assets.cached_count(), 0);
}

#[test]
fn preload_takes_only_the_prefix() {
    let mut assets = Assets::new();
    assert_eq!(assets.preload_images_starts_with(&namespace(), "set/"), Ok(()));
    assert_eq!(assets.cached_count(), 2);
    assert!(assets.get_image("set/a.png").is_ok());
    assert!(assets.get_image("set/b.png").is_ok());
    assert!(assets.get_image("other/c.png").is_err());
}

#[test]
fn preload_stops_at_first_failure_and_keeps_progress() {
    let mut assets = Assets::new();
    assert_eq!(assets.preload_images_starts_with(&namespace(), ""), Err(GenError::DecodeError));
    assert_eq!(assets.cached_count(), 3);
}

#[test]
fn default_cache_is_empty() {
    let assets = Assets::default();
    assert_eq!(assets.cached_count(), 0);
}

#[test]
fn preload_adds_nothing_after_the_failure() {
    let mut ns = namespace();
    ns.entries.push(("broken/e.png".to_string(), png(1, 1, [1, 1, 1])));
    ns.entries.insert(0, ("broken/a.png".to_string(), png(1, 1, [2, 2, 2])));
    let mut assets = Assets::new();
    assert_eq!(assets.preload_images_starts_with(&ns, "broken/"), Err(GenError::DecodeError));
    assert!(assets.get_image("broken/a.png").is_ok());
    assert!(assets.get_image("broken/d.png").is_err());
    assert!(assets.get_image("broken/e.png").is_err());
    assert_eq!(assets.cached_count(), 1);
}
