//! Background generation: tile set tables, dispatch on the generator id,
//! and the pipeline preload, select, composite, encode.
use vstd::prelude::*;
use vstd::string::StrSliceExecFns;
use crate::assets::{stopped_at, begins_with, has_prefix, tile_of_bytes, AssetNamespace, Assets, TileModel};
use crate::codec::{bmp_len, bmp_of, bmp_row_len, encode_bmp, le32, lemma_bmp_declares_size};
use crate::compose::{compose, grid_len, models, scene, shows};
use crate::error::GenError;
use crate::raster::Raster;

verus! {

/// Side of a Factorio ground tile, in pixels.
pub const FACTORIO_TILE_SIZE: u32 = 128;

/// Side of a Factorio chunk, in pixels.
pub const FACTORIO_CHUNK_SIZE: u32 = 1024;

/// A tiling scheme: the namespace prefix its assets live under, the grid
/// step, and the ordered keys of the variants of each terrain category.
pub struct TileSet {
    pub prefix: &'static str,
    pub tile_size: u32,
    pub low: Vec<&'static str>,
    pub high: Vec<&'static str>,
}

pub open spec fn key_views(keys: Seq<&'static str>) -> Seq<Seq<char>> {
    keys.map_values(|k: &'static str| k@)
}

/// The tiles cached under `keys`, in order.
pub open spec fn tiles_of(cache: Map<Seq<char>, TileModel>, keys: Seq<Seq<char>>) -> Seq<TileModel> {
    keys.map_values(|k: Seq<char>| cache[k])
}

pub open spec fn all_cached(cache: Map<Seq<char>, TileModel>, keys: Seq<Seq<char>>) -> bool {
    forall|i: int| 0 <= i < keys.len() ==> cache.contains_key(#[trigger] keys[i])
}

/// Every namespace entry under `prefix` is cached already or decodes to a
/// usable tile.
pub open spec fn preload_clean(cache: Map<Seq<char>, TileModel>, namespace: AssetNamespace, prefix: Seq<char>) -> bool {
    forall|i: int| 0 <= i < namespace.entries@.len() && begins_with(#[trigger] namespace.entries@[i].0@, prefix)
        ==> cache.contains_key(namespace.entries@[i].0@)
            || tile_of_bytes(namespace.bytes_of(namespace.entries@[i].0@)) is Some
}

/// A `w` x `h` canvas fits the encoder's 32-bit row and file sizes.
pub open spec fn size_ok(w: int, h: int) -> bool {
    bmp_row_len(w) <= u32::MAX && bmp_len(w, h) <= u32::MAX
}

/// The cache after preloading `prefix` from a clean namespace: what was
/// cached, plus every entry under the prefix, decoded.
pub open spec fn preloaded(before: Map<Seq<char>, TileModel>, after: Map<Seq<char>, TileModel>, namespace: AssetNamespace, prefix: Seq<char>) -> bool {
    &&& forall|k: Seq<char>| #[trigger] after.contains_key(k) <==>
        before.contains_key(k) || (namespace.has(k) && begins_with(k, prefix))
    &&& forall|k: Seq<char>| #[trigger] after.contains_key(k) ==>
        if before.contains_key(k) { after[k] == before[k] } else { tile_of_bytes(namespace.bytes_of(k)) == Some(after[k]) }
}

/// What one generation call does, from the cache `before` to the cache
/// `after`, with result `r`: the tiles under `prefix` are preloaded, the
/// canvas painted cell by cell with the `low` and `high` variants that
/// `samples` select, and encoded as BMP.
pub open spec fn generation_outcome(
    before: Map<Seq<char>, TileModel>,
    after: Map<Seq<char>, TileModel>,
    namespace: AssetNamespace,
    prefix: Seq<char>,
    t: int,
    low: Seq<Seq<char>>,
    high: Seq<Seq<char>>,
    w: int,
    h: int,
    samples: Seq<u64>,
    r: Result<Vec<u8>, GenError>,
) -> bool {
    if !size_ok(w, h) {
        r == Err::<Vec<u8>, GenError>(GenError::EncodeError) && after == before
    } else if !preload_clean(before, namespace, prefix) {
        &&& r == Err::<Vec<u8>, GenError>(GenError::DecodeError)
        &&& before.submap_of(after)
        &&& exists|f: int| stopped_at(before, after, namespace, prefix, f)
        &&& forall|k: Seq<char>| #[trigger] after.contains_key(k) && !before.contains_key(k) ==>
            namespace.has(k) && begins_with(k, prefix) && tile_of_bytes(namespace.bytes_of(k)) == Some(after[k])
    } else {
        &&& preloaded(before, after, namespace, prefix)
        &&& if all_cached(after, low) && all_cached(after, high) {
            exists|canvas: Raster| #![auto]
                shows(canvas, w, h, scene(w, h, t, samples, tiles_of(after, low), tiles_of(after, high)))
                && r is Ok && r->Ok_0@ == bmp_of(w as u32, h as u32, canvas.data@)
                && r->Ok_0@.len() == bmp_len(w, h)
        } else {
            r == Err::<Vec<u8>, GenError>(GenError::NotCached)
        }
    }
}

/// Generation is deterministic: two calls from the same cache, on the same
/// namespace and inputs, fail alike or produce identical bytes.
pub proof fn lemma_generation_deterministic(
    before: Map<Seq<char>, TileModel>,
    after1: Map<Seq<char>, TileModel>,
    after2: Map<Seq<char>, TileModel>,
    namespace: AssetNamespace,
    prefix: Seq<char>,
    t: int,
    low: Seq<Seq<char>>,
    high: Seq<Seq<char>>,
    w: int,
    h: int,
    samples: Seq<u64>,
    r1: Result<Vec<u8>, GenError>,
    r2: Result<Vec<u8>, GenError>,
)
    requires
        generation_outcome(before, after1, namespace, prefix, t, low, high, w, h, samples, r1),
        generation_outcome(before, after2, namespace, prefix, t, low, high, w, h, samples, r2),
    ensures
        r1 is Ok <==> r2 is Ok,
        r1 is Ok ==> r1->Ok_0@ == r2->Ok_0@,
        r1 is Err ==> r1->Err_0 == r2->Err_0,
{
    if size_ok(w, h) && preload_clean(before, namespace, prefix) {
        assert forall|k: Seq<char>| #[trigger] after1.contains_key(k) implies after2.contains_key(k) && after1[k] == after2[k] by {
            assert(after2.contains_key(k));
        }
        assert forall|k: Seq<char>| #[trigger] after2.contains_key(k) implies after1.contains_key(k) by {
            assert(after1.contains_key(k));
        }
        assert(after1 =~= after2);
        if all_cached(after1, low) && all_cached(after1, high) {
            let sc = scene(w, h, t, samples, tiles_of(after1, low), tiles_of(after1, high));
            let c1 = choose|canvas: Raster| #![auto]
                shows(canvas, w, h, sc) && r1 is Ok && r1->Ok_0@ == bmp_of(w as u32, h as u32, canvas.data@)
                && r1->Ok_0@.len() == bmp_len(w, h);
            let c2 = choose|canvas: Raster| #![auto]
                shows(canvas, w, h, sc) && r2 is Ok && r2->Ok_0@ == bmp_of(w as u32, h as u32, canvas.data@)
                && r2->Ok_0@.len() == bmp_len(w, h);
            assert forall|px: int, py: int, c: int| #[trigger] c1.in_bounds(px, py, c) implies c1.at(px, py, c) == c2.at(px, py, c) by {
                assert(c2.in_bounds(px, py, c));
            }
            crate::raster::lemma_same_pixels(c1, c2);
        }
    }
}

/// A second call that reuses the cache left by a successful first call
/// succeeds too, decodes nothing more, and produces identical bytes.
pub proof fn lemma_generation_repeatable(
    before: Map<Seq<char>, TileModel>,
    after1: Map<Seq<char>, TileModel>,
    after2: Map<Seq<char>, TileModel>,
    namespace: AssetNamespace,
    prefix: Seq<char>,
    t: int,
    low: Seq<Seq<char>>,
    high: Seq<Seq<char>>,
    w: int,
    h: int,
    samples: Seq<u64>,
    r1: Result<Vec<u8>, GenError>,
    r2: Result<Vec<u8>, GenError>,
)
    requires
        generation_outcome(before, after1, namespace, prefix, t, low, high, w, h, samples, r1),
        generation_outcome(after1, after2, namespace, prefix, t, low, high, w, h, samples, r2),
        r1 is Ok,
    ensures
        r2 is Ok,
        after2 == after1,
        r1->Ok_0@ == r2->Ok_0@,
{
    assert(size_ok(w, h));
    assert(preload_clean(before, namespace, prefix));
    assert(preloaded(before, after1, namespace, prefix));
    assert forall|i: int| 0 <= i < namespace.entries@.len() && begins_with(#[trigger] namespace.entries@[i].0@, prefix)
        implies after1.contains_key(namespace.entries@[i].0@) by {
        assert(namespace.has(namespace.entries@[i].0@));
    }
    assert(preload_clean(after1, namespace, prefix));
    assert forall|k: Seq<char>| #[trigger] after2.contains_key(k) <==> after1.contains_key(k) by {
        if namespace.has(k) && begins_with(k, prefix) {
            assert(after1.contains_key(k));
        }
    }
    assert(after2 =~= after1);
    let sc = scene(w, h, t, samples, tiles_of(after1, low), tiles_of(after1, high));
    let c1 = choose|canvas: Raster| #![auto]
        shows(canvas, w, h, sc) && r1 is Ok && r1->Ok_0@ == bmp_of(w as u32, h as u32, canvas.data@)
        && r1->Ok_0@.len() == bmp_len(w, h);
    let c2 = choose|canvas: Raster| #![auto]
        shows(canvas, w, h, sc) && r2 is Ok && r2->Ok_0@ == bmp_of(w as u32, h as u32, canvas.data@)
        && r2->Ok_0@.len() == bmp_len(w, h);
    assert forall|px: int, py: int, c: int| #[trigger] c1.in_bounds(px, py, c) implies c1.at(px, py, c) == c2.at(px, py, c) by {
        assert(c2.in_bounds(px, py, c));
    }
    crate::raster::lemma_same_pixels(c1, c2);
}

/// A call that failed on an undecodable tile fails the same way when
/// repeated with the cache it left: no tile is substituted for it.
pub proof fn lemma_decode_failure_repeats(
    before: Map<Seq<char>, TileModel>,
    after1: Map<Seq<char>, TileModel>,
    after2: Map<Seq<char>, TileModel>,
    namespace: AssetNamespace,
    prefix: Seq<char>,
    t: int,
    low: Seq<Seq<char>>,
    high: Seq<Seq<char>>,
    w: int,
    h: int,
    samples: Seq<u64>,
    r1: Result<Vec<u8>, GenError>,
    r2: Result<Vec<u8>, GenError>,
)
    requires
        generation_outcome(before, after1, namespace, prefix, t, low, high, w, h, samples, r1),
        generation_outcome(after1, after2, namespace, prefix, t, low, high, w, h, samples, r2),
        r1 == Err::<Vec<u8>, GenError>(GenError::DecodeError),
    ensures
        r2 == Err::<Vec<u8>, GenError>(GenError::DecodeError),
        after1.submap_of(after2),
{
    assert(size_ok(w, h));
    assert(!preload_clean(before, namespace, prefix));
    let f = choose|f: int| stopped_at(before, after1, namespace, prefix, f);
    assert(begins_with(namespace.entries@[f].0@, prefix));
    assert(!preload_clean(after1, namespace, prefix));
}

/// The cached tiles under `keys`, in order.
fn lookup_all<'a>(assets: &'a Assets, keys: &Vec<&'static str>) -> (r: Result<Vec<&'a Raster>, GenError>)
    requires
        assets.wf(),
    ensures
        r is Ok <==> all_cached(assets@, key_views(keys@)),
        r matches Err(e) ==> e == GenError::NotCached,
        r matches Ok(v) ==> v@.len() == keys@.len(),
        r matches Ok(v) ==> models(v@) == tiles_of(assets@, key_views(keys@))
            && forall|i: int| 0 <= i < v@.len() ==> (#[trigger] v@[i]).wf(),
{
    let mut v: Vec<&'a Raster> = Vec::new();
    let mut i: usize = 0;
    while i < keys.len()
        invariant
            assets.wf(),
            i <= keys@.len(),
            v@.len() == i,
            forall|j: int| 0 <= j < i ==> assets@.contains_key(#[trigger] keys@[j]@),
            forall|j: int| 0 <= j < i ==> (#[trigger] v@[j]).wf() && crate::assets::model_of(*v@[j]) == assets@[keys@[j]@],
        decreases keys@.len() - i,
    {
        match assets.get_image(keys[i]) {
            Ok(img) => {
                v.push(img);
            },
            Err(e) => {
                proof {
                    assert(key_views(keys@)[i as int] == keys@[i as int]@);
                }
                return Err(e);
            },
        }
        i = i + 1;
    }
    proof {
        assert(models(v@) =~= tiles_of(assets@, key_views(keys@)));
        assert forall|j: int| 0 <= j < key_views(keys@).len() implies assets@.contains_key(#[trigger] key_views(keys@)[j]) by {
            assert(key_views(keys@)[j] == keys@[j]@);
        }
    }
    Ok(v)
}

/// Generates a background with the tile set `tiles`: preloads the tiles
/// under its prefix, paints a `width` x `height` canvas cell by cell with
/// the variants that `samples` (one per cell, in `grid_origins` order)
/// select, and encodes it as BMP.
pub fn gen_background_tiles(
    assets: &mut Assets,
    namespace: &AssetNamespace,
    tiles: &TileSet,
    width: u32,
    height: u32,
    samples: &Vec<u64>,
) -> (r: Result<Vec<u8>, GenError>)
    requires
        old(assets).wf(),
        tiles.tile_size > 0,
        tiles.low@.len() > 0,
        tiles.high@.len() > 0,
        samples@.len() == grid_len(width as int, height as int, tiles.tile_size as int),
    ensures
        final(assets).wf(),
        generation_outcome(old(assets)@, final(assets)@, *namespace, tiles.prefix@, tiles.tile_size as int,
            key_views(tiles.low@), key_views(tiles.high@), width as int, height as int, samples@, r),
{
    let w: u128 = width as u128;
    let h: u128 = height as u128;
    let row: u128 = w * 3 + (4 - (w * 3) % 4) % 4;
    assert(h * row <= 0xffff_ffff * (0xffff_ffff * 3 + 3)) by (nonlinear_arith)
        requires h <= 0xffff_ffff, row <= 0xffff_ffff * 3 + 3;
    let total: u128 = 54 + h * row;
    assert(total == bmp_len(width as int, height as int));
    assert(row == bmp_row_len(width as int));
    if row > 0xffff_ffff || total > 0xffff_ffff {
        return Err(GenError::EncodeError);
    }
    proof {
        assert(h * (w * 3) <= h * row) by (nonlinear_arith)
            requires w * 3 <= row;
        assert(w * h * 3 == h * (w * 3)) by (nonlinear_arith);
    }
    let ghost before = assets@;
    let preload = assets.preload_images_starts_with(namespace, tiles.prefix);
    if preload.is_err() {
        proof {
            let f = choose|f: int| stopped_at(before, assets@, *namespace, tiles.prefix@, f);
            assert(namespace.entries@[f].0@ == namespace.entries@[f].0@);
            assert(!preload_clean(before, *namespace, tiles.prefix@));
        }
        return Err(GenError::DecodeError);
    }
    proof {
        let after = assets@;
        assert forall|i: int| 0 <= i < namespace.entries@.len() && begins_with(#[trigger] namespace.entries@[i].0@, tiles.prefix@)
            implies before.contains_key(namespace.entries@[i].0@)
                || tile_of_bytes(namespace.bytes_of(namespace.entries@[i].0@)) is Some by {
            let k = namespace.entries@[i].0@;
            assert(after.contains_key(k));
        }
        assert forall|k: Seq<char>| #[trigger] after.contains_key(k) <==>
            before.contains_key(k) || (namespace.has(k) && begins_with(k, tiles.prefix@)) by {
            if namespace.has(k) && begins_with(k, tiles.prefix@) {
                let i = choose|i: int| 0 <= i < namespace.entries@.len() && #[trigger] namespace.entries@[i].0@ == k;
                assert(begins_with(namespace.entries@[i].0@, tiles.prefix@));
            }
        }
    }
    let frozen: &Assets = assets;
    let low = match lookup_all(frozen, &tiles.low) {
        Ok(v) => v,
        Err(e) => return Err(e),
    };
    let high = match lookup_all(frozen, &tiles.high) {
        Ok(v) => v,
        Err(e) => return Err(e),
    };
    let canvas = compose(width, height, tiles.tile_size, samples, &low, &high);
    match encode_bmp(&canvas) {
        Ok(bytes) => Ok(bytes),
        Err(_) => Err(GenError::EncodeError),
    }
}

/// Keys of the Factorio dirt variants, selected by samples below zero.
pub open spec fn factorio_low_keys() -> Seq<Seq<char>> {
    seq!["factorio/dirt0.png"@, "factorio/dirt1.png"@, "factorio/dirt2.png"@, "factorio/dirt3.png"@, "factorio/dirt4.png"@, "factorio/dirt5.png"@, "factorio/dirt6.png"@, "factorio/dirt7.png"@, "factorio/dirt8.png"@, "factorio/dirt9.png"@, "factorio/dirt10.png"@, "factorio/dirt11.png"@, "factorio/dirt12.png"@, "factorio/dirt13.png"@, "factorio/dirt14.png"@, "factorio/dirt15.png"@, "factorio/dirt16.png"@, "factorio/dirt17.png"@, "factorio/dirt18.png"@, "factorio/dirt19.png"@, "factorio/dirt20.png"@]
}

/// Keys of the Factorio grass variants, selected by samples at or above zero.
pub open spec fn factorio_high_keys() -> Seq<Seq<char>> {
    seq!["factorio/grass0.png"@, "factorio/grass1.png"@, "factorio/grass2.png"@, "factorio/grass3.png"@, "factorio/grass4.png"@, "factorio/grass5.png"@, "factorio/grass6.png"@, "factorio/grass7.png"@, "factorio/grass8.png"@, "factorio/grass9.png"@, "factorio/grass10.png"@, "factorio/grass11.png"@, "factorio/grass12.png"@, "factorio/grass13.png"@, "factorio/grass14.png"@, "factorio/grass15.png"@]
}

/// The Factorio ground tile set: 128-pixel tiles under `factorio`, dirt
/// for low samples and grass for high ones.
pub fn factorio_tiles() -> (r: TileSet)
    ensures
        r.prefix@ == "factorio"@,
        r.tile_size == FACTORIO_TILE_SIZE,
        key_views(r.low@) == factorio_low_keys(),
        key_views(r.high@) == factorio_high_keys(),
        r.low@.len() == 21,
        r.high@.len() == 16,
{
    let low: Vec<&'static str> = vec![
            "factorio/dirt0.png",
            "factorio/dirt1.png",
            "factorio/dirt2.png",
            "factorio/dirt3.png",
            "factorio/dirt4.png",
            "factorio/dirt5.png",
            "factorio/dirt6.png",
            "factorio/dirt7.png",
            "factorio/dirt8.png",
            "factorio/dirt9.png",
            "factorio/dirt10.png",
            "factorio/dirt11.png",
            "factorio/dirt12.png",
            "factorio/dirt13.png",
            "factorio/dirt14.png",
            "factorio/dirt15.png",
            "factorio/dirt16.png",
            "factorio/dirt17.png",
            "factorio/dirt18.png",
            "factorio/dirt19.png",
            "factorio/dirt20.png",
        ];
    let high: Vec<&'static str> = vec![
            "factorio/grass0.png",
            "factorio/grass1.png",
            "factorio/grass2.png",
            "factorio/grass3.png",
            "factorio/grass4.png",
            "factorio/grass5.png",
            "factorio/grass6.png",
            "factorio/grass7.png",
            "factorio/grass8.png",
            "factorio/grass9.png",
            "factorio/grass10.png",
            "factorio/grass11.png",
            "factorio/grass12.png",
            "factorio/grass13.png",
            "factorio/grass14.png",
            "factorio/grass15.png",
        ];
    let r = TileSet { prefix: "factorio", tile_size: FACTORIO_TILE_SIZE, low, high };
    assert(key_views(r.low@) =~= factorio_low_keys());
    assert(key_views(r.high@) =~= factorio_high_keys());
    r
}

/// What generating a Factorio background does (see `generation_outcome`).
pub open spec fn factorio_outcome(
    before: Map<Seq<char>, TileModel>,
    after: Map<Seq<char>, TileModel>,
    namespace: AssetNamespace,
    w: int,
    h: int,
    samples: Seq<u64>,
    r: Result<Vec<u8>, GenError>,
) -> bool {
    generation_outcome(before, after, namespace, "factorio"@, FACTORIO_TILE_SIZE as int,
        factorio_low_keys(), factorio_high_keys(), w, h, samples, r)
}

/// Generates a Factorio ground background of `width` x `height` pixels;
/// `samples` holds one noise sample per grid cell, in `grid_origins` order.
pub fn gen_background_factorio(
    assets: &mut Assets,
    namespace: &AssetNamespace,
    width: u32,
    height: u32,
    samples: &Vec<u64>,
) -> (r: Result<Vec<u8>, GenError>)
    requires
        old(assets).wf(),
        samples@.len() == grid_len(width as int, height as int, FACTORIO_TILE_SIZE as int),
    ensures
        final(assets).wf(),
        factorio_outcome(old(assets)@, final(assets)@, *namespace, width as int, height as int, samples@, r),
{
    let tiles = factorio_tiles();
    gen_background_tiles(assets, namespace, &tiles, width, height, samples)
}

/// Whether `id` is `factorio`.
fn names_factorio(id: &str) -> (r: bool)
    ensures
        r == (id@ == "factorio"@),
{
    proof {
        reveal_strlit("factorio");
    }
    if has_prefix(id, "factorio") && id.unicode_len() == 8 {
        assert(id@ =~= "factorio"@);
        true
    } else {
        proof {
            if id@ == "factorio"@ {
                assert(id@.subrange(0, 8) =~= "factorio"@);
            }
        }
        false
    }
}

/// Generates the background that `id` names; `factorio` is the one
/// supported generator, any other id fails with `UnsupportedGenerator`
/// and leaves the cache untouched.
pub fn generate(
    assets: &mut Assets,
    namespace: &AssetNamespace,
    id: &str,
    width: u32,
    height: u32,
    samples: &Vec<u64>,
) -> (r: Result<Vec<u8>, GenError>)
    requires
        old(assets).wf(),
        id@ == "factorio"@ ==> samples@.len() == grid_len(width as int, height as int, FACTORIO_TILE_SIZE as int),
    ensures
        final(assets).wf(),
        id@ != "factorio"@ ==> r == Err::<Vec<u8>, GenError>(GenError::UnsupportedGenerator) && final(assets)@ == old(assets)@,
        id@ == "factorio"@ ==> factorio_outcome(old(assets)@, final(assets)@, *namespace, width as int, height as int, samples@, r),
{
    if names_factorio(id) {
        gen_background_factorio(assets, namespace, width, height, samples)
    } else {
        Err(GenError::UnsupportedGenerator)
    }
}

} // verus!

verus! {

/// Calling the Factorio generator twice, the second time with the cache
/// the first left, gives the same bytes when the first call succeeded, and
/// those bytes declare the requested width and height.
pub proof fn lemma_factorio_repeatable(
    before: Map<Seq<char>, TileModel>,
    after1: Map<Seq<char>, TileModel>,
    after2: Map<Seq<char>, TileModel>,
    namespace: AssetNamespace,
    w: u32,
    h: u32,
    samples: Seq<u64>,
    r1: Result<Vec<u8>, GenError>,
    r2: Result<Vec<u8>, GenError>,
)
    requires
        factorio_outcome(before, after1, namespace, w as int, h as int, samples, r1),
        factorio_outcome(after1, after2, namespace, w as int, h as int, samples, r2),
        r1 is Ok,
    ensures
        r2 is Ok,
        r1->Ok_0@ == r2->Ok_0@,
        r2->Ok_0@.subrange(18, 22) == le32(w as int),
        r2->Ok_0@.subrange(22, 26) == le32(h as int),
{
    lemma_generation_repeatable(before, after1, after2, namespace, "factorio"@, FACTORIO_TILE_SIZE as int,
        factorio_low_keys(), factorio_high_keys(), w as int, h as int, samples, r1, r2);
    let sc = scene(w as int, h as int, FACTORIO_TILE_SIZE as int, samples,
        tiles_of(after2, factorio_low_keys()), tiles_of(after2, factorio_high_keys()));
    let c2 = choose|canvas: Raster| #![auto]
        shows(canvas, w as int, h as int, sc) && r2 is Ok && r2->Ok_0@ == bmp_of(w, h, canvas.data@)
        && r2->Ok_0@.len() == bmp_len(w as int, h as int);
    lemma_bmp_declares_size(w, h, c2.data@);
}

} // verus!
