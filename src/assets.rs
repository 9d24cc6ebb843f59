//! The tile cache: decoded tiles keyed by asset path, filled on demand from
//! a read-only namespace of encoded asset bytes.
use vstd::prelude::*;
use vstd::string::StrSliceExecFns;
use crate::codec::{decode_rgb, decoded_rgb};
use crate::error::GenError;
use crate::raster::Raster;

verus! {

/// What a tile is in the cache: width, height and RGB bytes.
pub type TileModel = (u32, u32, Seq<u8>);

pub open spec fn model_of(r: Raster) -> TileModel {
    (r.width, r.height, r.data@)
}

/// A decoded tile is usable when it holds three bytes per pixel.
pub open spec fn well_sized(t: TileModel) -> bool {
    t.2.len() == t.0 * t.1 * 3
}

/// The tile that the bytes decode to, where they decode to a usable one.
pub open spec fn tile_of_bytes(bytes: Seq<u8>) -> Option<TileModel> {
    match decoded_rgb(bytes) {
        Some(t) => if well_sized(t) { Some(t) } else { None },
        None => None,
    }
}

/// A read-only store of encoded assets, keyed by path.
pub struct AssetNamespace {
    pub entries: Vec<(String, Vec<u8>)>,
}

impl AssetNamespace {
    pub open spec fn has(&self, key: Seq<char>) -> bool {
        exists|i: int| 0 <= i < self.entries@.len() && #[trigger] self.entries@[i].0@ == key
    }

    /// The bytes stored under `key` (the first entry with that key).
    pub open spec fn bytes_of(&self, key: Seq<char>) -> Seq<u8> {
        let i = choose|i: int| 0 <= i < self.entries@.len() && #[trigger] self.entries@[i].0@ == key
            && forall|j: int| 0 <= j < i ==> #[trigger] self.entries@[j].0@ != key;
        self.entries@[i].1@
    }

    /// Index of the first entry stored under `key`.
    fn find(&self, key: &String) -> (r: Option<usize>)
        ensures
            r matches Some(i) ==> i < self.entries@.len() && self.entries@[i as int].0@ == key@
                && self.entries@[i as int].1@ == self.bytes_of(key@),
            r is Some <==> self.has(key@),
    {
        let mut i: usize = 0;
        while i < self.entries.len()
            invariant
                i <= self.entries@.len(),
                forall|j: int| 0 <= j < i ==> #[trigger] self.entries@[j].0@ != key@,
            decreases self.entries@.len() - i,
        {
            if self.entries[i].0 == *key {
                return Some(i);
            }
            i = i + 1;
        }
        None
    }
}

/// Whether `prefix` starts `s`.
pub open spec fn begins_with(s: Seq<char>, prefix: Seq<char>) -> bool {
    prefix.len() <= s.len() && s.subrange(0, prefix.len() as int) == prefix
}

/// Whether `s` begins with `prefix`.
pub fn has_prefix(s: &str, prefix: &str) -> (r: bool)
    ensures
        r == begins_with(s@, prefix@),
{
    let n = prefix.unicode_len();
    let m = s.unicode_len();
    if n > m {
        return false;
    }
    let mut i: usize = 0;
    while i < n
        invariant
            n == prefix@.len(),
            m == s@.len(),
            n <= m,
            i <= n,
            forall|j: int| 0 <= j < i ==> s@[j] == prefix@[j],
        decreases n - i,
    {
        if s.get_char(i) != prefix.get_char(i) {
            assert(s@.subrange(0, n as int)[i as int] != prefix@[i as int]);
            return false;
        }
        i = i + 1;
    }
    assert(s@.subrange(0, n as int) =~= prefix@);
    true
}

/// What loading `key` does to a cache `before`: a cached key is left as it
/// is; otherwise its bytes are looked up and decoded, and the tile added.
pub open spec fn load_outcome(
    before: Map<Seq<char>, TileModel>,
    namespace: AssetNamespace,
    key: Seq<char>,
    r: Result<(), GenError>,
    after: Map<Seq<char>, TileModel>,
) -> bool {
    if before.contains_key(key) {
        r == Ok::<(), GenError>(()) && after == before
    } else if !namespace.has(key) {
        r == Err::<(), GenError>(GenError::NotFound) && after == before
    } else {
        match tile_of_bytes(namespace.bytes_of(key)) {
            Some(t) => r == Ok::<(), GenError>(()) && after == before.insert(key, t),
            None => r == Err::<(), GenError>(GenError::DecodeError) && after == before,
        }
    }
}

/// Entry `f` of the namespace is under `prefix`, its key is not cached in
/// `before`, and its bytes do not decode to a usable tile.
pub open spec fn fails_at(before: Map<Seq<char>, TileModel>, namespace: AssetNamespace, prefix: Seq<char>, f: int) -> bool {
    &&& 0 <= f < namespace.entries@.len()
    &&& begins_with(namespace.entries@[f].0@, prefix)
    &&& !before.contains_key(namespace.entries@[f].0@)
    &&& tile_of_bytes(namespace.bytes_of(namespace.entries@[f].0@)) is None
}

/// A preload of `prefix` that stopped at entry `f`: `f` fails, every entry
/// under the prefix before it is cached, its own key is not, and the only
/// keys added are those of entries before it.
pub open spec fn stopped_at(
    before: Map<Seq<char>, TileModel>,
    after: Map<Seq<char>, TileModel>,
    namespace: AssetNamespace,
    prefix: Seq<char>,
    f: int,
) -> bool {
    &&& fails_at(before, namespace, prefix, f)
    &&& forall|j: int| 0 <= j < f && begins_with(#[trigger] namespace.entries@[j].0@, prefix)
        ==> after.contains_key(namespace.entries@[j].0@)
    &&& !after.contains_key(namespace.entries@[f].0@)
    &&& forall|k: Seq<char>| #[trigger] after.contains_key(k) && !before.contains_key(k)
        ==> exists|j: int| 0 <= j < f && #[trigger] namespace.entries@[j].0@ == k
}

/// The cache of decoded tiles. Keys are unique; entries are never removed.
pub struct Assets {
    images: Vec<(String, Raster)>,
}

impl Assets {
    pub closed spec fn entries(&self) -> Seq<(String, Raster)> {
        self.images@
    }

    pub open spec fn wf(&self) -> bool {
        &&& forall|i: int, j: int| 0 <= i < j < self.entries().len()
            ==> #[trigger] self.entries()[i].0@ != #[trigger] self.entries()[j].0@
        &&& forall|i: int| 0 <= i < self.entries().len() ==> #[trigger] self.entries()[i].1.wf()
    }

    /// The cache as a map from key to tile.
    pub open spec fn view(&self) -> Map<Seq<char>, TileModel> {
        Map::new(
            |k: Seq<char>| exists|i: int| 0 <= i < self.entries().len() && #[trigger] self.entries()[i].0@ == k,
            |k: Seq<char>| {
                let i = choose|i: int| 0 <= i < self.entries().len() && #[trigger] self.entries()[i].0@ == k;
                model_of(self.entries()[i].1)
            },
        )
    }

    /// An empty cache.
    pub fn new() -> (r: Assets)
        ensures
            r.wf(),
            r@ == Map::<Seq<char>, TileModel>::empty(),
    {
        let r = Assets { images: Vec::new() };
        assert(r@ =~= Map::<Seq<char>, TileModel>::empty());
        r
    }

    /// Number of tiles decoded into the cache so far.
    pub fn cached_count(&self) -> (r: usize)
        requires
            self.wf(),
        ensures
            r == self@.dom().len(),
    {
        proof {
            self.lemma_dom_len();
        }
        self.images.len()
    }

    proof fn lemma_dom_len(&self)
        requires
            self.wf(),
        ensures
            self@.dom().finite(),
            self@.dom().len() == self.entries().len(),
        decreases self.entries().len(),
    {
        let keys = self.entries().map_values(|e: (String, Raster)| e.0@);
        assert forall|k: Seq<char>| self@.dom().contains(k) <==> keys.to_set().contains(k) by {
            if self@.dom().contains(k) {
                let i = choose|i: int| 0 <= i < self.entries().len() && #[trigger] self.entries()[i].0@ == k;
                assert(keys[i] == k);
            }
            if keys.to_set().contains(k) {
                let i = choose|i: int| 0 <= i < keys.len() && keys[i] == k;
                assert(self.entries()[i].0@ == k);
            }
        }
        assert(self@.dom() =~= keys.to_set());
        assert forall|i: int, j: int| 0 <= i < j < keys.len() implies keys[i] != keys[j] by {
            assert(self.entries()[i].0@ != self.entries()[j].0@);
        }
        keys.unique_seq_to_set();
    }

    /// Index of the entry under `key`, if cached.
    fn position(&self, key: &String) -> (r: Option<usize>)
        requires
            self.wf(),
        ensures
            r matches Some(i) ==> i < self.entries().len() && self.entries()[i as int].0@ == key@
                && self@.contains_key(key@) && self@[key@] == model_of(self.entries()[i as int].1),
            r is Some <==> self@.contains_key(key@),
    {
        let mut i: usize = 0;
        while i < self.images.len()
            invariant
                self.wf(),
                i <= self.entries().len(),
                forall|j: int| 0 <= j < i ==> #[trigger] self.entries()[j].0@ != key@,
            decreases self.entries().len() - i,
        {
            if self.images[i].0 == *key {
                proof {
                    assert(self@.contains_key(key@));
                    let c = choose|c: int| 0 <= c < self.entries().len() && #[trigger] self.entries()[c].0@ == key@;
                    if c != i as int {
                        if c < i {
                            assert(self.entries()[c].0@ != self.entries()[i as int].0@);
                        } else {
                            assert(self.entries()[c].0@ == key@);
                            assert(self.entries()[i as int].0@ == key@);
                            assert(0 <= i < c < self.entries().len());
                            assert(self.entries()[i as int].0@ != self.entries()[c].0@);
                        }
                    }
                }
                return Some(i);
            }
            i = i + 1;
        }
        None
    }

    proof fn lemma_push(&self, key: String, img: Raster, after: Assets)
        requires
            self.wf(),
            img.wf(),
            !self@.contains_key(key@),
            after.entries() == self.entries().push((key, img)),
        ensures
            after.wf(),
            after@ == self@.insert(key@, model_of(img)),
    {
        let n = self.entries().len();
        assert forall|i: int| 0 <= i < n implies #[trigger] after.entries()[i].0@ != key@ by {
            assert(after.entries()[i] == self.entries()[i]);
            if self.entries()[i].0@ == key@ {
                assert(self@.contains_key(key@));
            }
        }
        assert forall|k: Seq<char>| #[trigger] after@.contains_key(k) <==> self@.insert(key@, model_of(img)).contains_key(k) by {
            if after@.contains_key(k) {
                let i = choose|i: int| 0 <= i < after.entries().len() && #[trigger] after.entries()[i].0@ == k;
                if i < n {
                    assert(self.entries()[i].0@ == k);
                }
            }
            if self@.contains_key(k) {
                let i = choose|i: int| 0 <= i < self.entries().len() && #[trigger] self.entries()[i].0@ == k;
                assert(after.entries()[i].0@ == k);
            }
            if k == key@ {
                assert(after.entries()[n as int].0@ == k);
            }
        }
        assert forall|k: Seq<char>| #[trigger] after@.contains_key(k) implies after@[k] == self@.insert(key@, model_of(img))[k] by {
            let i = choose|i: int| 0 <= i < after.entries().len() && #[trigger] after.entries()[i].0@ == k;
            if k == key@ {
                if i != n as int {
                    assert(after.entries()[i].0@ != key@);
                }
            } else {
                assert(i < n);
                assert(self.entries()[i].0@ == k);
                let j = choose|j: int| 0 <= j < self.entries().len() && #[trigger] self.entries()[j].0@ == k;
                assert(after.entries()[j].0@ == k);
                if i != j {
                    if i < j {
                        assert(self.entries()[i].0@ != self.entries()[j].0@);
                    } else {
                        assert(self.entries()[j].0@ != self.entries()[i].0@);
                    }
                }
            }
        }
        assert(after@ =~= self@.insert(key@, model_of(img)));
        assert forall|i: int, j: int| 0 <= i < j < after.entries().len()
            implies #[trigger] after.entries()[i].0@ != #[trigger] after.entries()[j].0@ by {
            if j < n {
                assert(self.entries()[i].0@ != self.entries()[j].0@);
            }
        }
        assert forall|i: int| 0 <= i < after.entries().len() implies #[trigger] after.entries()[i].1.wf() by {
            if i < n {
                assert(self.entries()[i].1.wf());
            }
        }
    }

    /// Makes sure the tile under `path` is cached: a cached tile is kept
    /// and nothing is decoded; otherwise the bytes stored under `path` are
    /// decoded and the tile added.
    pub fn load_image(&mut self, namespace: &AssetNamespace, path: &str) -> (r: Result<&Raster, GenError>)
        requires
            old(self).wf(),
        ensures
            final(self).wf(),
            load_outcome(old(self)@, *namespace, path@, match r { Ok(_) => Ok(()), Err(e) => Err(e) }, final(self)@),
            r matches Ok(img) ==> img.wf() && final(self)@.contains_key(path@) && model_of(*img) == final(self)@[path@],
    {
        match self.ensure_loaded(namespace, path) {
            Ok(()) => self.get_image(path),
            Err(e) => Err(e),
        }
    }

    /// Makes sure the tile under `path` is cached, as `load_image` does.
    fn ensure_loaded(&mut self, namespace: &AssetNamespace, path: &str) -> (r: Result<(), GenError>)
        requires
            old(self).wf(),
        ensures
            final(self).wf(),
            load_outcome(old(self)@, *namespace, path@, r, final(self)@),
    {
        let key = path.to_owned();
        if self.position(&key).is_some() {
            return Ok(());
        }
        let i = match namespace.find(&key) {
            Some(i) => i,
            None => return Err(GenError::NotFound),
        };
        let img = match decode_rgb(namespace.entries[i].1.as_slice()) {
            Ok(img) => img,
            Err(_) => return Err(GenError::DecodeError),
        };
        let w: u128 = img.width as u128;
        let h: u128 = img.height as u128;
        assert(w * h <= 0xffff_ffff_ffff_ffff_ffff_ffff) by (nonlinear_arith)
            requires w <= 0xffff_ffff, h <= 0xffff_ffff;
        let expected: u128 = w * h * 3;
        if img.data.len() as u128 != expected {
            return Err(GenError::DecodeError);
        }
        let ghost before = *self;
        self.images.push((key, img));
        proof {
            before.lemma_push(key, img, *self);
        }
        Ok(())
    }

    /// Loads every namespace entry whose key begins with `starts_with`, in
    /// namespace order, stopping at the first failure. Tiles loaded before
    /// a failure stay cached.
    pub fn preload_images_starts_with(&mut self, namespace: &AssetNamespace, starts_with: &str) -> (r: Result<(), GenError>)
        requires
            old(self).wf(),
        ensures
            final(self).wf(),
            old(self)@.submap_of(final(self)@),
            forall|k: Seq<char>| #[trigger] final(self)@.contains_key(k) && !old(self)@.contains_key(k) ==>
                namespace.has(k) && begins_with(k, starts_with@)
                && tile_of_bytes(namespace.bytes_of(k)) == Some(final(self)@[k]),
            r is Ok ==> forall|i: int| 0 <= i < namespace.entries@.len()
                && begins_with(#[trigger] namespace.entries@[i].0@, starts_with@)
                ==> final(self)@.contains_key(namespace.entries@[i].0@),
            r matches Err(e) ==> e == GenError::DecodeError
                && exists|f: int| stopped_at(old(self)@, final(self)@, *namespace, starts_with@, f),
    {
        let ghost start = self@;
        let mut i: usize = 0;
        while i < namespace.entries.len()
            invariant
                self.wf(),
                i <= namespace.entries@.len(),
                start == old(self)@,
                start.submap_of(self@),
                forall|k: Seq<char>| #[trigger] self@.contains_key(k) && !start.contains_key(k) ==>
                    namespace.has(k) && begins_with(k, starts_with@)
                    && tile_of_bytes(namespace.bytes_of(k)) == Some(self@[k]),
                forall|j: int| 0 <= j < i && begins_with(#[trigger] namespace.entries@[j].0@, starts_with@)
                    ==> self@.contains_key(namespace.entries@[j].0@),
                forall|k: Seq<char>| #[trigger] self@.contains_key(k) && !start.contains_key(k)
                    ==> exists|j: int| 0 <= j < i && #[trigger] namespace.entries@[j].0@ == k,
            decreases namespace.entries@.len() - i,
        {
            let key = namespace.entries[i].0.as_str();
            if has_prefix(key, starts_with) {
                proof {
                    assert(namespace.has(key@));
                }
                let ghost prev = self@;
                let loaded = self.ensure_loaded(namespace, key);
                if loaded.is_err() {
                    proof {
                        assert(!prev.contains_key(key@));
                        assert(namespace.has(key@));
                        assert(tile_of_bytes(namespace.bytes_of(key@)) is None);
                        assert(self@ == prev);
                        assert(start.submap_of(self@));
                        assert(begins_with(namespace.entries@[i as int].0@, starts_with@));
                        assert(stopped_at(start, self@, *namespace, starts_with@, i as int));
                    }
                    return Err(GenError::DecodeError);
                }
                proof {
                    assert forall|k: Seq<char>| #[trigger] self@.contains_key(k) && !start.contains_key(k)
                        implies exists|j: int| 0 <= j < i + 1 && #[trigger] namespace.entries@[j].0@ == k by {
                        if prev.contains_key(k) {
                            let j = choose|j: int| 0 <= j < i && #[trigger] namespace.entries@[j].0@ == k;
                            assert(namespace.entries@[j].0@ == k);
                        } else {
                            assert(k == key@);
                            assert(namespace.entries@[i as int].0@ == k);
                        }
                    }
                }
            }
            i = i + 1;
        }
        Ok(())
    }

    /// The cached tile under `path`; never decodes.
    pub fn get_image(&self, path: &str) -> (r: Result<&Raster, GenError>)
        requires
            self.wf(),
        ensures
            r matches Ok(img) ==> self@.contains_key(path@) && model_of(*img) == self@[path@] && img.wf(),
            r matches Err(e) ==> e == GenError::NotCached && !self@.contains_key(path@),
            r is Ok <==> self@.contains_key(path@),
    {
        let key = path.to_owned();
        match self.position(&key) {
            Some(i) => Ok(&self.images[i].1),
            None => Err(GenError::NotCached),
        }
    }
}

} // verus!

verus! {

impl Default for Assets {
    /// An empty cache.
    fn default() -> (r: Assets)
        ensures
            r.wf(),
            r@ == Map::<Seq<char>, TileModel>::empty(),
    {
        Assets::new()
    }
}

/// Loading a key a second time returns the same outcome as the first
/// successful load and leaves the cache exactly as it was: no decode
/// happens and the tile content is unchanged.
pub proof fn lemma_load_idempotent(
    c0: Map<Seq<char>, TileModel>,
    c1: Map<Seq<char>, TileModel>,
    c2: Map<Seq<char>, TileModel>,
    namespace: AssetNamespace,
    key: Seq<char>,
    r1: Result<(), GenError>,
    r2: Result<(), GenError>,
)
    requires
        load_outcome(c0, namespace, key, r1, c1),
        load_outcome(c1, namespace, key, r2, c2),
        r1 is Ok,
    ensures
        r2 is Ok,
        c2 == c1,
        c1.contains_key(key),
        c2[key] == c1[key],
{
}

} // verus!
