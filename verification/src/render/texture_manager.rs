use vstd::prelude::*;
use std::collections::HashMap;

verus! {

broadcast use {vstd::std_specs::hash::group_hash_axioms, vstd::string::group_string_axioms};

/// The id under which the 1×1 white texture is registered.
pub const WHITE_ID: u64 = 0;

/// The texture registry: every texture under an id handed out once, and a cache from
/// load keys to ids so that one key is loaded only once.
pub struct TextureManager<T> {
    textures: HashMap<u64, T>,
    path_cache: Vec<(String, u64)>,
    next_id: u64,
}

/// The keys in a cache list are pairwise different.
pub open spec fn distinct_keys(s: Seq<(String, u64)>) -> bool {
    forall|i: int, j: int| 0 <= i < s.len() && 0 <= j < s.len() && i != j ==> (#[trigger] s[i]).0@ != (#[trigger] s[j]).0@
}

/// The list `s` has an entry for `k`.
pub open spec fn has_key(s: Seq<(String, u64)>, k: Seq<char>) -> bool {
    exists|i: int| 0 <= i < s.len() && (#[trigger] s[i]).0@ == k
}

/// A cache list read as a map from keys to ids.
pub open spec fn cache_map(s: Seq<(String, u64)>) -> Map<Seq<char>, u64> {
    Map::new(
        |k: Seq<char>| has_key(s, k),
        |k: Seq<char>| s[choose|i: int| 0 <= i < s.len() && (#[trigger] s[i]).0@ == k].1,
    )
}

proof fn lemma_cache_at(s: Seq<(String, u64)>, i: int)
    requires
        distinct_keys(s),
        0 <= i < s.len(),
    ensures
        cache_map(s).contains_key(s[i].0@),
        cache_map(s)[s[i].0@] == s[i].1,
{
    let k = s[i].0@;
    assert(has_key(s, k));
    let j = choose|j: int| 0 <= j < s.len() && (#[trigger] s[j]).0@ == k;
    assert(j == i);
}

impl<T> TextureManager<T> {
    /// Textures by id.
    pub closed spec fn textures_map(&self) -> Map<u64, T> {
        self.textures@
    }

    /// Load keys and the ids they were loaded under.
    pub closed spec fn cache(&self) -> Map<Seq<char>, u64> {
        cache_map(self.path_cache@)
    }

    /// The id that the next load hands out.
    pub closed spec fn next_id_spec(&self) -> u64 {
        self.next_id
    }

    /// Ids already handed out are below the next one; no key is cached twice;
    /// cached ids were handed out.
    pub closed spec fn wf(&self) -> bool {
        &&& self.next_id >= 1
        &&& forall|k: u64| #[trigger] self.textures@.contains_key(k) ==> k < self.next_id
        &&& distinct_keys(self.path_cache@)
        &&& forall|i: int| 0 <= i < self.path_cache@.len() ==> 0 < (#[trigger] self.path_cache@[i]).1 < self.next_id
    }

    /// A registry holding only `white`, under id 0.
    pub fn new(white: T) -> (m: Self)
        ensures
            m.wf(),
            m.textures_map() == Map::<u64, T>::empty().insert(WHITE_ID, white),
            m.cache() == Map::<Seq<char>, u64>::empty(),
            m.next_id_spec() == 1,
    {
        let mut textures: HashMap<u64, T> = HashMap::new();
        textures.insert(WHITE_ID, white);
        let m = TextureManager { textures, path_cache: Vec::new(), next_id: 1 };
        proof {
            assert(cache_map(m.path_cache@) =~= Map::<Seq<char>, u64>::empty());
        }
        m
    }

    /// The id under which `key` was loaded, if it was.
    pub fn cached(&self, key: &str) -> (r: Option<u64>)
        requires
            self.wf(),
        ensures
            r == (if self.cache().contains_key(key@) { Some(self.cache()[key@]) } else { None }),
    {
        let want = key.to_string();
        let n = self.path_cache.len();
        let mut i: usize = 0;
        while i < n
            invariant
                0 <= i <= n,
                n == self.path_cache@.len(),
                want@ == key@,
                distinct_keys(self.path_cache@),
                forall|j: int| 0 <= j < i ==> (#[trigger] self.path_cache@[j]).0@ != key@,
            decreases n - i,
        {
            if self.path_cache[i].0 == want {
                proof {
                    lemma_cache_at(self.path_cache@, i as int);
                }
                return Some(self.path_cache[i].1);
            }
            i = i + 1;
        }
        None
    }

    /// Registers `tex` under a fresh id, without a key.
    pub fn insert(&mut self, tex: T) -> (id: u64)
        requires
            old(self).wf(),
            old(self).next_id_spec() < u64::MAX,
        ensures
            final(self).wf(),
            id == old(self).next_id_spec(),
            id != WHITE_ID,
            !old(self).textures_map().contains_key(id),
            final(self).textures_map() == old(self).textures_map().insert(id, tex),
            final(self).cache() == old(self).cache(),
            final(self).next_id_spec() == old(self).next_id_spec() + 1,
    {
        let id = self.next_id;
        self.next_id = self.next_id + 1;
        self.textures.insert(id, tex);
        id
    }

    /// Registers `tex` under a fresh id and remembers that `key` was loaded as it.
    pub fn insert_keyed(&mut self, key: &str, tex: T) -> (id: u64)
        requires
            old(self).wf(),
            old(self).next_id_spec() < u64::MAX,
            !old(self).cache().contains_key(key@),
        ensures
            final(self).wf(),
            id == old(self).next_id_spec(),
            id != WHITE_ID,
            !old(self).textures_map().contains_key(id),
            final(self).textures_map() == old(self).textures_map().insert(id, tex),
            final(self).cache() == old(self).cache().insert(key@, id),
            final(self).next_id_spec() == old(self).next_id_spec() + 1,
    {
        let id = self.insert(tex);
        let ghost before = self.path_cache@;
        self.path_cache.push((key.to_string(), id));
        proof {
            let n = before.len() as int;
            assert(!has_key(before, key@));
            assert forall|a: int, b: int| 0 <= a < self.path_cache@.len() && 0 <= b < self.path_cache@.len() && a != b
                implies (#[trigger] self.path_cache@[a]).0@ != (#[trigger] self.path_cache@[b]).0@ by {
                if a == n {
                    assert(!(before[b].0@ == key@));
                } else if b == n {
                    assert(!(before[a].0@ == key@));
                } else {
                    assert(self.path_cache@[a] == before[a] && self.path_cache@[b] == before[b]);
                }
            }
            assert forall|k: Seq<char>| has_key(self.path_cache@, k) <==> has_key(before, k) || k == key@ by {
                if has_key(self.path_cache@, k) {
                    let j = choose|j: int| 0 <= j < self.path_cache@.len() && (#[trigger] self.path_cache@[j]).0@ == k;
                    if j < n {
                        assert(before[j].0@ == k);
                    }
                }
                if has_key(before, k) {
                    let j = choose|j: int| 0 <= j < before.len() && (#[trigger] before[j]).0@ == k;
                    assert(self.path_cache@[j].0@ == k);
                }
                if k == key@ {
                    assert(self.path_cache@[n].0@ == k);
                }
            }
            assert forall|k: Seq<char>| #[trigger] cache_map(self.path_cache@).contains_key(k)
                implies cache_map(self.path_cache@)[k] == cache_map(before).insert(key@, id)[k] by {
                let j = choose|j: int| 0 <= j < self.path_cache@.len() && (#[trigger] self.path_cache@[j]).0@ == k;
                lemma_cache_at(self.path_cache@, j);
                if j < n {
                    lemma_cache_at(before, j);
                }
            }
            assert(cache_map(self.path_cache@) =~= cache_map(before).insert(key@, id));
        }
        id
    }

    /// The id for `key`: the cached one when `key` was loaded before (and `load` is not
    /// called), otherwise a fresh id under which the texture made by `load` is registered.
    pub fn load_keyed<F: FnOnce() -> T>(&mut self, key: &str, load: F) -> (id: u64)
        requires
            old(self).wf(),
            old(self).next_id_spec() < u64::MAX,
            load.requires(()),
        ensures
            final(self).wf(),
            final(self).cache().contains_key(key@),
            final(self).cache()[key@] == id,
            if old(self).cache().contains_key(key@) {
                &&& id == old(self).cache()[key@]
                &&& final(self).textures_map() == old(self).textures_map()
                &&& final(self).cache() == old(self).cache()
                &&& final(self).next_id_spec() == old(self).next_id_spec()
            } else {
                &&& id == old(self).next_id_spec()
                &&& id != WHITE_ID
                &&& !old(self).textures_map().contains_key(id)
                &&& final(self).cache() == old(self).cache().insert(key@, id)
                &&& final(self).textures_map() == old(self).textures_map().insert(id, final(self).textures_map()[id])
                &&& load.ensures((), final(self).textures_map()[id])
                &&& final(self).next_id_spec() == old(self).next_id_spec() + 1
            },
    {
        match self.cached(key) {
            Some(id) => id,
            None => {
                let tex = load();
                self.insert_keyed(key, tex)
            }
        }
    }

    /// Loads an encoded image (PNG or JPEG) under `key`. A key loaded before gives back its
    /// id without decoding `bytes`. Otherwise the bytes are decoded to RGBA pixels; when
    /// they are not an image, nothing changes and the result is `None`; when they are,
    /// `upload` is called once with the pixels, width and height, and what it makes is
    /// registered under a fresh id that `key` is then cached as.
    pub fn load_bytes_keyed<F: FnOnce(Vec<u8>, u32, u32) -> T>(&mut self, key: &str, bytes: &[u8], upload: F) -> (r: Option<u64>)
        requires
            old(self).wf(),
            old(self).next_id_spec() < u64::MAX,
            forall|px: Vec<u8>, w: u32, h: u32| #[trigger] upload.requires((px, w, h)),
        ensures
            final(self).wf(),
            if old(self).cache().contains_key(key@) {
                &&& r == Some(old(self).cache()[key@])
                &&& final(self).textures_map() == old(self).textures_map()
                &&& final(self).cache() == old(self).cache()
                &&& final(self).next_id_spec() == old(self).next_id_spec()
            } else if decoded_rgba8(bytes@) is None {
                &&& r is None
                &&& final(self).textures_map() == old(self).textures_map()
                &&& final(self).cache() == old(self).cache()
                &&& final(self).next_id_spec() == old(self).next_id_spec()
            } else {
                let id = old(self).next_id_spec();
                let (px, w, h) = decoded_rgba8(bytes@).unwrap();
                &&& r == Some(id)
                &&& id != WHITE_ID
                &&& !old(self).textures_map().contains_key(id)
                &&& final(self).cache() == old(self).cache().insert(key@, id)
                &&& final(self).textures_map() == old(self).textures_map().insert(id, final(self).textures_map()[id])
                &&& uploaded(upload, px, w, h, final(self).textures_map()[id])
                &&& final(self).next_id_spec() == old(self).next_id_spec() + 1
            },
    {
        match self.cached(key) {
            Some(id) => Some(id),
            None => match decode_rgba8(bytes) {
                Some((px, w, h)) => {
                    let ghost v = px;
                    let ghost pv = px@;
                    let tex = upload(px, w, h);
                    let id = self.insert_keyed(key, tex);
                    assert(v@ == pv);
                    assert(upload.ensures((v, w, h), self.textures_map()[id]));
                    assert(uploaded(upload, pv, w, h, self.textures_map()[id]));
                    Some(id)
                },
                None => None,
            },
        }
    }

    /// Decodes an encoded image (PNG or JPEG) and registers what `upload` makes of its
    /// RGBA pixels under a fresh id; `None`, with nothing changed, when the bytes are not
    /// an image.
    pub fn insert_bytes<F: FnOnce(Vec<u8>, u32, u32) -> T>(&mut self, bytes: &[u8], upload: F) -> (r: Option<u64>)
        requires
            old(self).wf(),
            old(self).next_id_spec() < u64::MAX,
            forall|px: Vec<u8>, w: u32, h: u32| #[trigger] upload.requires((px, w, h)),
        ensures
            final(self).wf(),
            final(self).cache() == old(self).cache(),
            if decoded_rgba8(bytes@) is None {
                &&& r is None
                &&& final(self).textures_map() == old(self).textures_map()
                &&& final(self).next_id_spec() == old(self).next_id_spec()
            } else {
                let id = old(self).next_id_spec();
                let (px, w, h) = decoded_rgba8(bytes@).unwrap();
                &&& r == Some(id)
                &&& id != WHITE_ID
                &&& !old(self).textures_map().contains_key(id)
                &&& final(self).textures_map() == old(self).textures_map().insert(id, final(self).textures_map()[id])
                &&& uploaded(upload, px, w, h, final(self).textures_map()[id])
                &&& final(self).next_id_spec() == old(self).next_id_spec() + 1
            },
    {
        match decode_rgba8(bytes) {
            Some((px, w, h)) => {
                let ghost v = px;
                let ghost pv = px@;
                let tex = upload(px, w, h);
                let id = self.insert(tex);
                assert(v@ == pv);
                assert(upload.ensures((v, w, h), self.textures_map()[id]));
                assert(uploaded(upload, pv, w, h, self.textures_map()[id]));
                Some(id)
            },
            None => None,
        }
    }

    /// The texture registered under `id`.
    pub fn get(&self, id: u64) -> (t: Option<&T>)
        ensures
            t == (if self.textures_map().contains_key(id) { Some(&self.textures_map()[id]) } else { None }),
    {
        self.textures.get(&id)
    }

    /// The white texture.
    pub fn white(&self) -> (t: &T)
        requires
            self.textures_map().contains_key(WHITE_ID),
        ensures
            *t == self.textures_map()[WHITE_ID],
    {
        self.textures.get(&WHITE_ID).unwrap()
    }

    /// Drops the texture registered under `id`; the id is not handed out again.
    pub fn remove(&mut self, id: u64)
        requires
            old(self).wf(),
        ensures
            final(self).wf(),
            final(self).textures_map() == old(self).textures_map().remove(id),
            final(self).cache() == old(self).cache(),
            final(self).next_id_spec() == old(self).next_id_spec(),
    {
        self.textures.remove(&id);
    }
}

/// `tex` is what `upload` may make of pixels `px` of a `w`×`h` image.
pub open spec fn uploaded<T, F: FnOnce(Vec<u8>, u32, u32) -> T>(upload: F, px: Seq<u8>, w: u32, h: u32, tex: T) -> bool {
    exists|v: Vec<u8>| v@ == px && #[trigger] upload.ensures((v, w, h), tex)
}

/// What `image::load_from_memory` followed by `to_rgba8` makes of `bytes`: the RGBA
/// pixels, width and height of the decoded image, or `None` when the bytes are not an
/// image the crate can read.
pub uninterp spec fn decoded_rgba8(bytes: Seq<u8>) -> Option<(Seq<u8>, u32, u32)>;

/// Calls `image::load_from_memory` (which guesses the format from the bytes and decodes
/// them) and converts the result with `to_rgba8`, `dimensions` and `into_raw`. Claimed:
/// the outcome is a function of the bytes alone, named `decoded_rgba8`; an error of the
/// crate becomes `None`. Nothing is claimed of what the pixels are.
#[verifier::external_body]
fn decode_rgba8(bytes: &[u8]) -> (r: Option<(Vec<u8>, u32, u32)>)
    ensures
        r is Some <==> decoded_rgba8(bytes@) is Some,
        r matches Some((px, w, h)) ==> decoded_rgba8(bytes@) == Some((px@, w, h)),
{
    match image::load_from_memory(bytes) {
        Ok(img) => {
            let rgba = img.to_rgba8();
            let (w, h) = rgba.dimensions();
            Some((rgba.into_raw(), w, h))
        },
        Err(_) => None,
    }
}

/// One key, one id: loading the same key twice yields the same id, and the second
/// load registers nothing new.
pub proof fn law_same_key_same_id<T>(
    m0: TextureManager<T>,
    m1: TextureManager<T>,
    m2: TextureManager<T>,
    key: Seq<char>,
    id1: u64,
    id2: u64,
)
    requires
        m1.cache().contains_key(key),
        m1.cache()[key] == id1,
        m1.cache().contains_key(key) ==> {
            &&& id2 == m1.cache()[key]
            &&& m2.textures_map() == m1.textures_map()
            &&& m2.cache() == m1.cache()
        },
    ensures
        id1 == id2,
        m2.textures_map() == m1.textures_map(),
{
}

} // verus!
