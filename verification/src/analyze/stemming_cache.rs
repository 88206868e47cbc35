//! The stemming cache: the stems of short tokens seen before, so that
//! common tokens are stemmed once.
use ahash::AHashMap;
use vstd::prelude::*;
use vstd::string::StringSliceAdditionalSpecFns;

use crate::analyze::{snowball_stem, StemmingLanguage};

verus! {

/// What the cache knows of a token's stem.
#[derive(Debug, Clone, Copy)]
pub enum StemmingCacheEntry {
    /// The stem is the token itself.
    Unchanged,
    /// The stem differs from the token.
    Stemmed(CachedToken),
}

impl StemmingCacheEntry {
    /// The entry for a token that stemming leaves as it is.
    pub fn new_unchanged() -> (e: Self)
        ensures
            e is Unchanged,
    {
        Self::Unchanged
    }

    /// The entry for a token whose stem is `stemming_result`.
    pub fn new_stemmed(stemming_result: CachedToken) -> (e: Self)
        ensures
            e == Self::Stemmed(stemming_result),
    {
        Self::Stemmed(stemming_result)
    }

    /// The entry as a plain value: `None` for an unchanged token, else the
    /// chars of the stem.
    pub open spec fn view_entry(self) -> Option<Seq<char>> {
        match self {
            StemmingCacheEntry::Unchanged => None,
            StemmingCacheEntry::Stemmed(t) => Some(t.chars()),
        }
    }
}

/// The tokens the cache keeps: at most 10 bytes.
pub type CachedToken = ShortToken<10>;

/// A non-empty token of at most `N` bytes, stored inline.
#[derive(Debug, Hash, Eq, PartialEq, Clone, Copy)]
pub struct ShortToken<const N: usize> {
    valid_length: u8,
    buffer: [u8; N],
}

impl<const N: usize> ShortToken<N> {
    #[verifier::type_invariant]
    spec fn type_inv(self) -> bool {
        self.wf()
    }

    /// The bytes of the token.
    pub closed spec fn bytes(self) -> Seq<u8> {
        self.buffer@.take(self.valid_length as int)
    }

    /// The token is between 1 and `N` bytes of valid UTF-8, the rest of
    /// the buffer zero.
    pub closed spec fn wf(self) -> bool {
        &&& 1 <= self.valid_length <= N
        &&& vstd::utf8::valid_utf8(self.bytes())
        &&& forall|i: int| self.valid_length <= i < N ==> self.buffer@[i] == 0
    }

    /// The chars of the token.
    pub closed spec fn chars(self) -> Seq<char> {
        vstd::utf8::decode_utf8(self.bytes())
    }

    /// The token holding `s`, if `s` is non-empty and at most `N` bytes long.
    pub fn new_from_str(s: &str) -> (r: Option<Self>)
        requires
            N <= 255,
        ensures
            r is Some <==> 0 < s.spec_bytes().len() <= N,
            r matches Some(t) ==> t.wf() && t.bytes() == s.spec_bytes() && t.chars() == s@,
    {
        let bytes = s.as_bytes();
        if bytes.len() == 0 || bytes.len() > N {
            return None;
        }
        let mut buffer = [0u8; N];
        let mut i: usize = 0;
        while i < bytes.len()
            invariant
                0 < bytes@.len() <= N,
                i <= bytes@.len(),
                buffer@.len() == N,
                forall|k: int| 0 <= k < i ==> buffer@[k] == bytes@[k],
                forall|k: int| i <= k < N ==> buffer@[k] == 0,
            decreases bytes@.len() - i,
        {
            buffer[i] = bytes[i];
            i = i + 1;
        }
        let len = bytes.len() as u8;
        proof {
            assert(buffer@.take(len as int) =~= bytes@);
            vstd::utf8::encode_utf8_valid_utf8(s@);
            vstd::utf8::encode_utf8_decode_utf8(s@);
        }
        let t = Self { valid_length: len, buffer };
        proof {
            assert(t.bytes() =~= bytes@);
        }
        Some(t)
    }

    /// A well-formed token holds 1 to `N` bytes of valid UTF-8, which are
    /// the encoding of its chars (at least one).
    pub proof fn lemma_wf_facts(self)
        requires
            self.wf(),
        ensures
            1 <= self.bytes().len() <= N,
            vstd::utf8::valid_utf8(self.bytes()),
            vstd::utf8::encode_utf8(self.chars()) == self.bytes(),
            self.chars().len() >= 1,
    {
        vstd::utf8::decode_utf8_encode_utf8(self.bytes());
        if self.chars().len() == 0 {
            assert(self.chars() =~= Seq::<char>::empty());
            assert(vstd::utf8::encode_utf8(Seq::<char>::empty()).len() == 0);
        }
    }

    /// Well-formed tokens with the same chars are the same token, so a
    /// token is determined by the string it was made from.
    pub proof fn lemma_chars_injective(a: Self, b: Self)
        requires
            a.wf(),
            b.wf(),
            a.chars() == b.chars(),
        ensures
            a == b,
    {
        broadcast use vstd::array::axiom_array_ext_equal, vstd::array::lemma_array_index;
        vstd::utf8::decode_utf8_encode_utf8(a.bytes());
        vstd::utf8::decode_utf8_encode_utf8(b.bytes());
        assert(a.bytes() == b.bytes());
        assert(a.valid_length == b.valid_length);
        assert forall|i: int| 0 <= i < N implies a.buffer[i] == b.buffer[i] by {
            if i < a.valid_length {
                assert(a.bytes()[i] == b.bytes()[i]);
            }
        }
        assert(a.buffer =~= b.buffer);
    }

    /// The token as a string.
    pub fn as_str(&self) -> (r: &str)
        ensures
            r.spec_bytes() == self.bytes(),
            r@ == self.chars(),
    {
        proof {
            use_type_invariant(self);
        }
        let valid_length = self.valid_length as usize;
        let all: &[u8] = self.buffer.as_slice();
        let prefix = vstd::slice::slice_subrange(all, 0, valid_length);
        assert(prefix@ =~= self.bytes());
        match str_from_utf8(prefix) {
            Some(s) => {
                proof {
                    vstd::utf8::encode_utf8_decode_utf8(s@);
                }
                s
            },
            None => "",
        }
    }
}

/// `std::str::from_utf8`, which gives back the string whose UTF-8 encoding is
/// `v` when `v` is valid UTF-8, and an error otherwise.
#[verifier::external_body]
fn str_from_utf8(v: &[u8]) -> (r: Option<&str>)
    ensures
        r is Some <==> vstd::utf8::valid_utf8(v@),
        r matches Some(s) ==> s.spec_bytes() == v@,
{
    std::str::from_utf8(v).ok()
}

#[verifier::external_type_specification]
#[verifier::external_body]
#[verifier::reject_recursive_types(K)]
#[verifier::reject_recursive_types(V)]
#[verifier::reject_recursive_types(S)]
pub struct ExAHashMap<K, V, S>(AHashMap<K, V, S>);

#[verifier::external_type_specification]
#[verifier::external_body]
pub struct ExRandomState(ahash::RandomState);

/// The map behind the stemming cache.
pub type CacheMap = AHashMap<CachedToken, StemmingCacheEntry>;

/// What the cache map holds, keyed by the chars of the token: `None` for a
/// token stemming leaves as it is, else the chars of its stem.
pub uninterp spec fn cache_contents(m: CacheMap) -> Map<Seq<char>, Option<Seq<char>>>;

/// The number of entries the cache map was made with room for (the
/// argument of `with_capacity`).
pub uninterp spec fn cache_limit(m: CacheMap) -> usize;

/// `AHashMap::with_capacity`: an empty map with room for `capacity` entries.
#[verifier::external_body]
fn new_cache_map(capacity: usize) -> (r: CacheMap)
    ensures
        cache_contents(r).dom() == Set::<Seq<char>>::empty(),
        cache_limit(r) == capacity,
{
    AHashMap::with_capacity(capacity)
}

/// `AHashMap::get`: the entry of `key`, if there is one. Keys compare by
/// their fields, which for well-formed tokens (zero past their length) is
/// by their chars.
#[verifier::external_body]
fn cache_map_get<'a>(m: &'a CacheMap, key: &CachedToken) -> (r: Option<&'a StemmingCacheEntry>)
    requires
        key.wf(),
    ensures
        match r {
            Some(e) => cache_contents(*m).contains_key(key.chars()) && cache_contents(*m)[key.chars()]
                == e.view_entry(),
            None => !cache_contents(*m).contains_key(key.chars()),
        },
{
    m.get(key)
}

/// `AHashMap::insert`: `m` with `key` mapped to `entry`.
#[verifier::external_body]
fn cache_map_insert(m: &mut CacheMap, key: CachedToken, entry: StemmingCacheEntry)
    requires
        key.wf(),
    ensures
        cache_contents(*final(m)) == cache_contents(*old(m)).insert(key.chars(), entry.view_entry()),
        cache_limit(*final(m)) == cache_limit(*old(m)),
{
    m.insert(key, entry);
}

/// `HashMap::clear` (through `AHashMap`): removes every entry and keeps the
/// room the map had.
#[verifier::external_body]
fn cache_map_clear(m: &mut CacheMap)
    ensures
        cache_contents(*final(m)).dom() == Set::<Seq<char>>::empty(),
        cache_limit(*final(m)) == cache_limit(*old(m)),
{
    m.clear();
}

/// `HashMap::len` (through `AHashMap`): the number of entries, one per
/// distinct token, so one per key of the contents.
#[verifier::external_body]
fn cache_map_len(m: &CacheMap) -> (r: usize)
    ensures
        r == cache_contents(*m).dom().len(),
{
    m.len()
}

/// `HashMap::capacity` (through `AHashMap`): how many entries the map can
/// hold without reallocating. How much more than asked for that is depends
/// on what the allocator gave; std documents that a map made by
/// `with_capacity(n)` can hold at least `n` entries without reallocating,
/// and that `clear` keeps the memory, so only that bound is claimed.
#[verifier::external_body]
fn cache_map_capacity(m: &CacheMap) -> (r: usize)
    ensures
        r >= cache_limit(*m),
{
    m.capacity()
}

/// Whether `entry` tells the stem of `key` in the Snowball algorithm
/// `algorithm`.
pub open spec fn entry_holds(algorithm: Seq<char>, key: Seq<char>, entry: Option<Seq<char>>) -> bool {
    match entry {
        None => snowball_stem(algorithm, key) == key,
        Some(stem) => snowball_stem(algorithm, key) == stem,
    }
}

/// A cache of stems of short tokens, for one stemming language at a time.
/// Can double the throughput of stemmed analysis.
#[derive(Debug)]
pub struct StemmingCache {
    cache: CacheMap,
    language: Option<StemmingLanguage>,
}

impl StemmingCache {
    /// Every entry tells the stem of its token in the cache's language; no
    /// entries before a language is set.
    #[verifier::type_invariant]
    spec fn consistent(self) -> bool {
        match self.language {
            None => cache_contents(self.cache).dom() == Set::<Seq<char>>::empty(),
            Some(l) => forall|k: Seq<char>|
                #[trigger] cache_contents(self.cache).contains_key(k) ==> entry_holds(
                    l.spec_algorithm(),
                    k,
                    cache_contents(self.cache)[k],
                ),
        }
    }

    /// The language whose stems the cache holds, if set.
    pub closed spec fn spec_language(&self) -> Option<StemmingLanguage> {
        self.language
    }

    /// The number of tokens the cache was made with room for.
    pub closed spec fn spec_capacity(&self) -> nat {
        cache_limit(self.cache) as nat
    }

    /// What the cache holds, keyed by token chars.
    pub closed spec fn contents(&self) -> Map<Seq<char>, Option<Seq<char>>> {
        cache_contents(self.cache)
    }

    /// An empty cache with room for `capacity` tokens.
    pub fn new_with_capacity(capacity: usize) -> (c: Self)
        ensures
            c.spec_language() is None,
            c.contents() == Map::<Seq<char>, Option<Seq<char>>>::empty(),
            c.spec_capacity() == capacity,
    {
        let cache = new_cache_map(capacity);
        proof {
            assert(cache_contents(cache).dom() =~= Set::<Seq<char>>::empty());
        }
        StemmingCache { cache, language: None }
    }

    /// Makes the cache hold stems of `language`, emptying it if it held
    /// those of another.
    pub fn use_language(&mut self, language: StemmingLanguage)
        ensures
            final(self).spec_language() == Some(language),
            old(self).spec_language() == Some(language) ==> final(self).contents() == old(
                self,
            ).contents(),
            final(self).spec_capacity() == old(self).spec_capacity(),
    {
        let same = match self.language {
            Some(l) => l == language,
            None => false,
        };
        if !same {
            let mut map = new_cache_map(0);
            std::mem::swap(&mut map, &mut self.cache);
            cache_map_clear(&mut map);
            proof {
                assert(cache_contents(map).dom() =~= Set::<Seq<char>>::empty());
            }
            self.cache = map;
            self.language = Some(language);
        }
    }

    /// The entry of `key`, if the cache has one.
    pub fn lookup(&self, key: &CachedToken) -> (r: Option<&StemmingCacheEntry>)
        requires
            key.wf(),
        ensures
            match r {
                Some(e) => self.contents().contains_key(key.chars()) && self.contents()[key.chars()]
                    == e.view_entry(),
                None => !self.contents().contains_key(key.chars()),
            },
            r is Some ==> (self.spec_language() matches Some(l) && entry_holds(
                l.spec_algorithm(),
                key.chars(),
                self.contents()[key.chars()],
            )),
    {
        proof {
            use_type_invariant(self);
        }
        cache_map_get(&self.cache, key)
    }

    /// Whether the cache has room for another entry without growing: it
    /// holds fewer entries than the map's capacity. That capacity is at
    /// least the one the cache was made with (the allocator may give more),
    /// so there is room at least while fewer tokens than that are cached.
    pub fn has_remaining_capacity(&self) -> (r: bool)
        ensures
            self.contents().dom().len() < self.spec_capacity() ==> r,
            r ==> self.contents().dom().len() < usize::MAX,
    {
        cache_map_len(&self.cache) < cache_map_capacity(&self.cache)
    }

    /// Adds the entry `entry` for `key`, which the cache does not hold yet;
    /// the entry must tell the stem of `key` in the cache's language.
    pub fn insert_no_clobber_assume_capacity(&mut self, key: CachedToken, entry: StemmingCacheEntry)
        requires
            key.wf(),
            !old(self).contents().contains_key(key.chars()),
            old(self).spec_language() matches Some(l) && entry_holds(
                l.spec_algorithm(),
                key.chars(),
                entry.view_entry(),
            ),
        ensures
            final(self).contents() == old(self).contents().insert(key.chars(), entry.view_entry()),
            final(self).spec_language() == old(self).spec_language(),
            final(self).spec_capacity() == old(self).spec_capacity(),
    {
        proof {
            use_type_invariant(&*self);
        }
        let mut map = new_cache_map(0);
        std::mem::swap(&mut map, &mut self.cache);
        cache_map_insert(&mut map, key, entry);
        self.cache = map;
    }
}

} // verus!
