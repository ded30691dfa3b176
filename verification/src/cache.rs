//! The content cache: maps a collection identity to a previously
//! materialized, fully merged record set.
//!
//! The cache key is derived by replacing every character that is not an
//! ASCII letter or digit with a fixed filler, independently for the group
//! and the name, then composing a two-level path. This derivation is
//! deliberately not collision-free — `"a/b"` and `"a.b"` sanitize alike —
//! and a collision makes the second identity read the first one's entry;
//! that is the documented behaviour, proved below, not silently repaired.
//!
//! A hit is trusted unconditionally and performs no write; a miss persists
//! the fetched record set, making the cache write-once per key. An entry
//! that fails to decode counts as a miss. [`CacheStore`] is the in-process
//! realization of the storage capability (a keyed blob store with
//! last-writer-wins semantics); a caller that persists blobs elsewhere uses
//! the same key derivation and blob codec.

use vstd::prelude::*;
use vstd::string::StringExecFns;
use crate::chars::push_char;
use crate::codec::{
    decode_blob, decode_records_blob, encode_blob, encode_records_blob, lemma_blob_roundtrip,
    model_wf, pow256,
};
use crate::paginate::{collect_pages, retrieve_all_from_pages};
use crate::records::{Page, Record, RecordModel};
use crate::sorting::is_stable_sort_of;

verus! {

/// Whether the Unicode scalar `u` is an ASCII letter or digit — the
/// characters a cache key keeps.
pub open spec fn is_alnum_scalar(u: nat) -> bool {
    (48 <= u && u <= 57) || (65 <= u && u <= 90) || (97 <= u && u <= 122)
}

/// One sanitized character: kept if a letter or digit, the filler
/// otherwise.
pub open spec fn sanitize_char(c: char) -> char {
    if is_alnum_scalar(c as u32 as nat) {
        c
    } else {
        '_'
    }
}

/// The sanitized form of one identity component.
pub open spec fn sanitize_text(s: Seq<char>) -> Seq<char> {
    s.map_values(|c: char| sanitize_char(c))
}

/// The two-level cache key of a collection identity.
pub open spec fn cache_key_spec(group: Seq<char>, name: Seq<char>) -> Seq<char> {
    sanitize_text(group) + seq!['/'] + sanitize_text(name)
}

fn sanitize(s: &str) -> (r: String)
    ensures
        r@ == sanitize_text(s@),
{
    let n = s.unicode_len();
    let mut out = String::new();
    let mut i: usize = 0;
    while i < n
        invariant
            i <= n,
            n == s@.len(),
            out@ == sanitize_text(s@).take(i as int),
        decreases n - i,
    {
        let c = s.get_char(i);
        let u = c as u32;
        let keep = (48 <= u && u <= 57) || (65 <= u && u <= 90) || (97 <= u && u <= 122);
        if keep {
            push_char(&mut out, c);
        } else {
            push_char(&mut out, '_');
        }
        proof {
            assert(out@ =~= sanitize_text(s@).take(i + 1));
        }
        i = i + 1;
    }
    proof {
        assert(sanitize_text(s@).take(n as int) =~= sanitize_text(s@));
    }
    out
}

/// Derives the cache key for a collection identity. Not collision-free by
/// design: distinct identities may share a key (see the module notes).
pub fn cache_key(group: &str, name: &str) -> (r: String)
    ensures
        r@ == cache_key_spec(group@, name@),
{
    let mut key = sanitize(group);
    push_char(&mut key, '/');
    let sname = sanitize(name);
    key.append(sname.as_str());
    proof {
        assert(key@ =~= cache_key_spec(group@, name@));
    }
    key
}

/// The keyed blob store backing the cache, with last-writer-wins
/// semantics. Its view is the map from keys to the blobs a reader sees.
pub struct CacheStore {
    entries: Vec<(String, Vec<u8>)>,
}

/// The map a run of writes denotes: later writes shadow earlier ones.
pub closed spec fn entries_map(s: Seq<(String, Vec<u8>)>) -> Map<Seq<char>, Seq<u8>>
    decreases s.len(),
{
    if s.len() == 0 {
        Map::empty()
    } else {
        entries_map(s.drop_last()).insert(s.last().0@, s.last().1@)
    }
}

impl View for CacheStore {
    type V = Map<Seq<char>, Seq<u8>>;

    closed spec fn view(&self) -> Map<Seq<char>, Seq<u8>> {
        entries_map(self.entries@)
    }
}

proof fn lemma_entries_map_found(s: Seq<(String, Vec<u8>)>, k: Seq<char>, i: int)
    requires
        0 <= i < s.len(),
        s[i].0@ == k,
        forall|j: int| i < j < s.len() ==> (#[trigger] s[j]).0@ != k,
    ensures
        entries_map(s).contains_key(k),
        entries_map(s)[k] == s[i].1@,
    decreases s.len(),
{
    if i == s.len() - 1 {
        assert(s.last() == s[i]);
    } else {
        assert(s.drop_last()[i] == s[i]);
        lemma_entries_map_found(s.drop_last(), k, i);
        assert(s.last().0@ != k);
    }
}

proof fn lemma_entries_map_absent(s: Seq<(String, Vec<u8>)>, k: Seq<char>)
    requires
        forall|j: int| 0 <= j < s.len() ==> (#[trigger] s[j]).0@ != k,
    ensures
        !entries_map(s).contains_key(k),
    decreases s.len(),
{
    if s.len() > 0 {
        assert(s.last() == s[s.len() - 1]);
        lemma_entries_map_absent(s.drop_last(), k);
    }
}

impl CacheStore {
    /// A store with nothing in it.
    pub fn new() -> (r: CacheStore)
        ensures
            r@ == Map::<Seq<char>, Seq<u8>>::empty(),
    {
        let s = CacheStore { entries: Vec::new() };
        proof {
            assert(s.entries@.len() == 0);
        }
        s
    }

    /// The blob stored under `key`, if any.
    pub fn read(&self, key: &String) -> (r: Option<&Vec<u8>>)
        ensures
            match r {
                Some(blob) => self@.contains_key(key@) && blob@ == self@[key@],
                None => !self@.contains_key(key@),
            },
    {
        let n = self.entries.len();
        let mut i: usize = n;
        while i > 0
            invariant
                i <= n,
                n == self.entries@.len(),
                forall|j: int| i <= j < n ==> (#[trigger] self.entries@[j]).0@ != key@,
            decreases i,
        {
            i = i - 1;
            let entry = &self.entries[i];
            if entry.0.eq(key) {
                proof {
                    lemma_entries_map_found(self.entries@, key@, i as int);
                }
                return Some(&self.entries[i].1);
            }
        }
        proof {
            lemma_entries_map_absent(self.entries@, key@);
        }
        None
    }

    /// Stores `blob` under `key`, shadowing any earlier entry.
    pub fn write(&mut self, key: String, blob: Vec<u8>)
        ensures
            final(self)@ == old(self)@.insert(key@, blob@),
    {
        let ghost pre: Seq<(String, Vec<u8>)> = self.entries@;
        let ghost kv: Seq<char> = key@;
        let ghost bv: Seq<u8> = blob@;
        self.entries.push((key, blob));
        proof {
            assert(self.entries@.drop_last() =~= pre);
            assert(self.entries@.last().0@ == kv);
            assert(self.entries@.last().1@ == bv);
        }
    }
}

/// Attempts to serve a retrieval from the cache: computes the identity's
/// key, reads the store, and decodes. A missing entry, and equally one
/// that does not decode, is a miss; a hit is returned as-is, with no
/// freshness check and no write.
pub fn cache_lookup(store: &CacheStore, group: &str, name: &str) -> (r: Option<Vec<Record>>)
    ensures
        match r {
            Some(records) => store@.contains_key(cache_key_spec(group@, name@)) && decode_blob(
                store@[cache_key_spec(group@, name@)],
            ) == Some(records.deep_view()),
            None => !store@.contains_key(cache_key_spec(group@, name@)) || decode_blob(
                store@[cache_key_spec(group@, name@)],
            ) is None,
        },
{
    let key = cache_key(group, name);
    match store.read(&key) {
        None => None,
        Some(blob) => decode_records_blob(blob),
    }
}

/// Persists a fetched record set under the identity's key: the write-back
/// half of a miss. The entry is guaranteed to decode back to exactly the
/// records that were fetched.
pub fn cache_store_entry(store: &mut CacheStore, group: &str, name: &str, records: &Vec<Record>)
    ensures
        final(store)@ == old(store)@.insert(
            cache_key_spec(group@, name@),
            encode_blob(records.deep_view()),
        ),
        decode_blob(encode_blob(records.deep_view())) == Some(records.deep_view()),
{
    let blob = encode_records_blob(records);
    proof {
        lemma_blob_roundtrip(records.deep_view());
    }
    let key = cache_key(group, name);
    store.write(key, blob);
}


/// What a lookup of `key` in `store` yields: the cached record set, if the
/// key is present and its blob decodes.
pub open spec fn cached_entry(store: Map<Seq<char>, Seq<u8>>, key: Seq<char>) -> Option<
    Seq<RecordModel>,
> {
    if store.contains_key(key) {
        decode_blob(store[key])
    } else {
        None
    }
}

/// The full cache discipline around one retrieval, with the upstream's
/// responses supplied as `pages` (`pages[i]` answering the engine's `i`-th
/// request, consulted only on a miss). On a hit the cached record set comes
/// back unconditionally and the store is untouched — no page is looked at.
/// On a miss the pagination engine runs; its merged result is persisted
/// under the identity's key before it is returned, making the cache
/// write-once per key. When the pages end without a termination signal,
/// nothing is returned and nothing is written.
pub fn get_or_fetch(
    store: &mut CacheStore,
    group: &str,
    name: &str,
    pages: Vec<Page>,
) -> (r: Option<Vec<Record>>)
    ensures
        ({
            let key = cache_key_spec(group@, name@);
            match cached_entry(old(store)@, key) {
                Some(cached) => r is Some && r->0.deep_view() == cached && final(store)@ == old(
                    store,
                )@,
                None => match collect_pages(pages.deep_view(), None) {
                    Some(fetched) => r is Some && is_stable_sort_of(fetched, r->0.deep_view())
                        && final(store)@ == old(store)@.insert(
                        key,
                        encode_blob(r->0.deep_view()),
                    ),
                    None => r is None && final(store)@ == old(store)@,
                },
            }
        }),
{
    match cache_lookup(store, group, name) {
        Some(records) => Some(records),
        None => match retrieve_all_from_pages(pages) {
            Some(records) => {
                cache_store_entry(store, group, name, &records);
                Some(records)
            },
            None => None,
        },
    }
}

/// Law (cache round trip): once a miss has persisted a fetched record set,
/// a later retrieval of the same identity is a hit that returns exactly
/// those records — whatever the store held before, and with no fetch
/// involved. Together with the contract of [`cache_lookup`], the second of
/// two `get_or_fetch` calls succeeds even when its fetch function would
/// fail.
pub proof fn lemma_cache_round_trip(
    store0: Map<Seq<char>, Seq<u8>>,
    group: Seq<char>,
    name: Seq<char>,
    ms: Seq<RecordModel>,
)
    requires
        ms.len() < pow256(8),
        forall|i: int| 0 <= i < ms.len() ==> model_wf(#[trigger] ms[i]),
    ensures
        ({
            let store1 = store0.insert(cache_key_spec(group, name), encode_blob(ms));
            &&& store1.contains_key(cache_key_spec(group, name))
            &&& decode_blob(store1[cache_key_spec(group, name)]) == Some(ms)
        }),
{
    lemma_blob_roundtrip(ms);
}

/// Law (key collision, witness): the key derivation genuinely collides —
/// here are two distinct names, `"a/b"` and `"a.b"`, whose keys under one
/// group coincide.
pub proof fn lemma_collision_witness()
    ensures
        cache_key_spec(seq!['g'], seq!['a', '/', 'b']) == cache_key_spec(
            seq!['g'],
            seq!['a', '.', 'b'],
        ),
        seq!['a', '/', 'b'] != seq!['a', '.', 'b'],
{
    assert(sanitize_text(seq!['a', '/', 'b']) =~= seq!['a', '_', 'b']) by {
        assert(sanitize_char('a') == 'a');
        assert(sanitize_char('/') == '_');
        assert(sanitize_char('b') == 'b');
    }
    assert(sanitize_text(seq!['a', '.', 'b']) =~= seq!['a', '_', 'b']) by {
        assert(sanitize_char('.') == '_');
    }
    assert(cache_key_spec(seq!['g'], seq!['a', '/', 'b']) =~= cache_key_spec(
        seq!['g'],
        seq!['a', '.', 'b'],
    ));
    assert(seq!['a', '/', 'b'][1] == '/');
    assert(seq!['a', '.', 'b'][1] == '.');
}

/// Law (key collision): the key derivation is not collision-free, and a
/// collision aliases the entries — after the first identity's record set
/// is cached, a lookup of the second, distinct identity is a hit that
/// returns the first identity's records. Expected current behaviour, not
/// silently repaired.
pub proof fn lemma_cache_key_collision(
    store0: Map<Seq<char>, Seq<u8>>,
    group1: Seq<char>,
    name1: Seq<char>,
    group2: Seq<char>,
    name2: Seq<char>,
    ms: Seq<RecordModel>,
)
    requires
        cache_key_spec(group1, name1) == cache_key_spec(group2, name2),
        ms.len() < pow256(8),
        forall|i: int| 0 <= i < ms.len() ==> model_wf(#[trigger] ms[i]),
    ensures
        ({
            let store1 = store0.insert(cache_key_spec(group1, name1), encode_blob(ms));
            &&& store1.contains_key(cache_key_spec(group2, name2))
            &&& decode_blob(store1[cache_key_spec(group2, name2)]) == Some(ms)
        }),
{
    lemma_blob_roundtrip(ms);
}

} // verus!
