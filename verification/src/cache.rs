//! The disk-cache layer of a dictionary: parsing the tab-separated index
//! text into a prefix index, the serialized cache record each index
//! round-trips through, the blob record, and the modification-time rule
//! that decides whether a cache record may stand in for its source.
//!
//! Reading and writing the actual files stays with the caller; every
//! function here maps bytes and timestamps it is handed to values.

use vstd::prelude::*;

verus! {

use vstd::utf8::{decode_utf8, valid_utf8};
use crate::codec::{decode_result, NumberError};
use crate::store::{decompress, decompressed_text, StoreError};
use crate::text::{key_of, slice_views, split_bytes, split_on, trim_bytes, trim_ws, utf8_text};
use crate::trie::{entry_views, PrefixTrie};

/// Why a dictionary could not be built from its source files.
#[derive(Debug, Clone, Copy, PartialEq, Eq, Structural)]
pub enum DictError {
    /// An offset or length field holds a character outside the base-64
    /// alphabet.
    InvalidNumberEncoding,
    /// An offset or length does not fit in 64 unsigned bits.
    NumberOverflow,
    /// The definition blob is not well-formed gzip.
    DecompressionError,
    /// Index or blob text is not valid UTF-8.
    EncodingError,
}

/// What one index line contributes: an entry, nothing (fewer than three
/// tab-separated fields), or the error that aborts the build.
pub open spec fn line_entry(line: Seq<u8>) -> Result<Option<(Seq<u8>, u64, u64)>, DictError> {
    let fields = split_bytes(trim_ws(line), 9);
    if fields.len() < 3 {
        Ok(Option::None)
    } else if !valid_utf8(fields[0]) || !valid_utf8(fields[1]) || !valid_utf8(fields[2]) {
        Err(DictError::EncodingError)
    } else {
        match decode_result(decode_utf8(fields[1])) {
            Err(NumberError::InvalidDigit) => Err(DictError::InvalidNumberEncoding),
            Err(NumberError::Overflow) => Err(DictError::NumberOverflow),
            Ok(offset) => match decode_result(decode_utf8(fields[2])) {
                Err(NumberError::InvalidDigit) => Err(DictError::InvalidNumberEncoding),
                Err(NumberError::Overflow) => Err(DictError::NumberOverflow),
                Ok(length) => Ok(Option::Some((key_of(decode_utf8(fields[0])), offset, length))),
            },
        }
    }
}

pub open spec fn index_map_from(
    m: Map<Seq<u8>, (u64, u64)>,
    lines: Seq<Seq<u8>>,
    i: int,
) -> Result<Map<Seq<u8>, (u64, u64)>, DictError>
    decreases lines.len() - i,
{
    if i < 0 || i >= lines.len() {
        Ok(m)
    } else {
        match line_entry(lines[i]) {
            Ok(Option::None) => index_map_from(m, lines, i + 1),
            Ok(Option::Some(e)) => index_map_from(m.insert(e.0, (e.1, e.2)), lines, i + 1),
            Err(er) => Err(er),
        }
    }
}

/// The index an index file parses to: its lines in order, whitespace
/// trimmed, entries with at least three tab-separated fields stored under
/// the lowercase key, later lines overwriting earlier equal keys.
pub open spec fn index_map_of(bytes: Seq<u8>) -> Result<Map<Seq<u8>, (u64, u64)>, DictError> {
    index_map_from(Map::empty(), split_bytes(bytes, 10), 0)
}

/// The byte string bincode writes for an entry list: a function of the
/// entries alone.
pub uninterp spec fn index_record_of(entries: Seq<(Seq<u8>, u64, u64)>) -> Seq<u8>;

/// Relies on bincode::serialize with its default fixed-width integer
/// configuration: the encoding is a function of the value alone, and
/// writing byte-string and integer entries into a growable buffer under
/// the default unlimited size bound has no failure path.
#[verifier::external_body]
fn bincode_encode(entries: &Vec<(Vec<u8>, u64, u64)>) -> (r: Vec<u8>)
    ensures
        r@ == index_record_of(entry_views(entries@)),
{
    bincode::serialize(entries).expect("encoding plain entries into a buffer cannot fail")
}

/// Relies on bincode::deserialize: a byte string that bincode::serialize
/// wrote for an entry list reads back as that list.
#[verifier::external_body]
fn bincode_decode(bytes: &[u8]) -> (r: Option<Vec<(Vec<u8>, u64, u64)>>)
    ensures
        (forall|e: Seq<(Seq<u8>, u64, u64)>|
            bytes@ == index_record_of(e) ==> match r {
                Some(v) => entry_views(v@) == e,
                None => false,
            }),
{
    bincode::deserialize(bytes).ok()
}

/// The map an entry list rebuilds to, inserted left to right.
pub open spec fn map_of_entries(e: Seq<(Seq<u8>, u64, u64)>) -> Map<Seq<u8>, (u64, u64)>
    decreases e.len(),
{
    if e.len() == 0 {
        Map::empty()
    } else {
        map_of_entries(e.drop_last()).insert(e.last().0, (e.last().1, e.last().2))
    }
}

/// True when a listing holds exactly the entries of a map, each key once.
pub open spec fn listing_of(m: Map<Seq<u8>, (u64, u64)>, e: Seq<(Seq<u8>, u64, u64)>) -> bool {
    &&& (forall|i: int, j: int| 0 <= i < j < e.len() ==> e[i].0 != e[j].0)
    &&& (forall|i: int|
        0 <= i < e.len() ==> m.dom().contains((#[trigger] e[i]).0) && m[e[i].0] == (e[i].1, e[i].2))
    &&& (forall|k: Seq<u8>|
        #[trigger] m.dom().contains(k) ==> exists|i: int| 0 <= i < e.len() && (#[trigger] e[i]).0 == k)
}

/// A listing of a map's entries rebuilds exactly that map: the heart of
/// the cache round trip.
pub proof fn lemma_entries_rebuild(m: Map<Seq<u8>, (u64, u64)>, e: Seq<(Seq<u8>, u64, u64)>)
    requires
        listing_of(m, e),
    ensures
        map_of_entries(e) == m,
    decreases e.len(),
{
    if e.len() == 0 {
        assert forall|k: Seq<u8>| !(#[trigger] m.dom().contains(k)) by {
            if m.dom().contains(k) {
                let i = choose|i: int| 0 <= i < e.len() && (#[trigger] e[i]).0 == k;
            }
        }
        assert(map_of_entries(e) =~= m);
    } else {
        let last = e.last();
        let rest = e.drop_last();
        let m_rest = m.remove(last.0);
        assert forall|k: Seq<u8>| #[trigger] m_rest.dom().contains(k) implies exists|i: int|
            0 <= i < rest.len() && (#[trigger] rest[i]).0 == k by {
            let i = choose|i: int| 0 <= i < e.len() && (#[trigger] e[i]).0 == k;
            assert(i < e.len() - 1);
            assert(rest[i] == e[i]);
        }
        assert forall|i: int| 0 <= i < rest.len() implies m_rest.dom().contains(
            (#[trigger] rest[i]).0,
        ) && m_rest[rest[i].0] == (rest[i].1, rest[i].2) by {
            assert(rest[i] == e[i]);
            assert(e[i].0 != last.0);
        }
        lemma_entries_rebuild(m_rest, rest);
        assert(m.dom().contains(last.0));
        assert(m[last.0] == (last.1, last.2));
        assert(map_of_entries(e) =~= m_rest.insert(last.0, (last.1, last.2)));
        assert(m_rest.insert(last.0, (last.1, last.2)) =~= m);
    }
}

/// When a cache record is valid: both modification times were readable
/// and the record is no older than its source.
pub open spec fn cache_valid_spec(cache_mtime: Option<u64>, source_mtime: Option<u64>) -> bool {
    &&& cache_mtime is Some
    &&& source_mtime is Some
    &&& cache_mtime->0 >= source_mtime->0
}

/// Touching the source after the cache was written leaves the cache
/// stale: the next load rebuilds from source.
pub proof fn lemma_newer_source_invalidates(cache_mtime: u64, source_mtime: u64)
    requires
        source_mtime > cache_mtime,
    ensures
        !cache_valid_spec(Some(cache_mtime), Some(source_mtime)),
{
}

/// Builds and restores the cached forms of a dictionary's two parts.
pub struct CacheManager;

impl CacheManager {
    /// The cache file's path: the source path with the cache suffix
    /// appended after its extension.
    pub fn cache_path(source_path: &str) -> (r: String)
        ensures
            r@ == source_path@ + ".cache"@,
    {
        let mut path = source_path.to_owned();
        path.append(".cache");
        path
    }

    /// Whether a cache record may stand in for its source: only when both
    /// modification times could be read and the record is no older than
    /// the source. An unreadable time on either side counts as stale.
    pub fn is_cache_valid(cache_mtime: Option<u64>, source_mtime: Option<u64>) -> (r: bool)
        ensures
            r == cache_valid_spec(cache_mtime, source_mtime),
    {
        match (cache_mtime, source_mtime) {
            (Some(c), Some(s)) => c >= s,
            _ => false,
        }
    }

    /// Decodes one positional base-64 number of the index format.
    pub fn decode_dict_number(field: &str) -> (r: Result<u64, NumberError>)
        ensures
            r == decode_result(field@),
    {
        crate::codec::decode_number(field)
    }

    /// Parses index text into a prefix index: one entry per line, fields
    /// separated by tabs, lines with fewer than three fields skipped, a
    /// malformed number aborting the build.
    pub fn build_trie_from_index(index_bytes: &[u8]) -> (r: Result<PrefixTrie, DictError>)
        ensures
            r matches Ok(t) ==> t.wf() && index_map_of(index_bytes@) == Ok::<
                Map<Seq<u8>, (u64, u64)>,
                DictError,
            >(t@),
            r matches Err(er) ==> index_map_of(index_bytes@) == Err::<
                Map<Seq<u8>, (u64, u64)>,
                DictError,
            >(er),
    {
        let lines = split_on(index_bytes, 10);
        let ghost lviews = slice_views(lines@);
        let mut trie = PrefixTrie::new();
        let n = lines.len();
        let mut i: usize = 0;
        while i < n
            invariant
                0 <= i <= n == lines@.len(),
                lviews == slice_views(lines@),
                lviews == split_bytes(index_bytes@, 10),
                trie.wf(),
                index_map_from(Map::empty(), lviews, 0) == index_map_from(trie@, lviews, i as int),
            decreases n - i,
        {
            let ghost m0 = trie@;
            let line = trim_bytes(lines[i]);
            let fields = split_on(line, 9);
            proof {
                assert(lviews[i as int] == lines@[i as int]@);
                assert(slice_views(fields@) == split_bytes(trim_ws(lviews[i as int]), 9));
            }
            if fields.len() >= 3 {
                let word = match utf8_text(fields[0]) {
                    Some(w) => w,
                    None => {
                        return Err(DictError::EncodingError);
                    },
                };
                let off_text = match utf8_text(fields[1]) {
                    Some(t) => t,
                    None => {
                        return Err(DictError::EncodingError);
                    },
                };
                let len_text = match utf8_text(fields[2]) {
                    Some(t) => t,
                    None => {
                        return Err(DictError::EncodingError);
                    },
                };
                let offset = match Self::decode_dict_number(off_text) {
                    Ok(v) => v,
                    Err(NumberError::InvalidDigit) => {
                        return Err(DictError::InvalidNumberEncoding);
                    },
                    Err(NumberError::Overflow) => {
                        return Err(DictError::NumberOverflow);
                    },
                };
                let length = match Self::decode_dict_number(len_text) {
                    Ok(v) => v,
                    Err(NumberError::InvalidDigit) => {
                        return Err(DictError::InvalidNumberEncoding);
                    },
                    Err(NumberError::Overflow) => {
                        return Err(DictError::NumberOverflow);
                    },
                };
                trie.insert(word, offset, length);
                proof {
                    assert(line_entry(lviews[i as int]) == Ok::<
                        Option<(Seq<u8>, u64, u64)>,
                        DictError,
                    >(Option::Some((key_of(word@), offset, length))));
                    assert(index_map_from(m0, lviews, i as int) == index_map_from(
                        trie@,
                        lviews,
                        i + 1,
                    ));
                }
            } else {
                proof {
                    assert(line_entry(lviews[i as int]) == Ok::<
                        Option<(Seq<u8>, u64, u64)>,
                        DictError,
                    >(Option::None));
                    assert(index_map_from(m0, lviews, i as int) == index_map_from(
                        trie@,
                        lviews,
                        i + 1,
                    ));
                }
            }
            i = i + 1;
        }
        proof {
            assert(index_map_from(trie@, lviews, n as int) == Ok::<
                Map<Seq<u8>, (u64, u64)>,
                DictError,
            >(trie@));
        }
        Ok(trie)
    }

    /// The cache record for an index: the bytes that restore it, always
    /// produced (only writing them to disk can still fail, and that stays
    /// with the caller).
    pub fn save_trie_to_cache(trie: &PrefixTrie) -> (r: Vec<u8>)
        ensures
            exists|e: Seq<(Seq<u8>, u64, u64)>|
                #[trigger] listing_of(trie@, e) && r@ == index_record_of(e),
    {
        let entries = trie.all_entries();
        let ghost e = entry_views(entries@);
        proof {
            assert(forall|i: int|
                0 <= i < e.len() ==> #[trigger] e[i] == crate::trie::entry_view(entries@[i]));
            assert forall|i: int, j: int| 0 <= i < j < e.len() implies e[i].0 != e[j].0 by {
                assert(e[i].0 == entries@[i].0@ && e[j].0 == entries@[j].0@);
            }
            assert forall|k: Seq<u8>| #[trigger] trie@.dom().contains(k) implies exists|i: int|
                0 <= i < e.len() && (#[trigger] e[i]).0 == k by {
                let i = choose|i: int|
                    0 <= i < entries@.len() && (#[trigger] entries@[i]).0@ == k;
                assert(e[i].0 == k);
            }
            assert(listing_of(trie@, e));
        }
        bincode_encode(&entries)
    }

    /// The index a cache record restores to: the exact contents it was
    /// written from, or nothing where the record does not read back.
    pub fn load_trie_from_cache(bytes: &[u8]) -> (r: Option<PrefixTrie>)
        ensures
            r matches Some(t) ==> t.wf(),
            forall|e: Seq<(Seq<u8>, u64, u64)>|
                bytes@ == index_record_of(e) ==> match r {
                    Some(t) => t@ == map_of_entries(e),
                    None => false,
                },
    {
        let entries = match bincode_decode(bytes) {
            Some(v) => v,
            None => {
                return None;
            },
        };
        let ghost e = entry_views(entries@);
        let mut trie = PrefixTrie::new();
        let n = entries.len();
        let mut i: usize = 0;
        while i < n
            invariant
                0 <= i <= n == entries@.len(),
                e == entry_views(entries@),
                trie.wf(),
                trie@ == map_of_entries(e.take(i as int)),
            decreases n - i,
        {
            let ghost m0 = trie@;
            let key = entries[i].0.clone();
            let offset = entries[i].1;
            let length = entries[i].2;
            trie.insert_key(key, offset, length);
            proof {
                assert(e.take(i + 1).drop_last() =~= e.take(i as int));
                assert(e.take(i + 1).last() == e[i as int]);
                assert(e[i as int] == crate::trie::entry_view(entries@[i as int]));
            }
            i = i + 1;
        }
        proof {
            assert(e.take(n as int) =~= e);
        }
        Some(trie)
    }

    /// Restores the index from a valid cache record, or parses the source
    /// index text, handing back the fresh record to persist. A record
    /// that does not read back is a cache miss, never an error.
    pub fn load_or_build_trie(cache_bytes: Option<&Vec<u8>>, index_bytes: &[u8]) -> (r: Result<
        (PrefixTrie, Option<Vec<u8>>),
        DictError,
    >)
        ensures
            r matches Ok(p) ==> p.0.wf(),
            forall|e: Seq<(Seq<u8>, u64, u64)>|
                (cache_bytes matches Some(b) && b@ == #[trigger] index_record_of(e)) ==> match r {
                    Ok(p) => p.0@ == map_of_entries(e) && p.1 is None,
                    Err(_) => false,
                },
            cache_bytes is None ==> {
                &&& (r matches Ok(p) ==> index_map_of(index_bytes@) == Ok::<
                    Map<Seq<u8>, (u64, u64)>,
                    DictError,
                >(p.0@))
                &&& (r matches Ok(p) ==> p.1 is Some)
                &&& (r matches Err(er) ==> index_map_of(index_bytes@) == Err::<
                    Map<Seq<u8>, (u64, u64)>,
                    DictError,
                >(er))
            },
            r matches Err(er) ==> index_map_of(index_bytes@) == Err::<
                Map<Seq<u8>, (u64, u64)>,
                DictError,
            >(er),
            match r {
                Ok(p) => match p.1 {
                    Some(b) => exists|e: Seq<(Seq<u8>, u64, u64)>|
                        #[trigger] listing_of(p.0@, e) && b@ == index_record_of(e),
                    None => true,
                },
                Err(_) => true,
            },
    {
        if let Some(bytes) = cache_bytes {
            if let Some(trie) = Self::load_trie_from_cache(bytes.as_slice()) {
                return Ok((trie, None));
            }
        }
        let trie = match Self::build_trie_from_index(index_bytes) {
            Ok(t) => t,
            Err(er) => {
                return Err(er);
            },
        };
        let record = Self::save_trie_to_cache(&trie);
        Ok((trie, Some(record)))
    }

    /// Decompresses the blob through the cache: a valid cached copy is
    /// used verbatim; otherwise the source is decompressed and the result
    /// handed back for best-effort persistence.
    pub fn load_or_decompress_dict(cache_bytes: Option<Vec<u8>>, source_bytes: &[u8]) -> (r:
        Result<(Vec<u8>, bool), DictError>)
        ensures
            (match cache_bytes {
                Some(c) => valid_utf8(c@) ==> r == Ok::<(Vec<u8>, bool), DictError>((c, false)),
                None => true,
            }),
            (match cache_bytes {
                Some(c) => !valid_utf8(c@),
                None => true,
            }) ==> {
                &&& (r matches Ok(p) ==> decompressed_text(source_bytes@) == Ok::<
                    Seq<u8>,
                    StoreError,
                >(p.0@) && p.1 == true)
                &&& (r matches Err(er) ==> store_error_of(decompressed_text(source_bytes@))
                    == Some(er))
            },
    {
        if let Some(content) = cache_bytes {
            if utf8_text(content.as_slice()).is_some() {
                return Ok((content, false));
            }
        }
        match decompress(source_bytes) {
            Ok(plain) => Ok((plain, true)),
            Err(StoreError::DecompressionError) => Err(DictError::DecompressionError),
            Err(StoreError::EncodingError) => Err(DictError::EncodingError),
        }
    }
}

/// The dictionary error a failed blob read maps to.
pub open spec fn store_error_of(r: Result<Seq<u8>, StoreError>) -> Option<DictError> {
    match r {
        Ok(_) => Option::None,
        Err(StoreError::DecompressionError) => Some(DictError::DecompressionError),
        Err(StoreError::EncodingError) => Some(DictError::EncodingError),
    }
}

} // verus!
