//! One loaded dictionary: a prefix index over the headwords and the
//! decompressed definition blob, queried together. A query returns ranked
//! (headword, definition) pairs; an entry whose byte range does not fit
//! the blob is dropped, never an error.

use vstd::prelude::*;

verus! {

use crate::store::{extract, extract_spec};
use crate::text::{key_of, lossy_of, lower_of};
use crate::trie::{ranked_keys_of, search_output, PrefixTrie};

/// A query never returns more results than this.
pub const MAX_RESULTS: usize = 50;

/// One query result: a headword and its definition text.
pub struct DictEntry {
    pub headword: String,
    pub definition: String,
}

/// The (headword, definition) texts of a result listing.
pub open spec fn entry_pairs(s: Seq<DictEntry>) -> Seq<(Seq<char>, Seq<char>)> {
    s.map_values(|d: DictEntry| (d.headword@, d.definition@))
}

/// The definitions a ranked key listing resolves to: each key's range
/// extracted from the blob, keys with an invalid range dropped.
pub open spec fn definitions_of(
    m: Map<Seq<u8>, (u64, u64)>,
    blob: Seq<u8>,
    keys: Seq<Seq<u8>>,
) -> Seq<(Seq<char>, Seq<char>)>
    decreases keys.len(),
{
    if keys.len() == 0 {
        Seq::empty()
    } else {
        let rest = definitions_of(m, blob, keys.drop_last());
        let k = keys.last();
        match extract_spec(blob, m[k].0, m[k].1) {
            Some(text) => rest.push((lossy_of(k), text)),
            None => rest,
        }
    }
}

pub struct Dictionary {
    index: PrefixTrie,
    data_content: Vec<u8>,
}

impl Dictionary {
    /// The index as a map from lowercase key bytes to byte ranges.
    pub closed spec fn index_view(&self) -> Map<Seq<u8>, (u64, u64)> {
        self.index@
    }

    /// The decompressed definition blob.
    pub closed spec fn blob_view(&self) -> Seq<u8> {
        self.data_content@
    }

    pub closed spec fn wf(&self) -> bool {
        self.index.wf()
    }

    /// Joins a restored or freshly built index with its definition blob.
    pub fn new(index: PrefixTrie, data_content: Vec<u8>) -> (r: Self)
        requires
            index.wf(),
        ensures
            r.wf(),
            r.index_view() == index@,
            r.blob_view() == data_content@,
    {
        Dictionary { index, data_content }
    }

    /// Ranked lookup: the entries whose key extends the folded query, in
    /// ranking order, capped at `MAX_RESULTS`, each resolved against the
    /// blob; entries whose range does not fit are dropped and the rest
    /// still answer. A query already in lowercase folds to the same key,
    /// so it returns the same entries as its original-case form.
    pub fn lookup(&self, query: &str) -> (r: Vec<DictEntry>)
        requires
            self.wf(),
        ensures
            r@.len() <= MAX_RESULTS,
            query@.len() == 0 ==> r@.len() == 0,
            query@.len() > 0 ==> exists|keys: Seq<Seq<u8>>|
                {
                    &&& #[trigger] ranked_keys_of(self.index_view(), key_of(query@), keys)
                    &&& entry_pairs(r@) == definitions_of(
                        self.index_view(),
                        self.blob_view(),
                        keys.take(vstd::math::min(MAX_RESULTS as int, keys.len() as int)),
                    )
                },
            key_of(lower_of(query@)) == key_of(query@),
    {
        let found = self.index.search_prefix(query, MAX_RESULTS);
        if query.is_empty() {
            return Vec::new();
        }
        let ghost m = self.index_view();
        let ghost blob = self.blob_view();
        let ghost keys = choose|keys: Seq<Seq<u8>>|
            {
                &&& #[trigger] ranked_keys_of(m, key_of(query@), keys)
                &&& search_output(m, keys, MAX_RESULTS as nat, found@)
            };
        let ghost kt = keys.take(vstd::math::min(MAX_RESULTS as int, keys.len() as int));
        let n = found.len();
        let mut out: Vec<DictEntry> = Vec::new();
        proof {
            assert(kt.take(0) =~= Seq::<Seq<u8>>::empty());
            assert(entry_pairs(out@) =~= Seq::<(Seq<char>, Seq<char>)>::empty());
        }
        let mut i: usize = 0;
        while i < n
            invariant
                0 <= i <= n == found@.len(),
                n <= MAX_RESULTS,
                n <= keys.len(),
                n == kt.len(),
                out@.len() <= i,
                blob == self.blob_view(),
                m == self.index_view(),
                forall|j: int| 0 <= j < n ==> #[trigger] kt[j] == keys[j],
                forall|j: int|
                    0 <= j < n ==> {
                        &&& (#[trigger] found@[j]).0@ == lossy_of(keys[j])
                        &&& (found@[j].1, found@[j].2) == m[keys[j]]
                    },
                entry_pairs(out@) == definitions_of(m, blob, kt.take(i as int)),
            decreases n - i,
        {
            let ghost pairs0 = entry_pairs(out@);
            let e = &found[i];
            let off = e.1;
            let length = e.2;
            proof {
                assert(kt.take(i + 1).drop_last() =~= kt.take(i as int));
                assert(kt.take(i + 1).last() == kt[i as int]);
                assert((off, length) == m[keys[i as int]]);
            }
            match extract(&self.data_content, off, length) {
                Some(text) => {
                    let ghost tv = text@;
                    let word = e.0.clone();
                    out.push(DictEntry { headword: word, definition: text });
                    proof {
                        assert(entry_pairs(out@) =~= pairs0.push((lossy_of(keys[i as int]), tv)));
                        assert(definitions_of(m, blob, kt.take(i + 1)) == pairs0.push(
                            (lossy_of(kt[i as int]), tv),
                        ));
                    }
                },
                None => {
                    proof {
                        assert(definitions_of(m, blob, kt.take(i + 1)) == definitions_of(
                            m,
                            blob,
                            kt.take(i as int),
                        ));
                    }
                },
            }
            i = i + 1;
        }
        proof {
            assert(kt.take(n as int) =~= kt);
        }
        out
    }

    /// How many headwords the index holds.
    pub fn entry_count(&self) -> (n: usize)
        requires
            self.wf(),
        ensures
            n == self.index_view().dom().len(),
    {
        self.index.len()
    }

    /// The definition blob's size in bytes.
    pub fn data_size(&self) -> (n: usize)
        ensures
            n == self.blob_view().len(),
    {
        self.data_content.len()
    }
}

} // verus!
