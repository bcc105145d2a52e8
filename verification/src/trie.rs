//! The ordered prefix index: lowercase byte-string keys mapped to
//! (offset, length) ranges in the definition blob, with ranked prefix
//! search. The keys live in a qp-trie; everything the engine claims about
//! the trie goes through the contracts of the small trusted boundary
//! below, and the ranking itself is verified code.

use vstd::prelude::*;

verus! {

use vstd::seq_lib::lemma_multiset_commutative;
use crate::text::{bytes_eq, bytes_lex_lt, is_prefix, key_bytes, key_of, lex_lt, lossy_of, lower_of,
    lossy_string};

/// The contents of the qp-trie as a mathematical map from key bytes to
/// (offset, length).
pub uninterp spec fn trie_map(t: qp_trie::Trie<Vec<u8>, (u64, u64)>) -> Map<Seq<u8>, (u64, u64)>;

#[verifier::external_type_specification]
#[verifier::external_body]
#[verifier::reject_recursive_types(K)]
#[verifier::reject_recursive_types(V)]
pub struct ExTrie<K, V>(qp_trie::Trie<K, V>);

/// Relies on qp_trie::Trie::new: the empty trie.
#[verifier::external_body]
fn trie_new() -> (t: qp_trie::Trie<Vec<u8>, (u64, u64)>)
    ensures
        (trie_map(t) == Map::<Seq<u8>, (u64, u64)>::empty()),
{
    qp_trie::Trie::new()
}

/// Relies on qp_trie::Trie::insert: stores the pair, replacing the entry
/// with the same key bytes if one exists.
#[verifier::external_body]
fn trie_insert(t: &mut qp_trie::Trie<Vec<u8>, (u64, u64)>, key: Vec<u8>, val: (u64, u64))
    ensures
        (trie_map(*final(t)) == trie_map(*old(t)).insert(key@, val)),
{
    let _ = t.insert(key, val);
}

/// Relies on qp_trie::Trie::count: the number of stored entries.
#[verifier::external_body]
fn trie_count(t: &qp_trie::Trie<Vec<u8>, (u64, u64)>) -> (n: usize)
    ensures
        trie_map(*t).dom().finite() ==> n == trie_map(*t).dom().len(),
{
    t.count()
}

/// Relies on qp_trie::Trie::iter_prefix: visits exactly the entries whose
/// key begins with the given prefix, each one once.
#[verifier::external_body]
fn trie_prefix_entries(t: &qp_trie::Trie<Vec<u8>, (u64, u64)>, prefix: &[u8]) -> (r: Vec<
    (Vec<u8>, u64, u64),
>)
    ensures
        (forall|i: int, j: int| 0 <= i < j < r@.len() ==> r@[i].0@ != r@[j].0@),
        (forall|i: int|
            0 <= i < r@.len() ==> {
                &&& trie_map(*t).dom().contains((#[trigger] r@[i]).0@)
                &&& is_prefix(prefix@, r@[i].0@)
                &&& (r@[i].1, r@[i].2) == trie_map(*t)[r@[i].0@]
            }),
        (forall|k: Seq<u8>|
            #[trigger] trie_map(*t).dom().contains(k) && is_prefix(prefix@, k) ==> exists|i: int|
                0 <= i < r@.len() && (#[trigger] r@[i]).0@ == k),
{
    t.iter_prefix(prefix).map(|(k, v)| (k.clone(), v.0, v.1)).collect()
}

/// The ranking rule of a prefix search for the folded query key `q`: an
/// exact match comes first, then shorter keys, ties broken by
/// lexicographic byte order.
pub open spec fn rank_le(q: Seq<u8>, a: Seq<u8>, b: Seq<u8>) -> bool {
    if a == q {
        true
    } else if b == q {
        false
    } else if a.len() != b.len() {
        a.len() < b.len()
    } else {
        !lex_lt(b, a)
    }
}

/// The ranking rule holds in one direction or the other for any two keys.
pub proof fn lemma_rank_total(q: Seq<u8>, a: Seq<u8>, b: Seq<u8>)
    ensures
        rank_le(q, a, b) || rank_le(q, b, a),
{
    if a != q && b != q && a.len() == b.len() && lex_lt(b, a) {
        crate::text::lemma_lex_asymmetric(b, a);
    }
}

/// Two keys ranked no later than one another are the same key.
pub proof fn lemma_rank_antisymmetric(q: Seq<u8>, a: Seq<u8>, b: Seq<u8>)
    requires
        rank_le(q, a, b),
        rank_le(q, b, a),
    ensures
        a == b,
{
    if a != q && b != q {
        crate::text::lemma_lex_total(a, b);
    }
}

pub proof fn lemma_lex_lt_transitive(a: Seq<u8>, b: Seq<u8>, c: Seq<u8>)
    requires
        lex_lt(a, b),
        lex_lt(b, c),
    ensures
        lex_lt(a, c),
    decreases a.len(),
{
    if a.len() > 0 && b.len() > 0 && c.len() > 0 {
        if a[0] == b[0] && b[0] == c[0] {
            lemma_lex_lt_transitive(a.drop_first(), b.drop_first(), c.drop_first());
        }
    }
}

/// The ranking rule is transitive.
pub proof fn lemma_rank_transitive(q: Seq<u8>, a: Seq<u8>, b: Seq<u8>, c: Seq<u8>)
    requires
        rank_le(q, a, b),
        rank_le(q, b, c),
    ensures
        rank_le(q, a, c),
{
    if a != q && b != q && c != q && a.len() == b.len() && b.len() == c.len() {
        if lex_lt(c, a) {
            if lex_lt(a, b) {
                lemma_lex_lt_transitive(c, a, b);
            } else {
                crate::text::lemma_lex_total(a, b);
            }
        }
    }
}

/// What a ranked match listing is: the keys of `m` that extend `qk`, each
/// once, in ranking order.
pub open spec fn ranked_keys_of(m: Map<Seq<u8>, (u64, u64)>, qk: Seq<u8>, keys: Seq<Seq<u8>>) -> bool {
    &&& keys.no_duplicates()
    &&& (forall|i: int|
        0 <= i < keys.len() ==> m.dom().contains(#[trigger] keys[i]) && is_prefix(qk, keys[i]))
    &&& (forall|k: Seq<u8>|
        #[trigger] m.dom().contains(k) && is_prefix(qk, k) ==> keys.contains(k))
    &&& (forall|i: int, j: int| 0 <= i < j < keys.len() ==> rank_le(qk, keys[i], keys[j]))
}

/// What a search result is, given the ranked keys: the first `limit` of
/// them, each carried over with its stored range and its text form.
pub open spec fn search_output(
    m: Map<Seq<u8>, (u64, u64)>,
    keys: Seq<Seq<u8>>,
    limit: nat,
    out: Seq<(String, u64, u64)>,
) -> bool {
    &&& out.len() == vstd::math::min(limit as int, keys.len() as int)
    &&& (forall|i: int|
        0 <= i < out.len() ==> {
            &&& (#[trigger] out[i]).0@ == lossy_of(keys[i])
            &&& (out[i].1, out[i].2) == m[keys[i]]
        })
}

/// A map has exactly one ranked match listing: the listing is pinned down
/// by the map, the query key and the ranking rule.
pub proof fn lemma_ranked_keys_unique(
    m: Map<Seq<u8>, (u64, u64)>,
    qk: Seq<u8>,
    keys1: Seq<Seq<u8>>,
    keys2: Seq<Seq<u8>>,
)
    requires
        ranked_keys_of(m, qk, keys1),
        ranked_keys_of(m, qk, keys2),
    ensures
        keys1 == keys2,
{
    assert forall|k: Seq<u8>| keys1.contains(k) implies keys2.contains(k) by {
        let i = choose|i: int| 0 <= i < keys1.len() && keys1[i] == k;
        assert(m.dom().contains(k) && is_prefix(qk, k));
    }
    assert forall|k: Seq<u8>| keys2.contains(k) implies keys1.contains(k) by {
        let i = choose|i: int| 0 <= i < keys2.len() && keys2[i] == k;
        assert(m.dom().contains(k) && is_prefix(qk, k));
    }
    lemma_sorted_distinct_same_elements(qk, keys1, keys2);
}

/// Law: one index, one folded key and one limit admit one answer — any
/// two search outputs for them carry the same headword texts and ranges,
/// position by position. With the fold's idempotence (`key_of(lower_of(q))
/// == key_of(q)`, stated by `search_prefix`), a query already in lowercase
/// therefore returns the same results as its original-case form.
pub proof fn lemma_search_agrees(
    m: Map<Seq<u8>, (u64, u64)>,
    qk: Seq<u8>,
    limit: nat,
    keys1: Seq<Seq<u8>>,
    keys2: Seq<Seq<u8>>,
    out1: Seq<(String, u64, u64)>,
    out2: Seq<(String, u64, u64)>,
)
    requires
        ranked_keys_of(m, qk, keys1),
        ranked_keys_of(m, qk, keys2),
        search_output(m, keys1, limit, out1),
        search_output(m, keys2, limit, out2),
    ensures
        out1.len() == out2.len(),
        forall|i: int|
            0 <= i < out1.len() ==> (#[trigger] out1[i]).0@ == out2[i].0@ && out1[i].1 == out2[i].1
                && out1[i].2 == out2[i].2,
{
    lemma_ranked_keys_unique(m, qk, keys1, keys2);
}

proof fn lemma_sorted_distinct_same_elements(qk: Seq<u8>, s1: Seq<Seq<u8>>, s2: Seq<Seq<u8>>)
    requires
        s1.no_duplicates(),
        s2.no_duplicates(),
        forall|k: Seq<u8>| s1.contains(k) <==> s2.contains(k),
        forall|i: int, j: int| 0 <= i < j < s1.len() ==> rank_le(qk, s1[i], s1[j]),
        forall|i: int, j: int| 0 <= i < j < s2.len() ==> rank_le(qk, s2[i], s2[j]),
    ensures
        s1 == s2,
    decreases s1.len(),
{
    if s1.len() == 0 {
        if s2.len() > 0 {
            assert(s2.contains(s2[0]));
            assert(s1.contains(s2[0]));
        }
        assert(s1 =~= s2);
    } else if s2.len() == 0 {
        assert(s1.contains(s1[0]));
        assert(s2.contains(s1[0]));
    } else {
        // The heads agree: each is ranked no later than the other.
        assert(s1.contains(s1[0]));
        assert(s2.contains(s2[0]));
        assert(s2.contains(s1[0]));
        assert(s1.contains(s2[0]));
        let i = choose|i: int| 0 <= i < s2.len() && s2[i] == s1[0];
        let j = choose|j: int| 0 <= j < s1.len() && s1[j] == s2[0];
        assert(rank_le(qk, s2[0], s1[0])) by {
            if i > 0 {
            } else {
                lemma_rank_total(qk, s2[0], s1[0]);
            }
        }
        assert(rank_le(qk, s1[0], s2[0])) by {
            if j > 0 {
            } else {
                lemma_rank_total(qk, s1[0], s2[0]);
            }
        }
        lemma_rank_antisymmetric(qk, s1[0], s2[0]);
        let t1 = s1.drop_first();
        let t2 = s2.drop_first();
        assert forall|k: Seq<u8>| t1.contains(k) <==> t2.contains(k) by {
            lemma_tail_contains(s1, s2, k);
            lemma_tail_contains(s2, s1, k);
        }
        assert forall|i2: int, j2: int| 0 <= i2 < j2 < t1.len() implies rank_le(
            qk,
            t1[i2],
            t1[j2],
        ) by {
            assert(t1[i2] == s1[i2 + 1] && t1[j2] == s1[j2 + 1]);
        }
        assert forall|i2: int, j2: int| 0 <= i2 < j2 < t2.len() implies rank_le(
            qk,
            t2[i2],
            t2[j2],
        ) by {
            assert(t2[i2] == s2[i2 + 1] && t2[j2] == s2[j2 + 1]);
        }
        lemma_sorted_distinct_same_elements(qk, t1, t2);
        assert(t1.len() == t2.len());
        assert(s1.len() == s2.len());
        assert forall|x: int| 0 <= x < s1.len() implies s1[x] == s2[x] by {
            if x >= 1 {
                assert(t1[x - 1] == s1[x]);
                assert(t2[x - 1] == s2[x]);
            }
        }
        assert(s1 =~= s2);
    }
}

/// With equal heads and no duplicates, membership in one tail carries over
/// to the other tail.
proof fn lemma_tail_contains(s1: Seq<Seq<u8>>, s2: Seq<Seq<u8>>, k: Seq<u8>)
    requires
        s1.len() > 0,
        s2.len() > 0,
        s1[0] == s2[0],
        s1.no_duplicates(),
        s2.no_duplicates(),
        forall|x: Seq<u8>| s1.contains(x) <==> s2.contains(x),
    ensures
        s1.drop_first().contains(k) ==> s2.drop_first().contains(k),
{
    if s1.drop_first().contains(k) {
        let i = choose|i: int| 0 <= i < s1.drop_first().len() && s1.drop_first()[i] == k;
        assert(s1[i + 1] == k);
        assert(s1.contains(k));
        assert(k != s1[0]);
        assert(s2.contains(k));
        let j = choose|j: int| 0 <= j < s2.len() && s2[j] == k;
        assert(j != 0);
        assert(s2.drop_first()[j - 1] == k);
        assert(s2.drop_first().contains(k));
    }
}

/// The view of one stored entry: its key bytes and range.
pub open spec fn entry_view(e: (Vec<u8>, u64, u64)) -> (Seq<u8>, u64, u64) {
    (e.0@, e.1, e.2)
}

pub open spec fn entry_views(s: Seq<(Vec<u8>, u64, u64)>) -> Seq<(Seq<u8>, u64, u64)> {
    s.map_values(|e: (Vec<u8>, u64, u64)| entry_view(e))
}

/// The ordered prefix index of one dictionary: lowercase headword key
/// bytes mapped to the (offset, length) byte range of the definition.
pub struct PrefixTrie {
    store: qp_trie::Trie<Vec<u8>, (u64, u64)>,
}

impl View for PrefixTrie {
    type V = Map<Seq<u8>, (u64, u64)>;

    closed spec fn view(&self) -> Map<Seq<u8>, (u64, u64)> {
        trie_map(self.store)
    }
}

impl PrefixTrie {
    /// The index holds finitely many entries; every constructor
    /// establishes this and every method keeps it.
    pub closed spec fn wf(&self) -> bool {
        trie_map(self.store).dom().finite()
    }

    pub fn new() -> (r: Self)
        ensures
            r@ == Map::<Seq<u8>, (u64, u64)>::empty(),
            r.wf(),
    {
        PrefixTrie { store: trie_new() }
    }

    /// Stores `word` under its lowercase key bytes; a later entry with the
    /// same folded key replaces an earlier one.
    pub fn insert(&mut self, word: &str, offset: u64, length: u64)
        requires
            old(self).wf(),
        ensures
            final(self).wf(),
            final(self)@ == old(self)@.insert(key_of(word@), (offset, length)),
    {
        let key = key_bytes(word);
        trie_insert(&mut self.store, key, (offset, length));
    }

    /// Stores already-folded key bytes, as a cache record holds them.
    pub fn insert_key(&mut self, key: Vec<u8>, offset: u64, length: u64)
        requires
            old(self).wf(),
        ensures
            final(self).wf(),
            final(self)@ == old(self)@.insert(key@, (offset, length)),
    {
        trie_insert(&mut self.store, key, (offset, length));
    }

    pub fn len(&self) -> (n: usize)
        requires
            self.wf(),
        ensures
            n == self@.dom().len(),
    {
        trie_count(&self.store)
    }

    pub fn is_empty(&self) -> (r: bool)
        requires
            self.wf(),
        ensures
            r == (self@.dom().len() == 0),
    {
        self.len() == 0
    }

    /// Every stored entry, each once, with its key bytes and range.
    pub fn all_entries(&self) -> (r: Vec<(Vec<u8>, u64, u64)>)
        ensures
            forall|i: int, j: int| 0 <= i < j < r@.len() ==> r@[i].0@ != r@[j].0@,
            forall|i: int|
                0 <= i < r@.len() ==> self@.dom().contains((#[trigger] r@[i]).0@) && (
                r@[i].1,
                r@[i].2,
            ) == self@[r@[i].0@],
            forall|k: Seq<u8>|
                #[trigger] self@.dom().contains(k) ==> exists|i: int|
                    0 <= i < r@.len() && (#[trigger] r@[i]).0@ == k,
    {
        let empty: Vec<u8> = Vec::new();
        let r = trie_prefix_entries(&self.store, empty.as_slice());
        proof {
            assert(forall|k: Seq<u8>| is_prefix(empty@, k));
        }
        r
    }

    /// All entries whose key extends the lowercase fold of `prefix`, in
    /// ranking order, at most `limit` of them, each headword as text.
    /// A query already in lowercase folds to the same key, so it returns
    /// the same listing as its original-case form.
    pub fn search_prefix(&self, prefix: &str, limit: usize) -> (r: Vec<(String, u64, u64)>)
        ensures
            r@.len() <= limit,
            prefix@.len() == 0 ==> r@.len() == 0,
            prefix@.len() > 0 ==> exists|keys: Seq<Seq<u8>>|
                {
                    &&& #[trigger] ranked_keys_of(self@, key_of(prefix@), keys)
                    &&& search_output(self@, keys, limit as nat, r@)
                },
            key_of(lower_of(prefix@)) == key_of(prefix@),
    {
        let qk = key_bytes(prefix);
        if prefix.is_empty() {
            return Vec::new();
        }
        let found = trie_prefix_entries(&self.store, qk.as_slice());
        let ghost m = self@;
        let ghost qkv = qk@;
        let ghost found_v = found@;
        let sorted = sort_entries(&qk, found);
        let ghost keys = entry_views(sorted@).map_values(|e: (Seq<u8>, u64, u64)| e.0);
        proof {
            lemma_sort_carries_listing(m, qkv, found_v, sorted@);
            lemma_keys_ranked(m, qkv, sorted@, keys);
        }
        let mut out: Vec<(String, u64, u64)> = Vec::new();
        let count = if limit < sorted.len() {
            limit
        } else {
            sorted.len()
        };
        let mut idx: usize = 0;
        while idx < count
            invariant
                0 <= idx <= count <= sorted@.len(),
                count == vstd::math::min(limit as int, keys.len() as int),
                keys.len() == sorted@.len(),
                out@.len() == idx,
                forall|i: int| 0 <= i < sorted@.len() ==> #[trigger] keys[i] == sorted@[i].0@,
                forall|i: int|
                    0 <= i < sorted@.len() ==> m.dom().contains(#[trigger] sorted@[i].0@) && (
                    sorted@[i].1,
                    sorted@[i].2,
                ) == m[sorted@[i].0@],
                forall|i: int|
                    0 <= i < idx ==> {
                        &&& (#[trigger] out@[i]).0@ == lossy_of(keys[i])
                        &&& (out@[i].1, out@[i].2) == m[keys[i]]
                    },
            decreases count - idx,
        {
            let e = &sorted[idx];
            let word = lossy_string(e.0.as_slice());
            out.push((word, e.1, e.2));
            idx = idx + 1;
        }
        proof {
            assert(search_output(m, keys, limit as nat, out@));
        }
        out
    }
}

/// What the trie reported of the unsorted listing still holds of the
/// sorted one: it lists exactly the matching entries, each key once.
proof fn lemma_sort_carries_listing(
    m: Map<Seq<u8>, (u64, u64)>,
    qk: Seq<u8>,
    found: Seq<(Vec<u8>, u64, u64)>,
    sorted: Seq<(Vec<u8>, u64, u64)>,
)
    requires
        forall|i: int, j: int| 0 <= i < j < found.len() ==> found[i].0@ != found[j].0@,
        forall|i: int|
            0 <= i < found.len() ==> m.dom().contains((#[trigger] found[i]).0@) && is_prefix(
                qk,
                found[i].0@,
            ) && (found[i].1, found[i].2) == m[found[i].0@],
        forall|k: Seq<u8>|
            #[trigger] m.dom().contains(k) && is_prefix(qk, k) ==> exists|i: int|
                0 <= i < found.len() && (#[trigger] found[i]).0@ == k,
        forall|e: (Seq<u8>, u64, u64)|
            entry_views(sorted).contains(e) <==> entry_views(found).contains(e),
        entry_views(sorted).to_multiset() == entry_views(found).to_multiset(),
    ensures
        forall|i: int, j: int| 0 <= i < j < sorted.len() ==> sorted[i].0@ != sorted[j].0@,
        forall|i: int|
            0 <= i < sorted.len() ==> m.dom().contains((#[trigger] sorted[i]).0@) && is_prefix(
                qk,
                sorted[i].0@,
            ) && (sorted[i].1, sorted[i].2) == m[sorted[i].0@],
        forall|k: Seq<u8>|
            #[trigger] m.dom().contains(k) && is_prefix(qk, k) ==> exists|i: int|
                0 <= i < sorted.len() && (#[trigger] sorted[i]).0@ == k,
{
    let fv = entry_views(found);
    let sv = entry_views(sorted);
    // Each sorted entry is one of the found entries.
    assert forall|i: int| 0 <= i < sorted.len() implies m.dom().contains(
        (#[trigger] sorted[i]).0@,
    ) && is_prefix(qk, sorted[i].0@) && (sorted[i].1, sorted[i].2) == m[sorted[i].0@] by {
        assert(sv[i] == entry_view(sorted[i]));
        assert(sv.contains(sv[i]));
        let p = choose|p: int| 0 <= p < fv.len() && fv[p] == sv[i];
        assert(fv[p] == entry_view(found[p]));
    }
    // Each matching key of the map still appears.
    assert forall|k: Seq<u8>| #[trigger] m.dom().contains(k) && is_prefix(qk, k) implies exists|
        i: int,
    | 0 <= i < sorted.len() && (#[trigger] sorted[i]).0@ == k by {
        let p = choose|p: int| 0 <= p < found.len() && (#[trigger] found[p]).0@ == k;
        assert(fv[p] == entry_view(found[p]));
        assert(fv.contains(fv[p]));
        assert(sv.contains(fv[p]));
        let i = choose|i: int| 0 <= i < sv.len() && sv[i] == fv[p];
        assert(sorted[i].0@ == k);
    }
    // No key appears twice: the found listing had no duplicate entries.
    assert(fv.no_duplicates()) by {
        assert forall|i: int, j: int| 0 <= i < fv.len() && 0 <= j < fv.len() && i != j implies
            fv[i] != fv[j] by {
            assert(fv[i] == entry_view(found[i]));
            assert(fv[j] == entry_view(found[j]));
        }
    }
    fv.lemma_multiset_has_no_duplicates();
    sv.lemma_multiset_has_no_duplicates_conv();
    assert(sv.no_duplicates());
    assert forall|i: int, j: int| 0 <= i < j < sorted.len() implies sorted[i].0@ != sorted[j].0@ by {
        if sorted[i].0@ == sorted[j].0@ {
            assert(sv[i] == entry_view(sorted[i]));
            assert(sv[j] == entry_view(sorted[j]));
            assert(sv.contains(sv[i]));
            assert(sv.contains(sv[j]));
            let p = choose|p: int| 0 <= p < fv.len() && fv[p] == sv[i];
            let pp = choose|pp: int| 0 <= pp < fv.len() && fv[pp] == sv[j];
            assert(found[p].0@ == sorted[i].0@);
            assert(found[pp].0@ == sorted[j].0@);
            assert(p == pp);
            assert(sv[i] == sv[j]);
        }
    }
}

impl Default for PrefixTrie {
    /// The empty index.
    fn default() -> (r: Self)
        ensures
            (r@ == Map::<Seq<u8>, (u64, u64)>::empty()),
            r.wf(),
    {
        PrefixTrie::new()
    }
}

/// Proves that the key column of a sorted, duplicate-free, sound and
/// complete match listing is the ranked key sequence of the map.
proof fn lemma_keys_ranked(
    m: Map<Seq<u8>, (u64, u64)>,
    qk: Seq<u8>,
    s: Seq<(Vec<u8>, u64, u64)>,
    keys: Seq<Seq<u8>>,
)
    requires
        keys == entry_views(s).map_values(|e: (Seq<u8>, u64, u64)| e.0),
        forall|i: int, j: int| 0 <= i < j < s.len() ==> s[i].0@ != s[j].0@,
        forall|i: int|
            0 <= i < s.len() ==> m.dom().contains((#[trigger] s[i]).0@) && is_prefix(qk, s[i].0@)
                && (s[i].1, s[i].2) == m[s[i].0@],
        forall|k: Seq<u8>|
            #[trigger] m.dom().contains(k) && is_prefix(qk, k) ==> exists|i: int|
                0 <= i < s.len() && (#[trigger] s[i]).0@ == k,
        forall|i: int, j: int| 0 <= i < j < s.len() ==> rank_le(qk, s[i].0@, s[j].0@),
    ensures
        ranked_keys_of(m, qk, keys),
{
    assert(keys.len() == s.len());
    assert(forall|i: int| 0 <= i < s.len() ==> #[trigger] keys[i] == s[i].0@);
    assert(keys.no_duplicates());
    assert forall|k: Seq<u8>| #[trigger] m.dom().contains(k) && is_prefix(qk, k) implies
        keys.contains(k) by {
        let i = choose|i: int| 0 <= i < s.len() && (#[trigger] s[i]).0@ == k;
        assert(keys[i] == k);
    }
}

/// Selection sort of the match listing under the ranking rule: the result
/// holds the same entries, in ranking order.
fn sort_entries(q: &Vec<u8>, input: Vec<(Vec<u8>, u64, u64)>) -> (out: Vec<(Vec<u8>, u64, u64)>)
    ensures
        entry_views(out@).to_multiset() == entry_views(input@).to_multiset(),
        forall|i: int, j: int| 0 <= i < j < out@.len() ==> rank_le(q@, out@[i].0@, out@[j].0@),
        forall|e: (Seq<u8>, u64, u64)|
            entry_views(out@).contains(e) <==> entry_views(input@).contains(e),
        out@.len() == input@.len(),
{
    broadcast use vstd::seq_lib::group_to_multiset_ensures;

    let ghost input0 = entry_views(input@);
    let mut rest = input;
    let mut out: Vec<(Vec<u8>, u64, u64)> = Vec::new();
    proof {
        assert(entry_views(out@) =~= Seq::<(Seq<u8>, u64, u64)>::empty());
        assert(entry_views(out@) + entry_views(rest@) =~= input0);
    }
    while rest.len() > 0
        invariant
            (entry_views(out@) + entry_views(rest@)).to_multiset() == input0.to_multiset(),
            out@.len() + rest@.len() == input0.len(),
            forall|i: int, j: int| 0 <= i < j < out@.len() ==> rank_le(q@, out@[i].0@, out@[j].0@),
            forall|i: int, j: int|
                0 <= i < out@.len() && 0 <= j < rest@.len() ==> rank_le(
                    q@,
                    out@[i].0@,
                    rest@[j].0@,
                ),
        decreases rest@.len(),
    {
        let m = min_index(q, &rest);
        let ghost old_out = out@;
        let ghost old_rest = rest@;
        let e = rest.remove(m);
        out.push(e);
        proof {
            lemma_sort_step(q@, old_out, old_rest, m as int, out@, rest@);
        }
    }
    proof {
        assert(entry_views(rest@) =~= Seq::<(Seq<u8>, u64, u64)>::empty());
        assert(entry_views(out@) + entry_views(rest@) =~= entry_views(out@));
        assert(entry_views(out@).to_multiset() == input0.to_multiset());
        assert forall|e: (Seq<u8>, u64, u64)| entry_views(out@).contains(e) <==> input0.contains(
            e,
        ) by {
            assert(entry_views(out@).contains(e) <==> entry_views(out@).to_multiset().count(e)
                > 0);
            assert(input0.contains(e) <==> input0.to_multiset().count(e) > 0);
        }
        assert(out@.len() == entry_views(out@).to_multiset().len());
        assert(input0.len() == input0.to_multiset().len());
    }
    out
}

/// One step of the selection sort keeps the multiset of entries and the
/// ordering facts.
proof fn lemma_sort_step(
    q: Seq<u8>,
    old_out: Seq<(Vec<u8>, u64, u64)>,
    old_rest: Seq<(Vec<u8>, u64, u64)>,
    m: int,
    new_out: Seq<(Vec<u8>, u64, u64)>,
    new_rest: Seq<(Vec<u8>, u64, u64)>,
)
    requires
        0 <= m < old_rest.len(),
        new_rest == old_rest.remove(m),
        new_out == old_out.push(old_rest[m]),
    ensures
        entry_views(new_out) + entry_views(new_rest) =~= (entry_views(old_out) + entry_views(
            old_rest,
        )).remove(old_out.len() + m).insert(old_out.len() as int, entry_view(old_rest[m])),
        ((entry_views(new_out) + entry_views(new_rest))).to_multiset() == ((entry_views(old_out)
            + entry_views(old_rest))).to_multiset(),
{
    broadcast use vstd::seq_lib::group_to_multiset_ensures;

    let ev = entry_view(old_rest[m]);
    let a = entry_views(old_out) + entry_views(old_rest);
    let b = entry_views(new_out) + entry_views(new_rest);
    let k = old_out.len() as int;
    assert(a.len() == old_out.len() + old_rest.len());
    assert(a[k + m] == ev);
    assert(b =~= a.remove(k + m).insert(k, ev));
    assert(a.remove(k + m).to_multiset() =~= a.to_multiset().remove(ev));
    lemma_insert_multiset(a.remove(k + m), k, ev);
    assert(b.to_multiset() =~= a.to_multiset().remove(ev).insert(ev));
    assert(a.to_multiset().count(ev) > 0) by {
        assert(a.contains(ev));
    }
    assert(b.to_multiset() =~= a.to_multiset());
}

/// Inserting an element anywhere in a sequence adds it to the multiset.
proof fn lemma_insert_multiset(s: Seq<(Seq<u8>, u64, u64)>, k: int, e: (Seq<u8>, u64, u64))
    requires
        0 <= k <= s.len(),
    ensures
        s.insert(k, e).to_multiset() =~= s.to_multiset().insert(e),
{
    broadcast use vstd::seq_lib::group_to_multiset_ensures;

    let t = s.insert(k, e);
    assert(t.remove(k) =~= s);
    assert(t.remove(k).to_multiset() =~= t.to_multiset().remove(t[k]));
    assert(t[k] == e);
    assert(t.to_multiset().count(e) > 0) by {
        assert(t.contains(e));
    }
    assert(s.to_multiset().insert(e) =~= t.to_multiset().remove(e).insert(e));
    assert(t.to_multiset().remove(e).insert(e) =~= t.to_multiset());
}

/// Index of an entry ranked no later than every entry of `v`.
fn min_index(q: &Vec<u8>, v: &Vec<(Vec<u8>, u64, u64)>) -> (m: usize)
    requires
        v@.len() > 0,
    ensures
        0 <= m < v@.len(),
        forall|j: int| 0 <= j < v@.len() ==> rank_le(q@, v@[m as int].0@, (#[trigger] v@[j]).0@),
{
    let mut m: usize = 0;
    let mut j: usize = 1;
    proof {
        lemma_rank_total(q@, v@[0].0@, v@[0].0@);
    }
    while j < v.len()
        invariant
            0 <= m < j <= v@.len(),
            forall|k: int| 0 <= k < j ==> rank_le(q@, v@[m as int].0@, (#[trigger] v@[k]).0@),
        decreases v@.len() - j,
    {
        if !rank_le_exec(q, &v[m], &v[j]) {
            proof {
                lemma_rank_total(q@, v@[m as int].0@, v@[j as int].0@);
                assert forall|k: int| 0 <= k < j implies rank_le(
                    q@,
                    v@[j as int].0@,
                    (#[trigger] v@[k]).0@,
                ) by {
                    lemma_rank_transitive(q@, v@[j as int].0@, v@[m as int].0@, v@[k].0@);
                }
            }
            m = j;
        }
        proof {
            lemma_rank_total(q@, v@[m as int].0@, v@[m as int].0@);
        }
        j = j + 1;
    }
    m
}

/// The ranking rule, decided on concrete keys.
fn rank_le_exec(q: &Vec<u8>, a: &(Vec<u8>, u64, u64), b: &(Vec<u8>, u64, u64)) -> (r: bool)
    ensures
        r == rank_le(q@, a.0@, b.0@),
{
    if bytes_eq(a.0.as_slice(), q.as_slice()) {
        true
    } else if bytes_eq(b.0.as_slice(), q.as_slice()) {
        false
    } else if a.0.len() != b.0.len() {
        a.0.len() < b.0.len()
    } else {
        !bytes_lex_lt(b.0.as_slice(), a.0.as_slice())
    }
}

} // verus!
