//! The published dictionary catalog as the application sees it: one entry
//! per dictionary with its downloadable releases. The rules live here —
//! which entries are usable, which release is the dictd archive, how a
//! search filter matches, and how a name like `deu-eng` splits into its
//! language pair. Fetching and JSON decoding stay with the caller.

use vstd::prelude::*;

verus! {

use crate::text::{has_substring, lower_of, str_contains, to_lower, to_upper, upper_of};

/// One downloadable release of a dictionary.
#[derive(Debug, Clone)]
pub struct FreeDictRelease {
    pub url: String,
    pub checksum: String,
    pub date: String,
    pub size: u64,
}

/// One catalog entry: a dictionary and its releases.
#[derive(Debug, Clone)]
pub struct FreeDictEntry {
    pub name: String,
    pub releases: Vec<FreeDictRelease>,
    pub headwords: String,
    pub status: String,
}

/// Index of the first release whose URL marks a dictd archive, or -1.
pub open spec fn find_dictd_release(s: Seq<FreeDictRelease>, i: int) -> int
    decreases s.len() - i,
{
    if i < 0 || i >= s.len() {
        -1
    } else if has_substring(s[i].url@, ".dictd.tar.xz"@) {
        i
    } else {
        find_dictd_release(s, i + 1)
    }
}

proof fn lemma_find_dictd_release_from(s: Seq<FreeDictRelease>, i: int, j: int)
    requires
        0 <= i <= j <= s.len(),
        forall|k: int| i <= k < j ==> !has_substring((#[trigger] s[k]).url@, ".dictd.tar.xz"@),
    ensures
        find_dictd_release(s, i) == find_dictd_release(s, j),
    decreases j - i,
{
    if i < j {
        lemma_find_dictd_release_from(s, i + 1, j);
    }
}

impl FreeDictEntry {
    /// A usable entry names its dictionary and offers at least one
    /// release.
    pub fn is_valid(&self) -> (r: bool)
        ensures
            r == (self.name@.len() > 0 && self.releases@.len() > 0),
    {
        !self.name.as_str().is_empty() && !self.releases.is_empty()
    }

    /// The first release whose URL points at a dictd archive.
    pub fn get_dictd_release(&self) -> (r: Option<&FreeDictRelease>)
        ensures
            ({
                let idx = find_dictd_release(self.releases@, 0);
                match r {
                    Some(rel) => idx >= 0 && *rel == self.releases@[idx],
                    None => idx < 0,
                }
            }),
    {
        let ghost s0 = self.releases@;
        let n = self.releases.len();
        let mut i: usize = 0;
        while i < n
            invariant
                0 <= i <= n == s0.len(),
                s0 == self.releases@,
                forall|k: int|
                    0 <= k < i ==> !has_substring((#[trigger] s0[k]).url@, ".dictd.tar.xz"@),
            decreases n - i,
        {
            let rel = &self.releases[i];
            if str_contains(rel.url.as_str(), ".dictd.tar.xz") {
                proof {
                    lemma_find_dictd_release_from(s0, 0, i as int);
                    assert(find_dictd_release(s0, i as int) == i);
                }
                return Some(rel);
            }
            i = i + 1;
        }
        proof {
            lemma_find_dictd_release_from(s0, 0, n as int);
        }
        None
    }

    /// Whether this entry's name matches an already-lowercased search
    /// filter, comparing case-insensitively.
    pub fn matches_filter(&self, filter_lower: &str) -> (r: bool)
        ensures
            r == has_substring(lower_of(self.name@), filter_lower@),
    {
        let lowered = to_lower(self.name.as_str());
        str_contains(lowered.as_str(), filter_lower)
    }
}

/// Index of the first occurrence of `c` at or after `i`, or -1.
pub open spec fn find_char(s: Seq<char>, c: char, i: int) -> int
    decreases s.len() - i,
{
    if i < 0 || i >= s.len() {
        -1
    } else if s[i] == c {
        i
    } else {
        find_char(s, c, i + 1)
    }
}

proof fn lemma_find_char_from(s: Seq<char>, c: char, i: int, j: int)
    requires
        0 <= i <= j <= s.len(),
        forall|k: int| i <= k < j ==> s[k] != c,
    ensures
        find_char(s, c, i) == find_char(s, c, j),
    decreases j - i,
{
    if i < j {
        lemma_find_char_from(s, c, i + 1, j);
    }
}

/// The language pair a dictionary name like `deu-eng` announces: the
/// pieces before and after the first dash, uppercased, or the unknown
/// marker where the name has no dash.
pub open spec fn language_pair_spec(name: Seq<char>) -> (Seq<char>, Seq<char>) {
    let i = find_char(name, '-', 0);
    if i < 0 {
        ("UNK"@, "UNK"@)
    } else {
        let j = find_char(name, '-', i + 1);
        let end = if j < 0 {
            name.len() as int
        } else {
            j
        };
        (upper_of(name.subrange(0, i)), upper_of(name.subrange(i + 1, end)))
    }
}

/// Splits a dictionary name into its uppercased language pair.
pub fn language_pair(name: &str) -> (r: (String, String))
    ensures
        (r.0@, r.1@) == language_pair_spec(name@),
{
    let n = name.unicode_len();
    let mut i: usize = 0;
    while i < n && name.get_char(i) != '-'
        invariant
            0 <= i <= n == name@.len(),
            forall|k: int| 0 <= k < i ==> name@[k] != '-',
        decreases n - i,
    {
        i = i + 1;
    }
    proof {
        lemma_find_char_from(name@, '-', 0, i as int);
    }
    if i == n {
        let unk = "UNK";
        proof {
            assert(language_pair_spec(name@) == ("UNK"@, "UNK"@));
        }
        return (unk.to_owned(), unk.to_owned());
    }
    let mut j: usize = i + 1;
    while j < n && name.get_char(j) != '-'
        invariant
            i + 1 <= j <= n == name@.len(),
            forall|k: int| i + 1 <= k < j ==> name@[k] != '-',
        decreases n - j,
    {
        j = j + 1;
    }
    proof {
        lemma_find_char_from(name@, '-', i + 1, j as int);
        if j < n {
            assert(find_char(name@, '-', j as int) == j);
        }
    }
    let from_part = name.substring_char(0, i);
    let to_part = name.substring_char(i + 1, j);
    (to_upper(from_part), to_upper(to_part))
}

} // verus!
