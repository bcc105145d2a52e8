//! The configured dictionary list: which dictionaries are installed,
//! where their files live, and which are active. The surrounding
//! application persists this as JSON; the rules for changing it live
//! here.

use vstd::prelude::*;

verus! {

/// One configured dictionary.
#[derive(Debug, Clone)]
pub struct DictConfig {
    pub id: String,
    pub name: String,
    pub from_lang: String,
    pub to_lang: String,
    /// The directory that holds the dictionary's index and blob files.
    pub path: String,
    pub active: bool,
}

/// The whole configuration: the dictionaries in the order they were
/// added.
#[derive(Debug)]
pub struct Config {
    pub dictionaries: Vec<DictConfig>,
}

/// Index of the first entry with the given id, or -1.
pub open spec fn find_dict(s: Seq<DictConfig>, id: Seq<char>, i: int) -> int
    decreases s.len() - i,
{
    if i < 0 || i >= s.len() {
        -1
    } else if s[i].id@ == id {
        i
    } else {
        find_dict(s, id, i + 1)
    }
}

proof fn lemma_find_dict_from(s: Seq<DictConfig>, id: Seq<char>, i: int, j: int)
    requires
        0 <= i <= j <= s.len(),
        forall|k: int| i <= k < j ==> (#[trigger] s[k]).id@ != id,
    ensures
        find_dict(s, id, i) == find_dict(s, id, j),
    decreases j - i,
{
    if i < j {
        lemma_find_dict_from(s, id, i + 1, j);
    }
}

impl Config {
    /// Adds or replaces a dictionary: any earlier entry with the same id
    /// leaves, and the new one goes to the end.
    pub fn add_dictionary(&mut self, dict: DictConfig)
        ensures
            final(self).dictionaries@ == old(self).dictionaries@.filter(
                |d: DictConfig| d.id@ != dict.id@,
            ).push(dict),
    {
        let mut rest: Vec<DictConfig> = Vec::new();
        core::mem::swap(&mut self.dictionaries, &mut rest);
        let ghost s0 = rest@;
        let mut kept: Vec<DictConfig> = Vec::new();
        let ghost i: int = 0;
        proof {
            assert(s0.skip(0) =~= s0);
            assert(s0.take(0).filter(|d: DictConfig| d.id@ != dict.id@) =~= kept@);
        }
        while rest.len() > 0
            invariant
                0 <= i <= s0.len(),
                rest@ == s0.skip(i),
                kept@ == s0.take(i).filter(|d: DictConfig| d.id@ != dict.id@),
            decreases rest@.len(),
        {
            let d = rest.remove(0);
            proof {
                assert(d == s0[i]);
                assert(s0.skip(i).remove(0) =~= s0.skip(i + 1));
                assert(s0.take(i + 1) =~= s0.take(i).push(s0[i]));
                s0.take(i).lemma_filter_push(s0[i], |d: DictConfig| d.id@ != dict.id@);
            }
            let same = d.id == dict.id;
            if !same {
                kept.push(d);
            }
            proof {
                i = i + 1;
            }
        }
        proof {
            assert(s0.take(i) =~= s0);
        }
        kept.push(dict);
        self.dictionaries = kept;
    }

    /// Flips the active flag of the first entry with the given id;
    /// reports whether one was found.
    pub fn toggle_dictionary(&mut self, id: &str) -> (r: bool)
        ensures
            ({
                let idx = find_dict(old(self).dictionaries@, id@, 0);
                if idx >= 0 {
                    let d = old(self).dictionaries@[idx];
                    &&& r == true
                    &&& final(self).dictionaries@ == old(self).dictionaries@.update(
                        idx,
                        (DictConfig { active: !d.active, ..d }),
                    )
                } else {
                    &&& r == false
                    &&& final(self).dictionaries@ == old(self).dictionaries@
                }
            }),
    {
        let mut list: Vec<DictConfig> = Vec::new();
        core::mem::swap(&mut self.dictionaries, &mut list);
        let ghost s0 = list@;
        let wanted = id.to_owned();
        let n = list.len();
        let mut i: usize = 0;
        while i < n
            invariant
                0 <= i <= n == s0.len(),
                s0 == old(self).dictionaries@,
                list@ == s0,
                wanted@ == id@,
                forall|k: int| 0 <= k < i ==> (#[trigger] s0[k]).id@ != id@,
            decreases n - i,
        {
            let hit = list[i].id == wanted;
            if hit {
                proof {
                    lemma_find_dict_from(s0, id@, 0, i as int);
                    assert(find_dict(s0, id@, i as int) == i);
                }
                let mut d = list.remove(i);
                d.active = !d.active;
                list.insert(i, d);
                proof {
                    assert(list@ =~= s0.update(
                        i as int,
                        (DictConfig { active: !s0[i as int].active, ..s0[i as int] }),
                    ));
                }
                self.dictionaries = list;
                return true;
            }
            i = i + 1;
        }
        proof {
            lemma_find_dict_from(s0, id@, 0, n as int);
        }
        self.dictionaries = list;
        false
    }

    /// The active dictionaries, in configuration order.
    pub fn get_active_dictionaries(&self) -> (r: Vec<&DictConfig>)
        ensures
            r@.map_values(|p: &DictConfig| *p) == self.dictionaries@.filter(
                |d: DictConfig| d.active,
            ),
    {
        let ghost s0 = self.dictionaries@;
        let mut out: Vec<&DictConfig> = Vec::new();
        let n = self.dictionaries.len();
        proof {
            assert(s0.take(0).filter(|d: DictConfig| d.active) =~= out@.map_values(
                |p: &DictConfig| *p,
            ));
        }
        let mut i: usize = 0;
        while i < n
            invariant
                0 <= i <= n == s0.len(),
                self.dictionaries@ == s0,
                out@.map_values(|p: &DictConfig| *p) == s0.take(i as int).filter(
                    |d: DictConfig| d.active,
                ),
            decreases n - i,
        {
            let ghost prev = out@.map_values(|p: &DictConfig| *p);
            let d = &self.dictionaries[i];
            proof {
                assert(s0.take(i + 1) =~= s0.take(i as int).push(s0[i as int]));
                s0.take(i as int).lemma_filter_push(s0[i as int], |d: DictConfig| d.active);
            }
            if d.active {
                out.push(d);
                proof {
                    assert(out@.map_values(|p: &DictConfig| *p) =~= prev.push(s0[i as int]));
                }
            }
            i = i + 1;
        }
        proof {
            assert(s0.take(n as int) =~= s0);
        }
        out
    }

    /// Removes the first entry with the given id and hands it back.
    pub fn remove_dictionary(&mut self, id: &str) -> (r: Option<DictConfig>)
        ensures
            ({
                let idx = find_dict(old(self).dictionaries@, id@, 0);
                if idx >= 0 {
                    &&& r == Some(old(self).dictionaries@[idx])
                    &&& final(self).dictionaries@ == old(self).dictionaries@.remove(idx)
                } else {
                    &&& r is None
                    &&& final(self).dictionaries@ == old(self).dictionaries@
                }
            }),
    {
        let mut list: Vec<DictConfig> = Vec::new();
        core::mem::swap(&mut self.dictionaries, &mut list);
        let ghost s0 = list@;
        let wanted = id.to_owned();
        let n = list.len();
        let mut i: usize = 0;
        while i < n
            invariant
                0 <= i <= n == s0.len(),
                s0 == old(self).dictionaries@,
                list@ == s0,
                wanted@ == id@,
                forall|k: int| 0 <= k < i ==> (#[trigger] s0[k]).id@ != id@,
            decreases n - i,
        {
            let hit = list[i].id == wanted;
            if hit {
                proof {
                    lemma_find_dict_from(s0, id@, 0, i as int);
                    assert(find_dict(s0, id@, i as int) == i);
                }
                let d = list.remove(i);
                self.dictionaries = list;
                return Some(d);
            }
            i = i + 1;
        }
        proof {
            lemma_find_dict_from(s0, id@, 0, n as int);
        }
        self.dictionaries = list;
        None
    }
}

} // verus!
