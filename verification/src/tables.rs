//! Keyed symbol tables: every registry and export table in this crate is
//! a list of `(name, value)` pairs searched front to back, and these are
//! the shared lookup specification and helpers for them.

use vstd::prelude::*;

verus! {

use crate::text::str_eq;

/// Index of the first entry whose name is `key`.
pub open spec fn find_entry<T>(entries: Seq<(String, T)>, key: Seq<char>) -> Option<int>
    decreases entries.len(),
{
    if entries.len() == 0 {
        None
    } else if entries[0].0@ == key {
        Some(0)
    } else {
        match find_entry(entries.drop_first(), key) {
            Some(i) => Some(i + 1),
            None => None,
        }
    }
}

/// The value of the first entry whose name is `key`.
pub open spec fn table_lookup<T>(entries: Seq<(String, T)>, key: Seq<char>) -> Option<T> {
    match find_entry(entries, key) {
        Some(i) => Some(entries[i].1),
        None => None,
    }
}

pub proof fn lemma_find_entry_characterization<T>(entries: Seq<(String, T)>, key: Seq<char>)
    ensures
        match find_entry(entries, key) {
            Some(i) => {
                &&& 0 <= i < entries.len()
                &&& entries[i].0@ == key
                &&& forall|j: int| 0 <= j < i ==> (#[trigger] entries[j]).0@ != key
            },
            None => forall|j: int| 0 <= j < entries.len() ==> (#[trigger] entries[j]).0@ != key,
        },
    decreases entries.len(),
{
    if entries.len() > 0 && entries[0].0@ != key {
        let t = entries.drop_first();
        lemma_find_entry_characterization(t, key);
        assert forall|j: int| 0 <= j < t.len() implies #[trigger] t[j] == entries[j + 1] by {}
        match find_entry(t, key) {
            Some(i) => {
                assert forall|j: int| 0 <= j < i + 1 implies (#[trigger] entries[j]).0@ != key by {
                    if j > 0 {
                        assert(t[j - 1].0@ != key);
                    }
                }
            },
            None => {
                assert forall|j: int| 0 <= j < entries.len() implies (#[trigger] entries[j]).0@ != key by {
                    if j > 0 {
                        assert(t[j - 1].0@ != key);
                    }
                }
            },
        }
    }
}

/// Find the first entry named `key`, returning its index.
pub fn find_entry_index<T>(entries: &Vec<(String, T)>, key: &str) -> (r: Option<usize>)
    ensures
        match r {
            Some(i) => find_entry(entries@, key@) == Some(i as int),
            None => find_entry(entries@, key@) is None,
        },
{
    proof {
        lemma_find_entry_characterization(entries@, key@);
    }
    let n = entries.len();
    let mut k: usize = 0;
    while k < n
        invariant
            n == entries@.len(),
            0 <= k <= n,
            forall|j: int| 0 <= j < k ==> (#[trigger] entries@[j]).0@ != key@,
        decreases n - k,
    {
        if str_eq(entries[k].0.as_str(), key) {
            proof {
                lemma_find_entry_characterization(entries@, key@);
                match find_entry(entries@, key@) {
                    Some(i) => {
                        if i < k {
                            assert(entries@[i].0@ != key@);
                        }
                        if k < i {
                            assert(entries@[k as int].0@ != key@);
                        }
                        assert(i == k);
                    },
                    None => {
                        assert(entries@[k as int].0@ != key@);
                    },
                }
            }
            return Some(k);
        }
        k += 1;
    }
    proof {
        lemma_find_entry_characterization(entries@, key@);
        if find_entry(entries@, key@) is Some {
            let i = find_entry(entries@, key@)->Some_0;
            assert(entries@[i].0@ != key@);
        }
    }
    None
}

/// Find the first entry named `key` in a `(name, address)` table,
/// returning its address.
pub fn lookup_address(entries: &Vec<(String, u32)>, key: &str) -> (r: Option<u32>)
    ensures
        r == table_lookup(entries@, key@),
{
    match find_entry_index(entries, key) {
        Some(i) => {
            proof {
                lemma_find_entry_characterization(entries@, key@);
            }
            Some(entries[i].1)
        },
        None => None,
    }
}

} // verus!
