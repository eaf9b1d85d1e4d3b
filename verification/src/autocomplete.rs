//! Prefix-based autocompletion over the trie.

use vstd::prelude::*;

use crate::tree::Trie;

verus! {

/// Completion of a prefix into the suffixes of every stored word extending
/// it.
pub trait AutoCompletable {
    /// All stored words that begin with `prefix`, each with the leading
    /// `prefix` cut off; the prefix itself, even when stored, yields no
    /// entry (no empty suffix appears). Each suffix appears exactly once;
    /// the order is unspecified.
    fn complete(&self, prefix: &str) -> Vec<String>;
}

impl AutoCompletable for Trie {
    fn complete(&self, prefix: &str) -> (res: Vec<String>)
        ensures
            forall|j: int|
                0 <= j < res@.len() ==> res@[j]@.len() > 0 && self@.contains(prefix@ + res@[j]@),
            forall|u: Seq<char>|
                u.len() > 0 && self@.contains(prefix@ + u) ==> exists|j: int|
                    0 <= j < res@.len() && res@[j]@ == u,
            forall|j1: int, j2: int| 0 <= j1 < j2 < res@.len() ==> res@[j1]@ != res@[j2]@,
    {
        self.get_suffix_of(prefix)
    }
}

} // verus!
