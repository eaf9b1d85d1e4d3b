//! The aggregate prefix tree: a permanently allocated sentinel root node and
//! a running count of the distinct words stored below it.

use vstd::prelude::*;

use crate::node::{
    child_pos, count_seq, lemma_child_pos_first, lemma_has_word_count_pos, lemma_node_at_append,
    lemma_node_at_wf, lemma_reachable_live, lemma_words_by_child, subtree_word, Node, NodeRefOps,
};
use crate::text::str_to_chars;

verus! {

/// Growable prefix tree. Words are inserted and removed character by
/// character; the tree stores each distinct word exactly once.
pub struct Trie {
    words: usize,
    root: Node,
}

impl Trie {
    /// The sentinel root node, for contracts that speak about paths.
    pub closed spec fn spec_root(self) -> Node {
        self.root
    }

    /// Number of distinct words currently stored.
    pub closed spec fn spec_word_count(self) -> nat {
        self.words as nat
    }

    /// The set of words currently stored.
    pub open spec fn word_set(self) -> Set<Seq<char>> {
        Set::new(|u: Seq<char>| self.spec_root().has_word(u))
    }

    #[verifier::type_invariant]
    spec fn inv(self) -> bool {
        &&& self.root.wf()
        &&& !self.root.is_end_of_word
        &&& self.words == self.root.count()
    }
}

impl View for Trie {
    type V = Set<Seq<char>>;

    open spec fn view(&self) -> Set<Seq<char>> {
        self.word_set()
    }
}

impl Trie {
    /// Create a new empty trie.
    pub fn new() -> (t: Trie)
        ensures
            t@ == Set::<Seq<char>>::empty(),
            t.spec_word_count() == 0,
    {
        let root = Node::new('\0', false);
        let t = Trie { words: 0, root };
        proof {
            assert(count_seq(t.root.children@) == 0);
            assert forall|u: Seq<char>| !t.spec_root().has_word(u) by {
                if u.len() > 0 {
                    assert(child_pos(t.spec_root().children@, u[0]) is None);
                }
            }
            assert(t.word_set() =~= Set::<Seq<char>>::empty());
        }
        t
    }

    /// Number of distinct words currently stored.
    pub fn word_count(&self) -> (n: usize)
        ensures
            n == self.spec_word_count(),
    {
        self.words
    }

    /// Find the node that the characters of `word` lead to, if the full path
    /// exists.
    pub fn go_to(&self, word: &str) -> (r: Option<&Node>)
        ensures
            match r {
                Some(m) => self.spec_root().node_at(word@) == Some(*m),
                None => self.spec_root().node_at(word@) is None,
            },
    {
        let chars = str_to_chars(word);
        let mut cur: &Node = &self.root;
        let mut i: usize = 0;
        proof {
            assert(word@.take(0) =~= Seq::<char>::empty());
        }
        while i < chars.len()
            invariant
                chars@ == word@,
                i <= chars@.len(),
                self.spec_root().node_at(word@.take(i as int)) == Some(*cur),
            decreases chars@.len() - i,
        {
            let ghost prefix = word@.take(i as int);
            let c = chars[i];
            match cur.get_child(c) {
                Some(m) => {
                    proof {
                        lemma_node_at_append(self.spec_root(), prefix, seq![c]);
                        assert(prefix + seq![c] =~= word@.take(i + 1));
                        assert(seq![c].len() == 1 && seq![c][0] == c);
                        assert(seq![c].drop_first() =~= Seq::<char>::empty());
                        assert(m.node_at(Seq::<char>::empty()) == Some(*m));
                        assert(cur.node_at(seq![c]) == Some(*m));
                    }
                    cur = m;
                },
                None => {
                    proof {
                        lemma_node_at_append(self.spec_root(), prefix, word@.skip(i as int));
                        assert(prefix + word@.skip(i as int) =~= word@);
                        assert(word@.skip(i as int)[0] == c);
                        assert(cur.node_at(word@.skip(i as int)) is None);
                    }
                    return None;
                },
            }
            i = i + 1;
        }
        proof {
            assert(word@.take(i as int) =~= word@);
        }
        Some(cur)
    }

    /// Exact membership: true iff `word` is stored in the trie.
    pub fn contains(&self, word: &str) -> (r: bool)
        ensures
            r == self@.contains(word@),
    {
        match self.go_to(word) {
            Some(m) => m.is_end_of_word,
            None => false,
        }
    }

    /// Insert `word` into the trie. Inserting a word that is already present
    /// (or the empty word, which the sentinel root cannot terminate) changes
    /// nothing.
    pub fn insert(&mut self, word: &str)
        requires
            old(self).spec_word_count() < usize::MAX,
        ensures
            word@.len() == 0 ==> final(self)@ == old(self)@,
            word@.len() > 0 ==> final(self)@ == old(self)@.insert(word@),
            final(self).spec_word_count() == old(self).spec_word_count() + (if word@.len() > 0
                && !old(self)@.contains(word@) {
                1nat
            } else {
                0nat
            }),
    {
        proof {
            use_type_invariant(&*self);
        }
        let chars = str_to_chars(word);
        if chars.len() == 0 {
            return ;
        }
        let mut tmp = Trie::new();
        core::mem::swap(self, &mut tmp);
        let Trie { words, mut root } = tmp;
        let added = root.insert_rec(&chars, 0);
        proof {
            assert(chars@.skip(0) =~= word@);
        }
        let new_words = if added {
            words + 1
        } else {
            words
        };
        let result = Trie { words: new_words, root };
        proof {
            assert(result@ =~= old(self)@.insert(word@));
        }
        *self = result;
    }

    /// All stored words that begin with `suf` and extend it, each with the
    /// leading `suf` cut off. A word equal to `suf` itself is not reported:
    /// no empty suffix appears. Each suffix appears exactly once; the order
    /// is unspecified.
    pub fn get_suffix_of(&self, suf: &str) -> (res: Vec<String>)
        ensures
            forall|j: int|
                0 <= j < res@.len() ==> res@[j]@.len() > 0 && self@.contains(suf@ + res@[j]@),
            forall|u: Seq<char>|
                u.len() > 0 && self@.contains(suf@ + u) ==> exists|j: int|
                    0 <= j < res@.len() && res@[j]@ == u,
            forall|j1: int, j2: int| 0 <= j1 < j2 < res@.len() ==> res@[j1]@ != res@[j2]@,
    {
        proof {
            use_type_invariant(&*self);
        }
        let mut res: Vec<String> = Vec::new();
        match self.go_to(suf) {
            None => {
                proof {
                    assert forall|u: Seq<char>| !self@.contains(suf@ + u) by {
                        lemma_node_at_append(self.spec_root(), suf@, u);
                    }
                }
                res
            },
            Some(cur) => {
                proof {
                    lemma_node_at_wf(self.spec_root(), suf@);
                }
                let nchildren = cur.children_size();
                let mut k: usize = 0;
                while k < nchildren
                    invariant
                        cur.wf(),
                        nchildren == cur.children@.len(),
                        k <= nchildren,
                        forall|j: int| #![trigger res@[j]]
                            0 <= j < res@.len() ==> {
                                &&& res@[j]@.len() > 0
                                &&& cur.has_word(res@[j]@)
                                &&& child_pos(cur.children@, res@[j]@[0]) is Some
                                &&& child_pos(cur.children@, res@[j]@[0])->Some_0 < k
                            },
                        forall|u: Seq<char>, k2: int|
                            0 <= k2 < k && #[trigger] subtree_word(
                                Seq::<char>::empty(),
                                cur.children@[k2],
                                u,
                            ) ==> exists|j: int| 0 <= j < res@.len() && res@[j]@ == u,
                        forall|j1: int, j2: int|
                            0 <= j1 < j2 < res@.len() ==> res@[j1]@ != res@[j2]@,
                    decreases nchildren - k,
                {
                    let ghost res_mid = res@;
                    let ghost m = cur.children@[k as int];
                    let mut part = cur.children[k].preorder();
                    let ghost part_snap = part@;
                    res.append(&mut part);
                    proof {
                        assert(res@ == res_mid + part_snap);
                        lemma_child_pos_first(cur.children@, m.val, k as int);
                        assert forall|j: int| #![trigger res@[j]]
                            0 <= j < res@.len() implies {
                            &&& res@[j]@.len() > 0
                            &&& cur.has_word(res@[j]@)
                            &&& child_pos(cur.children@, res@[j]@[0]) is Some
                            &&& child_pos(cur.children@, res@[j]@[0])->Some_0 < k + 1
                        } by {
                            if j < res_mid.len() {
                                assert(res@[j] == res_mid[j]);
                            } else {
                                assert(res@[j] == part_snap[j - res_mid.len()]);
                                let u = res@[j]@;
                                assert(subtree_word(Seq::<char>::empty(), m, u));
                                assert(subtree_word(
                                    Seq::<char>::empty(),
                                    cur.children@[k as int],
                                    u,
                                ));
                                lemma_words_by_child(*cur, u);
                                assert(u[0] == m.val);
                            }
                        }
                        assert forall|u: Seq<char>, k2: int|
                            0 <= k2 < k + 1 && #[trigger] subtree_word(
                                Seq::<char>::empty(),
                                cur.children@[k2],
                                u,
                            ) implies exists|j: int| 0 <= j < res@.len() && res@[j]@ == u by {
                            if k2 < k {
                                let j = choose|j: int|
                                    0 <= j < res_mid.len() && res_mid[j]@ == u;
                                assert(res@[j] == res_mid[j]);
                            } else {
                                let j = choose|j: int|
                                    0 <= j < part_snap.len() && part_snap[j]@ == u;
                                assert(res@[res_mid.len() + j] == part_snap[j]);
                            }
                        }
                        assert forall|j1: int, j2: int|
                            0 <= j1 < j2 < res@.len() implies res@[j1]@ != res@[j2]@ by {
                            if j1 < res_mid.len() && j2 >= res_mid.len() {
                                let u1 = res@[j1]@;
                                let u2 = res@[j2]@;
                                assert(res@[j1] == res_mid[j1]);
                                assert(res@[j2] == part_snap[j2 - res_mid.len()]);
                                assert(subtree_word(Seq::<char>::empty(), m, u2));
                                assert(u2[0] == m.val);
                                assert(child_pos(cur.children@, u1[0])->Some_0 < k);
                                assert(child_pos(cur.children@, u2[0]) == Some(k as int));
                                assert(u1[0] != u2[0]);
                            } else if j2 >= res_mid.len() {
                                assert(res@[j1] == part_snap[j1 - res_mid.len()]);
                                assert(res@[j2] == part_snap[j2 - res_mid.len()]);
                            } else {
                                assert(res@[j1] == res_mid[j1]);
                                assert(res@[j2] == res_mid[j2]);
                            }
                        }
                    }
                    k = k + 1;
                }
                proof {
                    assert forall|j: int|
                        0 <= j < res@.len() implies res@[j]@.len() > 0 && self@.contains(
                        suf@ + res@[j]@,
                    ) by {
                        lemma_words_by_child(*cur, res@[j]@);
                        lemma_node_at_append(self.spec_root(), suf@, res@[j]@);
                    }
                    assert forall|u: Seq<char>|
                        u.len() > 0 && self@.contains(suf@ + u) implies exists|j: int|
                        0 <= j < res@.len() && res@[j]@ == u by {
                        lemma_node_at_append(self.spec_root(), suf@, u);
                        lemma_words_by_child(*cur, u);
                    }
                }
                res
            },
        }
    }

    /// All stored words, grouped by their first character: one entry for
    /// each child of the root, carrying that child's character and every
    /// stored word that begins with it (the words are complete, first
    /// character included, each exactly once and in unspecified order).
    pub fn get_words(&self) -> (res: Vec<(char, Vec<String>)>)
        ensures
            res@.len() == self.spec_root().children@.len(),
            forall|k: int|
                0 <= k < res@.len() ==> (#[trigger] res@[k]).0 == self.spec_root().children@[k].val,
            forall|k: int, j: int|
                0 <= k < res@.len() && 0 <= j < (#[trigger] res@[k]).1@.len() ==> {
                    &&& (#[trigger] res@[k].1@[j])@.len() > 0
                    &&& res@[k].1@[j]@[0] == res@[k].0
                    &&& self@.contains(res@[k].1@[j]@)
                },
            forall|u: Seq<char>|
                u.len() > 0 && self@.contains(u) ==> exists|k: int, j: int|
                    0 <= k < res@.len() && 0 <= j < res@[k].1@.len()
                        && (#[trigger] res@[k].1@[j])@ == u,
            forall|k: int, j1: int, j2: int|
                0 <= k < res@.len() && 0 <= j1 < j2 < res@[k].1@.len()
                    ==> (#[trigger] res@[k].1@[j1])@ != (#[trigger] res@[k].1@[j2])@,
    {
        proof {
            use_type_invariant(&*self);
        }
        let mut res: Vec<(char, Vec<String>)> = Vec::new();
        let nchildren = self.root.children_size();
        let mut k: usize = 0;
        while k < nchildren
            invariant
                self.inv(),
                nchildren == self.spec_root().children@.len(),
                k <= nchildren,
                res@.len() == k,
                forall|k2: int|
                    0 <= k2 < k ==> (#[trigger] res@[k2]).0 == self.spec_root().children@[k2].val,
                forall|k2: int, j: int|
                    0 <= k2 < k && 0 <= j < (#[trigger] res@[k2]).1@.len() ==> subtree_word(
                        Seq::<char>::empty(),
                        self.spec_root().children@[k2],
                        (#[trigger] res@[k2].1@[j])@,
                    ),
                forall|u: Seq<char>, k2: int|
                    0 <= k2 < k && #[trigger] subtree_word(
                        Seq::<char>::empty(),
                        self.spec_root().children@[k2],
                        u,
                    ) ==> exists|j: int| 0 <= j < res@[k2].1@.len() && res@[k2].1@[j]@ == u,
                forall|k2: int, j1: int, j2: int|
                    0 <= k2 < k && 0 <= j1 < j2 < res@[k2].1@.len()
                        ==> (#[trigger] res@[k2].1@[j1])@ != (#[trigger] res@[k2].1@[j2])@,
            decreases nchildren - k,
        {
            let ghost res_mid = res@;
            let c = self.root.children[k].val;
            let part = self.root.children[k].preorder();
            let ghost part_snap = part@;
            res.push((c, part));
            proof {
                assert(res@ == res_mid.push((c, part)));
                assert(res@[k as int].1@ == part_snap);
                assert forall|k2: int, j: int| #![trigger res@[k2].1@[j]]
                    0 <= k2 < k + 1 && 0 <= j < res@[k2].1@.len() implies subtree_word(
                    Seq::<char>::empty(),
                    self.spec_root().children@[k2],
                    (res@[k2].1@[j])@,
                ) by {
                    if k2 < k {
                        assert(res@[k2] == res_mid[k2]);
                    } else {
                        assert(res@[k2].1@[j] == part_snap[j]);
                    }
                }
                assert forall|u: Seq<char>, k2: int|
                    0 <= k2 < k + 1 && #[trigger] subtree_word(
                        Seq::<char>::empty(),
                        self.spec_root().children@[k2],
                        u,
                    ) implies exists|j: int|
                    0 <= j < res@[k2].1@.len() && res@[k2].1@[j]@ == u by {
                    if k2 < k {
                        assert(res@[k2] == res_mid[k2]);
                        let j = choose|j: int|
                            0 <= j < res_mid[k2].1@.len() && res_mid[k2].1@[j]@ == u;
                        assert(res@[k2].1@[j]@ == u);
                    } else {
                        let j = choose|j: int| 0 <= j < part_snap.len() && part_snap[j]@ == u;
                        assert(res@[k2].1@[j]@ == u);
                    }
                }
                assert forall|k2: int, j1: int, j2: int|
                    0 <= k2 < k + 1 && 0 <= j1 < j2 < res@[k2].1@.len() implies (
                #[trigger] res@[k2].1@[j1])@ != (#[trigger] res@[k2].1@[j2])@ by {
                    if k2 < k {
                        assert(res@[k2] == res_mid[k2]);
                    } else {
                        assert(res@[k2].1@[j1] == part_snap[j1]);
                        assert(res@[k2].1@[j2] == part_snap[j2]);
                    }
                }
            }
            k = k + 1;
        }
        proof {
            assert forall|k: int, j: int|
                0 <= k < res@.len() && 0 <= j < (#[trigger] res@[k]).1@.len() implies {
                &&& (#[trigger] res@[k].1@[j])@.len() > 0
                &&& res@[k].1@[j]@[0] == res@[k].0
                &&& self@.contains(res@[k].1@[j]@)
            } by {
                let u = res@[k].1@[j]@;
                assert(subtree_word(Seq::<char>::empty(), self.spec_root().children@[k], u));
                lemma_words_by_child(self.spec_root(), u);
            }
            assert forall|u: Seq<char>|
                u.len() > 0 && self@.contains(u) implies exists|k: int, j: int|
                0 <= k < res@.len() && 0 <= j < res@[k].1@.len() && (#[trigger] res@[k].1@[j])@
                    == u by {
                lemma_words_by_child(self.spec_root(), u);
                let k = choose|k: int|
                    0 <= k < self.spec_root().children@.len() && #[trigger] subtree_word(
                        Seq::<char>::empty(),
                        self.spec_root().children@[k],
                        u,
                    );
                let j = choose|j: int| 0 <= j < res@[k].1@.len() && res@[k].1@[j]@ == u;
                assert(0 <= j < res@[k].1@.len() && (res@[k].1@[j])@ == u);
            }
        }
        res
    }

    /// Remove `word` from the trie, clearing the terminal flag when other
    /// words extend through it and pruning the dead tail otherwise. The word
    /// must be present: this operation adjusts the count without
    /// independently verifying containment. No residual dead nodes remain
    /// reachable: afterwards, every node on a nonempty path from the root
    /// either ends a stored word or has a child through which stored words
    /// continue.
    pub fn remove(&mut self, word: &str)
        requires
            old(self)@.contains(word@),
        ensures
            final(self)@ == old(self)@.remove(word@),
            final(self).spec_word_count() + 1 == old(self).spec_word_count(),
            forall|p: Seq<char>|
                p.len() > 0 ==> match final(self).spec_root().node_at(p) {
                    None => true,
                    Some(m) => m.is_end_of_word || m.children@.len() > 0,
                },
    {
        proof {
            use_type_invariant(&*self);
            lemma_has_word_count_pos(self.spec_root(), word@);
        }
        let chars = str_to_chars(word);
        proof {
            assert(word@.len() > 0);
            assert(chars@.skip(0) =~= word@);
        }
        let mut tmp = Trie::new();
        core::mem::swap(self, &mut tmp);
        let Trie { words, mut root } = tmp;
        root.remove_rec(&chars, 0);
        let result = Trie { words: words - 1, root };
        proof {
            assert(result@ =~= old(self)@.remove(word@));
            assert forall|p: Seq<char>|
                p.len() > 0 implies match result.spec_root().node_at(p) {
                None => true,
                Some(m) => m.is_end_of_word || m.children@.len() > 0,
            } by {
                lemma_reachable_live(result.spec_root(), p);
            }
        }
        *self = result;
    }
}

/// A word that was inserted and not since removed is contained: `insert`
/// turns the stored set `s` into `s.insert(w)`, and `contains` answers
/// membership in the stored set.
pub proof fn lemma_inserted_word_contained(s: Set<Seq<char>>, w: Seq<char>)
    ensures
        s.insert(w).contains(w),
{
}

/// A word never inserted is not contained: a new trie stores nothing, and
/// neither inserting nor removing a different word makes `w` appear.
pub proof fn lemma_absent_word_not_contained(s: Set<Seq<char>>, u: Seq<char>, w: Seq<char>)
    requires
        u != w,
    ensures
        !Set::<Seq<char>>::empty().contains(w),
        s.insert(u).contains(w) == s.contains(w),
        s.remove(u).contains(w) == s.contains(w),
{
}

/// Inserting the same word twice is idempotent: the second insertion leaves
/// the stored set, and with it every `contains` answer, exactly as the
/// first left them — and since the word is then already contained, the
/// second insertion leaves the word count unchanged as well.
pub proof fn lemma_insert_idempotent(s: Set<Seq<char>>, w: Seq<char>)
    ensures
        s.insert(w).insert(w) == s.insert(w),
        s.insert(w).contains(w),
{
    assert(s.insert(w).insert(w) =~= s.insert(w));
}

/// After removing a word it is no longer contained.
pub proof fn lemma_removed_word_not_contained(s: Set<Seq<char>>, w: Seq<char>)
    ensures
        !s.remove(w).contains(w),
{
}

} // verus!
