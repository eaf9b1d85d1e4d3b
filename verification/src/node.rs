//! The addressable unit of the trie: a node owns one character, the map from
//! characters to child nodes, and an end-of-word flag.

use vstd::prelude::*;

use crate::text::chars_to_string;

verus! {

/// Read-side operations on a node of the trie's ownership graph.
pub trait NodeRefOps {
    /// Whether the node is fit for traversal.
    spec fn traversable(&self) -> bool;

    /// All complete words of the subtree at this node, relative to the
    /// node's own character: that character begins every word reported.
    /// Each word of the subtree appears exactly once; the order is
    /// unspecified.
    fn preorder(&self) -> (words: Vec<String>)
        requires
            self.traversable(),
    ;
}

/// One character position on some path from the trie root. A node owns its
/// children directly; the children's characters are pairwise distinct.
pub struct Node {
    pub val: char,
    pub children: Vec<Node>,
    pub is_end_of_word: bool,
}

/// Index of the first child with character `c` among `s`, if any.
pub open spec fn child_pos(s: Seq<Node>, c: char) -> Option<int>
    decreases s.len(),
{
    if s.len() == 0 {
        None
    } else if s[0].val == c {
        Some(0)
    } else {
        match child_pos(s.drop_first(), c) {
            None => None,
            Some(i) => Some(1 + i),
        }
    }
}

/// The first child with character `c` among `s`, if any.
pub open spec fn find_child(s: Seq<Node>, c: char) -> Option<Node> {
    match child_pos(s, c) {
        None => None,
        Some(i) => Some(s[i]),
    }
}

impl Node {
    /// The node reached from `self` by following the characters of `w`
    /// downward, one child edge per character.
    pub open spec fn node_at(self, w: Seq<char>) -> Option<Node>
        decreases w.len(),
    {
        if w.len() == 0 {
            Some(self)
        } else {
            match find_child(self.children@, w[0]) {
                None => None,
                Some(m) => m.node_at(w.drop_first()),
            }
        }
    }

    /// `w` spells a complete stored word strictly below `self` (or at `self`
    /// itself when `w` is empty and `self` is an end of word).
    pub open spec fn has_word(self, w: Seq<char>) -> bool {
        match self.node_at(w) {
            None => false,
            Some(m) => m.is_end_of_word,
        }
    }

    /// A node that carries no word and has no children encodes nothing and
    /// must have been pruned; every child of a well-formed node is live.
    pub open spec fn live(self) -> bool {
        self.is_end_of_word || self.children@.len() > 0
    }

    /// Well-formedness: children's characters are pairwise distinct, and
    /// every child is live and itself well-formed.
    pub open spec fn wf(self) -> bool
        decreases self,
    {
        &&& (forall|i: int, j: int|
            0 <= i < j < self.children@.len() ==> self.children@[i].val != self.children@[j].val)
        &&& (forall|i: int|
            0 <= i < self.children@.len() ==> (#[trigger] self.children@[i]).wf())
        &&& (forall|i: int|
            0 <= i < self.children@.len() ==> (#[trigger] self.children@[i]).live())
    }

    /// Number of end-of-word nodes in the subtree rooted at `self`.
    pub open spec fn count(self) -> nat
        decreases self, 1int,
    {
        (if self.is_end_of_word { 1nat } else { 0nat }) + count_seq(self.children@)
    }
}

/// Sum of `Node::count` over a sequence of nodes.
pub open spec fn count_seq(s: Seq<Node>) -> nat
    decreases s, 0int,
{
    if s.len() == 0 {
        0nat
    } else {
        s[0].count() + count_seq(s.drop_first())
    }
}

impl Node {
    /// Create a fresh node with no children.
    pub fn new(val: char, is_end_of_word: bool) -> (n: Node)
        ensures
            n.val == val,
            n.is_end_of_word == is_end_of_word,
            n.children@ == Seq::<Node>::empty(),
    {
        Node { val, children: Vec::new(), is_end_of_word }
    }

    /// Number of immediate children.
    pub fn children_size(&self) -> (n: usize)
        ensures
            n == self.children@.len(),
    {
        self.children.len()
    }

    /// Borrow the children.
    pub fn get_children(&self) -> (r: &Vec<Node>)
        ensures
            r == &self.children,
    {
        &self.children
    }

    /// Index of the first child carrying character `c`, if any.
    pub fn child_index(&self, c: char) -> (r: Option<usize>)
        ensures
            match r {
                Some(k) => {
                    &&& k < self.children@.len()
                    &&& self.children@[k as int].val == c
                    &&& child_pos(self.children@, c) == Some(k as int)
                },
                None => child_pos(self.children@, c) is None,
            },
    {
        let mut k: usize = 0;
        while k < self.children.len()
            invariant
                k <= self.children@.len(),
                forall|j: int| 0 <= j < k ==> self.children@[j].val != c,
            decreases self.children@.len() - k,
        {
            if self.children[k].val == c {
                proof {
                    lemma_child_pos_first(self.children@, c, k as int);
                }
                return Some(k);
            }
            k = k + 1;
        }
        proof {
            lemma_child_pos_none(self.children@, c);
        }
        None
    }

    /// Append a fresh child carrying character `c`; the existing children
    /// are untouched.
    pub fn new_child(&mut self, c: char, is_end_of_word: bool)
        ensures
            final(self).val == old(self).val,
            final(self).is_end_of_word == old(self).is_end_of_word,
            final(self).children@.len() == old(self).children@.len() + 1,
            forall|j: int|
                0 <= j < old(self).children@.len() ==> final(self).children@[j] == old(
                    self,
                ).children@[j],
            final(self).children@.last().val == c,
            final(self).children@.last().is_end_of_word == is_end_of_word,
            final(self).children@.last().children@.len() == 0,
    {
        let m = Node::new(c, is_end_of_word);
        self.children.push(m);
    }

    /// Remove the first child carrying character `c`, if any.
    pub fn remove_child(&mut self, c: char)
        ensures
            final(self).val == old(self).val,
            final(self).is_end_of_word == old(self).is_end_of_word,
            match child_pos(old(self).children@, c) {
                Some(i) => final(self).children@ == old(self).children@.remove(i),
                None => final(self).children@ == old(self).children@,
            },
    {
        match self.child_index(c) {
            Some(k) => {
                let _ = self.children.remove(k);
            },
            None => {},
        }
    }

    /// Borrow the child carrying character `c`, if any.
    pub fn get_child(&self, c: char) -> (r: Option<&Node>)
        ensures
            match r {
                Some(m) => find_child(self.children@, c) == Some(*m),
                None => find_child(self.children@, c) is None,
            },
    {
        match self.child_index(c) {
            Some(k) => Some(&self.children[k]),
            None => None,
        }
    }
}

/// If `s[k]` carries `c` and no earlier child does, then `k` is the position
/// found for `c`.
pub proof fn lemma_child_pos_first(s: Seq<Node>, c: char, k: int)
    requires
        0 <= k < s.len(),
        s[k].val == c,
        forall|j: int| 0 <= j < k ==> s[j].val != c,
    ensures
        child_pos(s, c) == Some(k),
    decreases s.len(),
{
    if k == 0 {
    } else {
        lemma_child_pos_first(s.drop_first(), c, k - 1);
    }
}

/// If no child carries `c`, nothing is found for `c`.
pub proof fn lemma_child_pos_none(s: Seq<Node>, c: char)
    requires
        forall|j: int| 0 <= j < s.len() ==> s[j].val != c,
    ensures
        child_pos(s, c) is None,
    decreases s.len(),
{
    if s.len() > 0 {
        lemma_child_pos_none(s.drop_first(), c);
    }
}

/// What a successful or failed child lookup says about the sequence.
pub proof fn lemma_child_pos_props(s: Seq<Node>, c: char)
    ensures
        match child_pos(s, c) {
            Some(i) => {
                &&& 0 <= i < s.len()
                &&& s[i].val == c
                &&& forall|j: int| 0 <= j < i ==> s[j].val != c
            },
            None => forall|j: int| 0 <= j < s.len() ==> s[j].val != c,
        },
    decreases s.len(),
{
    if s.len() > 0 {
        lemma_child_pos_props(s.drop_first(), c);
        if s[0].val != c {
            match child_pos(s.drop_first(), c) {
                Some(i) => {
                    assert(s.drop_first()[i] == s[i + 1]);
                    assert forall|j: int| 0 <= j < i + 1 implies s[j].val != c by {
                        if j > 0 {
                            assert(s[j] == s.drop_first()[j - 1]);
                        }
                    }
                },
                None => {
                    assert forall|j: int| 0 <= j < s.len() implies s[j].val != c by {
                        if j > 0 {
                            assert(s[j] == s.drop_first()[j - 1]);
                        }
                    }
                },
            }
        }
    }
}

/// Child positions depend only on the characters the children carry.
pub proof fn lemma_child_pos_same_vals(s1: Seq<Node>, s2: Seq<Node>, x: char)
    requires
        s1.len() == s2.len(),
        forall|j: int| 0 <= j < s1.len() ==> s1[j].val == s2[j].val,
    ensures
        child_pos(s1, x) == child_pos(s2, x),
    decreases s1.len(),
{
    if s1.len() > 0 {
        lemma_child_pos_same_vals(s1.drop_first(), s2.drop_first(), x);
    }
}

impl NodeRefOps for Node {
    open spec fn traversable(&self) -> bool {
        self.wf()
    }

    fn preorder(&self) -> (words: Vec<String>)
        ensures
            forall|j: int|
                0 <= j < words@.len() ==> subtree_word(
                    Seq::<char>::empty(),
                    *self,
                    words@[j]@,
                ),
            forall|u: Seq<char>|
                subtree_word(Seq::<char>::empty(), *self, u) ==> exists|j: int|
                    0 <= j < words@.len() && words@[j]@ == u,
            forall|j1: int, j2: int|
                0 <= j1 < j2 < words@.len() ==> words@[j1]@ != words@[j2]@,
    {
        let mut prefix: Vec<char> = Vec::new();
        let mut out: Vec<String> = Vec::new();
        self.collect_words(&mut prefix, &mut out);
        out
    }
}

/// Two nonempty sequences with equal heads and equal tails are equal.
pub proof fn lemma_seq_head_tail(u: Seq<char>, v: Seq<char>)
    requires
        u.len() > 0,
        v.len() > 0,
        u[0] == v[0],
        u.drop_first() == v.drop_first(),
    ensures
        u == v,
{
    assert(u.drop_first().len() == u.len() - 1);
    assert(v.drop_first().len() == v.len() - 1);
    assert(u.len() == v.len());
    assert forall|j: int| 0 <= j < u.len() implies u[j] == v[j] by {
        if j > 0 {
            assert(u[j] == u.drop_first()[j - 1]);
            assert(v[j] == v.drop_first()[j - 1]);
        }
    }
    assert(u =~= v);
}

/// Replacing the node at position `k` trades its count for the new node's.
pub proof fn lemma_count_seq_update(s: Seq<Node>, k: int, m: Node)
    requires
        0 <= k < s.len(),
    ensures
        count_seq(s.update(k, m)) + s[k].count() == count_seq(s) + m.count(),
    decreases s.len(),
{
    if k == 0 {
        assert(s.update(0, m).drop_first() =~= s.drop_first());
    } else {
        assert(s.update(k, m).drop_first() =~= s.drop_first().update(k - 1, m));
        lemma_count_seq_update(s.drop_first(), k - 1, m);
    }
}

/// Appending a node adds its count.
pub proof fn lemma_count_seq_push(s: Seq<Node>, m: Node)
    ensures
        count_seq(s.push(m)) == count_seq(s) + m.count(),
    decreases s.len(),
{
    if s.len() == 0 {
        assert(s.push(m)[0] == m);
        assert(s.push(m).drop_first() =~= Seq::<Node>::empty());
        assert(count_seq(s.push(m).drop_first()) == 0);
    } else {
        assert(s.push(m)[0] == s[0]);
        assert(s.push(m).drop_first() =~= s.drop_first().push(m));
        lemma_count_seq_push(s.drop_first(), m);
    }
}

/// Removing the node at position `k` subtracts its count.
pub proof fn lemma_count_seq_remove(s: Seq<Node>, k: int)
    requires
        0 <= k < s.len(),
    ensures
        count_seq(s.remove(k)) + s[k].count() == count_seq(s),
    decreases s.len(),
{
    if k == 0 {
        assert(s.remove(0) =~= s.drop_first());
    } else {
        assert(s.remove(k).drop_first() =~= s.drop_first().remove(k - 1));
        lemma_count_seq_remove(s.drop_first(), k - 1);
    }
}

/// `u` extends the path `p` by the character of `n` and then spells a
/// complete word of the subtree below `n`: the shape of every word that the
/// traversal of that subtree reports.
pub open spec fn subtree_word(p: Seq<char>, n: Node, u: Seq<char>) -> bool {
    &&& u.len() > p.len()
    &&& u.take(p.len() as int) == p
    &&& u[p.len() as int] == n.val
    &&& n.has_word(u.skip(p.len() as int + 1))
}

/// A word of the subtree below `n` either ends at `n` itself or runs on
/// through exactly one of its children.
pub proof fn lemma_subtree_word_unfold(p: Seq<char>, n: Node, u: Seq<char>)
    requires
        n.wf(),
    ensures
        subtree_word(p, n, u) <==> ((u == p.push(n.val) && n.is_end_of_word) || (exists|k: int|
            0 <= k < n.children@.len() && subtree_word(p.push(n.val), #[trigger] n.children@[k], u))),
{
    let p1 = p.push(n.val);
    if subtree_word(p, n, u) {
        let v = u.skip(p.len() as int + 1);
        if v.len() == 0 {
            assert(u =~= p1);
        } else {
            lemma_child_pos_props(n.children@, v[0]);
            let k = child_pos(n.children@, v[0])->Some_0;
            let m = n.children@[k];
            assert(subtree_word(p1, m, u)) by {
                assert(u.take(p1.len() as int) =~= p1);
                assert(u[p1.len() as int] == v[0]);
                assert(v.drop_first() =~= u.skip(p1.len() as int + 1));
                assert(m.has_word(u.skip(p1.len() as int + 1)));
            }
        }
    }
    if u == p1 && n.is_end_of_word {
        assert(subtree_word(p, n, u)) by {
            assert(u.take(p.len() as int) =~= p);
            assert(u.skip(p.len() as int + 1) =~= Seq::<char>::empty());
        }
    }
    if exists|k: int|
        0 <= k < n.children@.len() && subtree_word(p1, #[trigger] n.children@[k], u) {
        let k = choose|k: int|
            0 <= k < n.children@.len() && subtree_word(p1, #[trigger] n.children@[k], u);
        let m = n.children@[k];
        assert(subtree_word(p, n, u)) by {
            assert(u.take(p.len() as int) =~= p) by {
                assert(u.take(p1.len() as int) == p1);
                assert forall|j: int| 0 <= j < p.len() implies u.take(p.len() as int)[j] == p[j] by {
                    assert(u.take(p1.len() as int)[j] == p1[j]);
                }
            }
            assert(u[p.len() as int] == u.take(p1.len() as int)[p.len() as int] == p1[p.len() as int]);
            let v = u.skip(p.len() as int + 1);
            assert(v[0] == u[p1.len() as int] == m.val);
            lemma_child_pos_first(n.children@, m.val, k);
            assert(find_child(n.children@, v[0]) == Some(m));
            assert(v.drop_first() =~= u.skip(p1.len() as int + 1));
            assert(n.has_word(v));
        }
    }
}

/// Every node reached from a well-formed node is itself well-formed.
pub proof fn lemma_node_at_wf(n: Node, p: Seq<char>)
    requires
        n.wf(),
    ensures
        n.node_at(p) matches Some(m) ==> m.wf(),
    decreases p.len(),
{
    if p.len() > 0 {
        lemma_child_pos_props(n.children@, p[0]);
        match child_pos(n.children@, p[0]) {
            None => {},
            Some(k) => {
                lemma_node_at_wf(n.children@[k], p.drop_first());
            },
        }
    }
}

/// Every node reached from a well-formed node along a nonempty path is
/// live: it ends a stored word or has a child that leads on to one.
pub proof fn lemma_reachable_live(n: Node, p: Seq<char>)
    requires
        n.wf(),
        p.len() > 0,
    ensures
        n.node_at(p) matches Some(m) ==> m.live(),
    decreases p.len(),
{
    lemma_child_pos_props(n.children@, p[0]);
    match child_pos(n.children@, p[0]) {
        None => {},
        Some(k) => {
            if p.len() == 1 {
                assert(p.drop_first().len() == 0);
                assert(n.children@[k].node_at(p.drop_first()) == Some(n.children@[k]));
                assert(n.children@[k].live());
            } else {
                lemma_reachable_live(n.children@[k], p.drop_first());
            }
        },
    }
}

/// A nonempty word below `n` is a word of the subtree of exactly one child,
/// reported relative to the empty path.
pub proof fn lemma_words_by_child(n: Node, u: Seq<char>)
    requires
        n.wf(),
        u.len() > 0,
    ensures
        n.has_word(u) <==> exists|k: int|
            0 <= k < n.children@.len() && #[trigger] subtree_word(
                Seq::<char>::empty(),
                n.children@[k],
                u,
            ),
{
    if n.has_word(u) {
        lemma_child_pos_props(n.children@, u[0]);
        let k = child_pos(n.children@, u[0])->Some_0;
        assert(subtree_word(Seq::<char>::empty(), n.children@[k], u)) by {
            assert(u.take(0) =~= Seq::<char>::empty());
            assert(u.skip(1) =~= u.drop_first());
        }
    }
    if exists|k: int|
        0 <= k < n.children@.len() && #[trigger] subtree_word(
            Seq::<char>::empty(),
            n.children@[k],
            u,
        ) {
        let k = choose|k: int|
            0 <= k < n.children@.len() && #[trigger] subtree_word(
                Seq::<char>::empty(),
                n.children@[k],
                u,
            );
        let m = n.children@[k];
        assert(u[0] == m.val);
        lemma_child_pos_first(n.children@, u[0], k);
        assert(u.skip(1) =~= u.drop_first());
        assert(n.has_word(u) == m.has_word(u.drop_first()));
    }
}

/// Following a concatenated path is following its two parts in turn.
pub proof fn lemma_node_at_append(n: Node, a: Seq<char>, b: Seq<char>)
    ensures
        n.node_at(a + b) == match n.node_at(a) {
            None => None::<Node>,
            Some(m) => m.node_at(b),
        },
    decreases a.len(),
{
    if a.len() == 0 {
        assert(a + b =~= b);
    } else {
        assert((a + b)[0] == a[0]);
        assert((a + b).drop_first() =~= a.drop_first() + b);
        match find_child(n.children@, a[0]) {
            None => {},
            Some(m) => {
                lemma_node_at_append(m, a.drop_first(), b);
            },
        }
    }
}

/// The total count over a children list is at least any one child's count.
pub proof fn lemma_count_seq_ge_elem(s: Seq<Node>, j: int)
    requires
        0 <= j < s.len(),
    ensures
        count_seq(s) >= s[j].count(),
    decreases s.len(),
{
    if j > 0 {
        lemma_count_seq_ge_elem(s.drop_first(), j - 1);
        assert(s.drop_first()[j - 1] == s[j]);
    }
}

/// A subtree that holds a word counts at least one end-of-word node.
pub proof fn lemma_has_word_count_pos(n: Node, u: Seq<char>)
    requires
        n.has_word(u),
    ensures
        n.count() >= 1,
    decreases u.len(),
{
    if u.len() == 0 {
    } else {
        match child_pos(n.children@, u[0]) {
            None => {},
            Some(p) => {
                lemma_child_pos_props(n.children@, u[0]);
                lemma_has_word_count_pos(n.children@[p], u.drop_first());
                lemma_count_seq_ge_elem(n.children@, p);
            },
        }
    }
}

/// Dropping the child at position `k` silences the words through its
/// character and leaves every other word alone.
pub proof fn lemma_remove_child_words(n0: Node, n1: Node, k: int, c: char)
    requires
        n0.wf(),
        0 <= k < n0.children@.len(),
        n0.children@[k].val == c,
        n1.children@ == n0.children@.remove(k),
        n1.is_end_of_word == n0.is_end_of_word,
    ensures
        forall|u: Seq<char>|
            #[trigger] n1.has_word(u) <==> (if u.len() > 0 && u[0] == c {
                false
            } else {
                n0.has_word(u)
            }),
{
    let s0 = n0.children@;
    let s1 = n1.children@;
    s0.remove_ensures(k);
    assert forall|u: Seq<char>|
        #[trigger] n1.has_word(u) <==> (if u.len() > 0 && u[0] == c {
            false
        } else {
            n0.has_word(u)
        }) by {
        if u.len() == 0 {
        } else if u[0] == c {
            assert forall|j: int| 0 <= j < s1.len() implies s1[j].val != c by {
                if j < k {
                    assert(s1[j] == s0[j]);
                } else {
                    assert(s1[j] == s0[j + 1]);
                }
            }
            lemma_child_pos_none(s1, c);
            assert(!n1.has_word(u));
        } else {
            lemma_child_pos_props(s0, u[0]);
            match child_pos(s0, u[0]) {
                None => {
                    assert forall|j: int| 0 <= j < s1.len() implies s1[j].val != u[0] by {
                        if j < k {
                            assert(s1[j] == s0[j]);
                        } else {
                            assert(s1[j] == s0[j + 1]);
                        }
                    }
                    lemma_child_pos_none(s1, u[0]);
                    assert(!n1.has_word(u));
                    assert(!n0.has_word(u));
                },
                Some(p) => {
                    assert(p != k);
                    let p1 = if p < k { p } else { p - 1 };
                    assert(s1[p1] == s0[p]);
                    assert forall|j: int| 0 <= j < p1 implies s1[j].val != u[0] by {
                        if j < k {
                            assert(s1[j] == s0[j]);
                        } else {
                            assert(s1[j] == s0[j + 1]);
                        }
                    }
                    lemma_child_pos_first(s1, u[0], p1);
                    assert(n1.has_word(u) == s1[p1].has_word(u.drop_first()));
                    assert(n0.has_word(u) == s0[p].has_word(u.drop_first()));
                },
            }
        }
    }
}

impl Node {
    /// Build the chain of fresh nodes spelling `w[i..]`, whose subtree
    /// holds exactly that one word.
    fn new_chain(w: &Vec<char>, i: usize) -> (m: Node)
        requires
            i < w@.len(),
        ensures
            m.wf(),
            m.live(),
            m.val == w@[i as int],
            m.count() == 1,
            forall|v: Seq<char>| m.has_word(v) <==> v == w@.skip(i + 1),
        decreases w@.len() - i,
    {
        let wlen = w.len();
        if i + 1 == wlen {
            let m = Node::new(w[i], true);
            proof {
                assert(w@.skip(i + 1) =~= Seq::<char>::empty());
                assert forall|v: Seq<char>| m.has_word(v) <==> v == w@.skip(i + 1) by {
                    if v.len() > 0 {
                        assert(child_pos(m.children@, v[0]) is None);
                    } else {
                        assert(v =~= w@.skip(i + 1));
                    }
                }
            }
            m
        } else {
            let child = Node::new_chain(w, i + 1);
            let mut m = Node::new(w[i], false);
            m.children.push(child);
            proof {
                let s = m.children@;
                assert(s.len() == 1 && s[0] == child);
                assert(count_seq(s.drop_first()) == 0);
                assert(m.count() == 1);
                assert forall|v: Seq<char>| m.has_word(v) <==> v == w@.skip(i + 1) by {
                    let tail = w@.skip(i + 1);
                    assert(tail.len() == w@.len() - i - 1 > 0);
                    assert(tail[0] == w@[i + 1]);
                    if v.len() == 0 {
                        assert(!m.has_word(v));
                        assert(v != tail);
                    } else {
                        if v[0] == child.val {
                            assert(child_pos(s, v[0]) == Some(0int));
                            assert(m.has_word(v) == child.has_word(v.drop_first()));
                            assert(tail.drop_first() =~= w@.skip(i + 2));
                            if v.drop_first() == w@.skip(i + 2) {
                                lemma_seq_head_tail(v, tail);
                            }
                            if v == tail {
                                assert(v.drop_first() =~= w@.skip(i + 2));
                            }
                        } else {
                            assert(s.drop_first() =~= Seq::<Node>::empty());
                            assert(child_pos(s.drop_first(), v[0]) is None);
                            assert(child_pos(s, v[0]) is None);
                            assert(!m.has_word(v));
                            assert(v != tail);
                        }
                    }
                }
            }
            m
        }
    }

    /// Insert the word `w[i..]` into the subtree below `self`: descend while
    /// children match, then mark or create the terminal node.
    pub(crate) fn insert_rec(&mut self, w: &Vec<char>, i: usize) -> (added: bool)
        requires
            old(self).wf(),
            i < w@.len(),
        ensures
            final(self).wf(),
            final(self).val == old(self).val,
            final(self).is_end_of_word == old(self).is_end_of_word,
            final(self).children@.len() >= 1,
            forall|u: Seq<char>|
                final(self).has_word(u) <==> old(self).has_word(u) || u == w@.skip(i as int),
            added == !old(self).has_word(w@.skip(i as int)),
            final(self).count() == old(self).count() + (if added { 1nat } else { 0nat }),
        decreases w@.len() - i,
    {
        let c = w[i];
        let wlen = w.len();
        let ghost suffix = w@.skip(i as int);
        proof {
            assert(suffix.len() == w@.len() - i);
            assert(suffix[0] == c);
        }
        match self.child_index(c) {
            Some(k) => {
                let ghost s0 = self.children@;
                let mut m = self.children.remove(k);
                let ghost m0 = m;
                let added: bool;
                if i + 1 == wlen {
                    added = !m.is_end_of_word;
                    m.is_end_of_word = true;
                } else {
                    added = m.insert_rec(w, i + 1);
                }
                self.children.insert(k, m);
                proof {
                    let s1 = self.children@;
                    assert(s1 =~= s0.update(k as int, m));
                    let tail = w@.skip(i + 1);
                    assert(suffix.drop_first() =~= tail);
                    // What insertion did to the chosen child's subtree.
                    assert forall|v: Seq<char>| m.has_word(v) <==> m0.has_word(v) || v == tail by {
                        if i + 1 == w@.len() {
                            assert(tail =~= Seq::<char>::empty());
                            if v.len() > 0 {
                                assert(m.children@ == m0.children@);
                                assert(m.node_at(v) == m0.node_at(v));
                            } else {
                                assert(v =~= tail);
                            }
                        }
                    }
                    assert(added == !m0.has_word(tail)) by {
                        if i + 1 == w.len() {
                            assert(tail =~= Seq::<char>::empty());
                        }
                    }
                    assert(m.count() == m0.count() + (if added { 1nat } else { 0nat })) by {
                        if i + 1 == w.len() {
                            assert(count_seq(m.children@) == count_seq(m0.children@));
                        }
                    }
                    // Lookups in the updated children list.
                    lemma_child_pos_props(s0, c);
                    assert forall|x: char| child_pos(s1, x) == child_pos(s0, x) by {
                        lemma_child_pos_same_vals(s1, s0, x);
                    }
                    // The word set of self changes by exactly `suffix`.
                    assert forall|u: Seq<char>|
                        self.has_word(u) <==> old(self).has_word(u) || u == suffix by {
                        if u.len() == 0 {
                            assert(u != suffix);
                        } else if u[0] == c {
                            assert(find_child(s1, c) == Some(m));
                            assert(find_child(s0, c) == Some(m0));
                            assert(self.has_word(u) == m.has_word(u.drop_first()));
                            assert(old(self).has_word(u) == m0.has_word(u.drop_first()));
                            if u.drop_first() == tail {
                                lemma_seq_head_tail(u, suffix);
                            }
                            if u == suffix {
                                assert(u.drop_first() =~= tail);
                            }
                        } else {
                            assert(u != suffix);
                            match child_pos(s0, u[0]) {
                                None => {
                                    assert(!self.has_word(u));
                                    assert(!old(self).has_word(u));
                                },
                                Some(p) => {
                                    lemma_child_pos_props(s0, u[0]);
                                    assert(s0[p].val == u[0] && u[0] != c);
                                    assert(p != k);
                                    assert(s1[p] == s0[p]);
                                    assert(self.has_word(u) == s1[p].has_word(u.drop_first()));
                                    assert(old(self).has_word(u) == s0[p].has_word(u.drop_first()));
                                },
                            }
                        }
                    }
                    // Counting and well-formedness.
                    lemma_count_seq_update(s0, k as int, m);
                    assert(m0 == s0[k as int]);
                    assert(m0.wf() && m0.live());
                    assert(m.wf() && m.live()) by {
                        if i + 1 == w@.len() {
                            assert(m.children@ == m0.children@);
                            assert forall|a: int, b: int|
                                0 <= a < b < m.children@.len()
                                    implies m.children@[a].val != m.children@[b].val by {
                                assert(m.children@[a] == m0.children@[a]);
                                assert(m.children@[b] == m0.children@[b]);
                            }
                            assert forall|a: int|
                                0 <= a < m.children@.len()
                                    implies (#[trigger] m.children@[a]).wf()
                                    && m.children@[a].live() by {
                                assert(m.children@[a] == m0.children@[a]);
                            }
                        }
                    }
                    assert(self.wf()) by {
                        assert forall|a: int, b: int|
                            0 <= a < b < s1.len() implies s1[a].val != s1[b].val by {
                            assert(s0[a].val == s1[a].val && s0[b].val == s1[b].val);
                        }
                        assert forall|a: int|
                            0 <= a < s1.len() implies (#[trigger] s1[a]).wf() && s1[a].live() by {
                            if a != k {
                                assert(s1[a] == s0[a]);
                            } else {
                                assert(s1[a] == m);
                            }
                        }
                    }
                    assert(old(self).has_word(suffix) == m0.has_word(tail)) by {
                        assert(find_child(s0, c) == Some(m0));
                    }
                }
                added
            },
            None => {
                let ghost s0 = self.children@;
                let m = Node::new_chain(w, i);
                self.children.push(m);
                proof {
                    let s1 = self.children@;
                    let tail = w@.skip(i + 1);
                    assert(suffix.drop_first() =~= tail);
                    lemma_child_pos_props(s0, c);
                    lemma_count_seq_push(s0, m);
                    lemma_child_pos_first(s1, c, s0.len() as int);
                    assert(!old(self).has_word(suffix)) by {
                        assert(child_pos(s0, suffix[0]) is None);
                    }
                    assert forall|u: Seq<char>|
                        self.has_word(u) <==> old(self).has_word(u) || u == suffix by {
                        if u.len() == 0 {
                            assert(u != suffix);
                        } else if u[0] == c {
                            assert(find_child(s1, c) == Some(m));
                            assert(self.has_word(u) == m.has_word(u.drop_first()));
                            assert(!old(self).has_word(u));
                            if u.drop_first() == tail {
                                lemma_seq_head_tail(u, suffix);
                            }
                            if u == suffix {
                                assert(u.drop_first() =~= tail);
                            }
                        } else {
                            assert(u != suffix);
                            lemma_child_pos_props(s0, u[0]);
                            match child_pos(s0, u[0]) {
                                None => {
                                    lemma_child_pos_none(s1, u[0]);
                                    assert(!self.has_word(u));
                                    assert(!old(self).has_word(u));
                                },
                                Some(p) => {
                                    lemma_child_pos_first(s1, u[0], p);
                                    assert(s1[p] == s0[p]);
                                },
                            }
                        }
                    }
                    assert(self.wf()) by {
                        assert forall|a: int, b: int|
                            0 <= a < b < s1.len() implies s1[a].val != s1[b].val by {
                            if b == s0.len() {
                                assert(s1[a] == s0[a]);
                                assert(s1[b] == m);
                                assert(s0[a].val != c);
                            }
                        }
                        assert forall|a: int|
                            0 <= a < s1.len() implies (#[trigger] s1[a]).wf() && s1[a].live() by {
                            if a != s0.len() {
                                assert(s1[a] == s0[a]);
                            } else {
                                assert(s1[a] == m);
                            }
                        }
                    }
                }
                true
            },
        }
    }

    /// Remove the word `w[i..]` from the subtree below `self`: descend to the
    /// terminal node, clear its flag if other words pass through it, and
    /// otherwise prune the dead tail on the way back up.
    pub(crate) fn remove_rec(&mut self, w: &Vec<char>, i: usize)
        requires
            old(self).wf(),
            i < w@.len(),
            old(self).has_word(w@.skip(i as int)),
        ensures
            final(self).wf(),
            final(self).val == old(self).val,
            final(self).is_end_of_word == old(self).is_end_of_word,
            forall|u: Seq<char>|
                final(self).has_word(u) <==> old(self).has_word(u) && u != w@.skip(i as int),
            final(self).count() + 1 == old(self).count(),
        decreases w@.len() - i,
    {
        let c = w[i];
        let wlen = w.len();
        let ghost suffix = w@.skip(i as int);
        let ghost tail = w@.skip(i + 1);
        proof {
            assert(suffix.len() == w@.len() - i);
            assert(suffix[0] == c);
            assert(suffix.drop_first() =~= tail);
        }
        match self.child_index(c) {
            None => {
                proof {
                    assert(find_child(self.children@, suffix[0]) is None);
                    assert(!old(self).has_word(suffix));
                    assert(false);
                }
            },
            Some(k) => {
                let ghost s0 = self.children@;
                let mut m = self.children.remove(k);
                let ghost m0 = m;
                proof {
                    assert(m0 == s0[k as int]);
                    assert(m0.wf() && m0.live());
                    assert(find_child(s0, c) == Some(m0));
                    assert(old(self).has_word(suffix) == m0.has_word(tail));
                    lemma_child_pos_props(s0, c);
                }
                if i + 1 == wlen {
                    proof {
                        assert(tail =~= Seq::<char>::empty());
                        assert(m0.is_end_of_word);
                    }
                    if m.children_size() > 0 {
                        m.is_end_of_word = false;
                        self.children.insert(k, m);
                        proof {
                            assert(self.children@ =~= s0.update(k as int, m));
                            assert forall|v: Seq<char>|
                                m.has_word(v) <==> m0.has_word(v) && v != tail by {
                                if v.len() == 0 {
                                    assert(v =~= tail);
                                } else {
                                    assert(m.children@ == m0.children@);
                                    assert(m.node_at(v) == m0.node_at(v));
                                    assert(v != tail);
                                }
                            }
                            self.lemma_after_child_update(*old(self), s0, k as int, m0, m, c, suffix, tail);
                            lemma_count_seq_update(s0, k as int, m);
                            assert(count_seq(m.children@) == count_seq(m0.children@));
                            assert(m.wf() && m.live()) by {
                                self.lemma_same_children_wf(m0, m);
                            }
                            self.lemma_parent_wf_update(*old(self), s0, k as int, m);
                        }
                    } else {
                        proof {
                            lemma_remove_child_words(*old(self), *self, k as int, c);
                            assert(count_seq(m0.children@) == 0);
                            assert(m0.count() == 1);
                            lemma_count_seq_remove(s0, k as int);
                            assert forall|u: Seq<char>|
                                self.has_word(u) <==> old(self).has_word(u) && u != suffix by {
                                if u.len() > 0 && u[0] == c {
                                    assert(old(self).has_word(u) == m0.has_word(u.drop_first()));
                                    assert(m0.has_word(u.drop_first()) == (u.drop_first().len() == 0)) by {
                                        if u.drop_first().len() > 0 {
                                            assert(child_pos(m0.children@, u.drop_first()[0]) is None);
                                        }
                                    }
                                    if u.drop_first().len() == 0 {
                                        assert(u.drop_first() =~= tail);
                                        lemma_seq_head_tail(u, suffix);
                                    }
                                } else {
                                    assert(u != suffix);
                                }
                            }
                            self.lemma_parent_wf_remove(*old(self), s0, k as int);
                        }
                    }
                } else {
                    m.remove_rec(w, i + 1);
                    if m.is_end_of_word || m.children_size() > 0 {
                        self.children.insert(k, m);
                        proof {
                            assert(self.children@ =~= s0.update(k as int, m));
                            self.lemma_after_child_update(*old(self), s0, k as int, m0, m, c, suffix, tail);
                            lemma_count_seq_update(s0, k as int, m);
                            self.lemma_parent_wf_update(*old(self), s0, k as int, m);
                        }
                    } else {
                        proof {
                            lemma_remove_child_words(*old(self), *self, k as int, c);
                            assert(count_seq(m.children@) == 0);
                            assert(m.count() == 0);
                            lemma_count_seq_remove(s0, k as int);
                            assert forall|v: Seq<char>| !m.has_word(v) by {
                                if v.len() > 0 {
                                    assert(child_pos(m.children@, v[0]) is None);
                                }
                            }
                            assert forall|u: Seq<char>|
                                self.has_word(u) <==> old(self).has_word(u) && u != suffix by {
                                if u.len() > 0 && u[0] == c {
                                    assert(old(self).has_word(u) == m0.has_word(u.drop_first()));
                                    if m0.has_word(u.drop_first()) {
                                        assert(u.drop_first() == tail);
                                        lemma_seq_head_tail(u, suffix);
                                    }
                                } else {
                                    assert(u != suffix);
                                }
                            }
                            self.lemma_parent_wf_remove(*old(self), s0, k as int);
                        }
                    }
                }
            },
        }
    }

    /// A node whose children list is unchanged keeps its child structure:
    /// only the end-of-word flag may differ.
    proof fn lemma_same_children_wf(self, m0: Node, m: Node)
        requires
            m0.wf(),
            m.children@ == m0.children@,
        ensures
            m.wf(),
    {
        assert forall|a: int, b: int|
            0 <= a < b < m.children@.len() implies m.children@[a].val != m.children@[b].val by {
            assert(m.children@[a] == m0.children@[a]);
            assert(m.children@[b] == m0.children@[b]);
        }
        assert forall|a: int|
            0 <= a < m.children@.len() implies (#[trigger] m.children@[a]).wf()
            && m.children@[a].live() by {
            assert(m.children@[a] == m0.children@[a]);
        }
    }

    /// After replacing the child at `k` (same character), the parent's word
    /// set follows the child's through that character and is otherwise
    /// untouched.
    proof fn lemma_after_child_update(
        self,
        n0: Node,
        s0: Seq<Node>,
        k: int,
        m0: Node,
        m: Node,
        c: char,
        suffix: Seq<char>,
        tail: Seq<char>,
    )
        requires
            n0.children@ == s0,
            0 <= k < s0.len(),
            s0[k] == m0,
            m0.val == c,
            m.val == c,
            child_pos(s0, c) == Some(k),
            self.children@ == s0.update(k, m),
            self.is_end_of_word == n0.is_end_of_word,
            suffix.len() > 0,
            suffix[0] == c,
            suffix.drop_first() == tail,
            forall|v: Seq<char>| #[trigger] m.has_word(v) <==> m0.has_word(v) && v != tail,
        ensures
            forall|u: Seq<char>|
                #[trigger] self.has_word(u) <==> n0.has_word(u) && u != suffix,
    {
        let s1 = self.children@;
        assert forall|x: char| child_pos(s1, x) == child_pos(s0, x) by {
            lemma_child_pos_same_vals(s1, s0, x);
        }
        assert forall|u: Seq<char>|
            #[trigger] self.has_word(u) <==> n0.has_word(u) && u != suffix by {
            if u.len() == 0 {
                assert(u != suffix);
            } else if u[0] == c {
                assert(find_child(s1, c) == Some(m));
                assert(find_child(s0, c) == Some(m0));
                assert(self.has_word(u) == m.has_word(u.drop_first()));
                assert(n0.has_word(u) == m0.has_word(u.drop_first()));
                if u.drop_first() == tail {
                    lemma_seq_head_tail(u, suffix);
                }
                if u == suffix {
                    assert(u.drop_first() =~= tail);
                }
            } else {
                assert(u != suffix);
                lemma_child_pos_props(s0, u[0]);
                match child_pos(s0, u[0]) {
                    None => {
                        assert(!self.has_word(u));
                        assert(!n0.has_word(u));
                    },
                    Some(p) => {
                        assert(s0[p].val == u[0] && u[0] != c);
                        assert(p != k);
                        assert(s1[p] == s0[p]);
                        assert(self.has_word(u) == s1[p].has_word(u.drop_first()));
                        assert(n0.has_word(u) == s0[p].has_word(u.drop_first()));
                    },
                }
            }
        }
    }

    /// Replacing the child at `k` by a well-formed live node with the same
    /// character keeps the parent well-formed.
    proof fn lemma_parent_wf_update(self, n0: Node, s0: Seq<Node>, k: int, m: Node)
        requires
            n0.wf(),
            n0.children@ == s0,
            0 <= k < s0.len(),
            m.val == s0[k].val,
            m.wf(),
            m.live(),
            self.children@ == s0.update(k, m),
        ensures
            self.wf(),
    {
        let s1 = self.children@;
        assert forall|a: int, b: int|
            0 <= a < b < s1.len() implies s1[a].val != s1[b].val by {
            assert(s0[a].val == s1[a].val && s0[b].val == s1[b].val);
        }
        assert forall|a: int|
            0 <= a < s1.len() implies (#[trigger] s1[a]).wf() && s1[a].live() by {
            if a != k {
                assert(s1[a] == s0[a]);
            } else {
                assert(s1[a] == m);
            }
        }
    }

    /// Depth-first traversal below `self`: append to `out` every word of
    /// the subtree rooted at `self`, each exactly once, written after the
    /// characters already in `prefix`. The accumulator is restored to its
    /// incoming state whenever the walk backtracks past a branch.
    fn collect_words(&self, prefix: &mut Vec<char>, out: &mut Vec<String>)
        requires
            self.wf(),
        ensures
            final(prefix)@ == old(prefix)@,
            final(out)@.len() >= old(out)@.len(),
            forall|j: int| 0 <= j < old(out)@.len() ==> final(out)@[j] == old(out)@[j],
            forall|j: int|
                old(out)@.len() <= j < final(out)@.len() ==> subtree_word(
                    old(prefix)@,
                    *self,
                    final(out)@[j]@,
                ),
            forall|u: Seq<char>|
                subtree_word(old(prefix)@, *self, u) ==> exists|j: int|
                    old(out)@.len() <= j < final(out)@.len() && final(out)@[j]@ == u,
            forall|j1: int, j2: int|
                old(out)@.len() <= j1 < j2 < final(out)@.len() ==> final(out)@[j1]@
                    != final(out)@[j2]@,
        decreases *self,
    {
        let ghost p = prefix@;
        let ghost base = out@.len() as int;
        let ghost p1 = p.push(self.val);
        prefix.push(self.val);
        if self.is_end_of_word {
            let s = chars_to_string(prefix);
            out.push(s);
            proof {
                assert(out@[base]@ == p1);
            }
        }
        let mut k: usize = 0;
        while k < self.children.len()
            invariant
                self.wf(),
                prefix@ == p1,
                p1 == p.push(self.val),
                base == old(out)@.len(),
                k <= self.children@.len(),
                out@.len() >= base,
                forall|j: int| 0 <= j < base ==> out@[j] == old(out)@[j],
                forall|j: int|
                    base <= j < out@.len() ==> ((out@[j]@ == p1 && self.is_end_of_word) || exists|
                        k2: int,
                    |
                        0 <= k2 < k && subtree_word(p1, #[trigger] self.children@[k2], out@[j]@)),
                self.is_end_of_word ==> exists|j: int| base <= j < out@.len() && out@[j]@ == p1,
                forall|u: Seq<char>, k2: int|
                    0 <= k2 < k && #[trigger] subtree_word(p1, self.children@[k2], u)
                        ==> exists|j: int| base <= j < out@.len() && out@[j]@ == u,
                forall|j1: int, j2: int|
                    base <= j1 < j2 < out@.len() ==> out@[j1]@ != out@[j2]@,
            decreases self.children@.len() - k,
        {
            let ghost out_mid = out@;
            let ghost m = self.children@[k as int];
            self.children[k].collect_words(prefix, out);
            proof {
                assert forall|j: int|
                    base <= j < out@.len() implies ((out@[j]@ == p1 && self.is_end_of_word)
                    || exists|k2: int|
                    0 <= k2 < k + 1 && subtree_word(
                        p1,
                        #[trigger] self.children@[k2],
                        out@[j]@,
                    )) by {
                    if j < out_mid.len() {
                        assert(out@[j] == out_mid[j]);
                    } else {
                        assert(subtree_word(p1, m, out@[j]@));
                    }
                }
                assert forall|u: Seq<char>, k2: int|
                    0 <= k2 < k + 1 && #[trigger] subtree_word(p1, self.children@[k2], u)
                    implies exists|j: int| base <= j < out@.len() && out@[j]@ == u by {
                    if k2 < k {
                        let j = choose|j: int| base <= j < out_mid.len() && out_mid[j]@ == u;
                        assert(out@[j] == out_mid[j]);
                    }
                }
                assert forall|j1: int, j2: int|
                    base <= j1 < j2 < out@.len() implies out@[j1]@ != out@[j2]@ by {
                    if j1 < out_mid.len() && j2 >= out_mid.len() {
                        let u1 = out@[j1]@;
                        let u2 = out@[j2]@;
                        assert(out@[j1] == out_mid[j1]);
                        assert(subtree_word(p1, m, u2));
                        if u1 == p1 && self.is_end_of_word {
                            assert(u2.len() > p1.len());
                        } else {
                            let k2 = choose|k2: int|
                                0 <= k2 < k && subtree_word(
                                    p1,
                                    #[trigger] self.children@[k2],
                                    u1,
                                );
                            assert(u1[p1.len() as int] == self.children@[k2].val);
                            assert(u2[p1.len() as int] == m.val);
                        }
                    }
                }
            }
            k = k + 1;
        }
        let _ = prefix.pop();
        proof {
            assert(prefix@ =~= p);
            assert forall|j: int|
                base <= j < out@.len() implies subtree_word(p, *self, out@[j]@) by {
                lemma_subtree_word_unfold(p, *self, out@[j]@);
            }
            assert forall|u: Seq<char>|
                subtree_word(p, *self, u) implies exists|j: int|
                base <= j < out@.len() && out@[j]@ == u by {
                lemma_subtree_word_unfold(p, *self, u);
            }
        }
    }

    /// Dropping the child at `k` keeps the parent well-formed.
    proof fn lemma_parent_wf_remove(self, n0: Node, s0: Seq<Node>, k: int)
        requires
            n0.wf(),
            n0.children@ == s0,
            0 <= k < s0.len(),
            self.children@ == s0.remove(k),
        ensures
            self.wf(),
    {
        let s1 = self.children@;
        s0.remove_ensures(k);
        assert forall|a: int, b: int|
            0 <= a < b < s1.len() implies s1[a].val != s1[b].val by {
            let a0 = if a < k { a } else { a + 1 };
            let b0 = if b < k { b } else { b + 1 };
            assert(s1[a] == s0[a0] && s1[b] == s0[b0]);
        }
        assert forall|a: int|
            0 <= a < s1.len() implies (#[trigger] s1[a]).wf() && s1[a].live() by {
            let a0 = if a < k { a } else { a + 1 };
            assert(s1[a] == s0[a0]);
        }
    }
}

} // verus!
