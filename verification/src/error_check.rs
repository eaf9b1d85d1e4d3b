//! Single-edit-distance spelling suggestion: for an absent word, every
//! stored word one deletion, transposition, alteration or insertion away.

use vstd::prelude::*;

use crate::text::{chars_to_string, str_to_chars};
use crate::tree::Trie;

verus! {

/// A lowercase letter of the Latin alphabet, the alphabet the alteration and
/// insertion candidates draw from.
pub open spec fn is_lowercase(c: char) -> bool {
    97 <= c as int <= 122
}

/// `w` with the characters at positions `i` and `i + 1` swapped.
pub open spec fn transposed(w: Seq<char>, i: int) -> Seq<char> {
    w.update(i, w[i + 1]).update(i + 1, w[i])
}

/// `u` arises from `w` by one deletion, one adjacent transposition, one
/// alteration to a lowercase letter, or one insertion of a lowercase letter.
pub open spec fn is_single_edit(w: Seq<char>, u: Seq<char>) -> bool {
    ||| (exists|i: int| 0 <= i < w.len() && u == #[trigger] w.remove(i))
    ||| (exists|i: int| 0 <= i && i + 1 < w.len() && u == #[trigger] transposed(w, i))
    ||| (exists|i: int, c: char|
        0 <= i < w.len() && is_lowercase(c) && u == #[trigger] w.update(i, c))
    ||| (exists|i: int, c: char|
        0 <= i <= w.len() && is_lowercase(c) && u == #[trigger] w.insert(i, c))
}

/// Some entry of `res` spells the word `u`.
#[verifier::opaque]
pub open spec fn found(res: Seq<String>, u: Seq<char>) -> bool {
    exists|j: int| 0 <= j < res.len() && res[j]@ == u
}

/// A word found among the first entries is still found after more entries
/// are appended behind them.
proof fn lemma_found_extend(res0: Seq<String>, res1: Seq<String>, u: Seq<char>)
    requires
        res1.len() >= res0.len(),
        forall|j: int| 0 <= j < res0.len() ==> res1[j] == res0[j],
        found(res0, u),
    ensures
        found(res1, u),
{
    reveal(found);
    let j = choose|j: int| 0 <= j < res0.len() && res0[j]@ == u;
    assert(res1[j]@ == u);
}

/// The last entry is found.
proof fn lemma_found_last(res: Seq<String>, u: Seq<char>)
    requires
        res.len() > 0,
        res[res.len() - 1]@ == u,
    ensures
        found(res, u),
{
    reveal(found);
}

/// A word found in the appended part is found in the whole.
proof fn lemma_found_append(res0: Seq<String>, part: Seq<String>, u: Seq<char>)
    requires
        found(part, u),
    ensures
        found(res0 + part, u),
{
    reveal(found);
    let j = choose|j: int| 0 <= j < part.len() && part[j]@ == u;
    assert((res0 + part)[res0.len() + j]@ == u);
}

/// Spelling suggestion for words absent from the dictionary.
pub trait ErrorCheckable {
    /// If `word` is absent from the trie, every stored word a single edit
    /// away from it; `None` both when `word` is already stored (no
    /// suggestion is needed) and when no candidate matches (none is found).
    fn spelling_check(&self, word: &str) -> Option<Vec<String>>;
}

impl Trie {
    /// Candidate words of length one less: `w` with one character removed.
    #[verifier::rlimit(80)]
    fn deletion(&self, w: &Vec<char>) -> (res: Vec<String>)
        ensures
            forall|j: int| #![trigger res@[j]]
                0 <= j < res@.len() ==> self@.contains(res@[j]@) && (exists|i: int|
                    0 <= i < w@.len() && res@[j]@ == #[trigger] w@.remove(i)),
            forall|i: int|
                0 <= i < w@.len() && self@.contains(#[trigger] w@.remove(i)) ==> found(
                    res@,
                    w@.remove(i),
                ),
    {
        let mut res: Vec<String> = Vec::new();
        let mut i: usize = 0;
        while i < w.len()
            invariant
                i <= w@.len(),
                forall|j: int| #![trigger res@[j]]
                    0 <= j < res@.len() ==> self@.contains(res@[j]@) && (exists|i2: int|
                        0 <= i2 < w@.len() && res@[j]@ == #[trigger] w@.remove(i2)),
                forall|i2: int|
                    0 <= i2 < i && self@.contains(#[trigger] w@.remove(i2)) ==> found(
                        res@,
                        w@.remove(i2),
                    ),
            decreases w@.len() - i,
        {
            let ghost res0 = res@;
            let cand = Self::build_deletion(w, i);
            let s = chars_to_string(&cand);
            if self.contains(s.as_str()) {
                res.push(s);
            }
            proof {
                assert forall|i2: int|
                    0 <= i2 < i + 1 && self@.contains(#[trigger] w@.remove(i2)) implies found(
                    res@,
                    w@.remove(i2),
                ) by {
                    if i2 < i {
                        lemma_found_extend(res0, res@, w@.remove(i2));
                    } else {
                        lemma_found_last(res@, w@.remove(i2));
                    }
                }
            }
            i = i + 1;
        }
        proof {
            assert forall|j: int| #![trigger res@[j]]
                0 <= j < res@.len() implies self@.contains(res@[j]@) && (exists|i2: int|
                0 <= i2 < w@.len() && res@[j]@ == #[trigger] w@.remove(i2)) by {
                let i2 = choose|i2: int| 0 <= i2 < w@.len() && res@[j]@ == w@.remove(i2);
                assert(0 <= i2 < w@.len() && res@[j]@ == w@.remove(i2));
            }
        }
        res
    }

    /// Candidate words of the same length: `w` with one adjacent pair of
    /// characters swapped.
    #[verifier::rlimit(80)]
    fn transposition(&self, w: &Vec<char>) -> (res: Vec<String>)
        ensures
            forall|j: int| #![trigger res@[j]]
                0 <= j < res@.len() ==> self@.contains(res@[j]@) && (exists|i: int|
                    0 <= i && i + 1 < w@.len() && res@[j]@ == #[trigger] transposed(w@, i)),
            forall|i: int|
                0 <= i && i + 1 < w@.len() && self@.contains(#[trigger] transposed(w@, i)) ==> found(
                    res@,
                    transposed(w@, i),
                ),
    {
        let mut res: Vec<String> = Vec::new();
        if w.len() == 0 {
            return res;
        }
        let bound = w.len() - 1;
        let mut i: usize = 0;
        while i < bound
            invariant
                bound == w@.len() - 1,
                i <= bound,
                forall|j: int| #![trigger res@[j]]
                    0 <= j < res@.len() ==> self@.contains(res@[j]@) && (exists|i2: int|
                        0 <= i2 && i2 + 1 < w@.len() && res@[j]@ == #[trigger] transposed(w@, i2)),
                forall|i2: int|
                    0 <= i2 < i && self@.contains(#[trigger] transposed(w@, i2)) ==> found(
                        res@,
                        transposed(w@, i2),
                    ),
            decreases bound - i,
        {
            let ghost res0 = res@;
            let cand = Self::build_transposition(w, i);
            let s = chars_to_string(&cand);
            if self.contains(s.as_str()) {
                res.push(s);
            }
            proof {
                assert forall|i2: int|
                    0 <= i2 < i + 1 && self@.contains(#[trigger] transposed(w@, i2)) implies found(
                    res@,
                    transposed(w@, i2),
                ) by {
                    if i2 < i {
                        lemma_found_extend(res0, res@, transposed(w@, i2));
                    } else {
                        lemma_found_last(res@, transposed(w@, i2));
                    }
                }
            }
            i = i + 1;
        }
        proof {
            assert forall|j: int| #![trigger res@[j]]
                0 <= j < res@.len() implies self@.contains(res@[j]@) && (exists|i2: int|
                0 <= i2 && i2 + 1 < w@.len() && res@[j]@ == #[trigger] transposed(w@, i2)) by {
                let i2 = choose|i2: int|
                    0 <= i2 && i2 + 1 < w@.len() && res@[j]@ == transposed(w@, i2);
                assert(0 <= i2 && i2 + 1 < w@.len() && res@[j]@ == transposed(w@, i2));
            }
            assert(i == bound);
            assert forall|i2: int|
                0 <= i2 && i2 + 1 < w@.len() && self@.contains(#[trigger] transposed(w@, i2))
                implies found(res@, transposed(w@, i2)) by {
                assert(0 <= i2 < i);
            }
        }
        res
    }

    /// Candidate words of the same length: `w` with one character replaced
    /// by a lowercase letter.
    #[verifier::rlimit(80)]
    fn alteration(&self, w: &Vec<char>) -> (res: Vec<String>)
        ensures
            forall|j: int| #![trigger res@[j]]
                0 <= j < res@.len() ==> self@.contains(res@[j]@) && (exists|i: int, c: char|
                    0 <= i < w@.len() && is_lowercase(c) && res@[j]@ == #[trigger] w@.update(
                        i,
                        c,
                    )),
            forall|i: int, c: char|
                0 <= i < w@.len() && is_lowercase(c) && self@.contains(#[trigger] w@.update(i, c))
                    ==> found(res@, w@.update(i, c)),
    {
        let mut res: Vec<String> = Vec::new();
        let mut i: usize = 0;
        while i < w.len()
            invariant
                i <= w@.len(),
                forall|j: int| #![trigger res@[j]]
                    0 <= j < res@.len() ==> self@.contains(res@[j]@) && (exists|i2: int, c: char|
                        0 <= i2 < w@.len() && is_lowercase(c) && res@[j]@ == #[trigger] w@.update(
                            i2,
                            c,
                        )),
                forall|i2: int, c: char|
                    0 <= i2 < i && is_lowercase(c) && self@.contains(#[trigger] w@.update(i2, c))
                        ==> found(res@, w@.update(i2, c)),
            decreases w@.len() - i,
        {
            let ghost res0 = res@;
            self.alter_candidates_at(w, i, &mut res);
            proof {
                assert forall|j: int| #![trigger res@[j]]
                    0 <= j < res@.len() implies self@.contains(res@[j]@) && (exists|
                    i2: int,
                    c: char,
                |
                    0 <= i2 < w@.len() && is_lowercase(c) && res@[j]@ == #[trigger] w@.update(
                        i2,
                        c,
                    )) by {
                    if j < res0.len() {
                        assert(res@[j] == res0[j]);
                        let (i2, c) = choose|i2: int, c: char|
                            0 <= i2 < w@.len() && is_lowercase(c) && res0[j]@ == w@.update(i2, c);
                        assert(0 <= i2 < w@.len() && is_lowercase(c) && res@[j]@ == w@.update(
                            i2,
                            c,
                        ));
                    } else {
                        let c = choose|c: char|
                            is_lowercase(c) && res@[j]@ == w@.update(i as int, c);
                        assert(0 <= i as int && (i as int) < w@.len() && is_lowercase(c)
                            && res@[j]@ == w@.update(i as int, c));
                    }
                }
                assert forall|i2: int, c: char|
                    0 <= i2 < i + 1 && is_lowercase(c) && self@.contains(
                        #[trigger] w@.update(i2, c),
                    ) implies found(res@, w@.update(i2, c)) by {
                    if i2 < i {
                        lemma_found_extend(res0, res@, w@.update(i2, c));
                    }
                }
            }
            i = i + 1;
        }
        proof {
            assert forall|j: int| #![trigger res@[j]]
                0 <= j < res@.len() implies self@.contains(res@[j]@) && (exists|i2: int, c: char|
                0 <= i2 < w@.len() && is_lowercase(c) && res@[j]@ == #[trigger] w@.update(
                    i2,
                    c,
                )) by {
                let (i2, c) = choose|i2: int, c: char|
                    0 <= i2 < w@.len() && is_lowercase(c) && res@[j]@ == w@.update(i2, c);
                assert(0 <= i2 < w@.len() && is_lowercase(c) && res@[j]@ == w@.update(i2, c));
            }
        }
        res
    }

    /// Try every lowercase letter at one alteration position, appending the
    /// candidates the trie contains.
    fn alter_candidates_at(&self, w: &Vec<char>, i: usize, res: &mut Vec<String>)
        requires
            i < w@.len(),
        ensures
            final(res)@.len() >= old(res)@.len(),
            forall|j: int| 0 <= j < old(res)@.len() ==> final(res)@[j] == old(res)@[j],
            forall|j: int| #![trigger final(res)@[j]]
                old(res)@.len() <= j < final(res)@.len() ==> self@.contains(final(res)@[j]@) && (
                exists|c: char|
                    is_lowercase(c) && final(res)@[j]@ == #[trigger] w@.update(i as int, c)),
            forall|c: char|
                is_lowercase(c) && self@.contains(#[trigger] w@.update(i as int, c)) ==> found(
                    final(res)@,
                    w@.update(i as int, c),
                ),
    {
        let mut b: u8 = 97;
        while b < 123
            invariant
                97 <= b <= 123,
                i < w@.len(),
                res@.len() >= old(res)@.len(),
                forall|j: int| 0 <= j < old(res)@.len() ==> res@[j] == old(res)@[j],
                forall|j: int| #![trigger res@[j]]
                    old(res)@.len() <= j < res@.len() ==> self@.contains(res@[j]@) && (exists|
                        c: char,
                    |
                        is_lowercase(c) && res@[j]@ == #[trigger] w@.update(i as int, c)),
                forall|c: char|
                    97 <= c as int && (c as int) < b as int && self@.contains(
                        #[trigger] w@.update(i as int, c),
                    ) ==> found(res@, w@.update(i as int, c)),
            decreases 123 - b,
        {
            let ghost res0 = res@;
            let ch = b as char;
            let cand = Self::build_alteration(w, i, ch);
            let s = chars_to_string(&cand);
            if self.contains(s.as_str()) {
                res.push(s);
            }
            proof {
                assert forall|c: char|
                    97 <= c as int && (c as int) < b as int + 1 && self@.contains(
                        #[trigger] w@.update(i as int, c),
                    ) implies found(res@, w@.update(i as int, c)) by {
                    if (c as int) < b as int {
                        lemma_found_extend(res0, res@, w@.update(i as int, c));
                    } else {
                        assert(c == ch);
                        lemma_found_last(res@, w@.update(i as int, c));
                    }
                }
            }
            b = b + 1;
        }
    }

    /// Candidate words of length one more: `w` with one lowercase letter
    /// inserted at some position.
    #[verifier::rlimit(80)]
    fn insertion(&self, w: &Vec<char>) -> (res: Vec<String>)
        ensures
            forall|j: int| #![trigger res@[j]]
                0 <= j < res@.len() ==> self@.contains(res@[j]@) && (exists|i: int, c: char|
                    0 <= i <= w@.len() && is_lowercase(c) && res@[j]@ == #[trigger] w@.insert(
                        i,
                        c,
                    )),
            forall|i: int, c: char|
                0 <= i <= w@.len() && is_lowercase(c) && self@.contains(#[trigger] w@.insert(i, c))
                    ==> found(res@, w@.insert(i, c)),
    {
        let mut res: Vec<String> = Vec::new();
        let mut i: usize = 0;
        let mut done = false;
        while !done
            invariant
                i <= w@.len(),
                done ==> i == w@.len(),
                forall|j: int| #![trigger res@[j]]
                    0 <= j < res@.len() ==> self@.contains(res@[j]@) && (exists|i2: int, c: char|
                        0 <= i2 <= w@.len() && is_lowercase(c) && res@[j]@ == #[trigger] w@.insert(
                            i2,
                            c,
                        )),
                forall|i2: int, c: char|
                    0 <= i2 < i + (if done { 1int } else { 0int }) && is_lowercase(c)
                        && self@.contains(#[trigger] w@.insert(i2, c)) ==> found(
                        res@,
                        w@.insert(i2, c),
                    ),
            decreases w@.len() - i + (if done { 0int } else { 1int }),
        {
            let ghost res0 = res@;
            self.insert_candidates_at(w, i, &mut res);
            proof {
                assert forall|j: int| #![trigger res@[j]]
                    0 <= j < res@.len() implies self@.contains(res@[j]@) && (exists|
                    i2: int,
                    c: char,
                |
                    0 <= i2 <= w@.len() && is_lowercase(c) && res@[j]@ == #[trigger] w@.insert(
                        i2,
                        c,
                    )) by {
                    if j < res0.len() {
                        assert(res@[j] == res0[j]);
                        let (i2, c) = choose|i2: int, c: char|
                            0 <= i2 <= w@.len() && is_lowercase(c) && res0[j]@ == w@.insert(i2, c);
                        assert(0 <= i2 <= w@.len() && is_lowercase(c) && res@[j]@ == w@.insert(
                            i2,
                            c,
                        ));
                    } else {
                        let c = choose|c: char|
                            is_lowercase(c) && res@[j]@ == w@.insert(i as int, c);
                        assert(0 <= i as int && i as int <= w@.len() && is_lowercase(c)
                            && res@[j]@ == w@.insert(i as int, c));
                    }
                }
                assert forall|i2: int, c: char|
                    0 <= i2 < i + 1 && is_lowercase(c) && self@.contains(
                        #[trigger] w@.insert(i2, c),
                    ) implies found(res@, w@.insert(i2, c)) by {
                    if i2 < i {
                        lemma_found_extend(res0, res@, w@.insert(i2, c));
                    }
                }
            }
            if i == w.len() {
                done = true;
            } else {
                i = i + 1;
            }
        }
        proof {
            assert forall|j: int| #![trigger res@[j]]
                0 <= j < res@.len() implies self@.contains(res@[j]@) && (exists|i2: int, c: char|
                0 <= i2 <= w@.len() && is_lowercase(c) && res@[j]@ == #[trigger] w@.insert(
                    i2,
                    c,
                )) by {
                let (i2, c) = choose|i2: int, c: char|
                    0 <= i2 <= w@.len() && is_lowercase(c) && res@[j]@ == w@.insert(i2, c);
                assert(0 <= i2 <= w@.len() && is_lowercase(c) && res@[j]@ == w@.insert(i2, c));
            }
        }
        res
    }

    /// Try every lowercase letter at one insertion position, appending the
    /// candidates the trie contains.
    fn insert_candidates_at(&self, w: &Vec<char>, i: usize, res: &mut Vec<String>)
        requires
            i <= w@.len(),
        ensures
            final(res)@.len() >= old(res)@.len(),
            forall|j: int| 0 <= j < old(res)@.len() ==> final(res)@[j] == old(res)@[j],
            forall|j: int| #![trigger final(res)@[j]]
                old(res)@.len() <= j < final(res)@.len() ==> self@.contains(final(res)@[j]@) && (
                exists|c: char|
                    is_lowercase(c) && final(res)@[j]@ == #[trigger] w@.insert(i as int, c)),
            forall|c: char|
                is_lowercase(c) && self@.contains(#[trigger] w@.insert(i as int, c)) ==> found(
                    final(res)@,
                    w@.insert(i as int, c),
                ),
    {
        let mut b: u8 = 97;
        while b < 123
            invariant
                97 <= b <= 123,
                i <= w@.len(),
                res@.len() >= old(res)@.len(),
                forall|j: int| 0 <= j < old(res)@.len() ==> res@[j] == old(res)@[j],
                forall|j: int| #![trigger res@[j]]
                    old(res)@.len() <= j < res@.len() ==> self@.contains(res@[j]@) && (exists|
                        c: char,
                    |
                        is_lowercase(c) && res@[j]@ == #[trigger] w@.insert(i as int, c)),
                forall|c: char|
                    97 <= c as int && (c as int) < b as int && self@.contains(
                        #[trigger] w@.insert(i as int, c),
                    ) ==> found(res@, w@.insert(i as int, c)),
            decreases 123 - b,
        {
            let ghost res0 = res@;
            let ch = b as char;
            let cand = Self::build_insertion(w, i, ch);
            let s = chars_to_string(&cand);
            if self.contains(s.as_str()) {
                res.push(s);
            }
            proof {
                assert forall|c: char|
                    97 <= c as int && (c as int) < b as int + 1 && self@.contains(
                        #[trigger] w@.insert(i as int, c),
                    ) implies found(res@, w@.insert(i as int, c)) by {
                    if (c as int) < b as int {
                        lemma_found_extend(res0, res@, w@.insert(i as int, c));
                    } else {
                        assert(c == ch);
                        lemma_found_last(res@, w@.insert(i as int, c));
                    }
                }
            }
            b = b + 1;
        }
    }

    /// `w` with the character at `i` removed.
    fn build_deletion(w: &Vec<char>, i: usize) -> (cand: Vec<char>)
        requires
            i < w@.len(),
        ensures
            cand@ == w@.remove(i as int),
    {
        let mut cand: Vec<char> = Vec::new();
        let mut k: usize = 0;
        while k < w.len()
            invariant
                i < w@.len(),
                k <= w@.len(),
                cand@ == if k <= i {
                    w@.take(k as int)
                } else {
                    w@.take(i as int) + w@.subrange(i as int + 1, k as int)
                },
            decreases w@.len() - k,
        {
            if k != i {
                cand.push(w[k]);
            }
            proof {
                if k < i {
                    assert(w@.take(k as int).push(w@[k as int]) =~= w@.take(k + 1));
                } else if k == i {
                    assert(w@.take(i as int) + w@.subrange(i as int + 1, i + 1) =~= w@.take(
                        i as int,
                    ));
                } else {
                    assert((w@.take(i as int) + w@.subrange(i as int + 1, k as int)).push(
                        w@[k as int],
                    ) =~= w@.take(i as int) + w@.subrange(i as int + 1, k + 1));
                }
            }
            k = k + 1;
        }
        proof {
            assert(cand@ =~= w@.remove(i as int));
        }
        cand
    }

    /// `w` with the characters at `i` and `i + 1` swapped.
    fn build_transposition(w: &Vec<char>, i: usize) -> (cand: Vec<char>)
        requires
            i + 1 < w@.len(),
        ensures
            cand@ == transposed(w@, i as int),
    {
        let ghost goal = transposed(w@, i as int);
        let mut cand: Vec<char> = Vec::new();
        let mut k: usize = 0;
        while k < w.len()
            invariant
                i + 1 < w@.len(),
                k <= w@.len(),
                goal == transposed(w@, i as int),
                cand@ == goal.take(k as int),
            decreases w@.len() - k,
        {
            if k == i {
                cand.push(w[i + 1]);
            } else if k == i + 1 {
                cand.push(w[i]);
            } else {
                cand.push(w[k]);
            }
            proof {
                assert(goal.take(k as int).push(goal[k as int]) =~= goal.take(k + 1));
            }
            k = k + 1;
        }
        proof {
            assert(goal.take(w@.len() as int) =~= goal);
        }
        cand
    }

    /// `w` with the character at `i` replaced by `c`.
    fn build_alteration(w: &Vec<char>, i: usize, c: char) -> (cand: Vec<char>)
        requires
            i < w@.len(),
        ensures
            cand@ == w@.update(i as int, c),
    {
        let ghost goal = w@.update(i as int, c);
        let mut cand: Vec<char> = Vec::new();
        let mut k: usize = 0;
        while k < w.len()
            invariant
                i < w@.len(),
                k <= w@.len(),
                goal == w@.update(i as int, c),
                cand@ == goal.take(k as int),
            decreases w@.len() - k,
        {
            if k == i {
                cand.push(c);
            } else {
                cand.push(w[k]);
            }
            proof {
                assert(goal.take(k as int).push(goal[k as int]) =~= goal.take(k + 1));
            }
            k = k + 1;
        }
        proof {
            assert(goal.take(w@.len() as int) =~= goal);
        }
        cand
    }

    /// `w` with `c` inserted at position `i`.
    fn build_insertion(w: &Vec<char>, i: usize, c: char) -> (cand: Vec<char>)
        requires
            i <= w@.len(),
        ensures
            cand@ == w@.insert(i as int, c),
    {
        let mut cand: Vec<char> = Vec::new();
        let mut k: usize = 0;
        while k < w.len()
            invariant
                i <= w@.len(),
                k <= w@.len(),
                cand@ == if k <= i {
                    w@.take(k as int)
                } else {
                    w@.take(i as int).push(c) + w@.subrange(i as int, k as int)
                },
            decreases w@.len() - k,
        {
            if k == i {
                cand.push(c);
            }
            cand.push(w[k]);
            proof {
                if k < i {
                    assert(w@.take(k as int).push(w@[k as int]) =~= w@.take(k + 1));
                } else if k == i {
                    assert(w@.take(i as int).push(c).push(w@[k as int]) =~= w@.take(i as int).push(
                        c,
                    ) + w@.subrange(i as int, k + 1));
                } else {
                    assert((w@.take(i as int).push(c) + w@.subrange(i as int, k as int)).push(
                        w@[k as int],
                    ) =~= w@.take(i as int).push(c) + w@.subrange(i as int, k + 1));
                }
            }
            k = k + 1;
        }
        if i == w.len() {
            cand.push(c);
        }
        proof {
            assert(cand@ =~= w@.insert(i as int, c));
        }
        cand
    }
}

impl ErrorCheckable for Trie {
    #[verifier::rlimit(50)]
    fn spelling_check(&self, word: &str) -> (r: Option<Vec<String>>)
        ensures
            match r {
                None => self@.contains(word@) || (forall|u: Seq<char>|
                    is_single_edit(word@, u) ==> !self@.contains(u)),
                Some(v) => {
                    &&& !self@.contains(word@)
                    &&& v@.len() > 0
                    &&& forall|j: int| #![trigger v@[j]]
                        0 <= j < v@.len() ==> is_single_edit(word@, v@[j]@) && self@.contains(
                            v@[j]@,
                        )
                    &&& forall|u: Seq<char>|
                        is_single_edit(word@, u) && self@.contains(u) ==> found(v@, u)
                },
            },
    {
        if self.contains(word) {
            return None;
        }
        let w = str_to_chars(word);
        let mut res = self.deletion(&w);
        let ghost dels = res@;
        let mut part = self.transposition(&w);
        let ghost trans = part@;
        res.append(&mut part);
        let ghost after_trans = res@;
        let mut part2 = self.alteration(&w);
        let ghost alts = part2@;
        res.append(&mut part2);
        let ghost after_alts = res@;
        let mut part3 = self.insertion(&w);
        let ghost ins = part3@;
        res.append(&mut part3);
        proof {
            assert(after_trans == dels + trans);
            assert(after_alts == after_trans + alts);
            assert(res@ == after_alts + ins);
            assert forall|j: int| #![trigger res@[j]]
                0 <= j < res@.len() implies is_single_edit(word@, res@[j]@) && self@.contains(
                res@[j]@,
            ) by {
                if j < dels.len() {
                    assert(res@[j] == dels[j]);
                } else if j < after_trans.len() {
                    assert(res@[j] == trans[j - dels.len()]);
                } else if j < after_alts.len() {
                    assert(res@[j] == alts[j - after_trans.len()]);
                } else {
                    assert(res@[j] == ins[j - after_alts.len()]);
                }
            }
            assert forall|u: Seq<char>|
                is_single_edit(word@, u) && self@.contains(u) implies found(res@, u) by {
                if exists|i: int| 0 <= i < word@.len() && u == #[trigger] word@.remove(i) {
                    lemma_found_extend(dels, after_trans, u);
                    lemma_found_extend(after_trans, after_alts, u);
                    lemma_found_extend(after_alts, res@, u);
                } else if exists|i: int|
                    0 <= i && i + 1 < word@.len() && u == #[trigger] transposed(word@, i) {
                    lemma_found_append(dels, trans, u);
                    lemma_found_extend(after_trans, after_alts, u);
                    lemma_found_extend(after_alts, res@, u);
                } else if exists|i: int, c: char|
                    0 <= i < word@.len() && is_lowercase(c) && u == #[trigger] word@.update(i, c) {
                    lemma_found_append(after_trans, alts, u);
                    lemma_found_extend(after_alts, res@, u);
                } else {
                    lemma_found_append(after_alts, ins, u);
                }
            }
        }
        if res.is_empty() {
            proof {
                reveal(found);
                assert forall|u: Seq<char>|
                    is_single_edit(word@, u) implies !self@.contains(u) by {
                    if self@.contains(u) {
                        assert(found(res@, u));
                    }
                }
            }
            return None;
        }
        Some(res)
    }
}

} // verus!
