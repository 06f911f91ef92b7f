//! Prefix dictionary: a trie over characters answering exact-membership and
//! prefix-existence queries, with a persisted text form that restores to a
//! query-equivalent dictionary.
use vstd::prelude::*;

verus! {

/// One trie node: an optional word marker and labeled edges to children.
struct Node {
    is_word: bool,
    children: Vec<(char, Node)>,
}

/// A nonempty sequence equals the tail of `s` from `k` exactly when its head
/// is `s[k]` and its own tail is the tail of `s` from `k + 1`.
proof fn lemma_cons_decomp(t: Seq<char>, s: Seq<char>, k: int)
    requires
        t.len() > 0,
        0 <= k < s.len(),
    ensures
        (t == s.skip(k)) <==> (t[0] == s[k] && t.drop_first() == s.skip(k + 1)),
{
    assert(s.skip(k)[0] == s[k]);
    assert(s.skip(k).drop_first() =~= s.skip(k + 1));
    if t[0] == s[k] && t.drop_first() == s.skip(k + 1) {
        assert forall|i: int| 0 <= i < t.len() implies t[i] == s.skip(k)[i] by {
            if i > 0 {
                assert(t[i] == t.drop_first()[i - 1]);
                assert(s.skip(k + 1)[i - 1] == s[k + i]);
                assert(s.skip(k)[i] == s[k + i]);
            }
        }
        assert(t =~= s.skip(k));
    }
}

/// The same decomposition for the prefix order.
proof fn lemma_prefix_decomp(t: Seq<char>, s: Seq<char>, k: int)
    requires
        t.len() > 0,
        0 <= k < s.len(),
    ensures
        t.is_prefix_of(s.skip(k)) <==> (t[0] == s[k] && t.drop_first().is_prefix_of(
            s.skip(k + 1),
        )),
{
    let u = s.skip(k);
    assert(u[0] == s[k]);
    assert(u.drop_first() =~= s.skip(k + 1));
    if t.is_prefix_of(u) {
        assert(t =~= u.subrange(0, t.len() as int));
        assert(t[0] == u[0]);
        assert(t.drop_first() =~= u.drop_first().subrange(0, t.drop_first().len() as int));
    }
    if t[0] == s[k] && t.drop_first().is_prefix_of(s.skip(k + 1)) {
        assert(t.drop_first() =~= s.skip(k + 1).subrange(0, t.len() - 1));
        assert forall|i: int| 0 <= i < t.len() implies t[i] == u.subrange(0, t.len() as int)[i] by {
            assert(u.subrange(0, t.len() as int)[i] == s[k + i]);
            if i > 0 {
                assert(t[i] == t.drop_first()[i - 1]);
                assert(t.drop_first()[i - 1] == s.skip(k + 1).subrange(0, t.len() - 1)[i - 1]);
                assert(s.skip(k + 1).subrange(0, t.len() - 1)[i - 1] == s[k + i]);
            }
        }
        assert(t =~= u.subrange(0, t.len() as int));
        assert(t.is_prefix_of(u));
    }
}

impl Node {
    /// Edge labels are distinct at every node, recursively.
    spec fn wf(self) -> bool
        decreases self,
    {
        &&& (forall|i: int, j: int|
            0 <= i < j < self.children@.len() ==> (#[trigger] self.children@[i]).0 != (
            #[trigger] self.children@[j]).0)
        &&& (forall|i: int|
            0 <= i < self.children@.len() ==> (#[trigger] self.children@[i]).1.wf())
    }

    /// The node reached by consuming `s` exists and is marked as a word.
    spec fn word_at(self, s: Seq<char>) -> bool
        decreases s.len(),
    {
        if s.len() == 0 {
            self.is_word
        } else {
            exists|i: int|
                0 <= i < self.children@.len() && (#[trigger] self.children@[i]).0 == s[0]
                    && self.children@[i].1.word_at(s.drop_first())
        }
    }

    /// The node reached by consuming `s` exists (word-marked or not).
    spec fn node_at(self, s: Seq<char>) -> bool
        decreases s.len(),
    {
        if s.len() == 0 {
            true
        } else {
            exists|i: int|
                0 <= i < self.children@.len() && (#[trigger] self.children@[i]).0 == s[0]
                    && self.children@[i].1.node_at(s.drop_first())
        }
    }

    fn empty_node() -> (r: Node)
        ensures
            r.wf(),
            forall|t: Seq<char>| !(#[trigger] r.word_at(t)),
            forall|t: Seq<char>| #[trigger] r.node_at(t) <==> t.len() == 0,
    {
        let r = Node { is_word: false, children: Vec::new() };
        proof {
            assert forall|t: Seq<char>| !(#[trigger] r.word_at(t)) by {
                if t.len() == 0 {
                } else {
                    assert(r.children@.len() == 0);
                }
            }
            assert forall|t: Seq<char>| #[trigger] r.node_at(t) <==> t.len() == 0 by {
                if t.len() != 0 {
                    assert(r.children@.len() == 0);
                }
            }
        }
        r
    }

    /// Index of the child whose edge label is `c`, if one exists.
    fn find_child(&self, c: char) -> (r: Option<usize>)
        ensures
            match r {
                Some(i) => i < self.children@.len() && self.children@[i as int].0 == c,
                None => forall|i: int|
                    0 <= i < self.children@.len() ==> (#[trigger] self.children@[i]).0 != c,
            },
    {
        let mut k: usize = 0;
        while k < self.children.len()
            invariant
                k <= self.children@.len(),
                forall|i: int| 0 <= i < k ==> (#[trigger] self.children@[i]).0 != c,
            decreases self.children@.len() - k,
        {
            if self.children[k].0 == c {
                return Some(k);
            }
            k = k + 1;
        }
        None
    }

    /// With distinct edge labels, the `exists` in `word_at`/`node_at` has the
    /// found child as its only possible witness.
    proof fn lemma_step(self, s: Seq<char>, i: int)
        requires
            self.wf(),
            s.len() > 0,
            0 <= i < self.children@.len(),
            self.children@[i].0 == s[0],
        ensures
            self.word_at(s) <==> self.children@[i].1.word_at(s.drop_first()),
            self.node_at(s) <==> self.children@[i].1.node_at(s.drop_first()),
    {
        if self.word_at(s) {
            let j = choose|j: int|
                0 <= j < self.children@.len() && (#[trigger] self.children@[j]).0 == s[0]
                    && self.children@[j].1.word_at(s.drop_first());
            assert(j == i);
        }
        if self.node_at(s) {
            let j = choose|j: int|
                0 <= j < self.children@.len() && (#[trigger] self.children@[j]).0 == s[0]
                    && self.children@[j].1.node_at(s.drop_first());
            assert(j == i);
        }
    }

    fn lookup_word(&self, s: &Vec<char>, k: usize) -> (r: bool)
        requires
            self.wf(),
            k <= s@.len(),
        ensures
            r == self.word_at(s@.skip(k as int)),
        decreases s@.len() - k,
    {
        if k == s.len() {
            proof {
                assert(s@.skip(k as int) =~= Seq::<char>::empty());
            }
            self.is_word
        } else {
            proof {
                assert(s@.skip(k as int).len() > 0);
                assert(s@.skip(k as int)[0] == s@[k as int]);
            }
            match self.find_child(s[k]) {
                None => {
                    assert(!self.word_at(s@.skip(k as int)));
                    false
                },
                Some(ci) => {
                    let child = &self.children[ci];
                    let r = child.1.lookup_word(s, k + 1);
                    proof {
                        assert(s@.skip(k as int).drop_first() =~= s@.skip(k as int + 1));
                        self.lemma_step(s@.skip(k as int), ci as int);
                    }
                    r
                },
            }
        }
    }

    /// Grafts a linear chain spelling the tail of `s` from position `k`,
    /// whose only word is exactly that tail.
    fn make_chain(s: &Vec<char>, k: usize) -> (r: Node)
        requires
            k <= s@.len(),
        ensures
            r.wf(),
            forall|t: Seq<char>| #[trigger] r.word_at(t) <==> t == s@.skip(k as int),
            forall|t: Seq<char>| #[trigger] r.node_at(t) <==> t.is_prefix_of(s@.skip(k as int)),
        decreases s@.len() - k,
    {
        let ghost u = s@.skip(k as int);
        if k == s.len() {
            let r = Node { is_word: true, children: Vec::new() };
            proof {
                assert(u =~= Seq::<char>::empty());
                assert forall|t: Seq<char>| #[trigger] r.word_at(t) <==> t == u by {
                    if t.len() == 0 {
                        assert(t =~= u);
                    } else {
                        assert(r.children@.len() == 0);
                        assert(!r.word_at(t));
                    }
                }
                assert forall|t: Seq<char>| #[trigger] r.node_at(t) <==> t.is_prefix_of(u) by {
                    if t.len() == 0 {
                        assert(t =~= u.subrange(0, t.len() as int));
                    } else {
                        assert(r.children@.len() == 0);
                        assert(!r.node_at(t));
                        assert(!t.is_prefix_of(u));
                    }
                }
            }
            r
        } else {
            let c = s[k];
            let child = Node::make_chain(s, k + 1);
            let mut children: Vec<(char, Node)> = Vec::new();
            children.push((c, child));
            let r = Node { is_word: false, children };
            proof {
                assert(u.len() > 0 && u[0] == s@[k as int]);
                assert(r.children@.len() == 1 && r.children@[0].0 == c && r.children@[0].1
                    == child);
                assert forall|t: Seq<char>| #[trigger] r.word_at(t) <==> t == u by {
                    if t.len() == 0 {
                        assert(!r.word_at(t));
                    } else {
                        lemma_cons_decomp(t, s@, k as int);
                        if r.word_at(t) {
                            let i = choose|i: int|
                                0 <= i < r.children@.len() && (#[trigger] r.children@[i]).0 == t[0]
                                    && r.children@[i].1.word_at(t.drop_first());
                            assert(i == 0);
                            assert(t == u);
                        }
                        if t == u {
                            assert(r.children@[0].0 == t[0] && r.children@[0].1.word_at(
                                t.drop_first()));
                            assert(r.word_at(t));
                        }
                    }
                }
                assert forall|t: Seq<char>| #[trigger] r.node_at(t) <==> t.is_prefix_of(u) by {
                    if t.len() == 0 {
                        assert(t =~= u.subrange(0, t.len() as int));
                        assert(t.is_prefix_of(u));
                    } else {
                        lemma_prefix_decomp(t, s@, k as int);
                        if r.node_at(t) {
                            let i = choose|i: int|
                                0 <= i < r.children@.len() && (#[trigger] r.children@[i]).0 == t[0]
                                    && r.children@[i].1.node_at(t.drop_first());
                            assert(i == 0);
                            assert(t.is_prefix_of(u));
                        }
                        if t.is_prefix_of(u) {
                            assert(r.children@[0].0 == t[0] && r.children@[0].1.node_at(
                                t.drop_first()));
                            assert(r.node_at(t));
                        }
                    }
                }
            }
            r
        }
    }

    /// Adds the tail of `s` from position `k` as a word below this node,
    /// changing no other answer.
    fn insert_at(&mut self, s: &Vec<char>, k: usize)
        requires
            old(self).wf(),
            k <= s@.len(),
        ensures
            final(self).wf(),
            forall|t: Seq<char>|
                #[trigger] final(self).word_at(t) <==> (old(self).word_at(t) || t == s@.skip(
                    k as int,
                )),
            forall|t: Seq<char>|
                #[trigger] final(self).node_at(t) <==> (old(self).node_at(t) || t.is_prefix_of(
                    s@.skip(k as int),
                )),
        decreases s@.len() - k,
    {
        let ghost pre = *old(self);
        let ghost u = s@.skip(k as int);
        if k == s.len() {
            self.is_word = true;
            proof {
                assert(u =~= Seq::<char>::empty());
                assert(self.children@ == pre.children@);
                assert forall|t: Seq<char>|
                    #[trigger] self.word_at(t) <==> (pre.word_at(t) || t == u) by {
                    if t.len() == 0 {
                        assert(t =~= u);
                        assert(self.word_at(t));
                    } else {
                        assert(self.word_at(t) == pre.word_at(t));
                    }
                }
                assert forall|t: Seq<char>|
                    #[trigger] self.node_at(t) <==> (pre.node_at(t) || t.is_prefix_of(u)) by {
                    if t.len() == 0 {
                        assert(self.node_at(t) && pre.node_at(t));
                    } else {
                        assert(self.node_at(t) == pre.node_at(t));
                        assert(!t.is_prefix_of(u));
                    }
                }
            }
        } else {
            let c = s[k];
            proof {
                assert(u.len() > 0 && u[0] == s@[k as int]);
            }
            match self.find_child(c) {
                None => {
                    let chain = Node::make_chain(s, k + 1);
                    let ghost chaing = chain;
                    let ghost oldlen = self.children@.len() as int;
                    self.children.push((c, chain));
                    proof {
                        assert(self.children@ =~= pre.children@.push((c, chaing)));
                        assert(self.children@[oldlen] == (c, chaing));
                        assert(self.is_word == pre.is_word);
                        assert forall|i: int, j: int|
                            0 <= i < j < self.children@.len() implies (
                        #[trigger] self.children@[i]).0 != (#[trigger] self.children@[j]).0 by {
                            if j < oldlen {
                            } else {
                                assert(self.children@[j].0 == c);
                                assert(self.children@[i] == pre.children@[i]);
                            }
                        }
                        assert(self.wf());
                        assert forall|t: Seq<char>|
                            #[trigger] self.word_at(t) <==> (pre.word_at(t) || t == u) by {
                            if t.len() == 0 {
                                assert(self.word_at(t) == pre.word_at(t));
                            } else {
                                lemma_cons_decomp(t, s@, k as int);
                                if t[0] == c {
                                    if pre.word_at(t) {
                                        let i = choose|i: int|
                                            0 <= i < pre.children@.len() && (
                                            #[trigger] pre.children@[i]).0 == t[0]
                                                && pre.children@[i].1.word_at(t.drop_first());
                                        assert(false);
                                    }
                                    self.lemma_step(t, oldlen);
                                } else {
                                    if self.word_at(t) {
                                        let i = choose|i: int|
                                            0 <= i < self.children@.len() && (
                                            #[trigger] self.children@[i]).0 == t[0]
                                                && self.children@[i].1.word_at(t.drop_first());
                                        assert(i < oldlen);
                                        assert(pre.children@[i] == self.children@[i]);
                                        assert(pre.word_at(t));
                                    }
                                    if pre.word_at(t) {
                                        let i = choose|i: int|
                                            0 <= i < pre.children@.len() && (
                                            #[trigger] pre.children@[i]).0 == t[0]
                                                && pre.children@[i].1.word_at(t.drop_first());
                                        assert(self.children@[i] == pre.children@[i]);
                                        assert(self.word_at(t));
                                    }
                                }
                            }
                        }
                        assert forall|t: Seq<char>|
                            #[trigger] self.node_at(t) <==> (pre.node_at(t) || t.is_prefix_of(u))
                            by {
                            if t.len() == 0 {
                                assert(t =~= u.subrange(0, t.len() as int));
                                assert(self.node_at(t) && pre.node_at(t) && t.is_prefix_of(u));
                            } else {
                                lemma_prefix_decomp(t, s@, k as int);
                                if t[0] == c {
                                    if pre.node_at(t) {
                                        let i = choose|i: int|
                                            0 <= i < pre.children@.len() && (
                                            #[trigger] pre.children@[i]).0 == t[0]
                                                && pre.children@[i].1.node_at(t.drop_first());
                                        assert(false);
                                    }
                                    self.lemma_step(t, oldlen);
                                } else {
                                    if self.node_at(t) {
                                        let i = choose|i: int|
                                            0 <= i < self.children@.len() && (
                                            #[trigger] self.children@[i]).0 == t[0]
                                                && self.children@[i].1.node_at(t.drop_first());
                                        assert(i < oldlen);
                                        assert(pre.children@[i] == self.children@[i]);
                                        assert(pre.node_at(t));
                                    }
                                    if pre.node_at(t) {
                                        let i = choose|i: int|
                                            0 <= i < pre.children@.len() && (
                                            #[trigger] pre.children@[i]).0 == t[0]
                                                && pre.children@[i].1.node_at(t.drop_first());
                                        assert(self.children@[i] == pre.children@[i]);
                                        assert(self.node_at(t));
                                    }
                                }
                            }
                        }
                    }
                },
                Some(ci) => {
                    let (ec, mut en) = self.children.remove(ci);
                    let ghost en0 = en;
                    en.insert_at(s, k + 1);
                    let ghost enf = en;
                    self.children.insert(ci, (ec, en));
                    proof {
                        assert(ec == c);
                        assert(self.children@ =~= pre.children@.update(ci as int, (ec, enf)));
                        assert(self.is_word == pre.is_word);
                        assert(forall|i: int|
                            0 <= i < self.children@.len() ==> (#[trigger] self.children@[i]).0
                                == pre.children@[i].0);
                        assert forall|i: int, j: int|
                            0 <= i < j < self.children@.len() implies (
                        #[trigger] self.children@[i]).0 != (#[trigger] self.children@[j]).0 by {
                            assert(pre.children@[i].0 != pre.children@[j].0);
                        }
                        assert forall|i: int|
                            0 <= i < self.children@.len() implies (
                        #[trigger] self.children@[i]).1.wf() by {
                            if i != ci {
                                assert(self.children@[i] == pre.children@[i]);
                            }
                        }
                        assert(self.wf());
                        assert forall|t: Seq<char>|
                            #[trigger] self.word_at(t) <==> (pre.word_at(t) || t == u) by {
                            if t.len() == 0 {
                                assert(self.word_at(t) == pre.word_at(t));
                            } else {
                                lemma_cons_decomp(t, s@, k as int);
                                if t[0] == c {
                                    self.lemma_step(t, ci as int);
                                    pre.lemma_step(t, ci as int);
                                    assert(self.word_at(t) == enf.word_at(t.drop_first()));
                                    assert(pre.word_at(t) == en0.word_at(t.drop_first()));
                                } else {
                                    if self.word_at(t) {
                                        let i = choose|i: int|
                                            0 <= i < self.children@.len() && (
                                            #[trigger] self.children@[i]).0 == t[0]
                                                && self.children@[i].1.word_at(t.drop_first());
                                        assert(i != ci);
                                        assert(pre.children@[i] == self.children@[i]);
                                        assert(pre.word_at(t));
                                    }
                                    if pre.word_at(t) {
                                        let i = choose|i: int|
                                            0 <= i < pre.children@.len() && (
                                            #[trigger] pre.children@[i]).0 == t[0]
                                                && pre.children@[i].1.word_at(t.drop_first());
                                        assert(i != ci);
                                        assert(self.children@[i] == pre.children@[i]);
                                        assert(self.word_at(t));
                                    }
                                }
                            }
                        }
                        assert forall|t: Seq<char>|
                            #[trigger] self.node_at(t) <==> (pre.node_at(t) || t.is_prefix_of(u))
                            by {
                            if t.len() == 0 {
                                assert(t =~= u.subrange(0, t.len() as int));
                                assert(self.node_at(t) && pre.node_at(t) && t.is_prefix_of(u));
                            } else {
                                lemma_prefix_decomp(t, s@, k as int);
                                if t[0] == c {
                                    self.lemma_step(t, ci as int);
                                    pre.lemma_step(t, ci as int);
                                    assert(self.node_at(t) == enf.node_at(t.drop_first()));
                                    assert(pre.node_at(t) == en0.node_at(t.drop_first()));
                                } else {
                                    if self.node_at(t) {
                                        let i = choose|i: int|
                                            0 <= i < self.children@.len() && (
                                            #[trigger] self.children@[i]).0 == t[0]
                                                && self.children@[i].1.node_at(t.drop_first());
                                        assert(i != ci);
                                        assert(pre.children@[i] == self.children@[i]);
                                        assert(pre.node_at(t));
                                    }
                                    if pre.node_at(t) {
                                        let i = choose|i: int|
                                            0 <= i < pre.children@.len() && (
                                            #[trigger] pre.children@[i]).0 == t[0]
                                                && pre.children@[i].1.node_at(t.drop_first());
                                        assert(i != ci);
                                        assert(self.children@[i] == pre.children@[i]);
                                        assert(self.node_at(t));
                                    }
                                }
                            }
                        }
                    }
                },
            }
        }
    }

    fn lookup_node(&self, s: &Vec<char>, k: usize) -> (r: bool)
        requires
            self.wf(),
            k <= s@.len(),
        ensures
            r == self.node_at(s@.skip(k as int)),
        decreases s@.len() - k,
    {
        if k == s.len() {
            proof {
                assert(s@.skip(k as int) =~= Seq::<char>::empty());
            }
            true
        } else {
            proof {
                assert(s@.skip(k as int).len() > 0);
                assert(s@.skip(k as int)[0] == s@[k as int]);
            }
            match self.find_child(s[k]) {
                None => {
                    assert(!self.node_at(s@.skip(k as int)));
                    false
                },
                Some(ci) => {
                    let child = &self.children[ci];
                    let r = child.1.lookup_node(s, k + 1);
                    proof {
                        assert(s@.skip(k as int).drop_first() =~= s@.skip(k as int + 1));
                        self.lemma_step(s@.skip(k as int), ci as int);
                    }
                    r
                },
            }
        }
    }
}

/// The views of a sequence of character vectors.
pub open spec fn word_views(ws: Seq<Vec<char>>) -> Seq<Seq<char>> {
    Seq::new(ws.len(), |i: int| ws[i]@)
}

/// The persisted data is not a valid serialization of a dictionary.
#[derive(Debug, PartialEq, Eq, Structural)]
pub struct FormatError;

/// The persisted text form: each word as one record `'>' word '\n'`.
pub open spec fn encode_words(ws: Seq<Seq<char>>) -> Seq<char>
    decreases ws.len(),
{
    if ws.len() == 0 {
        Seq::empty()
    } else {
        seq!['>'] + ws[0] + seq!['\n'] + encode_words(ws.drop_first())
    }
}

/// Position of the first line break, or the length if there is none.
pub open spec fn nl_index(s: Seq<char>) -> int
    decreases s.len(),
{
    if s.len() == 0 {
        0
    } else if s[0] == '\n' {
        0
    } else {
        1 + nl_index(s.drop_first())
    }
}

/// The words of a persisted text, or `None` where it is not a sequence of
/// complete `'>' word '\n'` records.
pub open spec fn parse_words(s: Seq<char>) -> Option<Seq<Seq<char>>>
    decreases s.len(),
{
    if s.len() == 0 {
        Some(Seq::empty())
    } else if s[0] != '>' {
        None
    } else {
        let body = s.drop_first();
        let j = nl_index(body);
        if j < 0 || j >= body.len() {
            None
        } else {
            match parse_words(body.skip(j + 1)) {
                None => None,
                Some(rest) => Some(seq![body.take(j)] + rest),
            }
        }
    }
}

proof fn lemma_nl_index_unique(s: Seq<char>, m: int)
    requires
        0 <= m <= s.len(),
        forall|i: int| 0 <= i < m ==> s[i] != '\n',
        m < s.len() ==> s[m] == '\n',
    ensures
        nl_index(s) == m,
    decreases s.len(),
{
    if s.len() == 0 {
    } else if s[0] == '\n' {
        assert(m == 0);
    } else {
        assert(m != 0);
        assert forall|i: int| 0 <= i < m - 1 implies s.drop_first()[i] != '\n' by {
            assert(s.drop_first()[i] == s[i + 1]);
        }
        assert(m - 1 < s.drop_first().len() ==> s.drop_first()[m - 1] == '\n');
        lemma_nl_index_unique(s.drop_first(), m - 1);
    }
}

/// Appending one word to the list appends one record to the encoding.
proof fn lemma_encode_snoc(ws: Seq<Seq<char>>, w: Seq<char>)
    ensures
        encode_words(ws.push(w)) == encode_words(ws) + seq!['>'] + w + seq!['\n'],
    decreases ws.len(),
{
    if ws.len() == 0 {
        assert(ws =~= Seq::<Seq<char>>::empty());
        assert(ws.push(w).drop_first() =~= ws);
        assert(encode_words(ws) == Seq::<char>::empty());
        assert(ws.push(w)[0] == w);
        assert(encode_words(ws.push(w)) == seq!['>'] + w + seq!['\n'] + encode_words(
            ws.push(w).drop_first(),
        ));
        assert(encode_words(ws.push(w)) =~= encode_words(ws) + seq!['>'] + w + seq!['\n']);
    } else {
        assert(ws.push(w).drop_first() =~= ws.drop_first().push(w));
        lemma_encode_snoc(ws.drop_first(), w);
        assert(ws.push(w)[0] == ws[0]);
        assert(ws.push(w).len() != 0);
        assert(encode_words(ws.push(w)) == seq!['>'] + ws[0] + seq!['\n'] + encode_words(
            ws.drop_first().push(w),
        ));
        assert(encode_words(ws.push(w)) == seq!['>'] + ws[0] + seq!['\n'] + (encode_words(
            ws.drop_first(),
        ) + seq!['>'] + w + seq!['\n']));
        assert(encode_words(ws) == seq!['>'] + ws[0] + seq!['\n'] + encode_words(ws.drop_first()));
        assert(encode_words(ws.push(w)) =~= encode_words(ws) + seq!['>'] + w + seq!['\n']);
    }
}

/// Parsing inverts encoding, for word lists whose words hold no line break.
pub proof fn lemma_parse_inverts_encode(ws: Seq<Seq<char>>)
    requires
        forall|i: int| 0 <= i < ws.len() ==> !(#[trigger] ws[i]).contains('\n'),
    ensures
        parse_words(encode_words(ws)) == Some(ws),
    decreases ws.len(),
{
    if ws.len() == 0 {
    } else {
        let w = ws[0];
        let s = encode_words(ws);
        let body = s.drop_first();
        assert(s[0] == '>');
        assert(body =~= w + seq!['\n'] + encode_words(ws.drop_first()));
        assert forall|i: int| 0 <= i < w.len() implies body[i] != '\n' by {
            assert(body[i] == w[i]);
            if w[i] == '\n' {
                assert(w.contains('\n'));
            }
        }
        assert(body[w.len() as int] == '\n');
        lemma_nl_index_unique(body, w.len() as int);
        assert(body.take(w.len() as int) =~= w);
        assert(body.skip(w.len() as int + 1) =~= encode_words(ws.drop_first()));
        assert forall|i: int| 0 <= i < ws.drop_first().len() implies !(
        #[trigger] ws.drop_first()[i]).contains('\n') by {
            assert(ws.drop_first()[i] == ws[i + 1]);
        }
        lemma_parse_inverts_encode(ws.drop_first());
        assert(seq![w] + ws.drop_first() =~= ws);
    }
}

/// Parses records starting at position `k`, exactly as `parse_words` does on
/// the remaining text.
fn parse_records(s: &Vec<char>, k: usize) -> (r: Result<Vec<Vec<char>>, FormatError>)
    requires
        k <= s@.len(),
    ensures
        match r {
            Ok(ws) => parse_words(s@.skip(k as int)) == Some(word_views(ws@)),
            Err(_) => parse_words(s@.skip(k as int)) is None,
        },
    decreases s@.len() - k,
{
    let ghost u = s@.skip(k as int);
    if k == s.len() {
        proof {
            assert(u =~= Seq::<char>::empty());
            assert(word_views(Seq::<Vec<char>>::empty()) =~= Seq::<Seq<char>>::empty());
        }
        Ok(Vec::new())
    } else if s[k] != '>' {
        proof {
            assert(u[0] == s@[k as int]);
        }
        Err(FormatError)
    } else {
        let ghost body = u.drop_first();
        proof {
            assert(u[0] == s@[k as int]);
            assert(body =~= s@.skip(k as int + 1));
        }
        let mut j = k + 1;
        let mut word: Vec<char> = Vec::new();
        while j < s.len() && s[j] != '\n'
            invariant
                k as int + 1 <= j <= s@.len(),
                word@ == s@.subrange(k as int + 1, j as int),
                forall|i: int| k as int + 1 <= i < j ==> s@[i] != '\n',
            decreases s@.len() - j,
        {
            word.push(s[j]);
            proof {
                assert(word@ =~= s@.subrange(k as int + 1, j as int + 1));
            }
            j = j + 1;
        }
        proof {
            assert forall|i: int| 0 <= i < j - (k as int + 1) implies body[i] != '\n' by {
                assert(body[i] == s@[k as int + 1 + i]);
            }
            if j < s@.len() {
                assert(body[j - (k as int + 1)] == s@[j as int]);
            }
            lemma_nl_index_unique(body, j - (k as int + 1));
        }
        if j == s.len() {
            proof {
                assert(nl_index(body) == body.len());
            }
            Err(FormatError)
        } else {
            let ghost nl = j - (k as int + 1);
            proof {
                assert(body.skip(nl + 1) =~= s@.skip(j as int + 1));
                assert(body.take(nl) =~= word@);
            }
            match parse_records(s, j + 1) {
                Err(e) => Err(e),
                Ok(mut rest) => {
                    let ghost rest0 = rest@;
                    let ghost wg = word@;
                    rest.insert(0, word);
                    proof {
                        assert(word_views(rest@) =~= seq![wg] + word_views(rest0));
                        assert(parse_words(u) == Some(word_views(rest@)));
                    }
                    Ok(rest)
                },
            }
        }
    }
}

fn copy_chars(src: &Vec<char>) -> (r: Vec<char>)
    ensures
        r@ == src@,
{
    let mut r: Vec<char> = Vec::new();
    let mut k: usize = 0;
    while k < src.len()
        invariant
            k <= src@.len(),
            r@ == src@.take(k as int),
        decreases src@.len() - k,
    {
        r.push(src[k]);
        proof {
            assert(r@ =~= src@.take(k as int + 1));
        }
        k = k + 1;
    }
    proof {
        assert(src@.take(src@.len() as int) =~= src@);
    }
    r
}

/// The prefix dictionary: answers exact and prefix membership for the word
/// list it was built from, each in time proportional to the query's length.
pub struct Lexicon {
    root: Node,
    entries: Vec<Vec<char>>,
}

impl Lexicon {
    /// The word list this dictionary was built from, in insertion order.
    pub closed spec fn words(self) -> Seq<Seq<char>> {
        word_views(self.entries@)
    }

    /// `s` was inserted as a word.
    pub closed spec fn contains_word(self, s: Seq<char>) -> bool {
        self.root.word_at(s)
    }

    /// A trie node exists for `s`: it is empty or a prefix of some entry.
    pub closed spec fn contains_prefix(self, s: Seq<char>) -> bool {
        self.root.node_at(s)
    }

    pub closed spec fn wf(self) -> bool {
        &&& self.root.wf()
        &&& (forall|t: Seq<char>| #[trigger] self.root.word_at(t) <==> self.words().contains(t))
        &&& (forall|t: Seq<char>|
            #[trigger] self.root.node_at(t) <==> (t.len() == 0 || exists|i: int|
                0 <= i < self.words().len() && t.is_prefix_of(#[trigger] self.words()[i])))
    }

    /// Builds the dictionary by inserting every given word; insertion order
    /// does not matter to the answers, and duplicates are harmless.
    pub fn new(word_list: &Vec<Vec<char>>) -> (r: Lexicon)
        ensures
            r.wf(),
            r.words() == word_views(word_list@),
    {
        let mut root = Node::empty_node();
        let mut entries: Vec<Vec<char>> = Vec::new();
        let mut idx: usize = 0;
        while idx < word_list.len()
            invariant
                root.wf(),
                idx <= word_list@.len(),
                entries@.len() == idx,
                forall|i: int| 0 <= i < idx ==> (#[trigger] entries@[i])@ == word_list@[i]@,
                forall|t: Seq<char>|
                    #[trigger] root.word_at(t) <==> exists|i: int|
                        0 <= i < idx && t == (#[trigger] word_list@[i])@,
                forall|t: Seq<char>|
                    #[trigger] root.node_at(t) <==> (t.len() == 0 || exists|i: int|
                        0 <= i < idx && t.is_prefix_of((#[trigger] word_list@[i])@)),
            decreases word_list@.len() - idx,
        {
            let w = &word_list[idx];
            let ghost pre_root = root;
            root.insert_at(w, 0);
            entries.push(copy_chars(w));
            proof {
                assert(w@.skip(0) =~= w@);
                assert forall|t: Seq<char>|
                    #[trigger] root.word_at(t) <==> exists|i: int|
                        0 <= i < idx + 1 && t == (#[trigger] word_list@[i])@ by {
                    if root.word_at(t) {
                        if pre_root.word_at(t) {
                            let i = choose|i: int| 0 <= i < idx && t == (#[trigger] word_list@[i])@;
                            assert(0 <= i < idx + 1 && t == word_list@[i]@);
                        } else {
                            assert(t == word_list@[idx as int]@);
                        }
                    }
                    if exists|i: int| 0 <= i < idx + 1 && t == (#[trigger] word_list@[i])@ {
                        let i = choose|i: int| 0 <= i < idx + 1 && t == (#[trigger] word_list@[i])@;
                        if i < idx {
                            assert(pre_root.word_at(t));
                        } else {
                            assert(t == w@);
                        }
                        assert(root.word_at(t));
                    }
                }
                assert forall|t: Seq<char>|
                    #[trigger] root.node_at(t) <==> (t.len() == 0 || exists|i: int|
                        0 <= i < idx + 1 && t.is_prefix_of((#[trigger] word_list@[i])@)) by {
                    if root.node_at(t) && t.len() != 0 {
                        if pre_root.node_at(t) {
                            let i = choose|i: int|
                                0 <= i < idx && t.is_prefix_of((#[trigger] word_list@[i])@);
                            assert(0 <= i < idx + 1 && t.is_prefix_of(word_list@[i]@));
                        } else {
                            assert(t.is_prefix_of(word_list@[idx as int]@));
                        }
                    }
                    if t.len() != 0 && exists|i: int|
                        0 <= i < idx + 1 && t.is_prefix_of((#[trigger] word_list@[i])@) {
                        let i = choose|i: int|
                            0 <= i < idx + 1 && t.is_prefix_of((#[trigger] word_list@[i])@);
                        if i < idx {
                            assert(pre_root.node_at(t));
                        } else {
                            assert(t.is_prefix_of(w@));
                        }
                        assert(root.node_at(t));
                    }
                }
            }
            idx = idx + 1;
        }
        let lex = Lexicon { root, entries };
        proof {
            assert(lex.words() =~= word_views(word_list@));
            assert forall|t: Seq<char>|
                #[trigger] lex.root.word_at(t) <==> lex.words().contains(t) by {
                if lex.root.word_at(t) {
                    let i = choose|i: int|
                        0 <= i < word_list@.len() && t == (#[trigger] word_list@[i])@;
                    assert(lex.words()[i] == t);
                    assert(lex.words().contains(t));
                }
                if lex.words().contains(t) {
                    let i = choose|i: int| 0 <= i < lex.words().len() && lex.words()[i] == t;
                    assert(t == word_list@[i]@);
                    assert(lex.root.word_at(t));
                }
            }
            assert forall|t: Seq<char>|
                #[trigger] lex.root.node_at(t) <==> (t.len() == 0 || exists|i: int|
                    0 <= i < lex.words().len() && t.is_prefix_of(#[trigger] lex.words()[i])) by {
                if lex.root.node_at(t) && t.len() != 0 {
                    let i = choose|i: int|
                        0 <= i < word_list@.len() && t.is_prefix_of((#[trigger] word_list@[i])@);
                    assert(t.is_prefix_of(lex.words()[i]));
                }
                if t.len() != 0 && exists|i: int|
                    0 <= i < lex.words().len() && t.is_prefix_of(#[trigger] lex.words()[i]) {
                    let i = choose|i: int|
                        0 <= i < lex.words().len() && t.is_prefix_of(#[trigger] lex.words()[i]);
                    assert(t.is_prefix_of(word_list@[i]@));
                    assert(lex.root.node_at(t));
                }
            }
        }
        lex
    }

    /// Serializes the word list to its persisted text form. `restore` of this
    /// text rebuilds a dictionary answering every query identically, provided
    /// no word holds a line break.
    pub fn persist(&self) -> (r: Vec<char>)
        requires
            self.wf(),
        ensures
            r@ == encode_words(self.words()),
    {
        let mut out: Vec<char> = Vec::new();
        let mut idx: usize = 0;
        while idx < self.entries.len()
            invariant
                idx <= self.entries@.len(),
                self.words().len() == self.entries@.len(),
                forall|i: int| 0 <= i < self.entries@.len() ==> (#[trigger] self.entries@[i])@
                    == self.words()[i],
                out@ == encode_words(self.words().take(idx as int)),
            decreases self.entries@.len() - idx,
        {
            let ghost prefix = out@;
            out.push('>');
            let w = &self.entries[idx];
            let mut k: usize = 0;
            while k < w.len()
                invariant
                    k <= w@.len(),
                    out@ == prefix + seq!['>'] + w@.take(k as int),
                decreases w@.len() - k,
            {
                out.push(w[k]);
                proof {
                    assert(w@.take(k as int).push(w@[k as int]) =~= w@.take(k as int + 1));
                    assert(out@ =~= prefix + seq!['>'] + w@.take(k as int + 1));
                }
                k = k + 1;
            }
            out.push('\n');
            proof {
                assert(w@.take(w@.len() as int) =~= w@);
                lemma_encode_snoc(self.words().take(idx as int), self.words()[idx as int]);
                assert(self.words().take(idx as int).push(self.words()[idx as int]) =~= self.words(
                ).take(idx as int + 1));
                assert(out@ =~= prefix + seq!['>'] + w@ + seq!['\n']);
                assert(out@ =~= encode_words(self.words().take(idx as int + 1)));
            }
            idx = idx + 1;
        }
        proof {
            assert(self.words().take(self.words().len() as int) =~= self.words());
        }
        out
    }

    /// Rebuilds a dictionary from persisted text; fails with `FormatError`
    /// exactly where the text is not a sequence of complete records.
    pub fn restore(data: &Vec<char>) -> (r: Result<Lexicon, FormatError>)
        ensures
            match r {
                Ok(lex) => lex.wf() && parse_words(data@) == Some(lex.words()),
                Err(_) => parse_words(data@) is None,
            },
    {
        proof {
            assert(data@.skip(0) =~= data@);
        }
        match parse_records(data, 0) {
            Err(e) => Err(e),
            Ok(ws) => Ok(Lexicon::new(&ws)),
        }
    }

    /// Exact membership: true iff `s` is one of the dictionary's words.
    pub fn is_word(&self, s: &Vec<char>) -> (r: bool)
        requires
            self.wf(),
        ensures
            r == self.contains_word(s@),
    {
        proof {
            assert(s@.skip(0) =~= s@);
        }
        self.root.lookup_word(s, 0)
    }

    /// Prefix membership: true iff `s` is empty or some word extends `s`
    /// (every word counts as a prefix of itself).
    pub fn is_prefix(&self, s: &Vec<char>) -> (r: bool)
        requires
            self.wf(),
        ensures
            r == self.contains_prefix(s@),
    {
        proof {
            assert(s@.skip(0) =~= s@);
        }
        self.root.lookup_node(s, 0)
    }
}

/// What the dictionary's queries mean over the word list it was built from:
/// exact membership, and prefix-of-some-entry with the empty string always a
/// live prefix.
pub proof fn lemma_lexicon_semantics(lex: Lexicon)
    requires
        lex.wf(),
    ensures
        forall|t: Seq<char>| #[trigger] lex.contains_word(t) <==> lex.words().contains(t),
        forall|t: Seq<char>|
            #[trigger] lex.contains_prefix(t) <==> (t.len() == 0 || exists|i: int|
                0 <= i < lex.words().len() && t.is_prefix_of(#[trigger] lex.words()[i])),
{
}

/// Prefix pruning is sound: every prefix of a dictionary word is a live
/// prefix, so a search may abandon a branch the moment `is_prefix` fails.
pub proof fn lemma_word_prefix_live(lex: Lexicon, t: Seq<char>, u: Seq<char>)
    requires
        lex.wf(),
        lex.contains_word(u),
        t.is_prefix_of(u),
    ensures
        lex.contains_prefix(t),
{
    if t.len() > 0 {
        let i = choose|i: int| 0 <= i < lex.words().len() && lex.words()[i] == u;
        assert(t.is_prefix_of(lex.words()[i]));
    }
}

/// Dictionary round trip: a dictionary restored from the persisted form of a
/// built one answers every exact and prefix query identically. The word list
/// must hold no line break inside a word: the persisted form is line-based.
pub proof fn lemma_dictionary_round_trip(built: Lexicon, restored: Lexicon)
    requires
        built.wf(),
        restored.wf(),
        forall|i: int|
            0 <= i < built.words().len() ==> !(#[trigger] built.words()[i]).contains('\n'),
        parse_words(encode_words(built.words())) == Some(restored.words()),
    ensures
        forall|t: Seq<char>| #[trigger] restored.contains_word(t) == built.contains_word(t),
        forall|t: Seq<char>| #[trigger] restored.contains_prefix(t) == built.contains_prefix(t),
{
    lemma_parse_inverts_encode(built.words());
    assert(restored.words() == built.words());
}

} // verus!
