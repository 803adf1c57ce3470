//! The node type of the prefix tree, its mathematical model, and the
//! lemmas that relate a node's stored words to those of its children.

use vstd::prelude::*;

verus! {

/// One node of the prefix tree.
///
/// `children` maps a character to the child node reached along that
/// character; the keys are kept unique.  `is_word` is true exactly when the
/// path from the tree's root to this node spells an inserted word.
pub struct TrieNode {
    pub children: Vec<(char, TrieNode)>,
    pub is_word: bool,
}

impl TrieNode {
    /// There is a child edge labelled `c`.
    pub open spec fn has_child(self, c: char) -> bool {
        exists|i: int| 0 <= i < self.children@.len() && (#[trigger] self.children@[i]).0 == c
    }

    /// Index of the child edge labelled `c` (meaningful only when `has_child(c)`).
    pub open spec fn child_idx(self, c: char) -> int {
        choose|i: int| 0 <= i < self.children@.len() && (#[trigger] self.children@[i]).0 == c
    }

    /// The child node reached along `c` (meaningful only when `has_child(c)`).
    pub open spec fn child(self, c: char) -> TrieNode {
        self.children@[self.child_idx(c)].1
    }

    /// Walking `p` from this node stays on existing nodes the whole way.
    pub open spec fn has_path(self, p: Seq<char>) -> bool
        decreases p.len(),
    {
        p.len() == 0 || (self.has_child(p[0]) && self.child(p[0]).has_path(p.skip(1)))
    }

    /// The node reached by walking `p` (meaningful only when `has_path(p)`).
    pub open spec fn node_at(self, p: Seq<char>) -> TrieNode
        decreases p.len(),
    {
        if p.len() == 0 {
            self
        } else {
            self.child(p[0]).node_at(p.skip(1))
        }
    }

    /// Walking `p` from this node ends at a node marked as a word.
    pub open spec fn word_at(self, p: Seq<char>) -> bool
        decreases p.len(),
    {
        if p.len() == 0 {
            self.is_word
        } else {
            self.has_child(p[0]) && self.child(p[0]).word_at(p.skip(1))
        }
    }

    /// All words stored in the subtree rooted at this node.
    pub open spec fn words(self) -> Set<Seq<char>> {
        Set::new(|p: Seq<char>| self.word_at(p))
    }

    /// At least one word is stored at or below this node.
    pub open spec fn has_some_word(self) -> bool {
        exists|p: Seq<char>| self.word_at(p)
    }

    /// Well-formedness: child keys are unique, children are well-formed, and
    /// every child subtree stores at least one word (nodes exist only along
    /// the paths of inserted words).
    pub open spec fn wf(self) -> bool
        decreases self,
    {
        &&& (forall|i: int, j: int|
            0 <= i < j < self.children@.len() ==> (#[trigger] self.children@[i]).0 != (
            #[trigger] self.children@[j]).0)
        &&& (forall|i: int|
            0 <= i < self.children@.len() ==> (#[trigger] self.children@[i]).1.wf())
        &&& (forall|i: int|
            0 <= i < self.children@.len() ==> (#[trigger] self.children@[i]).1.has_some_word())
    }
}

/// In a well-formed node the child entry at index `i` is the child reached
/// along its own key: unique keys make the lookup deterministic.
proof fn lemma_wf_child_at(n: TrieNode, i: int)
    requires
        n.wf(),
        0 <= i < n.children@.len(),
    ensures
        n.has_child(n.children@[i].0),
        n.child_idx(n.children@[i].0) == i,
        n.child(n.children@[i].0) == n.children@[i].1,
{
    let c = n.children@[i].0;
    assert(n.has_child(c));
    let j = n.child_idx(c);
    assert(0 <= j < n.children@.len() && n.children@[j].0 == c);
    if i < j {
        assert(n.children@[i].0 != n.children@[j].0);
    } else if j < i {
        assert(n.children@[j].0 != n.children@[i].0);
    }
}

/// `word_at` splits into reaching the node and that node being marked.
pub(crate) proof fn lemma_word_at_iff(n: TrieNode, p: Seq<char>)
    ensures
        n.word_at(p) == (n.has_path(p) && n.node_at(p).is_word),
    decreases p.len(),
{
    if p.len() != 0 {
        lemma_word_at_iff(n.child(p[0]), p.skip(1));
    }
}

/// Walking a concatenation is walking the first part, then the second.
pub(crate) proof fn lemma_path_concat(n: TrieNode, p: Seq<char>, q: Seq<char>)
    ensures
        n.has_path(p + q) == (n.has_path(p) && n.node_at(p).has_path(q)),
        n.node_at(p + q) == n.node_at(p).node_at(q),
    decreases p.len(),
{
    if p.len() == 0 {
        assert(p + q =~= q);
    } else {
        assert((p + q)[0] == p[0]);
        assert((p + q).skip(1) =~= p.skip(1) + q);
        lemma_path_concat(n.child(p[0]), p.skip(1), q);
    }
}

/// A concatenation is a word exactly when the first part is a path and the
/// second part is a word below the node it reaches.
pub(crate) proof fn lemma_word_concat(n: TrieNode, p: Seq<char>, q: Seq<char>)
    ensures
        n.word_at(p + q) == (n.has_path(p) && n.node_at(p).word_at(q)),
{
    lemma_path_concat(n, p, q);
    lemma_word_at_iff(n, p + q);
    lemma_word_at_iff(n.node_at(p), q);
}

/// In a well-formed node, every nonempty existing path extends to a stored
/// word: nodes exist only along the paths of inserted words.
proof fn lemma_path_extends_to_word(n: TrieNode, p: Seq<char>)
    requires
        n.wf(),
        n.has_path(p),
        p.len() > 0,
    ensures
        exists|q: Seq<char>| #[trigger] n.word_at(p + q),
    decreases p.len(),
{
    let c = p[0];
    let i = n.child_idx(c);
    assert(0 <= i < n.children@.len() && n.children@[i].0 == c);
    let ch = n.child(c);
    assert(ch.wf() && ch.has_some_word());
    if p.len() == 1 {
        let q = choose|q: Seq<char>| ch.word_at(q);
        assert((p + q).skip(1) =~= q);
        assert((p + q)[0] == c);
        assert(n.word_at(p + q));
    } else {
        lemma_path_extends_to_word(ch, p.skip(1));
        let q = choose|q: Seq<char>| #[trigger] ch.word_at(p.skip(1) + q);
        assert((p + q).skip(1) =~= p.skip(1) + q);
        assert((p + q)[0] == c);
        assert(n.word_at(p + q));
    }
}

/// In a well-formed node a path exists exactly when it is empty or a
/// prefix of some stored word.
pub(crate) proof fn lemma_path_iff_prefix(n: TrieNode, p: Seq<char>)
    requires
        n.wf(),
    ensures
        n.has_path(p) <==> (p.len() == 0 || exists|w: Seq<char>|
            #[trigger] n.words().contains(w) && p.is_prefix_of(w)),
{
    if n.has_path(p) && p.len() > 0 {
        lemma_path_extends_to_word(n, p);
        let q = choose|q: Seq<char>| #[trigger] n.word_at(p + q);
        let w = p + q;
        assert(n.words().contains(w));
        assert(p =~= w.subrange(0, p.len() as int));
        assert(p.is_prefix_of(w));
    }
    if exists|w: Seq<char>| #[trigger] n.words().contains(w) && p.is_prefix_of(w) {
        let w = choose|w: Seq<char>| #[trigger] n.words().contains(w) && p.is_prefix_of(w);
        let q = w.skip(p.len() as int);
        assert(w =~= p + q);
        lemma_word_concat(n, p, q);
        assert(n.has_path(p));
    }
}

/// An empty leaf (no children, not a word) stores no word at all.
proof fn lemma_leaf_no_words(n: TrieNode, p: Seq<char>)
    requires
        n.children@.len() == 0,
        !n.is_word,
    ensures
        !n.word_at(p),
{
    if p.len() != 0 {
        assert(!n.has_child(p[0]));
    }
}

/// Marking a node as a word adds exactly the empty word to its set and
/// preserves well-formedness.
proof fn lemma_mark_word(pre: TrieNode, post: TrieNode)
    requires
        post.children@ == pre.children@,
        post.is_word,
    ensures
        post.words() =~= pre.words().insert(Seq::<char>::empty()),
        pre.wf() ==> post.wf(),
{
    assert forall|p: Seq<char>|
        post.words().contains(p) == pre.words().insert(Seq::<char>::empty()).contains(p) by {
        if p.len() == 0 {
            assert(p =~= Seq::<char>::empty());
            assert(post.word_at(p));
        } else {
            assert(post.has_child(p[0]) == pre.has_child(p[0]));
            assert(post.child(p[0]) == pre.child(p[0]));
            assert(post.word_at(p) == pre.word_at(p));
            assert(p.len() != Seq::<char>::empty().len());
        }
    }
}

/// Appending a fresh leaf child under an unused key changes no stored word
/// and keeps the keys unique and the other children intact.
proof fn lemma_push_leaf(pre: TrieNode, post: TrieNode, c: char)
    requires
        !pre.has_child(c),
        post.is_word == pre.is_word,
        post.children@.len() == pre.children@.len() + 1,
        forall|i: int|
            0 <= i < pre.children@.len() ==> post.children@[i] == pre.children@[i],
        post.children@[pre.children@.len() as int].0 == c,
        post.children@[pre.children@.len() as int].1.children@.len() == 0,
        !post.children@[pre.children@.len() as int].1.is_word,
        forall|i1: int, i2: int|
            0 <= i1 < i2 < pre.children@.len() ==> (#[trigger] pre.children@[i1]).0 != (
            #[trigger] pre.children@[i2]).0,
    ensures
        post.words() =~= pre.words(),
        forall|i1: int, i2: int|
            0 <= i1 < i2 < post.children@.len() ==> (#[trigger] post.children@[i1]).0 != (
            #[trigger] post.children@[i2]).0,
        post.has_child(c),
        post.child_idx(c) == pre.children@.len(),
{
    let m = pre.children@.len() as int;
    assert forall|i1: int, i2: int|
        0 <= i1 < i2 < post.children@.len() implies (#[trigger] post.children@[i1]).0 != (
        #[trigger] post.children@[i2]).0 by {
        if i2 < m {
            assert(pre.children@[i1].0 != pre.children@[i2].0);
        } else {
            // i2 is the fresh entry; an equal key at i1 would mean pre had c
            if post.children@[i1].0 == c {
                assert(pre.children@[i1].0 == c);
                assert(pre.has_child(c));
            }
        }
    }
    assert(post.has_child(c));
    let j = post.child_idx(c);
    assert(0 <= j < post.children@.len() && post.children@[j].0 == c);
    if j < m {
        assert(pre.children@[j].0 == c);
        assert(pre.has_child(c));
    }
    assert forall|p: Seq<char>| post.words().contains(p) == pre.words().contains(p) by {
        lemma_push_leaf_word_frame(pre, post, c, p);
    }
}

/// Word-by-word frame argument behind `lemma_push_leaf`.
proof fn lemma_push_leaf_word_frame(pre: TrieNode, post: TrieNode, c: char, p: Seq<char>)
    requires
        !pre.has_child(c),
        post.is_word == pre.is_word,
        post.children@.len() == pre.children@.len() + 1,
        forall|i: int|
            0 <= i < pre.children@.len() ==> post.children@[i] == pre.children@[i],
        post.children@[pre.children@.len() as int].0 == c,
        post.children@[pre.children@.len() as int].1.children@.len() == 0,
        !post.children@[pre.children@.len() as int].1.is_word,
        forall|i1: int, i2: int|
            0 <= i1 < i2 < pre.children@.len() ==> (#[trigger] pre.children@[i1]).0 != (
            #[trigger] pre.children@[i2]).0,
    ensures
        post.word_at(p) == pre.word_at(p),
{
    let m = pre.children@.len() as int;
    if p.len() == 0 {
    } else {
        let c0 = p[0];
        if c0 == c {
            // pre has no such edge, and post's fresh edge leads to an empty leaf
            assert(!pre.word_at(p));
            if post.word_at(p) {
                let j = post.child_idx(c0);
                assert(0 <= j < post.children@.len() && post.children@[j].0 == c0);
                if j < m {
                    assert(pre.children@[j].0 == c);
                    assert(pre.has_child(c));
                } else {
                    lemma_leaf_no_words(post.children@[m].1, p.skip(1));
                }
            }
        } else if pre.has_child(c0) {
            // the edge is one of the shared entries, at the same unique index
            let j = pre.child_idx(c0);
            assert(0 <= j < pre.children@.len() && pre.children@[j].0 == c0);
            assert(post.children@[j] == pre.children@[j]);
            assert(post.has_child(c0));
            let k = post.child_idx(c0);
            assert(0 <= k < post.children@.len() && post.children@[k].0 == c0);
            if k == m {
                assert(post.children@[m].0 == c);
            } else {
                assert(post.children@[k] == pre.children@[k]);
                assert(pre.children@[k].0 == c0);
                if j < k {
                    assert(pre.children@[j].0 != pre.children@[k].0);
                } else if k < j {
                    assert(pre.children@[k].0 != pre.children@[j].0);
                }
            }
            assert(post.child(c0) == pre.child(c0));
        } else {
            // neither side has the edge
            assert(!pre.word_at(p));
            if post.has_child(c0) {
                let k = post.child_idx(c0);
                assert(0 <= k < post.children@.len() && post.children@[k].0 == c0);
                if k < m {
                    assert(pre.children@[k].0 == c0);
                    assert(pre.has_child(c0));
                } else {
                    assert(post.children@[m].0 == c);
                }
            }
            assert(!post.word_at(p));
        }
    }
}

/// Replacing the child subtree at index `j` so that its word set gains
/// exactly `q` makes this node's word set gain exactly its key followed by
/// `q`, and re-establishes well-formedness.
proof fn lemma_update_child_words(pre: TrieNode, post: TrieNode, j: int, q: Seq<char>)
    requires
        0 <= j < pre.children@.len(),
        forall|i1: int, i2: int|
            0 <= i1 < i2 < pre.children@.len() ==> (#[trigger] pre.children@[i1]).0 != (
            #[trigger] pre.children@[i2]).0,
        forall|i: int|
            0 <= i < pre.children@.len() && i != j ==> (#[trigger] pre.children@[i]).1.wf(),
        forall|i: int|
            0 <= i < pre.children@.len() && i != j ==> (
            #[trigger] pre.children@[i]).1.has_some_word(),
        post.is_word == pre.is_word,
        post.children@ == pre.children@.update(j, (pre.children@[j].0, post.children@[j].1)),
        post.children@[j].1.wf(),
        post.children@[j].1.words() == pre.children@[j].1.words().insert(q),
    ensures
        post.wf(),
        post.words() =~= pre.words().insert(seq![pre.children@[j].0] + q),
{
    let c = pre.children@[j].0;
    let nc = post.children@[j].1;
    assert(post.children@.len() == pre.children@.len());
    assert(forall|i: int|
        0 <= i < post.children@.len() ==> (#[trigger] post.children@[i]).0 == pre.children@[i].0);
    assert(nc.words().contains(q));
    assert(nc.word_at(q));
    assert(post.wf()) by {
        assert(forall|i: int|
            0 <= i < post.children@.len() && i != j ==> (#[trigger] post.children@[i]) == pre.children@[i]);
    }
    assert forall|p: Seq<char>|
        post.words().contains(p) == pre.words().insert(seq![c] + q).contains(p) by {
        lemma_update_child_word_frame(pre, post, j, q, p);
        if p =~= seq![c] + q {
            assert(p == seq![c] + q);
        }
    }
}

/// Word-by-word frame argument behind `lemma_update_child_words`.
proof fn lemma_update_child_word_frame(pre: TrieNode, post: TrieNode, j: int, q: Seq<char>, p: Seq<char>)
    requires
        0 <= j < pre.children@.len(),
        forall|i1: int, i2: int|
            0 <= i1 < i2 < pre.children@.len() ==> (#[trigger] pre.children@[i1]).0 != (
            #[trigger] pre.children@[i2]).0,
        post.is_word == pre.is_word,
        post.children@ == pre.children@.update(j, (pre.children@[j].0, post.children@[j].1)),
        post.children@[j].1.words() == pre.children@[j].1.words().insert(q),
    ensures
        post.word_at(p) == (pre.word_at(p) || p =~= seq![pre.children@[j].0] + q),
{
    let c = pre.children@[j].0;
    let nc = post.children@[j].1;
    let oc = pre.children@[j].1;
    assert(post.children@.len() == pre.children@.len());
    assert(forall|i: int|
        0 <= i < post.children@.len() ==> (#[trigger] post.children@[i]).0 == pre.children@[i].0);
    if p.len() == 0 {
        assert((seq![c] + q).len() >= 1);
    } else {
        let c0 = p[0];
        if c0 == c {
            assert(pre.has_child(c0));
            let j1 = pre.child_idx(c0);
            assert(0 <= j1 < pre.children@.len() && pre.children@[j1].0 == c0);
            if j1 < j {
                assert(pre.children@[j1].0 != pre.children@[j].0);
            } else if j < j1 {
                assert(pre.children@[j].0 != pre.children@[j1].0);
            }
            assert(j1 == j);
            assert(pre.child(c0) == oc);
            assert(post.children@[j].0 == c0);
            assert(post.has_child(c0));
            let j2 = post.child_idx(c0);
            assert(0 <= j2 < post.children@.len() && post.children@[j2].0 == c0);
            if j2 != j {
                assert(pre.children@[j2].0 == c0);
                if j2 < j {
                    assert(pre.children@[j2].0 != pre.children@[j].0);
                } else {
                    assert(pre.children@[j].0 != pre.children@[j2].0);
                }
            }
            assert(post.child(c0) == nc);
            assert(post.word_at(p) == nc.word_at(p.skip(1)));
            assert(pre.word_at(p) == oc.word_at(p.skip(1)));
            assert(nc.words().contains(p.skip(1)) == nc.word_at(p.skip(1)));
            assert(oc.words().contains(p.skip(1)) == oc.word_at(p.skip(1)));
            assert(nc.word_at(p.skip(1)) == (oc.word_at(p.skip(1)) || p.skip(1) == q));
            if p.skip(1) == q {
                assert(p =~= seq![c] + q);
            }
            if p =~= seq![c] + q {
                assert(p.skip(1) =~= q);
            }
        } else {
            assert((seq![c] + q)[0] == c);
            assert(!(p =~= seq![c] + q));
            if pre.has_child(c0) {
                let j1 = pre.child_idx(c0);
                assert(0 <= j1 < pre.children@.len() && pre.children@[j1].0 == c0);
                assert(j1 != j);
                assert(post.children@[j1] == pre.children@[j1]);
                assert(post.has_child(c0));
                let j2 = post.child_idx(c0);
                assert(0 <= j2 < post.children@.len() && post.children@[j2].0 == c0);
                assert(pre.children@[j2].0 == c0);
                if j1 < j2 {
                    assert(pre.children@[j1].0 != pre.children@[j2].0);
                } else if j2 < j1 {
                    assert(pre.children@[j2].0 != pre.children@[j1].0);
                }
                assert(j2 == j1);
                assert(post.child(c0) == pre.child(c0));
                assert(post.word_at(p) == pre.word_at(p));
            } else {
                assert(!pre.word_at(p));
                if post.has_child(c0) {
                    let j2 = post.child_idx(c0);
                    assert(0 <= j2 < post.children@.len() && post.children@[j2].0 == c0);
                    assert(pre.children@[j2].0 == c0);
                    assert(pre.has_child(c0));
                }
                assert(!post.word_at(p));
            }
        }
    }
}

impl TrieNode {
    /// Linear scan for the child edge labelled `c`, as a shared reference.
    pub(crate) fn child_ref<'a>(&'a self, c: char) -> (r: Option<&'a TrieNode>)
        requires
            self.wf(),
        ensures
            match r {
                Some(ch) => self.has_child(c) && *ch == self.child(c) && ch.wf(),
                None => !self.has_child(c),
            },
    {
        let n = self.children.len();
        let mut k: usize = 0;
        while k < n
            invariant
                self.wf(),
                n == self.children@.len(),
                0 <= k <= n,
                forall|i: int| 0 <= i < k ==> (#[trigger] self.children@[i]).0 != c,
            decreases n - k,
        {
            let pair = &self.children[k];
            if pair.0 == c {
                proof {
                    lemma_wf_child_at(*self, k as int);
                }
                return Some(&pair.1);
            }
            k += 1;
        }
        proof {
            if self.has_child(c) {
                let i = self.child_idx(c);
                assert(0 <= i < self.children@.len() && self.children@[i].0 == c);
            }
        }
        None
    }

    /// Linear scan for the index of the child edge labelled `c`.
    fn child_index(&self, c: char) -> (r: Option<usize>)
        requires
            self.wf(),
        ensures
            match r {
                Some(k) => k < self.children@.len() && self.children@[k as int].0 == c,
                None => !self.has_child(c),
            },
    {
        let n = self.children.len();
        let mut k: usize = 0;
        while k < n
            invariant
                self.wf(),
                n == self.children@.len(),
                0 <= k <= n,
                forall|i: int| 0 <= i < k ==> (#[trigger] self.children@[i]).0 != c,
            decreases n - k,
        {
            let pair = &self.children[k];
            if pair.0 == c {
                return Some(k);
            }
            k += 1;
        }
        proof {
            if self.has_child(c) {
                let i = self.child_idx(c);
                assert(0 <= i < self.children@.len() && self.children@[i].0 == c);
            }
        }
        None
    }

    /// Inserts the suffix of `word` that starts at character `i` below this
    /// node, creating nodes on demand, and reports whether that suffix was
    /// not yet a stored word here.
    pub(crate) fn insert_at(&mut self, word: &str, i: usize) -> (r: bool)
        requires
            old(self).wf(),
            i <= word@.len(),
        ensures
            final(self).wf(),
            final(self).words() == old(self).words().insert(word@.skip(i as int)),
            r == !old(self).word_at(word@.skip(i as int)),
        decreases word@.len() - i,
    {
        let ghost suffix = word@.skip(i as int);
        let n = word.unicode_len();
        if i == n {
            let r = !self.is_word;
            proof {
                assert(suffix =~= Seq::<char>::empty());
            }
            self.is_word = true;
            proof {
                lemma_mark_word(*old(self), *self);
            }
            r
        } else {
            let c = word.get_char(i);
            proof {
                assert(suffix.len() > 0);
                assert(suffix[0] == c);
                assert(suffix.skip(1) =~= word@.skip(i as int + 1));
            }
            let idx: usize;
            match self.child_index(c) {
                Some(k) => {
                    idx = k;
                    proof {
                        lemma_wf_child_at(*old(self), idx as int);
                    }
                }
                None => {
                    idx = self.children.len();
                    self.children.push((c, TrieNode { children: Vec::new(), is_word: false }));
                    proof {
                        lemma_push_leaf(*old(self), *self, c);
                        lemma_leaf_no_words(self.children@[idx as int].1, word@.skip(i as int + 1));
                        assert(!old(self).word_at(suffix));
                    }
                }
            }
            let ghost mid = *self;
            let pair = &mut self.children[idx];
            let r = pair.1.insert_at(word, i + 1);
            proof {
                lemma_update_child_words(mid, *self, idx as int, word@.skip(i as int + 1));
                assert(seq![c] + word@.skip(i as int + 1) =~= suffix);
                assert(self.words() =~= old(self).words().insert(suffix));
            }
            r
        }
    }
}

/// Builds the string whose characters are exactly those of `cs`, in order.
/// Relies on `FromIterator<char> for String`: collecting characters yields
/// the string of those characters.
#[verifier::external_body]
fn chars_to_string(cs: &Vec<char>) -> (s: String)
    ensures
        s@ == cs@,
{
    cs.iter().collect()
}

impl TrieNode {
    /// Depth-first collection of every word stored below this node; each
    /// emitted string is the characters already on `branch` followed by the
    /// word's characters.  `branch` is used as a backtracking buffer and is
    /// left as it was found.
    #[verifier::rlimit(60)]
    pub(crate) fn collect_words(&self, branch: &mut Vec<char>, out: &mut Vec<String>)
        requires
            self.wf(),
        ensures
            final(branch)@ == old(branch)@,
            final(out)@.len() >= old(out)@.len(),
            forall|k: int| 0 <= k < old(out)@.len() ==> final(out)@[k] == old(out)@[k],
            forall|k: int|
                old(out)@.len() <= k < final(out)@.len() ==> (#[trigger] final(out)@[k])@.len()
                    >= old(branch)@.len() && final(out)@[k]@.take(old(branch)@.len() as int)
                    == old(branch)@ && self.words().contains(
                    final(out)@[k]@.skip(old(branch)@.len() as int)),
            forall|w: Seq<char>|
                #[trigger] self.words().contains(w) ==> exists|k: int|
                    old(out)@.len() <= k < final(out)@.len() && (#[trigger] final(out)@[k])@
                        == old(branch)@ + w,
            forall|k1: int, k2: int|
                old(out)@.len() <= k1 < k2 < final(out)@.len() ==> (#[trigger] final(out)@[k1])@
                    != (#[trigger] final(out)@[k2])@,
        decreases *self,
    {
        let ghost base = out@.len() as int;
        let ghost plen = branch@.len() as int;
        if self.is_word {
            let s = chars_to_string(branch);
            out.push(s);
            proof {
                assert(branch@.take(plen) =~= branch@);
                assert(branch@.skip(plen) =~= Seq::<char>::empty());
                assert(self.word_at(Seq::<char>::empty()));
                assert(out@[base]@ == old(branch)@);
            }
        }
        let n = self.children.len();
        let mut m: usize = 0;
        while m < n
            invariant
                self.wf(),
                n == self.children@.len(),
                0 <= m <= n,
                branch@ == old(branch)@,
                base == old(out)@.len(),
                plen == old(branch)@.len(),
                out@.len() >= base,
                forall|k: int| 0 <= k < base ==> out@[k] == old(out)@[k],
                forall|k: int|
                    base <= k < out@.len() ==> (#[trigger] out@[k])@.len() >= plen
                        && out@[k]@.take(plen) == old(branch)@ && self.words().contains(
                        out@[k]@.skip(plen)),
                forall|k: int|
                    base <= k < out@.len() && (#[trigger] out@[k])@.len() > plen ==> self.has_child(
                        out@[k]@[plen]) && self.child_idx(out@[k]@[plen]) < m,
                self.is_word ==> exists|k: int|
                    base <= k < out@.len() && (#[trigger] out@[k])@ == old(branch)@,
                forall|j: int, w: Seq<char>|
                    0 <= j < m && #[trigger] self.children@[j].1.words().contains(w)
                        ==> exists|k: int|
                        base <= k < out@.len() && (#[trigger] out@[k])@ == old(branch)@ + seq![
                            self.children@[j].0,
                        ] + w,
                forall|k1: int, k2: int|
                    base <= k1 < k2 < out@.len() ==> (#[trigger] out@[k1])@ != (
                    #[trigger] out@[k2])@,
            decreases n - m,
        {
            let pair = &self.children[m];
            proof {
                lemma_wf_child_at(*self, m as int);
            }
            branch.push(pair.0);
            let ghost mark = out@.len() as int;
            pair.1.collect_words(branch, out);
            branch.pop();
            proof {
                let c = self.children@[m as int].0;
                let ch = self.children@[m as int].1;
                assert(branch@ =~= old(branch)@);
                // entries added by the child call carry this child's key
                // right after the shared stem
                assert forall|k: int|
                    mark <= k < out@.len() implies (#[trigger] out@[k])@.len() > plen
                        && out@[k]@.take(plen) == old(branch)@ && out@[k]@[plen] == c
                        && ch.words().contains(out@[k]@.skip(plen + 1)) by {
                    let s = out@[k]@;
                    assert(s.len() >= plen + 1);
                    assert(s.take(plen + 1) == old(branch)@.push(c));
                    assert(s.take(plen) =~= s.take(plen + 1).take(plen));
                    assert(s.take(plen + 1).take(plen) =~= old(branch)@);
                    assert(s[plen] == s.take(plen + 1)[plen]);
                }
                // and their suffixes past the stem are words of this node
                assert forall|k: int|
                    mark <= k < out@.len() implies self.words().contains(
                        (#[trigger] out@[k])@.skip(plen)) by {
                    let s = out@[k]@;
                    assert(s.skip(plen) =~= seq![c] + s.skip(plen + 1));
                    assert(ch.word_at(s.skip(plen + 1)));
                    assert(self.word_at(seq![c] + s.skip(plen + 1))) by {
                        assert((seq![c] + s.skip(plen + 1))[0] == c);
                        assert((seq![c] + s.skip(plen + 1)).skip(1) =~= s.skip(plen + 1));
                    }
                }
                // completeness for this child
                assert forall|w: Seq<char>|
                    (#[trigger] ch.words().contains(w)) implies exists|k: int|
                        base <= k < out@.len() && (#[trigger] out@[k])@ == old(branch)@ + seq![c]
                            + w by {
                    let k = choose|k: int|
                        mark <= k < out@.len() && (#[trigger] out@[k])@ == old(branch)@.push(c)
                            + w;
                    assert(out@[k]@ =~= old(branch)@ + seq![c] + w);
                }
                // distinctness of the new entries against the earlier ones
                assert forall|k1: int, k2: int|
                    base <= k1 < mark && mark <= k2 < out@.len() implies (#[trigger] out@[k1])@
                        != (#[trigger] out@[k2])@ by {
                    let s1 = out@[k1]@;
                    let s2 = out@[k2]@;
                    if s1.len() == plen {
                        assert(s2.len() > plen);
                    } else {
                        assert(self.child_idx(s1[plen]) < m);
                        if s1[plen] == c {
                            assert(self.child_idx(c) == m);
                        }
                        assert(s1[plen] != s2[plen]);
                    }
                }
            }
            m += 1;
        }
        proof {
            // every stored word was emitted: the empty word by the node
            // itself, a nonempty one during its first character's iteration
            assert forall|w: Seq<char>|
                (#[trigger] self.words().contains(w)) implies exists|k: int|
                    base <= k < out@.len() && (#[trigger] out@[k])@ == old(branch)@ + w by {
                if w.len() == 0 {
                    let k = choose|k: int|
                        base <= k < out@.len() && (#[trigger] out@[k])@ == old(branch)@;
                    assert(out@[k]@ =~= old(branch)@ + w);
                } else {
                    let j = self.child_idx(w[0]);
                    assert(0 <= j < self.children@.len() && self.children@[j].0 == w[0]);
                    assert(self.children@[j].1.words().contains(w.skip(1)));
                    let k = choose|k: int|
                        base <= k < out@.len() && (#[trigger] out@[k])@ == old(branch)@ + seq![
                            self.children@[j].0,
                        ] + w.skip(1);
                    assert(out@[k]@ =~= old(branch)@ + w);
                }
            }
        }
    }
}

} // verus!
