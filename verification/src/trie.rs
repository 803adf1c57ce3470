//! The trie proper: an empty constructor, insertion, prefix lookup, and
//! the helper trait that tests and enumerates a lookup result.

use vstd::prelude::*;

use crate::node::lemma_path_iff_prefix;
use crate::node::lemma_word_at_iff;
use crate::node::lemma_word_concat;
use crate::node::TrieNode;

verus! {

/// A prefix tree over character sequences.  Its view is the set of words
/// (as character sequences) stored in it.
pub struct Trie {
    pub root: TrieNode,
}

impl View for Trie {
    type V = Set<Seq<char>>;

    open spec fn view(&self) -> Set<Seq<char>> {
        self.root.words()
    }
}

impl Trie {
    /// The structural invariant of the whole tree.
    pub open spec fn wf(self) -> bool {
        self.root.wf()
    }

    /// An empty trie: well-formed and holding no words.
    pub fn new() -> (t: Trie)
        ensures
            t.wf(),
            t@ == Set::<Seq<char>>::empty(),
    {
        let t = Trie { root: TrieNode { children: Vec::new(), is_word: false } };
        proof {
            assert forall|p: Seq<char>| !t.root.word_at(p) by {
                if p.len() != 0 {
                    assert(!t.root.has_child(p[0]));
                }
            }
            assert(t.root.words() =~= Set::<Seq<char>>::empty());
        }
        t
    }

    /// Walks `word` character by character from the root.  The result is
    /// present exactly when `word` is empty or a prefix (inclusive) of some
    /// stored word, and then refers to the node the walk reaches.
    pub fn find<'a>(&'a self, word: &str) -> (r: Option<&'a TrieNode>)
        requires
            self.wf(),
        ensures
            match r {
                Some(node) => self.root.has_path(word@) && *node == self.root.node_at(word@)
                    && node.wf(),
                None => !self.root.has_path(word@),
            },
            r is Some <==> (word@.len() == 0 || exists|w: Seq<char>|
                #[trigger] self@.contains(w) && word@.is_prefix_of(w)),
    {
        proof {
            lemma_path_iff_prefix(self.root, word@);
        }
        let n = word.unicode_len();
        let mut cur: &TrieNode = &self.root;
        let mut i: usize = 0;
        while i < n
            invariant
                self.wf(),
                n == word@.len(),
                0 <= i <= n,
                self.root.has_path(word@.take(i as int)),
                *cur == self.root.node_at(word@.take(i as int)),
                cur.wf(),
            decreases n - i,
        {
            let c = word.get_char(i);
            match cur.child_ref(c) {
                Some(ch) => {
                    proof {
                        lemma_step_down(self.root, word@, i as int);
                    }
                    cur = ch;
                    i += 1;
                }
                None => {
                    proof {
                        lemma_stop_short(self.root, word@, i as int);
                        lemma_path_iff_prefix(self.root, word@);
                        if exists|w: Seq<char>|
                            #[trigger] self@.contains(w) && word@.is_prefix_of(w) {
                            let w = choose|w: Seq<char>|
                                #[trigger] self@.contains(w) && word@.is_prefix_of(w);
                            assert(self.root.words().contains(w));
                        }
                    }
                    return None;
                }
            }
        }
        proof {
            assert(word@.take(n as int) =~= word@);
            if word@.len() > 0 {
                let w = choose|w: Seq<char>|
                    #[trigger] self.root.words().contains(w) && word@.is_prefix_of(w);
                assert(self@.contains(w));
            }
        }
        Some(cur)
    }

    /// Inserts `word`, creating nodes on demand, and reports whether it was
    /// newly added: true the first time, false for a word already stored.
    pub fn insert(&mut self, word: &str) -> (r: bool)
        requires
            old(self).wf(),
        ensures
            final(self).wf(),
            final(self)@ == old(self)@.insert(word@),
            r == !old(self)@.contains(word@),
    {
        let r = self.root.insert_at(word, 0);
        proof {
            assert(word@.skip(0) =~= word@);
        }
        r
    }
}

/// Walking one more character of `p` lands on the child reached along it.
proof fn lemma_step_down(root: TrieNode, p: Seq<char>, i: int)
    requires
        0 <= i < p.len(),
        root.has_path(p.take(i)),
        root.node_at(p.take(i)).has_child(p[i]),
    ensures
        root.has_path(p.take(i + 1)),
        root.node_at(p.take(i + 1)) == root.node_at(p.take(i)).child(p[i]),
{
    let q = seq![p[i]];
    assert(p.take(i + 1) =~= p.take(i) + q);
    crate::node::lemma_path_concat(root, p.take(i), q);
    assert(q.skip(1) =~= Seq::<char>::empty());
    assert(q[0] == p[i]);
    let here = root.node_at(p.take(i));
    let ch = here.child(p[i]);
    assert(ch.has_path(Seq::<char>::empty()));
    assert(ch.node_at(Seq::<char>::empty()) == ch);
    assert(here.has_path(q));
    assert(here.node_at(q) == ch);
}

/// A missing child along the way means the whole path is missing.
proof fn lemma_stop_short(root: TrieNode, p: Seq<char>, i: int)
    requires
        0 <= i < p.len(),
        root.has_path(p.take(i)),
        !root.node_at(p.take(i)).has_child(p[i]),
    ensures
        !root.has_path(p),
{
    let q = p.skip(i);
    assert(p =~= p.take(i) + q);
    crate::node::lemma_path_concat(root, p.take(i), q);
    assert(q.len() > 0);
    assert(q[0] == p[i]);
    assert(!root.node_at(p.take(i)).has_path(q));
}

/// A sequence is a stored word exactly when it is a reachable path whose
/// node is marked.  In particular a stored word is always found, and a
/// reachable strict prefix of one is found but not itself a word.
pub proof fn lemma_stored_word_marks_node(t: Trie, p: Seq<char>)
    ensures
        t@.contains(p) == (t.root.has_path(p) && t.root.node_at(p).is_word),
{
    lemma_word_at_iff(t.root, p);
}

/// The words stored below the node a path reaches are exactly the suffixes
/// that complete it to a stored word.
pub proof fn lemma_words_below(t: Trie, p: Seq<char>, s: Seq<char>)
    requires
        t.root.has_path(p),
    ensures
        t.root.node_at(p).words().contains(s) == t@.contains(p + s),
{
    lemma_word_concat(t.root, p, s);
}

/// The operations a lookup result offers: testing whether it is a word
/// node and enumerating every word stored below it.
pub trait OpTN {
    /// The well-formedness carried by the referenced node, if any.
    spec fn opt_wf(&self) -> bool;

    /// The words stored below the referenced node; none when absent.
    spec fn opt_words(&self) -> Set<Seq<char>>;

    /// Whether the referenced node is present and marked as a word.
    spec fn opt_is_word(&self) -> bool;

    /// True exactly when the lookup found a node marked as a word; an
    /// absent result is never a word.
    fn is_word(&self) -> (r: bool)
        ensures
            r == self.opt_is_word(),
    ;

    /// Every word stored below the referenced node, each exactly once, in
    /// no promised order; empty when the result is absent.
    fn get_all_words(&self) -> (r: Vec<String>)
        requires
            self.opt_wf(),
        ensures
            forall|k: int| 0 <= k < r@.len() ==> self.opt_words().contains((#[trigger] r@[k])@),
            forall|w: Seq<char>|
                #[trigger] self.opt_words().contains(w) ==> exists|k: int|
                    0 <= k < r@.len() && (#[trigger] r@[k])@ == w,
            forall|k1: int, k2: int| 0 <= k1 < k2 < r@.len() ==> (#[trigger] r@[k1])@ != (
                #[trigger] r@[k2])@,
    ;
}

impl<'a> OpTN for Option<&'a TrieNode> {
    open spec fn opt_wf(&self) -> bool {
        match self {
            Some(node) => node.wf(),
            None => true,
        }
    }

    open spec fn opt_words(&self) -> Set<Seq<char>> {
        match self {
            Some(node) => node.words(),
            None => Set::empty(),
        }
    }

    open spec fn opt_is_word(&self) -> bool {
        match self {
            Some(node) => node.is_word,
            None => false,
        }
    }

    fn is_word(&self) -> (r: bool) {
        match self {
            Some(node) => node.is_word,
            None => false,
        }
    }

    fn get_all_words(&self) -> (r: Vec<String>) {
        let mut ret: Vec<String> = Vec::new();
        match self {
            None => ret,
            Some(node) => {
                let mut branch: Vec<char> = Vec::new();
                node.collect_words(&mut branch, &mut ret);
                proof {
                    assert forall|k: int| 0 <= k < ret@.len() implies node.words().contains(
                        (#[trigger] ret@[k])@) by {
                        assert(ret@[k]@.skip(0) =~= ret@[k]@);
                    }
                    assert forall|w: Seq<char>|
                        #[trigger] node.words().contains(w) implies exists|k: int|
                        0 <= k < ret@.len() && (#[trigger] ret@[k])@ == w by {
                        let k = choose|k: int|
                            0 <= k < ret@.len() && (#[trigger] ret@[k])@ == Seq::<char>::empty()
                                + w;
                        assert(ret@[k]@ =~= w);
                    }
                }
                ret
            }
        }
    }
}

} // verus!
