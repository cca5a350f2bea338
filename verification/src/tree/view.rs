//! What a tree holds, as sets of character sequences, and the laws of adding
//! words and asking for them.

use super::Node;
use crate::keys::{Key, Keys};
use crate::words::{extends, prefix_all};
use vstd::prelude::*;

verus! {

/// What a tree holds: the paths from the root along which it has nodes, and
/// those among them that spell a word.
#[verifier::ext_equal]
pub struct TreeView {
    pub nodes: Set<Seq<char>>,
    pub words: Set<Seq<char>>,
}

impl TreeView {
    /// The tree that holds nothing.
    pub open spec fn empty() -> TreeView {
        TreeView { nodes: Set::empty(), words: Set::empty() }
    }

    /// The tree with the word `w` added: it has a node for each beginning of
    /// `w`, and `w` is a word of it. Adding the empty word changes nothing.
    pub open spec fn insert(self, w: Seq<char>) -> TreeView {
        TreeView {
            nodes: Set::new(
                |p: Seq<char>| self.nodes.contains(p) || (p.len() > 0 && p.is_prefix_of(w)),
            ),
            words: Set::new(|v: Seq<char>| self.words.contains(v) || (v.len() > 0 && v == w)),
        }
    }

    /// The tree that hangs below the node at `path`.
    pub open spec fn below(self, path: Seq<char>) -> TreeView {
        TreeView {
            nodes: Set::new(|p: Seq<char>| p.len() > 0 && self.nodes.contains(path + p)),
            words: Set::new(|w: Seq<char>| w.len() > 0 && self.words.contains(path + w)),
        }
    }

    /// The tree in which the node for the first character `c` is replaced, with
    /// all that hangs below it: the new node ends a word if `end` says so, and
    /// has `sub` below it.
    pub open spec fn graft(self, c: char, end: bool, sub: TreeView) -> TreeView {
        TreeView {
            nodes: Set::new(
                |p: Seq<char>|
                    p.len() > 0 && if p[0] == c {
                        p.len() == 1 || sub.nodes.contains(p.drop_first())
                    } else {
                        self.nodes.contains(p)
                    },
            ),
            words: Set::new(
                |w: Seq<char>|
                    w.len() > 0 && if w[0] == c {
                        if w.len() == 1 {
                            end
                        } else {
                            sub.words.contains(w.drop_first())
                        }
                    } else {
                        self.words.contains(w)
                    },
            ),
        }
    }

    /// The tree after each of `nodes` was put in, one after the other: a
    /// later node for a character replaces an earlier one.
    pub open spec fn graft_all(self, nodes: Seq<(char, Node)>) -> TreeView
        decreases nodes.len(),
    {
        if nodes.len() == 0 {
            self
        } else {
            let (c, node) = nodes.last();
            self.graft_all(nodes.drop_last()).graft(c, node.end, node.children@)
        }
    }

    /// The tree that holds the words of a list, each added after the ones
    /// before it.
    pub open spec fn of_words(words: Seq<Seq<char>>) -> TreeView
        decreases words.len(),
    {
        if words.len() == 0 {
            TreeView::empty()
        } else {
            TreeView::of_words(words.drop_last()).insert(words.last())
        }
    }

    /// What holds of every tree: no node sits at the empty path, every
    /// beginning of a node's path has a node too, and a word ends at a node.
    pub open spec fn wf(self) -> bool {
        &&& !self.nodes.contains(Seq::<char>::empty())
        &&& forall|p: Seq<char>, k: int|
            self.nodes.contains(p) && 0 < k <= p.len() ==> self.nodes.contains(#[trigger] p.take(k))
        &&& forall|w: Seq<char>| self.words.contains(w) ==> self.nodes.contains(w)
    }

    /// The words of the tree that the keys `keys` type: one letter for each key.
    pub open spec fn typed(self, keys: Seq<Key>) -> Set<Seq<char>> {
        Set::new(|w: Seq<char>| self.words.contains(w) && Keys::spell(keys, w))
    }

    /// The paths of the tree's nodes that the keys `keys` type.
    pub open spec fn typed_paths(self, keys: Seq<Key>) -> Set<Seq<char>> {
        Set::new(|p: Seq<char>| self.nodes.contains(p) && Keys::spell(keys, p))
    }

    /// Each word of the tree with `prefix` put before it.
    pub open spec fn prefixed(self, prefix: Seq<char>) -> Set<Seq<char>> {
        prefix_all(prefix, self.words)
    }

    /// The words of the tree that start with `prefix` and go on after it.
    /// The empty prefix has no completions.
    pub open spec fn completions(self, prefix: Seq<char>) -> Set<Seq<char>> {
        Set::new(|v: Seq<char>| prefix.len() > 0 && self.words.contains(v) && extends(v, prefix))
    }

    /// The words of the tree whose beginning the keys `keys` type and that go
    /// on after it. The empty key sequence has no completions.
    pub open spec fn key_completions(self, keys: Seq<Key>) -> Set<Seq<char>> {
        Set::new(
            |v: Seq<char>|
                keys.len() > 0 && self.words.contains(v) && keys.len() < v.len() && Keys::spell(
                    keys,
                    v.take(keys.len() as int),
                ),
        )
    }
}

impl TreeView {
    /// Adding a word changes the node for its first character and what hangs
    /// below it, and nothing else.
    pub proof fn lemma_insert_by_graft(self, w: Seq<char>)
        requires
            self.wf(),
            w.len() > 0,
        ensures
            self.insert(w) == self.graft(
                w[0],
                self.words.contains(seq![w[0]]) || w.len() == 1,
                self.below(seq![w[0]]).insert(w.drop_first()),
            ),
    {
        let c = w[0];
        let rest = w.drop_first();
        let sub = self.below(seq![c]).insert(rest);
        let grafted = self.graft(c, self.words.contains(seq![c]) || w.len() == 1, sub);
        assert(seq![c] + rest =~= w);
        assert forall|p: Seq<char>| self.insert(w).nodes.contains(p) <==> grafted.nodes.contains(
            p,
        ) by {
            if p.len() == 0 {
                assert(p =~= Seq::<char>::empty());
            } else if p[0] == c {
                let q = p.drop_first();
                assert(seq![c] + q =~= p);
                if p.len() == 1 {
                    assert(p =~= w.subrange(0, 1));
                    assert(p.is_prefix_of(w));
                } else {
                    assert(self.below(seq![c]).nodes.contains(q) == self.nodes.contains(p));
                    if p.is_prefix_of(w) {
                        assert(q =~= rest.subrange(0, q.len() as int));
                    }
                    if q.is_prefix_of(rest) {
                        assert(p =~= w.subrange(0, p.len() as int));
                    }
                    assert(p.is_prefix_of(w) == q.is_prefix_of(rest));
                }
            } else {
                if p.is_prefix_of(w) {
                    assert(p[0] == w.subrange(0, p.len() as int)[0]);
                }
            }
        }
        assert forall|v: Seq<char>| self.insert(w).words.contains(v) <==> grafted.words.contains(
            v,
        ) by {
            if v.len() == 0 {
                assert(v =~= Seq::<char>::empty());
            } else if v[0] == c {
                let q = v.drop_first();
                assert(seq![c] + q =~= v);
                if v.len() == 1 {
                    assert(v =~= seq![c]);
                    assert((v == w) == (w.len() == 1));
                } else {
                    assert(self.below(seq![c]).words.contains(q) == self.words.contains(v));
                    assert((v == w) == (q == rest));
                }
            }
        }
        assert(self.insert(w) =~= grafted);
    }

    /// After a word was added it is a word of the tree, unless it is empty,
    /// and whether any other word is one has not changed.
    pub proof fn lemma_insert_words(self, w: Seq<char>, v: Seq<char>)
        ensures
            w.len() > 0 ==> self.insert(w).words.contains(w),
            v != w ==> self.insert(w).words.contains(v) == self.words.contains(v),
            self.words.contains(v) ==> self.insert(w).words.contains(v),
            self.nodes.contains(v) ==> self.insert(w).nodes.contains(v),
    {
    }

    /// Adding a word keeps a tree well formed.
    pub proof fn lemma_insert_wf(self, w: Seq<char>)
        requires
            self.wf(),
        ensures
            self.insert(w).wf(),
    {
        let after = self.insert(w);
        assert forall|p: Seq<char>, k: int|
            after.nodes.contains(p) && 0 < k <= p.len() implies after.nodes.contains(
            #[trigger] p.take(k),
        ) by {
            if !self.nodes.contains(p) {
                assert(p.take(k) =~= w.subrange(0, k)) by {
                    assert forall|i: int| 0 <= i < k implies p[i] == w[i] by {
                        assert(p[i] == w.subrange(0, p.len() as int)[i]);
                    }
                }
            }
        }
        assert forall|v: Seq<char>| after.words.contains(v) implies after.nodes.contains(v) by {
            if !self.words.contains(v) {
                assert(w =~= w.subrange(0, w.len() as int));
            }
        }
    }

    /// Adding a word a second time changes nothing.
    pub proof fn lemma_insert_twice(self, w: Seq<char>)
        ensures
            self.insert(w).insert(w) == self.insert(w),
    {
        assert(self.insert(w).insert(w) =~= self.insert(w));
    }

    /// The order in which two words are added does not matter.
    pub proof fn lemma_insert_commutes(self, v: Seq<char>, w: Seq<char>)
        ensures
            self.insert(v).insert(w) == self.insert(w).insert(v),
    {
        assert(self.insert(v).insert(w) =~= self.insert(w).insert(v));
    }

    /// The tree of a word list holds exactly the words of the list that are
    /// not empty, and has a node exactly at each beginning of one of them.
    pub proof fn lemma_of_words(words: Seq<Seq<char>>)
        ensures
            TreeView::of_words(words).wf(),
            forall|v: Seq<char>|
                TreeView::of_words(words).words.contains(v) <==> v.len() > 0 && words.contains(v),
            forall|p: Seq<char>|
                TreeView::of_words(words).nodes.contains(p) <==> p.len() > 0 && exists|i: int|
                    0 <= i < words.len() && p.is_prefix_of(#[trigger] words[i]),
        decreases words.len(),
    {
        let tree = TreeView::of_words(words);
        if words.len() == 0 {
        } else {
            let before = words.drop_last();
            let last = words.last();
            TreeView::lemma_of_words(before);
            TreeView::of_words(before).lemma_insert_wf(last);
            assert forall|v: Seq<char>| tree.words.contains(v) <==> v.len() > 0 && words.contains(
                v,
            ) by {
                if before.contains(v) {
                    let i = choose|i: int| 0 <= i < before.len() && before[i] == v;
                    assert(words[i] == v);
                }
                if words.contains(v) {
                    let i = choose|i: int| 0 <= i < words.len() && words[i] == v;
                    if i < before.len() {
                        assert(before[i] == v);
                    }
                }
            }
            assert forall|p: Seq<char>|
                tree.nodes.contains(p) <==> p.len() > 0 && exists|i: int|
                    0 <= i < words.len() && p.is_prefix_of(#[trigger] words[i]) by {
                if TreeView::of_words(before).nodes.contains(p) {
                    let i = choose|i: int| 0 <= i < before.len() && p.is_prefix_of(#[trigger] before[i]);
                    assert(words[i] == before[i]);
                }
                if p.len() > 0 && p.is_prefix_of(last) {
                    assert(words[words.len() - 1] == last);
                }
                if p.len() > 0 && exists|i: int|
                    0 <= i < words.len() && p.is_prefix_of(#[trigger] words[i]) {
                    let i = choose|i: int| 0 <= i < words.len() && p.is_prefix_of(#[trigger] words[i]);
                    if i < before.len() {
                        assert(before[i] == words[i]);
                    }
                }
            }
        }
    }

    /// The empty word is no word of a tree, and so no keys at all type no
    /// word.
    pub proof fn lemma_no_empty_word(self)
        requires
            self.wf(),
        ensures
            !self.words.contains(Seq::<char>::empty()),
            self.typed(Seq::<Key>::empty()) == Set::<Seq<char>>::empty(),
    {
        assert forall|w: Seq<char>| self.typed(Seq::<Key>::empty()).contains(w) implies false by {
            assert(w =~= Seq::<char>::empty());
        }
        assert(self.typed(Seq::<Key>::empty()) =~= Set::<Seq<char>>::empty());
    }

    /// Keys type only words that have one letter for each key: a word of
    /// another length is never among them. A word that was added is among
    /// the words typed by the keys that spell it.
    pub proof fn lemma_typed(self, keys: Seq<Key>, w: Seq<char>)
        ensures
            self.typed(keys).contains(w) ==> w.len() == keys.len() && self.words.contains(w),
            w.len() != keys.len() ==> !self.typed(keys).contains(w),
            w.len() > 0 && Keys::spell(keys, w) ==> self.insert(w).typed(keys).contains(w),
    {
    }

    /// What the tree holds along paths that start with one of the
    /// characters of the first `upto` of `nodes`.
    spec fn under(self, nodes: Seq<(char, Node)>, upto: int) -> TreeView {
        TreeView {
            nodes: Set::new(
                |p: Seq<char>|
                    self.nodes.contains(p) && p.len() > 0 && exists|i: int|
                        0 <= i < upto && (#[trigger] nodes[i]).0 == p[0],
            ),
            words: Set::new(
                |w: Seq<char>|
                    self.words.contains(w) && w.len() > 0 && exists|i: int|
                        0 <= i < upto && (#[trigger] nodes[i]).0 == w[0],
            ),
        }
    }

    /// Whether `nodes` are the nodes directly below the root of this tree:
    /// one for each first character at which the tree has a node, each
    /// ending a word if its character alone is a word, and holding below it
    /// what the tree holds below that character.
    pub open spec fn branches(self, nodes: Seq<(char, Node)>) -> bool {
        &&& forall|c: char|
            self.nodes.contains(seq![c]) ==> exists|i: int|
                0 <= i < nodes.len() && (#[trigger] nodes[i]).0 == c
        &&& forall|i: int|
            0 <= i < nodes.len() ==> {
                &&& self.nodes.contains(seq![(#[trigger] nodes[i]).0])
                &&& nodes[i].1.end == self.words.contains(seq![nodes[i].0])
                &&& nodes[i].1.children@ == self.below(seq![nodes[i].0])
            }
    }

    /// Putting the first `upto` branches of a tree into the empty tree gives
    /// what the tree holds under them.
    proof fn lemma_rebuilt_upto(self, nodes: Seq<(char, Node)>, upto: int)
        requires
            self.wf(),
            self.branches(nodes),
            0 <= upto <= nodes.len(),
        ensures
            TreeView::empty().graft_all(nodes.take(upto)) == self.under(nodes, upto),
        decreases upto,
    {
        if upto == 0 {
            assert(nodes.take(0) =~= Seq::<(char, Node)>::empty());
            assert(self.under(nodes, 0) =~= TreeView::empty());
        } else {
            self.lemma_rebuilt_upto(nodes, upto - 1);
            let (c, node) = nodes[upto - 1];
            let before = self.under(nodes, upto - 1);
            let after = before.graft(c, node.end, node.children@);
            assert(nodes.take(upto).drop_last() =~= nodes.take(upto - 1));
            assert(nodes.take(upto).last() == nodes[upto - 1]);
            assert forall|p: Seq<char>| after.nodes.contains(p) <==> self.under(
                nodes,
                upto,
            ).nodes.contains(p) by {
                if p.len() > 0 && p[0] == c {
                    assert(seq![c] + p.drop_first() =~= p);
                    if p.len() == 1 {
                        assert(p =~= seq![c]);
                    }
                }
            }
            assert forall|w: Seq<char>| after.words.contains(w) <==> self.under(
                nodes,
                upto,
            ).words.contains(w) by {
                if w.len() > 0 && w[0] == c {
                    assert(seq![c] + w.drop_first() =~= w);
                    if w.len() == 1 {
                        assert(w =~= seq![c]);
                    }
                }
            }
            assert(after =~= self.under(nodes, upto));
        }
    }

    /// A tree is rebuilt from its branches: putting the nodes directly below
    /// its root into the empty tree gives a tree that holds the same.
    pub proof fn lemma_rebuilt(self, nodes: Seq<(char, Node)>)
        requires
            self.wf(),
            self.branches(nodes),
        ensures
            TreeView::empty().graft_all(nodes) == self,
    {
        self.lemma_rebuilt_upto(nodes, nodes.len() as int);
        assert(nodes.take(nodes.len() as int) =~= nodes);
        assert forall|p: Seq<char>| self.nodes.contains(p) implies self.under(
            nodes,
            nodes.len() as int,
        ).nodes.contains(p) by {
            if p.len() == 0 {
                assert(p =~= Seq::<char>::empty());
            }
            assert(p.take(1) =~= seq![p[0]]);
        }
        assert forall|w: Seq<char>| self.words.contains(w) implies self.under(
            nodes,
            nodes.len() as int,
        ).words.contains(w) by {
            assert(self.nodes.contains(w));
            if w.len() == 0 {
                assert(w =~= Seq::<char>::empty());
            }
            assert(w.take(1) =~= seq![w[0]]);
        }
        assert(self.under(nodes, nodes.len() as int) =~= self);
    }

    /// Below the root hangs the whole tree.
    pub proof fn lemma_below_root(self)
        requires
            self.wf(),
        ensures
            self.below(Seq::<char>::empty()) == self,
    {
        let e = Seq::<char>::empty();
        assert forall|p: Seq<char>| #[trigger] (e + p) == p by {
            assert(e + p =~= p);
        }
        assert forall|w: Seq<char>| self.words.contains(w) implies w.len() > 0 by {
            assert(self.nodes.contains(w));
            if w.len() == 0 {
                assert(w =~= e);
            }
        }
        assert forall|p: Seq<char>| self.nodes.contains(p) implies p.len() > 0 by {
            if p.len() == 0 {
                assert(p =~= e);
            }
        }
        assert(self.below(e) =~= self);
    }

    /// Going down a path and then another is going down both in one.
    pub proof fn lemma_below_below(self, p: Seq<char>, q: Seq<char>)
        ensures
            self.below(p).below(q) == self.below(p + q),
    {
        assert forall|x: Seq<char>| #[trigger] (p + (q + x)) == (p + q) + x by {
            assert(p + (q + x) =~= (p + q) + x);
        }
        assert(self.below(p).below(q) =~= self.below(p + q));
    }

    /// Where the tree has no node at the path `p`, it has none further down
    /// and no word that starts with `p`.
    pub proof fn lemma_nothing_below(self, p: Seq<char>, v: Seq<char>)
        requires
            self.wf(),
            p.len() > 0,
            !self.nodes.contains(p),
            p.is_prefix_of(v),
        ensures
            !self.nodes.contains(v),
            !self.words.contains(v),
    {
        assert(v.take(p.len() as int) =~= p);
    }

    /// The words below the node at `prefix`, each with `prefix` put before
    /// it, are the completions of `prefix`.
    pub proof fn lemma_completions_below(self, prefix: Seq<char>)
        requires
            prefix.len() > 0,
        ensures
            self.below(prefix).prefixed(prefix) == self.completions(prefix),
    {
        let n: int = prefix.len() as int;
        assert forall|v: Seq<char>| prefix.is_prefix_of(v) implies prefix + v.skip(n) == v by {
            assert(prefix + v.skip(n) =~= v);
        }
        assert(self.below(prefix).prefixed(prefix) =~= self.completions(prefix));
    }

    /// Adding the empty word changes nothing.
    pub proof fn lemma_insert_empty(self)
        ensures
            self.insert(Seq::<char>::empty()) == self,
    {
        let e = Seq::<char>::empty();
        assert forall|p: Seq<char>| p.len() > 0 implies !p.is_prefix_of(e) by {}
        assert(self.insert(e) =~= self);
    }
}

} // verus!
