//! The queries that list words: all words, the words that keys type, and the
//! completions of a prefix or of typed keys.

use super::{has_key, lemma_branch_at, Tree, TreeView};
use crate::keys::{Key, Keys};
use crate::words::{
    lemma_lists_append, lemma_lists_empty, lemma_lists_group, lemma_precedes_by_beginning,
    lemma_prefix_all_empty, lemma_starting_any_all, lemma_starting_none, lists, precedes,
    prefix_all, starting, starting_any, texts,
};
use vstd::prelude::*;
use vstd::std_specs::iter::IteratorSpec;

verus! {

/// A word that starts with `c` is `c` alone or `c` put before the rest of it.
proof fn lemma_first_and_rest(c: char, w: Seq<char>)
    ensures
        w.len() > 0 && w[0] == c ==> w.skip(1) == w.drop_first() && seq![c].is_prefix_of(w) && (w.len()
            == 1 <==> w == seq![c]),
        seq![c].is_prefix_of(w) ==> w.len() > 0 && w[0] == c,
{
    if w.len() > 0 && w[0] == c {
        assert(w.skip(1) =~= w.drop_first());
        assert(seq![c] =~= w.subrange(0, 1));
        if w.len() == 1 {
            assert(w =~= seq![c]);
        }
    }
    if seq![c].is_prefix_of(w) {
        assert(seq![c][0] == w.subrange(0, 1)[0]);
    }
}

/// Keys type a word exactly if the first key has its first letter and the
/// other keys type the rest of it.
proof fn lemma_spell_rest(keys: Seq<Key>, w: Seq<char>)
    requires
        keys.len() > 0,
        w.len() > 0,
    ensures
        Keys::spell(keys, w) <==> keys[0].has_letter(w[0]) && Keys::spell(
            keys.drop_first(),
            w.drop_first(),
        ),
{
    let ks = keys.drop_first();
    let ws = w.drop_first();
    if Keys::spell(keys, w) {
        assert forall|i: int| 0 <= i < ks.len() implies (#[trigger] ks[i]).has_letter(ws[i]) by {
            assert(keys[i + 1].has_letter(w[i + 1]));
        }
    }
    if keys[0].has_letter(w[0]) && Keys::spell(ks, ws) {
        assert forall|i: int| 0 <= i < keys.len() implies (#[trigger] keys[i]).has_letter(w[i]) by {
            if i > 0 {
                assert(ks[i - 1].has_letter(ws[i - 1]));
            }
        }
    }
}

/// The paths that a list of found nodes holds.
spec fn labels(found: Seq<(String, &Tree)>) -> Seq<Seq<char>> {
    Seq::new(found.len(), |i: int| found[i].0@)
}

/// The words of a tree that go on after one of the first `upto` of the
/// paths `paths`, which all have the length `k`.
spec fn completed(view: TreeView, paths: Seq<Seq<char>>, k: int, upto: int) -> Set<Seq<char>> {
    Set::new(
        |v: Seq<char>|
            view.words.contains(v) && k < v.len() && exists|j: int|
                0 <= j < upto && #[trigger] paths[j] == v.take(k),
    )
}

impl Tree {
    /// Every path of the tree starts with the character of some entry.
    proof fn lemma_firsts(self)
        ensures
            forall|p: Seq<char>|
                self@.nodes.contains(p) ==> p.len() > 0 && self.firsts(self.0@.len() as int).contains(
                    p[0],
                ),
    {
        let all = self.firsts(self.0@.len() as int);
        assert forall|p: Seq<char>| self@.nodes.contains(p) implies p.len() > 0 && all.contains(
            p[0],
        ) by {
            assert(has_key(self.0@, p[0]));
            let j = choose|j: int| 0 <= j < self.0@.len() && (#[trigger] self.0@[j]).0 == p[0];
            assert(all[j] == p[0]);
        }
    }

    /// The words that start with `c` are the word `c` alone, if the branch
    /// for `c` ends a word, and `c` put before each word below that branch.
    proof fn lemma_starting_words(self, c: char)
        ensures
            match self.branch(c) {
                Some(node) => forall|w: Seq<char>|
                    starting(self@.words, c).contains(w) <==> (node.end && w == seq![c])
                        || prefix_all(seq![c], node.children@.words).contains(w),
                None => starting(self@.words, c) == Set::<Seq<char>>::empty(),
            },
    {
        self.lemma_view_by_branch();
        match self.branch(c) {
            Some(node) => {
                node.children.lemma_view_wf();
                assert forall|w: Seq<char>|
                    starting(self@.words, c).contains(w) <==> (node.end && w == seq![c])
                        || prefix_all(seq![c], node.children@.words).contains(w) by {
                    lemma_first_and_rest(c, w);
                }
            },
            None => {
                assert(starting(self@.words, c) =~= Set::<Seq<char>>::empty());
            },
        }
    }

    /// The words typed by `keys` that start with the letter `c` of the first
    /// key are the word `c` alone, if there is one key and the branch for `c`
    /// ends a word, and `c` put before each word below that branch that the
    /// other keys type.
    proof fn lemma_starting_typed(self, keys: Seq<Key>, c: char)
        requires
            keys.len() > 0,
            keys[0].has_letter(c),
        ensures
            match self.branch(c) {
                Some(node) => forall|w: Seq<char>|
                    starting(self@.typed(keys), c).contains(w) <==> (keys.len() == 1 && node.end && w
                        == seq![c]) || prefix_all(
                        seq![c],
                        node.children@.typed(keys.drop_first()),
                    ).contains(w),
                None => starting(self@.typed(keys), c) == Set::<Seq<char>>::empty(),
            },
    {
        self.lemma_view_by_branch();
        match self.branch(c) {
            Some(node) => {
                node.children.lemma_view_wf();
                assert forall|w: Seq<char>|
                    starting(self@.typed(keys), c).contains(w) <==> (keys.len() == 1 && node.end && w
                        == seq![c]) || prefix_all(
                        seq![c],
                        node.children@.typed(keys.drop_first()),
                    ).contains(w) by {
                    lemma_first_and_rest(c, w);
                    if w.len() > 0 && w[0] == c {
                        lemma_spell_rest(keys, w);
                    }
                }
            },
            None => {
                assert(starting(self@.typed(keys), c) =~= Set::<Seq<char>>::empty());
            },
        }
    }

    /// The paths typed by `keys` that start with the letter `c` of the first
    /// key are the path `c` alone, if there is one key, and `c` put before
    /// each path below the branch for `c` that the other keys type.
    proof fn lemma_starting_paths(self, keys: Seq<Key>, c: char)
        requires
            keys.len() > 0,
            keys[0].has_letter(c),
        ensures
            match self.branch(c) {
                Some(node) => forall|w: Seq<char>|
                    starting(self@.typed_paths(keys), c).contains(w) <==> (keys.len() == 1 && w
                        == seq![c]) || prefix_all(
                        seq![c],
                        node.children@.typed_paths(keys.drop_first()),
                    ).contains(w),
                None => starting(self@.typed_paths(keys), c) == Set::<Seq<char>>::empty(),
            },
    {
        self.lemma_view_by_branch();
        match self.branch(c) {
            Some(node) => {
                node.children.lemma_view_wf();
                assert forall|w: Seq<char>|
                    starting(self@.typed_paths(keys), c).contains(w) <==> (keys.len() == 1 && w
                        == seq![c]) || prefix_all(
                        seq![c],
                        node.children@.typed_paths(keys.drop_first()),
                    ).contains(w) by {
                    lemma_first_and_rest(c, w);
                    if w.len() > 0 && w[0] == c {
                        lemma_spell_rest(keys, w);
                    }
                }
            },
            None => {
                assert(starting(self@.typed_paths(keys), c) =~= Set::<Seq<char>>::empty());
            },
        }
    }

    /// The words of the tree, each with `acc` put before it, in dictionary
    /// order.
    fn reduce_to_list_inner(&self, acc: &str) -> (out: Vec<String>)
        ensures
            lists(texts(out@), self@.prefixed(acc@)),
        decreases self,
    {
        let mut out: Vec<String> = Vec::new();
        let mut i: usize = 0;
        proof {
            use_type_invariant(self);
            lemma_lists_empty(texts(out@));
            assert(prefix_all(acc@, starting_any(self@.words, self.firsts(0))) =~= Set::<
                Seq<char>,
            >::empty());
        }
        while i < self.0.len()
            invariant
                i <= self.0@.len(),
                self.wf(),
                lists(
                    texts(out@),
                    prefix_all(acc@, starting_any(self@.words, self.firsts(i as int))),
                ),
            decreases self.0@.len() - i,
        {
            let c = self.0[i].0;
            let node = &self.0[i].1;
            let mut word = acc.to_owned();
            word.push(c);
            let mut deeper = node.children.reduce_to_list_inner(word.as_str());
            let ghost before = texts(out@);
            let ghost below = texts(deeper@);
            proof {
                lemma_branch_at(self.0@, i as int);
                self.lemma_starting_words(c);
                node.children.lemma_view_wf();
                assert forall|j: int| 0 <= j < self.firsts(i as int).len() implies self.firsts(
                    i as int,
                )[j] < c by {
                    assert(self.0@[j].0 < self.0@[i as int].0);
                }
                lemma_lists_group(
                    before,
                    self@.words,
                    acc@,
                    self.firsts(i as int),
                    c,
                    node.end,
                    below,
                    node.children@.words,
                );
                assert(self.firsts(i + 1) =~= self.firsts(i as int).push(c));
            }
            if node.end {
                out.push(word);
            }
            out.append(&mut deeper);
            proof {
                let head = if node.end {
                    seq![acc@.push(c)]
                } else {
                    Seq::<Seq<char>>::empty()
                };
                assert(texts(out@) =~= before + head + below);
            }
            i = i + 1;
        }
        proof {
            self.lemma_firsts();
            self.lemma_view_wf();
            lemma_starting_any_all(self@.words, self.firsts(i as int));
        }
        out
    }

    /// The words of the tree in dictionary order, each with `prefix` put
    /// before it where one is given.
    pub fn reduce_to_list(&self, prefix: Option<&str>) -> (out: Vec<String>)
        ensures
            lists(
                texts(out@),
                self@.prefixed(
                    match prefix {
                        Some(p) => p@,
                        None => Seq::empty(),
                    },
                ),
            ),
    {
        match prefix {
            Some(p) => self.reduce_to_list_inner(p),
            None => {
                proof {
                    reveal_strlit("");
                    assert(""@ =~= Seq::<char>::empty());
                }
                self.reduce_to_list_inner("")
            },
        }
    }

    /// The words of the tree that the keys from the index `from` on type,
    /// each with `acc` put before it, in dictionary order.
    fn search_keys_inner(&self, acc: &str, keys: &[Key], from: usize) -> (out: Vec<String>)
        requires
            from <= keys@.len(),
        ensures
            lists(texts(out@), prefix_all(acc@, self@.typed(keys@.skip(from as int)))),
        decreases keys@.len() - from,
    {
        let mut out: Vec<String> = Vec::new();
        let ghost rest = keys@.skip(from as int);
        let ghost typed = self@.typed(rest);
        proof {
            self.lemma_view_wf();
            lemma_lists_empty(texts(out@));
        }
        if from >= keys.len() {
            proof {
                assert(prefix_all(acc@, typed) =~= Set::<Seq<char>>::empty()) by {
                    assert forall|w: Seq<char>| typed.contains(w) implies false by {
                        assert(w =~= Seq::<char>::empty());
                    }
                }
            }
            return out;
        }
        let key = keys[from];
        let letters = key.chars();
        let next: usize = from + 1;
        let last = next == keys.len();
        let mut m: usize = 0;
        proof {
            key.lemma_letters(key);
            assert(rest[0] == key);
            assert(rest.drop_first() =~= keys@.skip(from + 1));
            assert(prefix_all(acc@, starting_any(typed, letters@.take(0))) =~= Set::<
                Seq<char>,
            >::empty());
        }
        while m < letters.len()
            invariant
                m <= letters@.len(),
                letters@ == key.letters(),
                next == from + 1,
                next <= keys@.len(),
                last == (next == keys@.len()),
                rest == keys@.skip(from as int),
                rest.len() > 0,
                rest[0] == key,
                rest.drop_first() == keys@.skip(from + 1),
                typed == self@.typed(rest),
                forall|i: int, j: int|
                    0 <= i < j < key.letters().len() ==> key.letters()[i] < key.letters()[j],
                lists(texts(out@), prefix_all(acc@, starting_any(typed, letters@.take(m as int)))),
            decreases letters@.len() - m,
        {
            let c = letters[m];
            let ghost firsts = letters@.take(m as int);
            proof {
                assert(key.has_letter(c));
                self.lemma_starting_typed(rest, c);
                assert(letters@.take(m + 1) =~= firsts.push(c));
            }
            match self.child(c) {
                None => {
                    proof {
                        lemma_starting_none(typed, firsts, c);
                    }
                },
                Some(node) => {
                    let mut word = acc.to_owned();
                    word.push(c);
                    let ghost before = texts(out@);
                    let mut deeper = if last {
                        Vec::new()
                    } else {
                        node.children.search_keys_inner(word.as_str(), keys, next)
                    };
                    let ghost below = texts(deeper@);
                    let ghost deeper_set = node.children@.typed(rest.drop_first());
                    proof {
                        node.children.lemma_view_wf();
                        if last {
                            assert(rest.drop_first() =~= Seq::<Key>::empty());
                            assert forall|w: Seq<char>| deeper_set.contains(w) implies false by {
                                assert(w =~= Seq::<char>::empty());
                            }
                            assert(prefix_all(word@, deeper_set) =~= Set::<Seq<char>>::empty());
                            lemma_lists_empty(below);
                        }
                        assert(!deeper_set.contains(Seq::<char>::empty()));
                        lemma_lists_group(
                            before,
                            typed,
                            acc@,
                            firsts,
                            c,
                            last && node.end,
                            below,
                            deeper_set,
                        );
                    }
                    if last && node.end {
                        out.push(word);
                    }
                    out.append(&mut deeper);
                    proof {
                        let head = if last && node.end {
                            seq![acc@.push(c)]
                        } else {
                            Seq::<Seq<char>>::empty()
                        };
                        assert(texts(out@) =~= before + head + below);
                    }
                },
            }
            m = m + 1;
        }
        proof {
            assert(letters@.take(m as int) =~= letters@);
            assert forall|w: Seq<char>| typed.contains(w) implies w.len() > 0 && letters@.contains(
                w[0],
            ) by {
                assert(rest[0].has_letter(w[0]));
            }
            lemma_starting_any_all(typed, letters@);
        }
        out
    }

    /// The words of the tree that the keys type: the words with one letter
    /// for each key, each letter one of its key, in dictionary order. No key
    /// at all types no word.
    pub fn search_keys(&self, keys: Keys) -> (out: Vec<String>)
        ensures
            lists(texts(out@), self@.typed(keys@)),
    {
        proof {
            reveal_strlit("");
            assert(""@ =~= Seq::<char>::empty());
            lemma_prefix_all_empty(self@.typed(keys@));
            assert(keys@.skip(0) =~= keys@);
        }
        self.search_keys_inner("", keys.as_slice(), 0)
    }

    /// The nodes that the keys from the index `from` on lead to: for each the
    /// path to it with `acc` put before it, in dictionary order, and the
    /// tree that hangs below it.
    fn search_key_prefixed_tree_inner<'a>(&'a self, acc: &str, prefix: &[Key], from: usize) -> (out:
        Vec<(String, &'a Tree)>)
        requires
            from <= prefix@.len(),
        ensures
            lists(labels(out@), prefix_all(acc@, self@.typed_paths(prefix@.skip(from as int)))),
            forall|i: int|
                0 <= i < out@.len() ==> (#[trigger] out@[i]).1@ == self@.below(
                    out@[i].0@.skip(acc@.len() as int),
                ),
        decreases prefix@.len() - from,
    {
        let mut out: Vec<(String, &'a Tree)> = Vec::new();
        let ghost rest = prefix@.skip(from as int);
        let ghost typed = self@.typed_paths(rest);
        proof {
            self.lemma_view_wf();
            lemma_lists_empty(labels(out@));
        }
        if from >= prefix.len() {
            proof {
                assert(prefix_all(acc@, typed) =~= Set::<Seq<char>>::empty()) by {
                    assert forall|w: Seq<char>| typed.contains(w) implies false by {
                        assert(w =~= Seq::<char>::empty());
                    }
                }
            }
            return out;
        }
        let key = prefix[from];
        let letters = key.chars();
        let next: usize = from + 1;
        let last = next == prefix.len();
        let mut m: usize = 0;
        proof {
            key.lemma_letters(key);
            assert(rest[0] == key);
            assert(rest.drop_first() =~= prefix@.skip(from + 1));
            assert(prefix_all(acc@, starting_any(typed, letters@.take(0))) =~= Set::<
                Seq<char>,
            >::empty());
        }
        while m < letters.len()
            invariant
                m <= letters@.len(),
                letters@ == key.letters(),
                next == from + 1,
                next <= prefix@.len(),
                last == (next == prefix@.len()),
                rest == prefix@.skip(from as int),
                rest.len() > 0,
                rest[0] == key,
                rest.drop_first() == prefix@.skip(from + 1),
                typed == self@.typed_paths(rest),
                self@.wf(),
                forall|i: int, j: int|
                    0 <= i < j < key.letters().len() ==> key.letters()[i] < key.letters()[j],
                lists(labels(out@), prefix_all(acc@, starting_any(typed, letters@.take(m as int)))),
                forall|i: int|
                    0 <= i < out@.len() ==> (#[trigger] out@[i]).1@ == self@.below(
                        out@[i].0@.skip(acc@.len() as int),
                    ),
            decreases letters@.len() - m,
        {
            let c = letters[m];
            let ghost firsts = letters@.take(m as int);
            proof {
                assert(key.has_letter(c));
                self.lemma_starting_paths(rest, c);
                assert(letters@.take(m + 1) =~= firsts.push(c));
            }
            match self.child(c) {
                None => {
                    proof {
                        lemma_starting_none(typed, firsts, c);
                    }
                },
                Some(node) => {
                    let mut word = acc.to_owned();
                    word.push(c);
                    let ghost before = out@;
                    let ghost deeper_set = node.children@.typed_paths(rest.drop_first());
                    proof {
                        node.children.lemma_view_wf();
                        assert(!deeper_set.contains(Seq::<char>::empty()));
                        assert(word@.skip(acc@.len() as int) =~= seq![c]);
                    }
                    if last {
                        proof {
                            assert(rest.drop_first() =~= Seq::<Key>::empty());
                            assert forall|w: Seq<char>| deeper_set.contains(w) implies false by {
                                assert(w =~= Seq::<char>::empty());
                            }
                            assert(prefix_all(word@, deeper_set) =~= Set::<Seq<char>>::empty());
                            let none = Seq::<Seq<char>>::empty();
                            lemma_lists_empty(none);
                            lemma_lists_group(
                                labels(before),
                                typed,
                                acc@,
                                firsts,
                                c,
                                true,
                                none,
                                deeper_set,
                            );
                        }
                        out.push((word, &node.children));
                        proof {
                            assert(labels(out@) =~= labels(before) + seq![acc@.push(c)] + Seq::<
                                Seq<char>,
                            >::empty());
                        }
                    } else {
                        let mut deeper = node.children.search_key_prefixed_tree_inner(
                            word.as_str(),
                            prefix,
                            next,
                        );
                        let ghost below = deeper@;
                        proof {
                            lemma_lists_group(
                                labels(before),
                                typed,
                                acc@,
                                firsts,
                                c,
                                false,
                                labels(below),
                                deeper_set,
                            );
                            assert forall|i: int| 0 <= i < below.len() implies (#[trigger] below[i]).1@
                                == self@.below(below[i].0@.skip(acc@.len() as int)) by {
                                let label = below[i].0@;
                                assert(labels(below)[i] == label);
                                assert(labels(below).contains(label));
                                assert(word@.is_prefix_of(label));
                                let tail = label.skip(word@.len() as int);
                                assert(seq![c] + tail =~= label.skip(acc@.len() as int)) by {
                                    assert(label.subrange(0, word@.len() as int)[acc@.len() as int]
                                        == word@[acc@.len() as int]);
                                }
                                self@.lemma_below_below(seq![c], tail);
                            }
                        }
                        out.append(&mut deeper);
                        proof {
                            assert(out@ =~= before + below);
                            assert(labels(out@) =~= labels(before) + Seq::<Seq<char>>::empty()
                                + labels(below));
                        }
                    }
                },
            }
            m = m + 1;
        }
        proof {
            assert(letters@.take(m as int) =~= letters@);
            assert forall|w: Seq<char>| typed.contains(w) implies w.len() > 0 && letters@.contains(
                w[0],
            ) by {
                if w.len() == 0 {
                    assert(w =~= Seq::<char>::empty());
                }
                assert(rest[0].has_letter(w[0]));
            }
            lemma_starting_any_all(typed, letters@);
        }
        out
    }

    /// The nodes that the keys lead to: for each the path to it, in
    /// dictionary order, and the tree that hangs below it.
    fn search_key_prefixed_tree<'a>(&'a self, prefix: &Keys) -> (out: Vec<(String, &'a Tree)>)
        ensures
            lists(labels(out@), self@.typed_paths(prefix@)),
            forall|i: int| 0 <= i < out@.len() ==> (#[trigger] out@[i]).1@ == self@.below(out@[i].0@),
    {
        proof {
            reveal_strlit("");
            assert(""@ =~= Seq::<char>::empty());
            lemma_prefix_all_empty(self@.typed_paths(prefix@));
            assert(prefix@.skip(0) =~= prefix@);
        }
        let out = self.search_key_prefixed_tree_inner("", prefix.as_slice(), 0);
        proof {
            assert forall|i: int| 0 <= i < out@.len() implies (#[trigger] out@[i]).1@ == self@.below(
                out@[i].0@,
            ) by {
                assert(out@[i].0@.skip(0) =~= out@[i].0@);
            }
        }
        out
    }

    /// The tree that hangs below the node at the path `prefix`, if `prefix`
    /// is not empty and the tree has a node there.
    fn search_prefixed_tree(&self, prefix: &str) -> (r: Option<&Tree>)
        ensures
            match r {
                Some(tree) => {
                    &&& prefix@.len() > 0
                    &&& self@.nodes.contains(prefix@)
                    &&& tree@ == self@.below(prefix@)
                },
                None => prefix@.len() == 0 || !self@.nodes.contains(prefix@),
            },
    {
        let mut tree = self;
        let mut rest = prefix.chars();
        let mut any = false;
        let ghost mut done: int = 0;
        proof {
            self.lemma_view_wf();
            self@.lemma_below_root();
            assert(prefix@.take(0) =~= Seq::<char>::empty());
            assert(prefix@.skip(0) =~= prefix@);
        }
        loop
            invariant
                0 <= done <= prefix@.len(),
                any == (done > 0),
                rest.remaining() == prefix@.skip(done),
                self@.wf(),
                tree@ == self@.below(prefix@.take(done)),
                done > 0 ==> self@.nodes.contains(prefix@.take(done)),
            decreases prefix@.len() - done,
        {
            match rest.next() {
                None => {
                    proof {
                        assert(prefix@.take(done) =~= prefix@);
                    }
                    if any {
                        return Some(tree);
                    } else {
                        return None;
                    }
                },
                Some(c) => {
                    let ghost path = prefix@.take(done);
                    proof {
                        assert(prefix@.skip(done).drop_first() =~= prefix@.skip(done + 1));
                        assert(path + seq![c] =~= prefix@.take(done + 1));
                        self@.lemma_below_below(path, seq![c]);
                    }
                    match tree.child(c) {
                        None => {
                            proof {
                                self@.lemma_nothing_below(prefix@.take(done + 1), prefix@);
                            }
                            return None;
                        },
                        Some(node) => {
                            tree = &node.children;
                            any = true;
                            proof {
                                done = done + 1;
                            }
                        },
                    }
                },
            }
        }
    }

    /// The words of the tree that start with `prefix` and go on after it, in
    /// dictionary order. The empty prefix has no completions.
    pub fn prefix_complete(&self, prefix: &str) -> (out: Vec<String>)
        ensures
            lists(texts(out@), self@.completions(prefix@)),
    {
        proof {
            self.lemma_view_wf();
        }
        match self.search_prefixed_tree(prefix) {
            None => {
                let out: Vec<String> = Vec::new();
                proof {
                    assert forall|v: Seq<char>| self@.completions(prefix@).contains(v) implies false by {
                        self@.lemma_nothing_below(prefix@, v);
                    }
                    assert(self@.completions(prefix@) =~= Set::<Seq<char>>::empty());
                    lemma_lists_empty(texts(out@));
                }
                out
            },
            Some(tree) => {
                proof {
                    self@.lemma_completions_below(prefix@);
                }
                tree.reduce_to_list(Some(prefix))
            },
        }
    }

    /// The words of the tree whose beginning the keys type and that go on
    /// after it, in dictionary order. No key at all has no completions.
    pub fn prefix_key_complete(&self, prefix: Keys) -> (out: Vec<String>)
        ensures
            lists(texts(out@), self@.key_completions(prefix@)),
    {
        let found = self.search_key_prefixed_tree(&prefix);
        let mut out: Vec<String> = Vec::new();
        let mut i: usize = 0;
        let ghost paths = labels(found@);
        let ghost keys = prefix@;
        proof {
            self.lemma_view_wf();
            lemma_lists_empty(texts(out@));
            assert(completed(self@, paths, keys.len() as int, 0) =~= Set::<Seq<char>>::empty());
        }
        while i < found.len()
            invariant
                i <= found@.len(),
                paths == labels(found@),
                keys == prefix@,
                self@.wf(),
                lists(paths, self@.typed_paths(keys)),
                forall|j: int|
                    0 <= j < found@.len() ==> (#[trigger] found@[j]).1@ == self@.below(found@[j].0@),
                lists(texts(out@), completed(self@, paths, keys.len() as int, i as int)),
            decreases found@.len() - i,
        {
            let mut more = found[i].1.reduce_to_list(Some(found[i].0.as_str()));
            let ghost before = texts(out@);
            let ghost added = texts(more@);
            let ghost path = paths[i as int];
            let ghost group = self@.completions(path);
            proof {
                let k: int = keys.len() as int;
                assert(path == found@[i as int].0@);
                assert(paths.contains(path));
                assert(path.len() == k && k > 0) by {
                    if path.len() == 0 {
                        assert(path =~= Seq::<char>::empty());
                    }
                }
                self@.lemma_completions_below(path);
                assert forall|x: Seq<char>, y: Seq<char>|
                    completed(self@, paths, k, i as int).contains(x) && group.contains(
                        y,
                    ) implies precedes(x, y) by {
                    let j = choose|j: int| 0 <= j < i && paths[j] == x.take(k);
                    assert(paths.contains(paths[j]));
                    assert(paths[j] =~= x.subrange(0, k));
                    lemma_precedes_by_beginning(x, y, paths[j], path);
                }
                lemma_lists_append(before, completed(self@, paths, k, i as int), added, group);
                assert forall|v: Seq<char>|
                    completed(self@, paths, k, i + 1).contains(v) <==> completed(
                        self@,
                        paths,
                        k,
                        i as int,
                    ).union(group).contains(v) by {
                    if group.contains(v) {
                        assert(v.take(k) =~= path);
                    }
                    if completed(self@, paths, k, i + 1).contains(v) {
                        let j = choose|j: int| 0 <= j < i + 1 && paths[j] == v.take(k);
                        if j == i {
                            assert(path =~= v.subrange(0, k));
                        }
                    }
                }
                assert(completed(self@, paths, k, i + 1) =~= completed(self@, paths, k, i as int).union(
                    group,
                ));
            }
            out.append(&mut more);
            proof {
                assert(texts(out@) =~= before + added);
            }
            i = i + 1;
        }
        proof {
            let k: int = keys.len() as int;
            assert forall|v: Seq<char>|
                self@.key_completions(keys).contains(v) <==> completed(self@, paths, k, i as int).contains(
                    v,
                ) by {
                if self@.key_completions(keys).contains(v) {
                    assert(self@.nodes.contains(v.take(k)));
                    assert(paths.contains(v.take(k)));
                }
                if completed(self@, paths, k, i as int).contains(v) {
                    let j = choose|j: int| 0 <= j < i && paths[j] == v.take(k);
                    assert(paths.contains(paths[j]));
                    if k == 0 {
                        assert(paths[j] =~= Seq::<char>::empty());
                    }
                }
            }
            assert(self@.key_completions(keys) =~= completed(self@, paths, k, i as int));
        }
        out
    }
}

} // verus!
