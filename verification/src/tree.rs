//! The prefix tree: its nodes, what it holds, and how it is built and searched.

use crate::words::characters;
use vstd::prelude::*;
use vstd::std_specs::iter::IteratorSpec;

mod queries;
mod view;

pub use view::TreeView;

verus! {

/// One character position of some word.
#[derive(Debug)]
pub struct Node {
    /// Whether the path from the root to this node spells a complete word.
    pub end: bool,
    /// The nodes below this one.
    pub children: Tree,
}

/// A prefix tree: for each first character at most one node, and below each
/// node a tree of the same kind.
///
/// The entries are kept in ascending order of their characters.
#[derive(Debug)]
pub struct Tree(Vec<(char, Node)>);

/// Whether the characters of the entries ascend strictly.
spec fn sorted_keys(entries: Seq<(char, Node)>) -> bool {
    forall|i: int, j: int| 0 <= i < j < entries.len() ==> entries[i].0 < entries[j].0
}

/// Whether some entry is for the character `c`.
spec fn has_key(entries: Seq<(char, Node)>, c: char) -> bool {
    exists|i: int| 0 <= i < entries.len() && (#[trigger] entries[i]).0 == c
}

/// The node of the entry for the character `c`, if there is one.
spec fn branch_of(entries: Seq<(char, Node)>, c: char) -> Option<Node> {
    if has_key(entries, c) {
        let i = choose|i: int| 0 <= i < entries.len() && (#[trigger] entries[i]).0 == c;
        Some(entries[i].1)
    } else {
        None
    }
}

/// In sorted entries, the entry at index `i` is the one for its character.
proof fn lemma_branch_at(entries: Seq<(char, Node)>, i: int)
    requires
        sorted_keys(entries),
        0 <= i < entries.len(),
    ensures
        branch_of(entries, entries[i].0) == Some(entries[i].1),
{
    let c = entries[i].0;
    assert(has_key(entries, c));
    let j = choose|j: int| 0 <= j < entries.len() && (#[trigger] entries[j]).0 == c;
    if j < i {
        assert(entries[j].0 < entries[i].0);
    } else if i < j {
        assert(entries[i].0 < entries[j].0);
    }
}

/// Replacing the node of one entry changes the branch for its character and
/// no other.
proof fn lemma_branch_update(entries: Seq<(char, Node)>, i: int, node: Node)
    requires
        sorted_keys(entries),
        0 <= i < entries.len(),
    ensures
        sorted_keys(entries.update(i, (entries[i].0, node))),
        branch_of(entries.update(i, (entries[i].0, node)), entries[i].0) == Some(node),
        forall|c: char|
            c != entries[i].0 ==> branch_of(entries.update(i, (entries[i].0, node)), c)
                == branch_of(entries, c),
{
    let after = entries.update(i, (entries[i].0, node));
    assert(sorted_keys(after)) by {
        assert forall|a: int, b: int| 0 <= a < b < after.len() implies after[a].0 < after[b].0 by {
            assert(entries[a].0 < entries[b].0);
        }
    }
    lemma_branch_at(after, i);
    assert forall|c: char| c != entries[i].0 implies branch_of(after, c) == branch_of(
        entries,
        c,
    ) by {
        if has_key(entries, c) {
            let j = choose|j: int| 0 <= j < entries.len() && (#[trigger] entries[j]).0 == c;
            assert(after[j] == entries[j]);
            lemma_branch_at(entries, j);
            lemma_branch_at(after, j);
        } else if has_key(after, c) {
            let j = choose|j: int| 0 <= j < after.len() && (#[trigger] after[j]).0 == c;
            assert(entries[j] == after[j]);
        }
    }
}

/// Putting a new entry at its place in the order adds the branch for its
/// character and changes no other.
proof fn lemma_branch_insert(entries: Seq<(char, Node)>, i: int, c: char, node: Node)
    requires
        sorted_keys(entries),
        0 <= i <= entries.len(),
        forall|j: int| 0 <= j < i ==> (#[trigger] entries[j]).0 < c,
        forall|j: int| i <= j < entries.len() ==> (#[trigger] entries[j]).0 > c,
    ensures
        sorted_keys(entries.insert(i, (c, node))),
        branch_of(entries, c) is None,
        branch_of(entries.insert(i, (c, node)), c) == Some(node),
        forall|d: char| d != c ==> branch_of(entries.insert(i, (c, node)), d) == branch_of(entries, d),
{
    let after = entries.insert(i, (c, node));
    assert(sorted_keys(after)) by {
        assert forall|a: int, b: int| 0 <= a < b < after.len() implies after[a].0 < after[b].0 by {
            let x = if a < i {
                entries[a]
            } else if a == i {
                (c, node)
            } else {
                entries[a - 1]
            };
            let y = if b < i {
                entries[b]
            } else if b == i {
                (c, node)
            } else {
                entries[b - 1]
            };
            assert(after[a] == x && after[b] == y);
            if a != i && b != i {
                let a0 = if a < i {
                    a
                } else {
                    a - 1
                };
                let b0 = if b < i {
                    b
                } else {
                    b - 1
                };
                assert(entries[a0].0 < entries[b0].0);
            }
        }
    }
    assert(!has_key(entries, c)) by {
        if has_key(entries, c) {
            let j = choose|j: int| 0 <= j < entries.len() && (#[trigger] entries[j]).0 == c;
            assert(entries[j].0 < c || entries[j].0 > c);
        }
    }
    assert(after[i] == (c, node));
    lemma_branch_at(after, i);
    assert forall|d: char| d != c implies branch_of(after, d) == branch_of(entries, d) by {
        if has_key(entries, d) {
            let j = choose|j: int| 0 <= j < entries.len() && (#[trigger] entries[j]).0 == d;
            let k = if j < i {
                j
            } else {
                j + 1
            };
            assert(after[k] == entries[j]);
            lemma_branch_at(entries, j);
            lemma_branch_at(after, k);
        } else if has_key(after, d) {
            let k = choose|k: int| 0 <= k < after.len() && (#[trigger] after[k]).0 == d;
            let j = if k < i {
                k
            } else {
                k - 1
            };
            assert(entries[j] == after[k]);
        }
    }
}

impl View for Tree {
    type V = TreeView;

    closed spec fn view(&self) -> TreeView {
        TreeView {
            nodes: Set::new(|p: Seq<char>| self.has_node(p)),
            words: Set::new(|w: Seq<char>| self.has_word(w)),
        }
    }
}

impl Tree {
    /// What every tree in use satisfies: at each level the entries ascend
    /// strictly by their characters.
    #[verifier::type_invariant]
    spec fn wf(self) -> bool
        decreases self,
    {
        &&& sorted_keys(self.0@)
        &&& forall|i: int| 0 <= i < self.0@.len() ==> (#[trigger] self.0@[i]).1.children.wf()
    }

    /// The node directly below the root for the character `c`, if there is one.
    pub closed spec fn branch(self, c: char) -> Option<Node> {
        branch_of(self.0@, c)
    }

    /// Whether the tree has a node at the path `p`.
    spec fn has_node(self, p: Seq<char>) -> bool
        decreases p.len(),
    {
        p.len() > 0 && match branch_of(self.0@, p[0]) {
            Some(node) => p.len() == 1 || node.children.has_node(p.drop_first()),
            None => false,
        }
    }

    /// Whether the node at the path `w` ends a word.
    spec fn has_word(self, w: Seq<char>) -> bool
        decreases w.len(),
    {
        w.len() > 0 && match branch_of(self.0@, w[0]) {
            Some(node) => if w.len() == 1 {
                node.end
            } else {
                node.children.has_word(w.drop_first())
            },
            None => false,
        }
    }

    /// The characters of the first `i` entries.
    spec fn firsts(self, i: int) -> Seq<char> {
        Seq::new(i as nat, |j: int| self.0@[j].0)
    }

    /// What the tree holds follows from its branches: the node for the first
    /// character of a path decides, with what it has below it.
    pub proof fn lemma_view_by_branch(self)
        ensures
            forall|p: Seq<char>|
                self@.nodes.contains(p) <==> p.len() > 0 && match self.branch(p[0]) {
                    Some(node) => p.len() == 1 || node.children@.nodes.contains(p.drop_first()),
                    None => false,
                },
            forall|w: Seq<char>|
                self@.words.contains(w) <==> w.len() > 0 && match self.branch(w[0]) {
                    Some(node) => if w.len() == 1 {
                        node.end
                    } else {
                        node.children@.words.contains(w.drop_first())
                    },
                    None => false,
                },
    {
    }

    /// A branch and the tree's view say the same: the branch for `c` is there
    /// exactly if the tree has a node at the path `c`, its node ends a word
    /// exactly if `c` alone is a word, and below it hangs what the tree
    /// holds below that path.
    pub proof fn lemma_branch(self, c: char)
        ensures
            match self.branch(c) {
                Some(node) => {
                    &&& self@.nodes.contains(seq![c])
                    &&& node.end == self@.words.contains(seq![c])
                    &&& node.children@ == self@.below(seq![c])
                },
                None => {
                    &&& !self@.nodes.contains(seq![c])
                    &&& !self@.words.contains(seq![c])
                    &&& self@.below(seq![c]) == TreeView::empty()
                },
            },
    {
        self.lemma_view_by_branch();
        let path = seq![c];
        assert forall|p: Seq<char>| p.len() > 0 implies (#[trigger] (path + p)).drop_first() == p
            && (path + p)[0] == c && (path + p).len() > 1 by {
            assert((path + p).drop_first() =~= p);
        }
        match self.branch(c) {
            Some(node) => {
                assert(node.children@ =~= self@.below(path));
            },
            None => {
                assert(self@.below(path) =~= TreeView::empty());
            },
        }
    }

    /// A word ends at a node.
    proof fn lemma_word_is_node(self, w: Seq<char>)
        requires
            self.has_word(w),
        ensures
            self.has_node(w),
        decreases w.len(),
    {
        if w.len() > 1 {
            branch_of(self.0@, w[0])->0.children.lemma_word_is_node(w.drop_first());
        }
    }

    /// Every beginning of a node's path has a node too.
    proof fn lemma_node_beginning(self, p: Seq<char>, k: int)
        requires
            self.has_node(p),
            0 < k <= p.len(),
        ensures
            self.has_node(p.take(k)),
        decreases p.len(),
    {
        if k > 1 {
            branch_of(self.0@, p[0])->0.children.lemma_node_beginning(p.drop_first(), k - 1);
            assert(p.take(k).drop_first() =~= p.drop_first().take(k - 1));
        }
    }

    /// What a tree holds is well formed.
    pub proof fn lemma_view_wf(self)
        ensures
            self@.wf(),
    {
        assert forall|p: Seq<char>, k: int|
            self@.nodes.contains(p) && 0 < k <= p.len() implies self@.nodes.contains(
            #[trigger] p.take(k),
        ) by {
            self.lemma_node_beginning(p, k);
        }
        assert forall|w: Seq<char>| self@.words.contains(w) implies self@.nodes.contains(w) by {
            self.lemma_word_is_node(w);
        }
    }

    /// Replacing one branch of a tree grafts the new node into what it holds.
    proof fn lemma_graft(self, after: Tree, c: char, node: Node)
        requires
            after.branch(c) == Some(node),
            forall|d: char| d != c ==> after.branch(d) == self.branch(d),
        ensures
            after@ == self@.graft(c, node.end, node.children@),
    {
        self.lemma_view_by_branch();
        after.lemma_view_by_branch();
        assert(after@ =~= self@.graft(c, node.end, node.children@));
    }

    /// Two trees whose entries have the same characters, end the same words
    /// and hold the same below them have branches that agree.
    proof fn lemma_same_branch(self, other: Tree, c: char)
        requires
            self.same_entries(other),
        ensures
            match (self.branch(c), other.branch(c)) {
                (Some(a), Some(b)) => a.end == b.end && a.children@ == b.children@,
                (None, None) => true,
                _ => false,
            },
    {
        if has_key(self.0@, c) {
            let j = choose|j: int| 0 <= j < self.0@.len() && (#[trigger] self.0@[j]).0 == c;
            assert(other.0@[j].0 == c);
            lemma_branch_at(self.0@, j);
            lemma_branch_at(other.0@, j);
        } else if has_key(other.0@, c) {
            let j = choose|j: int| 0 <= j < other.0@.len() && (#[trigger] other.0@[j]).0 == c;
            assert(self.0@[j].0 == c);
        }
    }

    /// Whether the entries of two trees have the same characters, end the
    /// same words and hold the same below them.
    spec fn same_entries(self, other: Tree) -> bool {
        &&& sorted_keys(self.0@)
        &&& sorted_keys(other.0@)
        &&& self.0@.len() == other.0@.len()
        &&& forall|j: int|
            0 <= j < self.0@.len() ==> {
                &&& (#[trigger] other.0@[j]).0 == self.0@[j].0
                &&& other.0@[j].1.end == self.0@[j].1.end
                &&& other.0@[j].1.children@ == self.0@[j].1.children@
            }
    }

    /// Two trees whose entries have the same characters, end the same words
    /// and hold the same below them hold the same.
    proof fn lemma_same_view(self, other: Tree)
        requires
            self.same_entries(other),
        ensures
            other@ == self@,
    {
        self.lemma_view_by_branch();
        other.lemma_view_by_branch();
        assert forall|p: Seq<char>| other@.nodes.contains(p) <==> self@.nodes.contains(p) by {
            if p.len() > 0 {
                self.lemma_same_branch(other, p[0]);
            }
        }
        assert forall|w: Seq<char>| other@.words.contains(w) <==> self@.words.contains(w) by {
            if w.len() > 0 {
                self.lemma_same_branch(other, w[0]);
            }
        }
        assert(other@ =~= self@);
    }

    /// The tree that holds nothing.
    pub fn new() -> (tree: Tree)
        ensures
            tree@ == TreeView::empty(),
    {
        let tree = Tree(Vec::new());
        proof {
            tree.lemma_view_by_branch();
            assert(tree@ =~= TreeView::empty());
        }
        tree
    }

    /// Whether the tree has no node at all.
    pub fn is_empty(&self) -> (r: bool)
        ensures
            r == (self@.nodes == Set::<Seq<char>>::empty()),
    {
        proof {
            use_type_invariant(self);
            self.lemma_view_by_branch();
            if self.0@.len() > 0 {
                lemma_branch_at(self.0@, 0);
                assert(self@.nodes.contains(seq![self.0@[0].0]));
            } else {
                assert(self@.nodes =~= Set::<Seq<char>>::empty());
            }
        }
        self.0.len() == 0
    }

    /// The index of the first entry whose character is not below `c`.
    fn position(entries: &Vec<(char, Node)>, c: char) -> (i: usize)
        requires
            sorted_keys(entries@),
        ensures
            i <= entries@.len(),
            forall|j: int| 0 <= j < i ==> (#[trigger] entries@[j]).0 < c,
            forall|j: int| i <= j < entries@.len() ==> (#[trigger] entries@[j]).0 >= c,
            i < entries@.len() && entries@[i as int].0 == c ==> branch_of(entries@, c) == Some(
                entries@[i as int].1,
            ),
            !(i < entries@.len() && entries@[i as int].0 == c) ==> branch_of(entries@, c) is None,
    {
        let mut low: usize = 0;
        let mut high: usize = entries.len();
        while low < high
            invariant
                low <= high <= entries@.len(),
                sorted_keys(entries@),
                forall|j: int| 0 <= j < low ==> (#[trigger] entries@[j]).0 < c,
                forall|j: int| high <= j < entries@.len() ==> (#[trigger] entries@[j]).0 >= c,
            decreases high - low,
        {
            let middle: usize = low + (high - low) / 2;
            if entries[middle].0 < c {
                assert forall|j: int| 0 <= j < middle + 1 implies (#[trigger] entries@[j]).0 < c by {
                    if j < middle {
                        assert(entries@[j].0 < entries@[middle as int].0);
                    }
                }
                low = middle + 1;
            } else {
                assert forall|j: int| middle <= j < entries@.len() implies (#[trigger] entries@[j]).0
                    >= c by {
                    if middle < j {
                        assert(entries@[middle as int].0 < entries@[j].0);
                    }
                }
                high = middle;
            }
        }
        proof {
            if low < entries@.len() && entries@[low as int].0 == c {
                lemma_branch_at(entries@, low as int);
            } else if has_key(entries@, c) {
                let j = choose|j: int| 0 <= j < entries@.len() && (#[trigger] entries@[j]).0 == c;
                assert(j < low || j >= low);
            }
        }
        low
    }

    /// The characters for which the tree has a node directly below its
    /// root, in ascending order.
    pub fn keys(&self) -> (keys: Vec<char>)
        ensures
            forall|i: int, j: int| 0 <= i < j < keys@.len() ==> keys@[i] < keys@[j],
            forall|c: char| keys@.contains(c) <==> self@.nodes.contains(seq![c]),
    {
        let mut keys: Vec<char> = Vec::new();
        let mut i: usize = 0;
        proof {
            use_type_invariant(self);
        }
        while i < self.0.len()
            invariant
                i <= self.0@.len(),
                keys@ == self.firsts(i as int),
            decreases self.0@.len() - i,
        {
            keys.push(self.0[i].0);
            i = i + 1;
            assert(keys@ =~= self.firsts(i as int));
        }
        proof {
            assert forall|a: int, b: int| 0 <= a < b < keys@.len() implies keys@[a] < keys@[b] by {
                assert(self.0@[a].0 < self.0@[b].0);
            }
            assert forall|c: char| keys@.contains(c) <==> self@.nodes.contains(seq![c]) by {
                self.lemma_branch(c);
                if keys@.contains(c) {
                    let j = choose|j: int| 0 <= j < keys@.len() && keys@[j] == c;
                    assert(self.0@[j].0 == c);
                    lemma_branch_at(self.0@, j);
                }
                if self@.nodes.contains(seq![c]) {
                    assert(has_key(self.0@, c));
                    let j = choose|j: int| 0 <= j < self.0@.len() && (#[trigger] self.0@[j]).0 == c;
                    assert(keys@[j] == c);
                }
            }
        }
        keys
    }

    /// The node directly below the root for the character `c`, if there is one.
    pub fn child(&self, c: char) -> (r: Option<&Node>)
        ensures
            match r {
                Some(node) => {
                    &&& self.branch(c) == Some(*node)
                    &&& self@.nodes.contains(seq![c])
                    &&& node.end == self@.words.contains(seq![c])
                    &&& node.children@ == self@.below(seq![c])
                },
                None => {
                    &&& self.branch(c) is None
                    &&& !self@.nodes.contains(seq![c])
                },
            },
    {
        proof {
            use_type_invariant(self);
            self.lemma_branch(c);
        }
        let i: usize = Tree::position(&self.0, c);
        if i < self.0.len() && self.0[i].0 == c {
            Some(&self.0[i].1)
        } else {
            None
        }
    }

    /// Whether `pin` is a word of the tree. The empty string never is.
    pub fn search(&self, pin: &str) -> (found: bool)
        ensures
            found == self@.words.contains(pin@),
    {
        let mut tree = self;
        let mut rest = pin.chars();
        let mut found = false;
        let ghost mut done: int = 0;
        proof {
            self.lemma_view_by_branch();
            assert(pin@.skip(0) =~= pin@);
        }
        loop
            invariant
                0 <= done <= pin@.len(),
                rest.remaining() == pin@.skip(done),
                self@.words.contains(pin@) == if done == pin@.len() {
                    found
                } else {
                    tree@.words.contains(pin@.skip(done))
                },
            decreases pin@.len() - done,
        {
            match rest.next() {
                None => {
                    return found;
                },
                Some(c) => {
                    proof {
                        tree.lemma_view_by_branch();
                        assert(pin@.skip(done).drop_first() =~= pin@.skip(done + 1));
                    }
                    match tree.child(c) {
                        None => {
                            return false;
                        },
                        Some(node) => {
                            found = node.end;
                            tree = &node.children;
                            proof {
                                done = done + 1;
                            }
                        },
                    }
                },
            }
        }
    }

    /// Adds the characters of `word` from the index `from` on as one word.
    fn insert_from(&mut self, word: &Vec<char>, from: usize)
        requires
            from <= word@.len(),
        ensures
            final(self)@ == old(self)@.insert(word@.skip(from as int)),
        decreases word@.len() - from,
    {
        let ghost before = *self;
        let ghost w = word@.skip(from as int);
        if from >= word.len() {
            proof {
                assert(w =~= Seq::<char>::empty());
                before@.lemma_insert_empty();
            }
            return ;
        }
        let c = word[from];
        let last = from + 1 == word.len();
        proof {
            use_type_invariant(&*self);
            before.lemma_branch(c);
            before.lemma_view_wf();
            before@.lemma_insert_by_graft(w);
            assert(w.drop_first() =~= word@.skip(from + 1));
            if last {
                before@.below(seq![c]).lemma_insert_empty();
                TreeView::empty().lemma_insert_empty();
            }
        }
        let mut entries: Vec<(char, Node)> = Vec::new();
        std::mem::swap(&mut entries, &mut self.0);
        let i: usize = Tree::position(&entries, c);
        if i < entries.len() && entries[i].0 == c {
            if last {
                entries[i].1.end = true;
            } else {
                entries[i].1.children.insert_from(word, from + 1);
            }
            let changed = &entries[i].1.children;
            proof {
                use_type_invariant(changed);
                lemma_branch_update(before.0@, i as int, entries@[i as int].1);
                assert(entries@ =~= before.0@.update(i as int, (c, entries@[i as int].1)));
            }
        } else {
            let mut node = Node::new();
            if last {
                node.end = true;
            } else {
                node.children.insert_from(word, from + 1);
            }
            proof {
                use_type_invariant(&node.children);
                lemma_branch_insert(before.0@, i as int, c, node);
            }
            entries.insert(i, (c, node));
        }
        let ghost node = branch_of(entries@, c)->0;
        self.0 = entries;
        proof {
            before.lemma_graft(*self, c, node);
        }
    }

    /// Adds `word` to the tree: afterwards the tree has a node for each
    /// beginning of the word, the last of them marked as the end of a word.
    /// Adding the empty word changes nothing, and so does adding a word
    /// again.
    pub fn add_word(&mut self, word: &str)
        ensures
            final(self)@ == old(self)@.insert(word@),
    {
        let chars = characters(word);
        assert(chars@.skip(0) =~= word@);
        self.insert_from(&chars, 0);
    }

    /// Puts `node` below the root for the character `c`, in place of the node
    /// that was there, if there was one.
    fn put(&mut self, c: char, node: Node)
        ensures
            final(self)@ == old(self)@.graft(c, node.end, node.children@),
    {
        let ghost before = *self;
        let ghost put = node;
        proof {
            use_type_invariant(&*self);
            use_type_invariant(&node.children);
        }
        let mut entries: Vec<(char, Node)> = Vec::new();
        std::mem::swap(&mut entries, &mut self.0);
        let i: usize = Tree::position(&entries, c);
        if i < entries.len() && entries[i].0 == c {
            proof {
                lemma_branch_update(before.0@, i as int, put);
            }
            entries[i].1 = node;
            proof {
                assert(entries@ =~= before.0@.update(i as int, (c, put)));
            }
        } else {
            proof {
                lemma_branch_insert(before.0@, i as int, c, put);
            }
            entries.insert(i, (c, node));
        }
        self.0 = entries;
        proof {
            before.lemma_graft(*self, c, put);
        }
    }

    /// Puts a copy of each of `nodes` below the root, one after the other.
    fn put_all(&mut self, nodes: &[(char, Node)])
        ensures
            final(self)@ == old(self)@.graft_all(nodes@),
    {
        let mut i: usize = 0;
        proof {
            assert(nodes@.take(0) =~= Seq::<(char, Node)>::empty());
        }
        while i < nodes.len()
            invariant
                i <= nodes@.len(),
                self@ == old(self)@.graft_all(nodes@.take(i as int)),
            decreases nodes@.len() - i,
        {
            let node = nodes[i].1.clone();
            self.put(nodes[i].0, node);
            proof {
                let upto = nodes@.take(i + 1);
                assert(upto.drop_last() =~= nodes@.take(i as int));
                assert(upto.last() == nodes@[i as int]);
            }
            i = i + 1;
        }
        proof {
            assert(nodes@.take(i as int) =~= nodes@);
        }
    }

    /// The tree with the given nodes below its root. Where two of them are
    /// for one character, the later one stays.
    pub fn new_with_nodes(nodes: &[(char, Node)]) -> (tree: Tree)
        ensures
            tree@ == TreeView::empty().graft_all(nodes@),
    {
        let mut tree = Tree::new();
        tree.put_all(nodes);
        tree
    }
}

impl Node {
    /// A node that ends no word and has nothing below it.
    pub fn new() -> (node: Node)
        ensures
            !node.end,
            node.children@ == TreeView::empty(),
    {
        Node { end: false, children: Tree::new() }
    }

    /// The same node, marked as the end of a word.
    pub fn end(self) -> (node: Node)
        ensures
            node.end,
            node.children == self.children,
    {
        Node { end: true, children: self.children }
    }

    /// The same node, marked as the end of a word or not.
    pub fn with_end(self, end: bool) -> (node: Node)
        ensures
            node.end == end,
            node.children == self.children,
    {
        Node { end, children: self.children }
    }

    /// The same node with `nodes` put below it, one after the other: each
    /// replaces the node that was there for its character, with all that
    /// hung below it.
    pub fn children(self, nodes: &[(char, Node)]) -> (node: Node)
        ensures
            node.end == self.end,
            node.children@ == self.children@.graft_all(nodes@),
    {
        let Node { end, mut children } = self;
        children.put_all(nodes);
        Node { end, children }
    }
}

impl Clone for Node {
    /// A node that ends a word exactly if this one does, with a copy of what
    /// hangs below this one below it.
    fn clone(&self) -> (node: Node)
        ensures
            node.end == self.end,
            node.children@ == self.children@,
        decreases self, 1int,
    {
        Node { end: self.end, children: self.children.clone() }
    }
}

impl Default for Node {
    /// A node that ends no word and has nothing below it.
    fn default() -> (node: Node)
        ensures
            !node.end,
            node.children@ == TreeView::empty(),
    {
        Node::new()
    }
}

impl Clone for Tree {
    /// A tree that holds what this one holds.
    fn clone(&self) -> (tree: Tree)
        ensures
            tree@ == self@,
        decreases self, 0int,
    {
        proof {
            use_type_invariant(self);
        }
        let mut entries: Vec<(char, Node)> = Vec::new();
        let mut i: usize = 0;
        while i < self.0.len()
            invariant
                i <= self.0@.len(),
                self.wf(),
                entries@.len() == i,
                forall|j: int|
                    0 <= j < i ==> {
                        &&& (#[trigger] entries@[j]).0 == self.0@[j].0
                        &&& entries@[j].1.end == self.0@[j].1.end
                        &&& entries@[j].1.children@ == self.0@[j].1.children@
                        &&& entries@[j].1.children.wf()
                    },
            decreases self.0@.len() - i,
        {
            let node = self.0[i].1.clone();
            proof {
                use_type_invariant(&node.children);
            }
            entries.push((self.0[i].0, node));
            i = i + 1;
        }
        proof {
            assert(sorted_keys(entries@)) by {
                assert forall|a: int, b: int| 0 <= a < b < entries@.len() implies entries@[a].0
                    < entries@[b].0 by {
                    assert(self.0@[a].0 < self.0@[b].0);
                }
            }
        }
        let tree = Tree(entries);
        proof {
            self.lemma_same_view(tree);
        }
        tree
    }
}

impl Default for Tree {
    /// The tree that holds nothing.
    fn default() -> (tree: Tree)
        ensures
            tree@ == TreeView::empty(),
    {
        Tree::new()
    }
}

} // verus!
