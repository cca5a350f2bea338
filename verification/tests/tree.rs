use keypad_trie::keys::Keys;
use keypad_trie::tree::{Node, Tree};

fn tree_of(words: &[&str]) -> Tree {
    let mut tree = Tree::new();
    for word in words {
        tree.add_word(word);
    }
    tree
}

fn keys(digits: &str) -> Keys {
    Keys::parse(digits).unwrap()
}

fn strings(words: &[&str]) -> Vec<String> {
    words.iter().map(|word| word.to_string()).collect()
}

#[test]
fn new_tree_is_empty() {
    let tree = Tree::new();
    assert!(tree.is_empty());
    assert!(tree.keys().is_empty());
    assert!(!tree.search("a"));
    assert!(tree.reduce_to_list(None).is_empty());
}

#[test]
fn default_tree_is_empty() {
    let tree = Tree::default();
    assert!(tree.is_empty());
    let node = Node::default();
    assert!(!node.end);
    assert!(node.children.is_empty());
}

#[test]
fn insert_then_contains() {
    let tree = tree_of(&["dog"]);
    assert!(tree.search("dog"));
    assert!(!tree.is_empty());
}

#[test]
fn word_never_inserted_is_not_contained() {
    let tree = tree_of(&["dog", "door", "cat"]);
    for word in ["d", "do", "doo", "dogs", "doors", "ca", "c", "at", "og", "DOG", "dog ", " dog"] {
        assert!(!tree.search(word), "{:?}", word);
    }
    for word in ["dog", "door", "cat"] {
        assert!(tree.search(word), "{:?}", word);
    }
}

#[test]
fn empty_word_is_never_contained() {
    assert!(!Tree::new().search(""));
    assert!(!tree_of(&["a", "ab"]).search(""));
    assert!(!tree_of(&[""]).search(""));
}

#[test]
fn inserting_the_empty_word_changes_nothing() {
    let mut tree = Tree::new();
    tree.add_word("");
    assert!(tree.is_empty());
    assert!(tree.reduce_to_list(None).is_empty());
    let mut tree = tree_of(&["cat", "car"]);
    let before = tree.reduce_to_list(None);
    tree.add_word("");
    assert_eq!(tree.reduce_to_list(None), before);
    assert_eq!(tree.keys(), vec!['c']);
}

#[test]
fn inserting_twice_is_inserting_once() {
    let once = tree_of(&["cat", "cats", "dog"]);
    let twice = tree_of(&["cat", "cats", "dog", "cat", "dog", "cats"]);
    assert_eq!(once.reduce_to_list(None), twice.reduce_to_list(None));
    assert_eq!(once.keys(), twice.keys());
    assert_eq!(once.search_keys(keys("228")), twice.search_keys(keys("228")));
    assert_eq!(once.prefix_complete("c"), twice.prefix_complete("c"));
    assert_eq!(
        once.prefix_key_complete(keys("2")),
        twice.prefix_key_complete(keys("2"))
    );
    for word in ["cat", "cats", "dog", "ca", "do", ""] {
        assert_eq!(once.search(word), twice.search(word));
    }
}

#[test]
fn word_and_its_beginning_are_both_words() {
    let tree = tree_of(&["cat", "cats"]);
    assert!(tree.search("cat"));
    assert!(tree.search("cats"));
    assert!(!tree.search("ca"));
}

#[test]
fn beginning_inserted_after_the_longer_word_is_a_word() {
    let tree = tree_of(&["cats", "cat"]);
    assert!(tree.search("cat"));
    assert!(tree.search("cats"));
    assert_eq!(tree.reduce_to_list(None), strings(&["cat", "cats"]));
}

#[test]
fn single_letter_inserted_after_longer_word_is_a_word() {
    let tree = tree_of(&["ab", "a"]);
    assert!(tree.search("a"));
    assert!(tree.search("ab"));
}

#[test]
fn order_of_insertion_does_not_matter() {
    let one = tree_of(&["car", "cat", "cats", "dog", "a"]);
    let other = tree_of(&["a", "dog", "cats", "cat", "car"]);
    assert_eq!(one.reduce_to_list(None), other.reduce_to_list(None));
    assert_eq!(one.keys(), other.keys());
}

#[test]
fn words_beyond_ascii() {
    let tree = tree_of(&["\u{e9}t\u{e9}", "\u{e9}", "na\u{ef}ve", "\u{65e5}\u{672c}", "\u{1f600}"]);
    assert!(tree.search("\u{e9}t\u{e9}"));
    assert!(tree.search("\u{e9}"));
    assert!(tree.search("na\u{ef}ve"));
    assert!(tree.search("\u{65e5}\u{672c}"));
    assert!(tree.search("\u{1f600}"));
    assert!(!tree.search("\u{e9}t"));
    assert!(!tree.search("\u{65e5}"));
    assert!(!tree.search("e"));
    assert_eq!(
        tree.reduce_to_list(None),
        strings(&["na\u{ef}ve", "\u{e9}", "\u{e9}t\u{e9}", "\u{65e5}\u{672c}", "\u{1f600}"])
    );
    assert_eq!(tree.prefix_complete("\u{e9}"), strings(&["\u{e9}t\u{e9}"]));
    assert_eq!(tree.keys(), vec!['n', '\u{e9}', '\u{65e5}', '\u{1f600}']);
}

#[test]
fn search_by_keys_finds_dog() {
    let tree = tree_of(&["dog"]);
    assert_eq!(tree.search_keys(keys("364")), strings(&["dog"]));
}

#[test]
fn search_by_keys_needs_the_same_length() {
    let tree = tree_of(&["dog"]);
    assert!(tree.search_keys(keys("36")).is_empty());
    assert!(tree.search_keys(keys("3")).is_empty());
    assert!(tree.search_keys(keys("3644")).is_empty());
    assert!(tree.search_keys(keys("3642")).is_empty());
}

#[test]
fn search_by_no_keys_finds_nothing() {
    assert!(tree_of(&["dog", "a"]).search_keys(keys("")).is_empty());
    assert!(Tree::new().search_keys(keys("")).is_empty());
}

#[test]
fn search_by_keys_in_an_empty_tree_finds_nothing() {
    assert!(Tree::new().search_keys(keys("364")).is_empty());
}

#[test]
fn search_by_keys_lists_every_match_in_order() {
    let tree = tree_of(&["fog", "dog", "eoi", "doh", "dmg", "dogs", "do", "cog", "dpg"]);
    assert_eq!(
        tree.search_keys(keys("364")),
        strings(&["dmg", "dog", "doh", "eoi", "fog"])
    );
}

#[test]
fn search_by_keys_gives_letters_not_digits() {
    let tree = tree_of(&["a", "b", "c", "d"]);
    assert_eq!(tree.search_keys(keys("2")), strings(&["a", "b", "c"]));
    assert_eq!(tree.search_keys(keys("3")), strings(&["d"]));
}

#[test]
fn search_by_keys_with_four_letter_keys() {
    let tree = tree_of(&["spy", "sqz", "rpw", "pqx", "tqx", "sp"]);
    assert_eq!(
        tree.search_keys(keys("779")),
        strings(&["pqx", "rpw", "spy", "sqz"])
    );
}

#[test]
fn search_by_keys_skips_a_beginning_that_is_no_word() {
    let tree = tree_of(&["dogs"]);
    assert!(tree.search_keys(keys("364")).is_empty());
    assert_eq!(tree.search_keys(keys("3647")), strings(&["dogs"]));
}

#[test]
fn search_by_keys_ignores_upper_case_and_other_letters() {
    let tree = tree_of(&["Dog", "d\u{f6}g", "d0g"]);
    assert!(tree.search_keys(keys("364")).is_empty());
}

#[test]
fn prefix_complete_lists_the_completions() {
    let tree = tree_of(&["cat", "cats", "car"]);
    assert_eq!(tree.prefix_complete("ca"), strings(&["car", "cat", "cats"]));
}

#[test]
fn prefix_complete_of_an_absent_branch_is_empty() {
    let tree = tree_of(&["cat", "cats", "car"]);
    assert!(tree.prefix_complete("z").is_empty());
    assert!(tree.prefix_complete("cab").is_empty());
    assert!(tree.prefix_complete("catsu").is_empty());
}

#[test]
fn prefix_complete_of_the_empty_prefix_is_empty() {
    let tree = tree_of(&["cat", "cats", "car"]);
    assert!(tree.prefix_complete("").is_empty());
    assert!(Tree::new().prefix_complete("").is_empty());
}

#[test]
fn prefix_complete_leaves_out_the_prefix_itself() {
    let tree = tree_of(&["cat", "cats", "car"]);
    assert_eq!(tree.prefix_complete("cat"), strings(&["cats"]));
    assert!(tree.prefix_complete("cats").is_empty());
    assert!(tree.prefix_complete("car").is_empty());
}

#[test]
fn prefix_complete_lists_a_word_before_what_it_starts() {
    let tree = tree_of(&["ab", "a", "abc", "b", "abd", "ac", "aa"]);
    assert_eq!(
        tree.prefix_complete("a"),
        strings(&["aa", "ab", "abc", "abd", "ac"])
    );
}

#[test]
fn reduce_to_list_lists_all_words_in_order() {
    let tree = tree_of(&["dog", "cat", "cats", "car", "a", "do"]);
    assert_eq!(
        tree.reduce_to_list(None),
        strings(&["a", "car", "cat", "cats", "do", "dog"])
    );
}

#[test]
fn reduce_to_list_puts_the_prefix_before_each_word() {
    let tree = tree_of(&["s", "r", "rs"]);
    assert_eq!(
        tree.reduce_to_list(Some("ca")),
        strings(&["car", "cars", "cas"])
    );
    assert_eq!(tree.reduce_to_list(Some("")), strings(&["r", "rs", "s"]));
}

#[test]
fn reduce_to_list_orders_by_code_point() {
    let tree = tree_of(&["b", "B", "a", "Z", "1", "\u{e9}", "~"]);
    assert_eq!(
        tree.reduce_to_list(None),
        strings(&["1", "B", "Z", "a", "b", "~", "\u{e9}"])
    );
}

#[test]
fn prefix_key_complete_lists_the_completions() {
    let tree = tree_of(&["cat", "cats", "car", "bat", "bath", "dog", "ac", "act"]);
    assert_eq!(
        tree.prefix_key_complete(keys("22")),
        strings(&["act", "bat", "bath", "car", "cat", "cats"])
    );
    assert_eq!(
        tree.prefix_key_complete(keys("228")),
        strings(&["bath", "cats"])
    );
    assert_eq!(tree.prefix_key_complete(keys("2")), strings(&[
        "ac", "act", "bat", "bath", "car", "cat", "cats"
    ]));
}

#[test]
fn prefix_key_complete_leaves_out_words_of_the_keys_length() {
    let tree = tree_of(&["cat", "cats", "bat"]);
    assert_eq!(tree.prefix_key_complete(keys("228")), strings(&["cats"]));
    assert!(tree.prefix_key_complete(keys("2287")).is_empty());
}

#[test]
fn prefix_key_complete_of_no_keys_is_empty() {
    assert!(tree_of(&["cat"]).prefix_key_complete(keys("")).is_empty());
}

#[test]
fn prefix_key_complete_in_an_empty_tree_is_empty() {
    assert!(Tree::new().prefix_key_complete(keys("2")).is_empty());
}

#[test]
fn prefix_key_complete_drops_keys_that_run_out_of_tree() {
    let tree = tree_of(&["ca"]);
    assert!(tree.prefix_key_complete(keys("228")).is_empty());
    assert!(tree.prefix_key_complete(keys("22")).is_empty());
    assert_eq!(tree.prefix_key_complete(keys("2")), strings(&["ca"]));
}

#[test]
fn child_gives_the_node_below_the_root() {
    let tree = tree_of(&["a", "ab", "c"]);
    let a = tree.child('a').unwrap();
    assert!(a.end);
    assert_eq!(a.children.keys(), vec!['b']);
    assert!(a.children.search("b"));
    let b = a.children.child('b').unwrap();
    assert!(b.end);
    assert!(b.children.is_empty());
    let c = tree.child('c').unwrap();
    assert!(c.end);
    assert!(c.children.is_empty());
    assert!(tree.child('b').is_none());
    assert!(tree.child('d').is_none());
}

#[test]
fn child_on_the_way_to_a_word_ends_none() {
    let tree = tree_of(&["dog"]);
    let d = tree.child('d').unwrap();
    assert!(!d.end);
    let o = d.children.child('o').unwrap();
    assert!(!o.end);
    let g = o.children.child('g').unwrap();
    assert!(g.end);
}

#[test]
fn keys_are_in_ascending_order() {
    let tree = tree_of(&["m", "z", "a", "q", "b", "y", "A"]);
    assert_eq!(tree.keys(), vec!['A', 'a', 'b', 'm', 'q', 'y', 'z']);
}

#[test]
fn many_first_characters() {
    let mut tree = Tree::new();
    let mut expected: Vec<String> = Vec::new();
    for offset in (0..200u32).rev() {
        let c = char::from_u32(0x100 + offset * 7).unwrap();
        tree.add_word(&c.to_string());
    }
    for offset in 0..200u32 {
        let c = char::from_u32(0x100 + offset * 7).unwrap();
        expected.push(c.to_string());
        assert!(tree.search(&c.to_string()));
        assert!(tree.child(c).is_some());
        assert!(tree.child(char::from_u32(0x101 + offset * 7).unwrap()).is_none());
    }
    assert_eq!(tree.reduce_to_list(None), expected);
    assert_eq!(tree.keys().len(), 200);
}

#[test]
fn node_builders() {
    let node = Node::new();
    assert!(!node.end);
    assert!(node.children.is_empty());
    let node = node.end();
    assert!(node.end);
    let node = node.with_end(false);
    assert!(!node.end);
    let node = node.with_end(true);
    assert!(node.end);
    assert!(node.children.is_empty());
}

#[test]
fn node_builders_keep_the_children() {
    let node = Node::new().children(&[('x', Node::new().end())]);
    assert_eq!(node.children.keys(), vec!['x']);
    let node = node.end();
    assert_eq!(node.children.keys(), vec!['x']);
    let node = node.with_end(false);
    assert_eq!(node.children.keys(), vec!['x']);
    assert!(node.children.search("x"));
}

#[test]
fn new_with_nodes_builds_the_tree() {
    let t = Node::new().end().children(&[('s', Node::new().end())]);
    let r = Node::new().end();
    let a = Node::new().children(&[('t', t), ('r', r)]);
    let c = Node::new().children(&[('a', a)]);
    let tree = Tree::new_with_nodes(&[('c', c)]);
    assert_eq!(tree.reduce_to_list(None), strings(&["car", "cat", "cats"]));
    assert!(tree.search("cats"));
    assert!(!tree.search("ca"));
    assert_eq!(tree.prefix_complete("ca"), strings(&["car", "cat", "cats"]));
}

#[test]
fn new_with_nodes_equals_inserting() {
    let t = Node::new().end().children(&[('s', Node::new().end())]);
    let a = Node::new().children(&[('r', Node::new().end()), ('t', t)]);
    let built = Tree::new_with_nodes(&[('c', Node::new().children(&[('a', a)]))]);
    let inserted = tree_of(&["cat", "cats", "car"]);
    assert_eq!(built.reduce_to_list(None), inserted.reduce_to_list(None));
    assert_eq!(built.keys(), inserted.keys());
    assert_eq!(
        built.child('c').unwrap().children.keys(),
        inserted.child('c').unwrap().children.keys()
    );
}

#[test]
fn new_with_nodes_keeps_the_later_of_two_nodes_for_one_character() {
    let first = Node::new().end().children(&[('x', Node::new().end())]);
    let second = Node::new().children(&[('y', Node::new().end())]);
    let tree = Tree::new_with_nodes(&[('a', first), ('b', Node::new().end()), ('a', second)]);
    assert_eq!(tree.reduce_to_list(None), strings(&["ay", "b"]));
    assert!(!tree.search("a"));
    assert!(!tree.search("ax"));
    assert_eq!(tree.keys(), vec!['a', 'b']);
}

#[test]
fn new_with_no_nodes_is_empty() {
    assert!(Tree::new_with_nodes(&[]).is_empty());
}

#[test]
fn node_children_replaces_and_adds() {
    let node = Node::new()
        .end()
        .children(&[('b', Node::new().end()), ('a', Node::new().end())])
        .children(&[('c', Node::new().end()), ('a', Node::new())]);
    assert!(node.end);
    assert_eq!(node.children.keys(), vec!['a', 'b', 'c']);
    assert_eq!(node.children.reduce_to_list(None), strings(&["b", "c"]));
}

#[test]
fn a_node_without_a_word_below_it_is_a_node() {
    let tree = Tree::new_with_nodes(&[('a', Node::new())]);
    assert!(!tree.is_empty());
    assert!(tree.child('a').is_some());
    assert!(!tree.search("a"));
    assert!(tree.reduce_to_list(None).is_empty());
    assert!(tree.prefix_complete("a").is_empty());
    assert!(tree.search_keys(keys("2")).is_empty());
    assert!(tree.prefix_key_complete(keys("2")).is_empty());
}

#[test]
fn clone_holds_the_same_and_is_independent() {
    let tree = tree_of(&["cat", "cats", "dog"]);
    let mut copy = tree.clone();
    assert_eq!(copy.reduce_to_list(None), tree.reduce_to_list(None));
    copy.add_word("emu");
    assert!(copy.search("emu"));
    assert!(!tree.search("emu"));
    assert_eq!(tree.reduce_to_list(None), strings(&["cat", "cats", "dog"]));
}

#[test]
fn node_clone_holds_the_same() {
    let node = Node::new().end().children(&[('x', Node::new().end())]);
    let copy = node.clone();
    assert!(copy.end);
    assert_eq!(copy.children.reduce_to_list(None), strings(&["x"]));
}

fn branches(tree: &Tree) -> Vec<(char, Node)> {
    tree.keys()
        .into_iter()
        .map(|c| {
            let node = tree.child(c).unwrap();
            let below = Tree::new_with_nodes(&branches(&node.children));
            (c, Node { end: node.end, children: below })
        })
        .collect()
}

#[test]
fn tree_is_rebuilt_from_its_branches() {
    let tree = tree_of(&["cat", "cats", "car", "dog", "a", "\u{e9}t\u{e9}"]);
    let again = Tree::new_with_nodes(&branches(&tree));
    assert_eq!(again.reduce_to_list(None), tree.reduce_to_list(None));
    assert_eq!(again.keys(), tree.keys());
    for word in ["cat", "cats", "car", "dog", "a", "\u{e9}t\u{e9}", "ca", "do", ""] {
        assert_eq!(again.search(word), tree.search(word));
    }
    assert_eq!(again.search_keys(keys("228")), tree.search_keys(keys("228")));
    assert_eq!(again.prefix_complete("c"), tree.prefix_complete("c"));
    assert_eq!(
        again.prefix_key_complete(keys("2")),
        tree.prefix_key_complete(keys("2"))
    );
}
