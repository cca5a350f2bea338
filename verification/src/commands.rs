//! What the commands of the dictionary compute, apart from reading and
//! writing files: the tree of a word list, and the answer to a typed query.

use crate::keys::{KeyError, Keys};
use crate::tree::{Tree, TreeView};
use crate::words::{lists, texts};
use vstd::prelude::*;

verus! {

/// Builds the tree of a word list: each line is added as a word, exactly as
/// it is given. Empty lines add nothing.
pub fn assimilate(lines: &[String]) -> (tree: Tree)
    ensures
        tree@ == TreeView::of_words(texts(lines@)),
{
    let mut tree = Tree::new();
    let mut i: usize = 0;
    proof {
        assert(texts(lines@).take(0) =~= Seq::<Seq<char>>::empty());
    }
    while i < lines.len()
        invariant
            i <= lines@.len(),
            tree@ == TreeView::of_words(texts(lines@).take(i as int)),
        decreases lines@.len() - i,
    {
        tree.add_word(lines[i].as_str());
        proof {
            let upto = texts(lines@).take(i + 1);
            assert(upto.drop_last() =~= texts(lines@).take(i as int));
            assert(upto.last() == lines@[i as int]@);
        }
        i = i + 1;
    }
    proof {
        assert(texts(lines@).take(i as int) =~= texts(lines@));
    }
    tree
}

/// Answers a query typed on the keypad: the words of the tree that the
/// digits of `word` type, in dictionary order. A query that holds anything
/// but the digits 2 to 9 is refused.
pub fn search(word: &str, tree: &Tree) -> (r: Result<Vec<String>, KeyError>)
    ensures
        match r {
            Ok(found) => Keys::parsed(word@) matches Some(keys) && lists(
                texts(found@),
                tree@.typed(keys),
            ),
            Err(e) => Keys::parsed(word@) is None && e == KeyError::InvalidKey,
        },
{
    match Keys::parse(word) {
        Ok(keys) => Ok(tree.search_keys(keys)),
        Err(e) => Err(e),
    }
}

} // verus!
