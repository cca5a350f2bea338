use keypad_trie::commands::{assimilate, search};
use keypad_trie::keys::KeyError;
use keypad_trie::tree::Tree;
use keypad_trie::words::characters;

fn lines(words: &[&str]) -> Vec<String> {
    words.iter().map(|word| word.to_string()).collect()
}

#[test]
fn assimilate_holds_the_lines() {
    let tree = assimilate(&lines(&["dog", "cat", "", "cats", "dog"]));
    assert_eq!(tree.reduce_to_list(None), lines(&["cat", "cats", "dog"]));
    assert!(tree.search("dog"));
    assert!(!tree.search(""));
    assert!(!tree.search("do"));
}

#[test]
fn assimilate_takes_lines_as_they_are() {
    let tree = assimilate(&lines(&[" dog", "Cat ", "caT"]));
    assert!(tree.search(" dog"));
    assert!(tree.search("Cat "));
    assert!(tree.search("caT"));
    assert!(!tree.search("dog"));
    assert!(!tree.search("Cat"));
    assert!(!tree.search("cat"));
}

#[test]
fn assimilate_of_nothing_is_empty() {
    assert!(assimilate(&[]).is_empty());
    assert!(assimilate(&lines(&["", ""])).is_empty());
}

#[test]
fn search_command_answers_a_typed_query() {
    let tree = assimilate(&lines(&["dog", "fog", "cat"]));
    assert_eq!(search("364", &tree), Ok(lines(&["dog", "fog"])));
    assert_eq!(search("228", &tree), Ok(lines(&["cat"])));
    assert_eq!(search("999", &tree), Ok(Vec::new()));
    assert_eq!(search("", &tree), Ok(Vec::new()));
}

#[test]
fn search_command_refuses_a_query_that_is_no_digit_string() {
    let tree = assimilate(&lines(&["dog"]));
    assert_eq!(search("dog", &tree), Err(KeyError::InvalidKey));
    assert_eq!(search("12a", &tree), Err(KeyError::InvalidKey));
    assert_eq!(search("3640", &tree), Err(KeyError::InvalidKey));
    assert_eq!(search("364", &Tree::new()), Ok(Vec::new()));
}

#[test]
fn characters_of_a_string() {
    assert_eq!(characters(""), Vec::<char>::new());
    assert_eq!(characters("dog"), vec!['d', 'o', 'g']);
    assert_eq!(
        characters("\u{e9}t\u{e9} \u{1f600}"),
        vec!['\u{e9}', 't', '\u{e9}', ' ', '\u{1f600}']
    );
}
