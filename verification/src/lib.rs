//! A dictionary for telephone keypads.
//!
//! The dictionary is a prefix tree of words, [`tree::Tree`]. Words are added
//! one at a time and then searched: for a word itself, for the words that a
//! sequence of keypad keys types, and for the completions of a prefix given
//! as text or as keys. The keys and their letters are in [`keys`]; the
//! order in which answers are listed is defined in [`words`]; [`commands`]
//! holds what the dictionary's commands compute.
//!
//! Every function states in its contract what it returns, in terms of what
//! a tree holds ([`tree::TreeView`]).

pub mod commands;
pub mod keys;
pub mod tree;
pub mod words;
