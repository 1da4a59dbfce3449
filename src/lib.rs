//! A prefix tree (trie) of words: insertion, prefix descent, completion
//! enumeration and export of the tree as a Graphviz description.
pub mod complete;
pub mod dot;
pub mod text;
pub mod trie;

pub use complete::{autocomplete, collect_autocompletion};
pub use dot::dump_dot;
pub use text::usage;
pub use trie::{check, find_prefix, insert_text, Node, Trie};
