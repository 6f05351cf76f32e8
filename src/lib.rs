pub mod trie;
pub mod grid;
pub mod search;
pub mod dispatch;
