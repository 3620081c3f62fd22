//! A keyed trie: values are stored under paths of keys, and any prefix of a
//! stored path may hold a value of its own or be a mere branch point.
pub mod trie;

pub use trie::{
    is_prefix, parts_view, valid_shape, DecodeError, DuplicatePath, Trie, TrieIter,
    TrieKeyIter, TrieValueIter,
};
