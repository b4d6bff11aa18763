//! Persistent collections whose updates share structure with earlier versions:
//! an ordered map kept as a red-black tree, an indexed vector kept as a
//! 32-ary trie, and a singly linked list.

pub mod cons;
pub mod redblack;
pub mod vector;
