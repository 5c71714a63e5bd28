//! The three recursive operations on a subtree.
pub mod blocks;
pub mod get;
pub mod insert;
pub mod insert_lemmas;
pub mod remove;
pub mod remove_lemmas;
