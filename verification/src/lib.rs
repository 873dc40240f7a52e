//! A Merkle Patricia Trie: an authenticated map from 32-byte keys to byte
//! strings.
//!
//! The trie keeps itself in canonical form under insert and delete, so that
//! the mapping alone determines the tree, its serialization, and the 32-byte
//! Keccak-256 root digest that commits to it.
//!
//! - [`path`] — keys and nibble paths;
//! - [`rlp`] — the canonical recursive-length serialization and its strict
//!   decoder;
//! - [`node`] — the node structure with lookup, insert and delete, the
//!   canonical-form invariants, and the uniqueness of canonical form;
//! - [`trie`] — the facade: `set`, `get`, `delete`, `commit`;
//! - [`db`] — the hash-keyed blob store port and an in-memory store;
//! - [`storage`] — hex-prefix path encoding, node serialization, and the
//!   content-addressed commit and load layer.

pub mod db;
pub mod node;
pub mod path;
pub mod rlp;
pub mod storage;
pub mod trie;
