//! A small disk-backed storage engine whose centre is a verified buffer pool.
//!
//! The pool ([`buffer_manager`]) keeps a fixed number of frames, each holding
//! one [`page`] of the page store ([`disk_manager`]), and asks a replacement
//! policy ([`replacer`], with the [`clock_replacer`] and the [`lru_replacer`])
//! which page has to go when room is needed. Around it stand the beginnings
//! of a database: a [`catalog`], a [`lock_manager`], a hash table that grows
//! bucket by bucket ([`extensible_hash`]), the merge of an [`external_sort`],
//! joins ([`nested_loop_join`], [`hash_join`]), the nodes of a [`btree`],
//! [`block`]s, and the language of the prompt ([`statement`], [`sql`]).
//!
//! Nothing in this library reads or writes a file. Where bytes have to move
//! between memory and disk, the library says which, and its caller moves
//! them.

pub mod block;
pub mod btree;
pub mod buffer_manager;
pub mod catalog;
pub mod clock_replacer;
pub mod disk_manager;
pub mod extensible_hash;
pub mod external_sort;
pub mod hash_join;
pub mod lock_manager;
pub mod lru_replacer;
pub mod nested_loop_join;
pub mod page;
pub mod replacer;
pub mod sql;
pub mod statement;
pub mod text;
