//! A separate-chaining hash table with verified insertion, lookup, removal
//! and traversal.
//!
//! [`HashMap`] is the table and [`HashIter`] its traversal. Keys are
//! compared and hashed through the traits of the module `key`. The module
//! `store` describes the bucket store as a mathematical value and states
//! what each operation makes of it; the module `lemmas` proves what the
//! table relies on, and the module `laws` states what holds of the
//! operations taken together.

pub mod key;
pub mod laws;
pub mod lemmas;
pub mod store;
pub mod table;

pub use key::{hash_of, Key, Lookup};
pub use table::{HashIter, HashMap};
