//! A fixed-capacity hash table over string keys and string values.
//!
//! Keys are mapped to one of `capacity` buckets by hashing; keys that share a
//! bucket are kept in a chain, in arrival order. The table never resizes, and
//! an insert never overwrites: a duplicate key is rejected. The abstract view
//! of a table is a `Map<Seq<char>, Seq<char>>`, and every operation's contract
//! is stated over that view.

pub mod hashing;
pub mod laws;
pub mod table;
