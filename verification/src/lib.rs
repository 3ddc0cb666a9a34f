//! A chained hash table that lives in memory lent to it.
pub mod hash;
