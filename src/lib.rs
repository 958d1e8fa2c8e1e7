//! Persistence pairing of a boundary matrix over GF(2) by the standard
//! column-reduction algorithm.

pub mod column;
pub mod vec_column;
pub mod algo;
pub mod arena;
pub mod btree_column;
pub mod bitset_column;
pub mod bitvec_column;
