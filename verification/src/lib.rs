//! A hash table with open addressing and linear probing.
//!
//! [`MyHashMap`] keeps its entries in a ring of slots. A key is looked for
//! from its home slot onward; a new key goes into the first free slot on
//! that way; when the way leads round the whole ring, the ring doubles. An
//! entry that is removed has the entries behind it moved back, so that every
//! entry stays reachable from its home.

pub mod closing;
pub mod error;
pub mod hash;
pub mod laws;
pub mod layout;
pub mod model;
pub mod ring;
pub mod table;

pub use crate::error::MapError;
pub use crate::hash::HashIt;
pub use crate::layout::Pair;
pub use crate::model::Model;
pub use crate::table::{MyHashMap, INITIAL_CAPACITY};
