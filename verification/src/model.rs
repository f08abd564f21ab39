//! What a table stands for, and what its operations do to that.

use vstd::prelude::*;
use crate::error::MapError;

verus! {

/// What a table stands for: its entries, and the number of its slots.
#[verifier::reject_recursive_types(I)]
pub struct Model<I, V> {
    pub entries: Map<I, V>,
    pub capacity: nat,
}

impl<I, V> Model<I, V> {
    /// No entries in `capacity` slots.
    pub open spec fn empty(capacity: nat) -> Self {
        Model { entries: Map::empty(), capacity }
    }

    /// There is a slot, and the entries are no more than the slots.
    pub open spec fn valid(self) -> bool {
        &&& self.capacity > 0
        &&& self.entries.dom().finite()
        &&& self.entries.len() <= self.capacity
    }

    /// What a lookup of `id` answers.
    pub open spec fn lookup(self, id: I) -> Option<V> {
        if self.entries.contains_key(id) {
            Some(self.entries[id])
        } else {
            None
        }
    }

    /// An insertion of `id` finds its probe cycle exhausted: every slot is
    /// in use and none of them holds the key.
    pub open spec fn must_grow(self, id: I) -> bool {
        self.entries.len() == self.capacity && !self.entries.contains_key(id)
    }

    /// The same entries in twice the slots.
    pub open spec fn grow(self) -> Self {
        Model { entries: self.entries, capacity: 2 * self.capacity }
    }

    /// After an insertion: `value` stands under `id`, and the slots have
    /// doubled if the probe cycle was exhausted.
    pub open spec fn insert(self, id: I, value: V) -> Self {
        Model {
            entries: self.entries.insert(id, value),
            capacity: if self.must_grow(id) {
                2 * self.capacity
            } else {
                self.capacity
            },
        }
    }

    /// What a removal of `id` answers: the value that stood under it, or
    /// that there was none.
    pub open spec fn removed(self, id: I) -> Result<V, MapError> {
        if self.entries.contains_key(id) {
            Ok(self.entries[id])
        } else {
            Err(MapError::KeyNotFound)
        }
    }

    /// After a removal: nothing stands under `id`, in the same slots.
    pub open spec fn remove(self, id: I) -> Self {
        Model { entries: self.entries.remove(id), capacity: self.capacity }
    }

    /// After the insertions `writes`, first one first.
    pub open spec fn insert_all(self, writes: Seq<(I, V)>) -> Self
        decreases writes.len(),
    {
        if writes.len() == 0 {
            self
        } else {
            self.insert_all(writes.drop_last()).insert(writes.last().0, writes.last().1)
        }
    }
}

/// The value that the last of `writes` under `id` wrote, if one wrote there.
pub open spec fn last_written<I, V>(writes: Seq<(I, V)>, id: I) -> Option<V>
    decreases writes.len(),
{
    if writes.len() == 0 {
        None
    } else if writes.last().0 == id {
        Some(writes.last().1)
    } else {
        last_written(writes.drop_last(), id)
    }
}

} // verus!
