//! A fixed-slot, open-addressing hash table with linear probing.
//!
//! Keys are any type providing the [`hashable::Hashable`] placement-hash
//! capability; collisions are resolved by scanning forward (with wraparound)
//! until a free or matching slot is found.  The table resizes eagerly, before
//! an insertion would push the load factor above one half, by rehashing every
//! binding into a table of twice-plus-one the capacity.

pub mod hashable;
pub mod table;
