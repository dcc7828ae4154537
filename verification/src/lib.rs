//! Interchangeable key-value containers built against one shared capability
//! contract: a separate-chaining hash table, an open-addressing hash table
//! (linear probing with tombstones), and adapters over std's maps, together
//! with generic conformance routines that exercise any implementation.

pub mod hash;
pub mod btree_reference;
pub mod hashtable;
pub mod ordered_map;
pub mod ordered_test_utils;
pub mod chaining_hashtable;
pub mod fx_reference;
pub mod open_hashtable;
pub mod pow2;
pub mod std_reference;
pub mod test_utils;
