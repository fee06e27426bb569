// Per-symbol streaming statistics.
//
// `summary`: the aggregation record and its left-biased merge.
// `segment`: the append-only segment tree that answers suffix windows.
// `worker`: the single owner of one symbol's store and its commands.
// `manager`: the registry that gives each symbol its own worker slot.
// `interval_stat_deque` and `datastore`: running stats over fixed windows.
// `laws`: properties relating these operations.
pub mod datastore;
pub mod interval_stat_deque;
pub mod laws;
pub mod manager;
pub mod segment;
pub mod summary;
pub mod worker;
