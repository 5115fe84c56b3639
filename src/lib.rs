//! A bounded key-value cache that evicts in insertion order (FIFO) and can
//! let entries expire after a cache-wide time-to-live.
//!
//! The cache keeps two structures side by side: a hash index from key to
//! entry, and an order ledger that lists the keys by first insertion. Every
//! operation is specified against `CacheModel`, a mathematical picture of the
//! pair, and the laws in `laws` are proved over that model.

mod cache;
mod laws;
mod model;
mod time;

pub use cache::FifoCache;
pub use laws::{
    insert_all, lemma_fifo_order, lemma_insert_within_capacity, lemma_round_trip,
    lemma_sweep_complete, lemma_ttl_boundary, lemma_update_keeps_order, newest,
};
pub use model::{
    excess, expired, key_type_contract, lemma_evict_wf, lemma_insert_wf, lemma_remove_wf,
    lemma_sweep_wf, lemma_wf_len, other_than, stamp, CacheModel, Entry,
};
pub use time::{clamp_u64, TimeSpan};
