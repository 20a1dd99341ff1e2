//! A prefix cache for transformer key/value caches: an index from token
//! sequences to per-layer cache slots, an eviction ledger that demotes the
//! oldest resident slots to host memory, and the naming scheme under which
//! the caches are persisted. Beside it stand plain configuration values of
//! the serving stack (device layer mapping, model-loading builders) and the
//! scale permutations of quantized weight repacking.

mod tensor;
pub mod index;
pub mod cache;
pub mod manager;
pub mod names;
pub mod laws;
pub mod config;
pub mod gptq;
