//! Execution core of an inference server: the paged key/value block allocator,
//! the dense per-layer key/value cache, the batch builder that turns sequences
//! into model inputs, and the per-step cache-instruction orchestrator.

pub mod block_engine;
pub mod inputs;
pub mod kv_cache;
pub mod layers;
pub mod loaders;
pub mod pipeline;
