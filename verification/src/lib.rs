//! Shape arithmetic, flat-buffer tensors, the per-layer key/value cache,
//! attention bookkeeping, the generation loop's decisions, the SafeTensors
//! container checks and the profiler's counters of a small GPT-2 engine.
pub mod shape;
pub mod tensor;
pub mod kv_cache;
pub mod attention;
pub mod model;
pub mod generation;
pub mod profiler;
pub mod backend;
