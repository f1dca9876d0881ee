//! Aegis: the verified core of a ternary (1.58-bit) inference engine.
//!
//! The modules hold the engine's integer logic: the paged KV-cache allocator,
//! the continuous-batching scheduler, the GGUF container parsers, the Q8_0 to
//! dual-bitmask weight conversion, the ternary dot-product kernels and the
//! tokenizers' vocabulary handling.
pub mod bits;
pub mod kv_cache;
pub mod scheduler;
pub mod engine;
pub mod text;
pub mod gguf;
pub mod gguf_parser;
pub mod simd;
pub mod ternary;
pub mod architecture;
pub mod tokenizer;
pub mod mesh;
