//! A verified embedding-pipeline library: it prepares text-embedding requests
//! for a remote inference service, interprets the service's responses, buffers
//! and serializes embedding records into an append-only line format, loads them
//! back from several historically used on-disk encodings, and assembles the
//! result into shuffled, split-ready datasets.
//!
//! Embedding scalars and labels are carried as JSON number tokens (byte
//! strings), so the pipeline's structure is fully verified while numeric
//! evaluation stays with the callers.

pub mod assemble;
pub mod canon;
pub mod client;
pub mod errors;
pub mod json;
pub mod loader;
pub mod persist;
pub mod producer;
pub mod record;
pub mod shuffle_ext;
pub mod token;
