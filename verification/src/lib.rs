//! Streaming line deduplication: seed a membership set from a file's
//! existing lines, then decide for each incoming record whether it is novel
//! and must be appended and echoed, or already known and must be suppressed.

pub mod engine;
pub mod fingerprint;
pub mod lines;
pub mod membership;
