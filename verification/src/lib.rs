//! Build-time consolidation of feature-flag declarations and overrides into a
//! deterministic, versioned cache.
//!
//! Flags are declared in declaration sources and given a state for one build
//! in override sources. A build parses the sources ([`parser`]), merges their
//! records into one cache ([`merge`]) and writes the cache as bytes
//! ([`cache`], in the format of [`wire`]); a later step reads the bytes back.
//! [`commands`] puts the steps of a build together, [`model`] holds the data
//! that they pass on, and [`text`] the byte-string helpers that they share.
//!
//! Every function of the library is verified against its contract. The
//! contracts speak of views: the same data as mathematical sequences. Beside
//! the contracts stand laws, proof functions that state what holds of every
//! input: that reading gives back what was written, that the order of the
//! declarations does not change the cache, and which inputs are refused.

pub mod cache;
pub mod commands;
pub mod merge;
pub mod model;
pub mod parser;
pub mod text;
pub mod wire;
