//! A store of texts, called contexts, that can be found again by what they
//! say.
//!
//! A context is cut into overlapping chunks, each chunk is given a vector,
//! and a query brings back the contexts that match it, ranked: `domain`
//! holds the data, the cutting, the vectors' arithmetic and the ranking;
//! `ports` the two interfaces that a store and an embedder offer; `adapter`
//! a store and an embedder that live in memory, and what the front ends
//! decide; `application` the operations that are made of these; `config`
//! the settings.

pub mod adapter;
pub mod application;
pub mod config;
pub mod domain;
pub mod ports;
