//! A ballot-recording core: named voters cast at most one ballot each
//! against a fixed candidate roster, every attempt is classified as
//! accepted, blank, invalid or rejected, and the running tally is kept as
//! one snapshot behind a storage contract, with a durable text record whose
//! round trip is proved.
//!
//! The admission rules live in `domain`, the storage contract and the
//! in-memory backend in `storage`, the fetch-decide-apply-store cycle in
//! `use_cases`, and the stored record format with its encoder, decoder and
//! round-trip proof in `codec`.

pub mod codec;
pub mod configuration;
pub mod dao;
pub mod domain;
pub mod errors;
pub mod storage;
pub mod use_cases;
