//! Deterministic random streams.

pub mod legacy;

pub use legacy::LegacyLcg64;
