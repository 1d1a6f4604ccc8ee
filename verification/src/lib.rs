//! Verified core of a podcast ad and intro remover: acoustic landmark
//! fingerprints, the radix-sorted matching engine with its sliding-window
//! warm filter, cluster extraction, spectral verification, the `.fp`
//! raw-peak file format, episode dates and sort keys, and the bookkeeping
//! around cutting a directory.

pub mod bag;
pub mod clock;
pub mod clusters;
pub mod config;
pub mod cut;
pub mod dir;
pub mod fingerprint;
pub mod fp;
pub mod merge_join;
pub mod radix;
pub mod runtimes;
pub mod segment;
pub mod tags;
