//! Matching of acoustic fingerprints between two collections of songs.
pub mod batch;
pub mod matcher;
pub mod song;
