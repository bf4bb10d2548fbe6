//! Channel-coding layer for a data-link receiver: a single-error-correcting
//! Hamming block code and a CRC-32 polynomial-division error detector, both
//! operating on bit sequences.

pub mod bits;
pub mod crc32;
pub mod hamming;
