//! Verified core of a vanity miner for B20 token addresses.

pub mod b20;
pub mod chain;
pub mod entries;
pub mod gpu;
pub mod hits;
pub mod keccak;
pub mod kernel;
pub mod laws;
pub mod mine;
pub mod paired;
pub mod permutation;
pub mod runs;
pub mod scan;
pub mod spelling;
pub mod text;
pub mod words;
