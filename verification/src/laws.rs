//! What the operations are for, stated of their arguments and results alone.

pub mod addresses;
pub mod batches;
pub mod devices;
pub mod factory;
pub mod lists;
pub mod matching;
pub mod odds;
pub mod records;
pub mod workers;
