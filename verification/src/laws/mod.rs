//! What holds of a node as a whole, over several of its operations.

pub mod answers;
pub mod asking;
pub mod contents;
pub mod items;
pub mod joining;
pub mod learning;
pub mod replies;
pub mod round_trip;
pub mod serving;
pub mod steps;
pub mod storing;
pub mod table;
pub mod upkeep;
pub mod wire;
