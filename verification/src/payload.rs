//! Payload building: transactions and their execution results, the block
//! under construction, checkpoints and spans of checkpoints.

pub mod exec;
pub mod block;
pub mod bundle;
pub mod checkpoint;
pub mod display;
pub mod ext;
pub mod span;
pub mod state;
