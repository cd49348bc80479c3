//! Ready-made pipeline steps: the decisions they make about a payload.

pub mod order;
pub mod context;
pub mod pool;
pub mod revert;
pub mod optimism;
pub mod atomic;
