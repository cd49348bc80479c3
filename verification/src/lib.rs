//! Modular building blocks for block payload builders: pipelines of steps,
//! their navigation and scopes, and the checkpoint history of a payload.

pub mod executor;
pub mod fmt;
pub mod iter;
pub mod limits;
pub mod name;
pub mod navi;
pub mod payload;
pub mod pipeline;
pub mod platform;
pub mod scope;
pub mod step_path;
pub mod steps;
pub mod vec_util;
