//! The slc replay format for Geometry Dash bots: a compact binary
//! encoding of the inputs of a level run.

pub mod action;
pub mod bytes;
pub mod meta;
pub mod replay;
pub mod v2;
pub mod v3;

pub use action::{Action, ActionData};
pub use replay::{GenericReplay, Replay, ReplayError};
