//! SLC2 (version 2): inputs packed into blobs of states of one byte size.

pub mod blob;
pub mod input;
pub mod replay;

pub use input::{Input, InputData, InputError, PlayerInput};
pub use replay::{Replay, ReplayError};
