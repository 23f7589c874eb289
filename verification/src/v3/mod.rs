//! SLC3 (version 3): an atom-based replay layout whose action atoms are
//! packed into run-length encoded sections.

pub mod action;
pub mod atom;
pub mod builtin;
pub mod metadata;
pub mod replay;
pub mod section;

pub use action::{Action, ActionType};
pub use metadata::Metadata;
pub use replay::Replay;
