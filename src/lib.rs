//! Dispatch of a parsed command tree to the code of each command, with a
//! context through which a command hands typed values down to its
//! descendants.

pub mod context;
pub mod dispatch;
pub mod params;
pub mod wiring;

pub use crate::context::{Context, NotFound};
pub use crate::dispatch::{dispatch, Choice, Command, Handler, Step};
