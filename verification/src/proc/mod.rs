//! Processes and the table that owns them.

pub mod process;
pub mod model;
pub mod table;
pub mod lifecycle;
pub mod policy;
pub mod scheduler;
pub mod laws;

pub use crate::proc::model::ProcError;
pub use crate::proc::policy::{Handoff, SchedError};
pub use crate::proc::process::{ProcStatus, Process};
pub use crate::proc::table::SystemProcess;
