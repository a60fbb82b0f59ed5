//! What the trap handlers decide, what the fault status registers say, and
//! the values that the registers of the timer and of the system control
//! block get.

pub mod faults;
pub mod handlers;
pub mod system;
pub mod systick;

pub use crate::init::handlers::trigger_pendsv;
pub use crate::init::system::{enable_system_handler_fault, setup_priority_handler};
pub use crate::init::systick::SysTick;
pub use crate::proc::policy::Handoff;
