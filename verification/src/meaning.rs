//! What the driver's words, flags and numbers come to on the bus and in the
//! registers, told by their fields.

pub mod calls;
pub mod commands;
pub mod flags;
pub mod lines;
pub mod part_calls;
pub mod port_calls;
pub mod recovery;
pub mod setup_calls;
pub mod target;
pub mod target_calls;
pub mod timing;
pub mod turn_calls;
pub mod waiting;
