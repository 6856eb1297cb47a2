//! A verified driver core for the LPI2C peripheral, controller and target side.

pub mod answers;
pub mod baud;
pub mod bus_clear;
pub mod clocks;
pub mod controller;
pub mod controller_registers;
pub mod critical;
pub mod dma;
pub mod instance_info;
pub mod laws;
pub mod lpi2c_regs;
pub mod meaning;
pub mod punctual;
pub mod session;
pub mod target;
pub mod target_registers;
pub mod ticks;
pub mod trace;
pub mod transfer;
pub mod unwired;
pub mod wait;
pub mod words;
