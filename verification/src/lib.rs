//! An interactive userspace handler for memory pressure.
//!
//! The program watches the kernel's Pressure Stall Information for memory
//! pressure and, instead of killing something by itself, shows the biggest
//! memory consumers and asks which one to kill. This library holds its rules:
//! what the kernel's files say, when pressure is an event, which processes
//! are shown and stopped, and how the dialog behaves. Reading files, sending
//! signals and drawing windows are left to the program.

pub mod config;
pub mod dialog;
pub mod firefox;
pub mod history;
pub mod monitor;
pub mod number;
pub mod pause;
pub mod process;
pub mod psi;
pub mod report;
pub mod size;
pub mod startup;
pub mod text;
pub mod walk;
pub mod watch;
pub mod wayland;
