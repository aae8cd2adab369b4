//! Flight recorder and graceful shutdown controller for coding agents.

pub mod cli;
pub mod config;
pub mod diff;
pub mod events;
pub mod fs_watcher;
pub mod glob;
pub mod network;
pub mod number;
pub mod order;
pub mod patch;
pub mod path;
pub mod path_set;
pub mod process;
pub mod pty;
pub mod report;
pub mod report_layout;
pub mod report_lines;
pub mod session;
pub mod shutdown;
pub mod style;
pub mod text;
pub mod time;
pub mod walk;
