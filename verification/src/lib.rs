//! Verified core of a CPU limiter that throttles processes by alternating
//! stop and continue signals, with the target list, the scheduling rules and
//! the parsers for the desktop environment's replies.
pub mod focus;
pub mod limiter;
pub mod paths;
pub mod procs;
pub mod state;
pub mod text;
pub mod tray;
pub mod ui;
