//! Telemetry of a VR streamer: logs of measurements in JSONL files, and the preset controls of
//! its dashboard.
//!
//! The library decides and computes; threads, files and drawing are left to its user.
//!
//! - [`client`]: the rows that a client logs, and where they go
//! - [`logger`]: the bounded queue between those who log rows and the writer
//! - [`writer`]: when a row is written and when a new file is started
//! - [`log_files`]: what the files of a session hold
//! - [`session_dir`]: the directories of the sessions
//! - [`higher_order_choice`]: preset controls
//! - [`json`], [`named_map`], [`text`], [`number`], [`clock`]: what these are built on

pub mod client;
pub mod clock;
pub mod higher_order_choice;
pub mod json;
pub mod log_files;
pub mod logger;
pub mod named_map;
pub mod number;
pub mod session_dir;
pub mod text;
pub mod writer;
