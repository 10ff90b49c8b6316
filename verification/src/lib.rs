//! Verified core of an incremental-search application launcher: the fuzzy
//! match-and-rank engine, the frequency store with its on-disk text codec,
//! the selection/pagination state machine, the software glyph compositor,
//! the keyboard input decoder, and the small helpers around them
//! (configuration values, launch preparation, catalog building, monitor
//! selection).

pub mod catalog;
pub mod compositor;
pub mod config;
pub mod decoder;
pub mod filter;
pub mod frequency;
pub mod launch;
pub mod monitor;
pub mod render;
pub mod session;
pub mod text;
