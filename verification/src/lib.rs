//! A lyrics-sidecar toolkit: LRC parsing and linting, track metadata cleanup, sidecar
//! bookkeeping, the EPUB book model and renderer, and the teleprompter's state machine.
pub mod text;
pub mod lrc;
pub mod http;
pub mod order;
pub mod provider;
pub mod path;
pub mod runner;
pub mod meta;
pub mod sidecar;
pub mod stats;
pub mod cli;
pub mod config;
pub mod ebook;
pub mod theme;
pub mod tui;
