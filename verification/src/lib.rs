//! A command library that lives in your shell: the verified core.

pub mod cli;
pub mod model;
pub mod params;
pub mod search;
pub mod shell;
pub mod store;
pub mod sync;
pub mod text;
pub mod tui;
pub mod update;
