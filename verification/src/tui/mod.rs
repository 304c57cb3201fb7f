//! What the picker keeps track of between key presses.

pub mod app;
pub mod form;
pub mod view;
