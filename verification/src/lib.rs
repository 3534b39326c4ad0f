//! spiderweb: the verified core of a terminal web browser.

pub mod app;
pub mod browser;
pub mod parser;
pub mod network;
pub mod renderer;
pub mod chars;
pub mod config;
pub mod tui;
