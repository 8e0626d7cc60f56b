//! A verified core for a scrollable terminal log viewer: line parsing for
//! several log formats, the view state and its keys, and the layout of what
//! is drawn.

pub mod app;
pub mod cli;
pub mod json;
pub mod model;
pub mod number;
pub mod parser;
pub mod process;
pub mod text;
pub mod ui;
