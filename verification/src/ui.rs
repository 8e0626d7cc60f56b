//! The screen: what is shown of the lines, and where.

pub mod color;
pub mod keys;
pub mod layout;
pub mod render;
pub mod screen;
pub mod scrollbar;
pub mod style;
pub mod view;
