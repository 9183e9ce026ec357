//! The verified core of a tiling terminal multiplexer: the tree of panes that
//! fills each tab, the tabs themselves, and the text and key tables around them.

pub mod app;
pub mod geometry;
pub mod keymap;
pub mod laws;
pub mod layout;
pub mod navigation;
pub mod scalar;
pub mod session;
pub mod shape;
pub mod text;
