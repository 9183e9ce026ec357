//! What holds of the operations taken together.

pub mod events;
pub mod exact;
pub mod geometry;
pub mod keymap;
pub mod layout;
pub mod locality;
pub mod navigation;
pub mod scalar;
pub mod session;
pub mod steps;
pub mod text;
