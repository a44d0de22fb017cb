//! Object detection and adaptive template selection for an automated tile-merge game.

pub mod cloud;
pub mod detector;
pub mod geometry;
pub mod merges;
pub mod peaks;
pub mod settings;
pub mod template;
pub mod text;
pub mod window;
