//! Planning core of a mod installer for a single game.
//!
//! The library turns the entries of a ZIP archive into an ordered list of
//! filesystem steps (directories to create, files to write), and filters
//! directory listings down to the installed mods. It never touches the
//! filesystem itself: the caller performs the steps.

pub mod model;
pub mod path;
pub mod plan;
pub mod archive;
pub mod install;
pub mod listing;
pub mod settings;
pub mod laws;
pub mod disk;
