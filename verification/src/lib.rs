//! Rewriting of the texture paths held by Warcraft III models (`.mdx` and `.mdl`).
//!
//! The library decides, for every texture reference of a model, which path it
//! should carry afterwards (a user prefix, the model's place under a `resource`
//! directory, or the bare file name when resetting), whether a built-in game
//! texture is left alone, and how the model's bytes or text change.  Reading and
//! writing files, backups and the user interface stand outside the library.

pub mod text;
pub mod encoding;
pub mod model;
pub mod texture;
pub mod outcome;
pub mod mdl;
pub mod mdx;
pub mod process;
pub mod laws;
pub mod reapply;
pub mod records;
