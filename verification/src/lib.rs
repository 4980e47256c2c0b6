//! Terminal-backend configuration resolution and launch planning for the
//! Alacritty terminal hosting Neovim.
//!
//! The crate locates the user's emulator configuration among candidate paths,
//! reads it into a schema-free document, merges the editor's overrides into
//! it, renders the merged configuration as text for a transient file, and
//! builds the exact process descriptor that starts the emulator.
pub mod text;
pub mod document;
pub mod merge;
pub mod laws;
pub mod locate;
pub mod render;
pub mod yaml;
pub mod command;
pub mod alacritty;
