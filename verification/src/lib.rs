//! Verified core of the Rockdown Markdown workspace.
mod text;
pub mod buffer;
pub mod markdown_edit;
pub mod terminal;
pub mod cli;
pub mod config;
pub mod image_assets;
pub mod keyboard;
pub mod markdown;
pub mod outline;
pub mod document;
pub mod documents;
pub mod explorer;
pub mod pdf;
pub mod recovery;
pub mod text_input;
pub mod commands;
pub mod closing;
pub mod picker;
pub mod workspace;
pub mod key_routing;
pub mod viewport;
