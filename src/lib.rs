//! Core logic of the zlaunch application launcher: the clipboard history
//! engine (content model, history store, on-disk format, clipboard monitor),
//! the launcher's mode, module and icon tables, configuration checks, and
//! the AI chat view's state.

pub mod ai_view;
pub mod assets;
pub mod clipboard;
pub mod config;
pub mod text;
pub mod validation;
