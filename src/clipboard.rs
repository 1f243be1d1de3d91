//! Clipboard history engine: the content model, the history store, the
//! on-disk format, and the clipboard monitor's decisions.
pub mod content;
pub mod history;
pub mod monitor;
pub mod persist;

pub use content::{ClipboardContent, ContentModel};
pub use history::{ClipboardHistory, ClipboardItem, ItemModel};
