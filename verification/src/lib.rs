//! CopyCat's library: the lists of a clipboard manager (copied texts, saved values
//! and their labels), how they are cleaned and stored on disk, and the decisions
//! of its menu and its background monitor.

pub mod history;
pub mod menu;
pub mod monitor;
pub mod store;
pub mod text;
