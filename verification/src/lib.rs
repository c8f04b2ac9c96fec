//! A dependency-aware task list: the task model, its scheduler, the
//! transactional task store with undo, the plain-text views, and the
//! commands that tie them together.

pub mod text;
pub mod error;

pub use error::Error;
pub mod model;
pub mod db;
pub mod render;
pub mod cli;
