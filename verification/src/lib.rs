//! Textual command templates compiled into a shared decision tree, with a
//! parser that walks the tree and a renderer that writes a command back.

pub mod capture;
pub mod engine;
pub mod error;
pub mod grammar;
pub mod integer;
pub mod laws;
pub mod parse_tree;
pub mod render;
pub mod template;
pub mod text;
pub mod value;

pub use crate::capture::parse_command;
pub use crate::capture::parse_multiple_commands;
pub use crate::capture::parse_optional_command;
pub use crate::capture::CommandParse;
pub use crate::text::parse_str;
