//! A picker for characters, emoji and text snippets.
//!
//! The picker shows a menu that the user's configuration describes: named
//! entries that copy a text, submenus of such entries, and fragments of
//! other files merged in. This library holds what the picker decides and
//! computes; reading files, parsing markup and talking to the host launcher
//! happen around it.
//!
//! - [`document`] reads a parsed document as a configuration node.
//! - [`paths`] holds the search path and looks for fragments along it.
//! - [`resolve`] says what a configuration resolves to, and [`resolver`]
//!   computes it, asking for markup and fragments as it goes.
//! - [`arena`] lays the resolved tree out as a flat list of lists, and
//!   [`mode`] walks it as the user selects and cancels.
//! - [`ucd`], [`generate`], [`emoji`] and [`emoji_list`] make the default
//!   configuration from the Unicode data files, and [`tool`] plans what the
//!   developer's tool reads and writes.

pub mod arena;
pub mod codepoint;
pub mod config;
pub mod document;
pub mod emoji;
pub mod emoji_list;
pub mod error;
pub mod generate;
pub mod mode;
pub mod paths;
pub mod resolve;
pub mod resolver;
pub mod text;
pub mod tool;
pub mod ucd;
