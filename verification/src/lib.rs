//! A single-user web video player.
//!
//! The player shows one directory of videos as a tree and plays what is
//! picked from it. This library holds what the server decides:
//!
//! - [`file_browser`] builds the tree from what was read from disk
//!   ([`entry`]): a node for each directory and file ([`tree`]), directories
//!   before files, each group in the byte order of the names ([`order`]),
//!   with a mark on the selected video and on the directories that lead to
//!   it. [`tree_laws`] and [`selection_laws`] state what holds of every such
//!   tree.
//! - [`pages`] leads a request for the index page to its reply, and signs
//!   the operator in; [`utils`] holds the error page and the check of
//!   credentials. Pages are rendered from templates ([`templates`]), filled
//!   with values of [`context`]; [`screen`] holds back the texts that the
//!   template compiler cannot be trusted with.
//! - [`text`] reads the bytes of the operating system as text.

pub mod context;
pub mod entry;
pub mod error;
pub mod file_browser;
pub mod order;
pub mod pages;
pub mod screen;
pub mod selection_laws;
pub mod templates;
pub mod text;
pub mod tree;
pub mod tree_laws;
pub mod utils;
