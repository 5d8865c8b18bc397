//! Finds the files of a directory tree that hold a given text.
//!
//! The walker ([`dir_nav::DirNav`]) goes through a directory tree depth first,
//! filters the files by extension and tells an observer of each directory it
//! enters and of each file that passes the filter. The searcher
//! ([`text_search::TextSearch`]) is such an observer: it decides whether a
//! file holds the search text and tells an observer of its own, such as the
//! display ([`display::Display`]). The argument store
//! ([`cli_parser::CliParser`]) turns command line tokens into a table of
//! options, and the executive ([`executive::Executive`]) wires the four
//! together.
//!
//! Nothing here touches the disk or the terminal. The tree to be walked comes
//! in as a value ([`tree::Location`]), and what is to be printed goes out as
//! lines. What a walk comes to is a function of the tree ([`walk::walk`]), and
//! the contracts of the walker, the searcher and the display say in which
//! state they leave each other.

pub mod cli_parser;
pub mod dir_nav;
pub mod display;
pub mod executive;
pub mod text;
pub mod text_search;
pub mod tree;
pub mod walk;
