//! Text and decisions of the command-line interface, from library values.
pub mod command;
pub mod context;
pub mod edit;
pub mod error;
pub mod install;
pub mod jdk;
pub mod labels;
pub mod tree;
pub mod why;
