//! Verified core of `jvmfast`, a dependency manager and build tool for Java.
pub mod bom;
pub mod cache;
pub mod config;
pub mod cli;
pub mod build;
pub mod digest;
pub mod domain;
pub mod download;
pub mod exclusion;
pub mod gradle;
pub mod graph;
pub mod import;
pub mod init;
pub mod jdk;
pub mod lockfile;
pub mod paths;
pub mod pom;
pub mod seqs;
pub mod text;
pub mod toml_doc;
pub mod walk;
