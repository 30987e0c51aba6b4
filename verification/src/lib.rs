//! Core logic of `cman`, a Cargo-like build tool for C: the manifest and
//! project layout, the rebuild decisions, the `.d` dependency-file parser and
//! the compiler command lines.

pub mod cli;
pub mod commands;
pub mod compiler;
pub mod depfile;
pub mod editor;
pub mod error;
pub mod fingerprint;
pub mod manifest;
pub mod paths;
pub mod text;
