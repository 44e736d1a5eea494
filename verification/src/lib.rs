//! Collects source files into one deterministic document, optionally
//! stripping comments while leaving string literals untouched.

pub mod language;
pub mod laws;
pub mod render;
pub mod scan;
pub mod scanner;
pub mod stripper;
pub mod text;
