//! Verified core of a pull-request review and docstring toolkit.
pub mod text;
pub mod diff;
pub mod source;
pub mod github;
pub mod config;
pub mod error;
pub mod llm;
pub mod review;
pub mod docgen;
pub mod git;
