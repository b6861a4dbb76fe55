//! Lossless rotation of MP4 videos by rewriting the rotation matrix of the
//! video track header.

pub mod atom;
pub mod backup;
pub mod cli;
pub mod clipboard;
pub mod config;
pub mod error;
pub mod matrix;
pub mod memory;
pub mod rewrite;
pub mod search;
pub mod text;
pub mod walk;
