//! Audits a local library of TV shows against a remote episode catalog.
//!
//! A directory of the library stands for a show; the files in it carry
//! season/episode markers such as `S02E05`. The library reduces each directory
//! to the most advanced episode found in it and decides which episodes of a
//! remote catalog are new with respect to it.

pub mod api;
pub mod date;
pub mod error;
pub mod marker;
pub mod order;
pub mod path;
pub mod show;
pub mod text;
pub mod walk_laws;
pub mod walker;
