//! Shed: copies dotfiles between their live system paths and a local
//! directory ("the shed") that can be kept under version control.
//!
//! The library holds the logic: manifest data and include resolution,
//! collections and item files, copy planning, the sync bookkeeping and the
//! progress view model.
//! Terminal, file-system and async plumbing live in the application.

pub mod cli;
pub mod collection;
pub mod paths;
pub mod item;
pub mod text;
pub mod manifest;
pub mod plan1;
pub mod plan2;
pub mod plan3;
pub mod sync;
pub mod progress;
pub mod sync_items;
