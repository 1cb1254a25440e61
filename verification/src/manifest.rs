//! The manifest data model: what a manifest file declares.
//!
//! A manifest lists other manifests to include and a tree of items. A
//! top-level item pairs an absolute system path with a shed path; children
//! extend both sides with relative suffixes. An item with children is a
//! path prefix, an item without children is a sync endpoint.

use vstd::prelude::*;

pub mod resolve;

verus! {

/// One manifest file as written.
#[derive(Debug, PartialEq)]
pub struct ManifestFile {
    /// Manifests to process (in this order) before this manifest's local items.
    pub includes: Vec<String>,
    /// Top-level system-to-shed path trees.
    pub items: Vec<RootItem>,
}

/// A top-level item: both endpoint roots are named explicitly.
#[derive(Debug, PartialEq)]
pub struct RootItem {
    /// Absolute system path, optionally beginning with `$HOME`.
    pub path: String,
    /// Absolute shed path or a path relative to this manifest.
    pub shed: String,
    /// Relative child items; a node with children is a path prefix.
    pub items: Option<Vec<ChildItem>>,
}

/// A child item: a bare relative path used on both sides, or an object.
#[derive(Debug, PartialEq)]
pub enum ChildItem {
    Path(String),
    Item(Item),
}

/// A child item written as an object.
#[derive(Debug, PartialEq)]
pub struct Item {
    /// Relative system-path suffix.
    pub path: String,
    /// Relative shed-path suffix; defaults to `path` when omitted.
    pub shed: Option<String>,
    /// Relative child items; a node with children is a path prefix.
    pub items: Option<Vec<ChildItem>>,
}

/// The shed-side suffix of an object child: `shed`, or `path` without it.
pub open spec fn item_shed(item: Item) -> Seq<char> {
    match item.shed {
        Some(shed) => shed@,
        None => item.path@,
    }
}

impl Default for ManifestFile {
    /// An empty manifest: no includes, no items.
    fn default() -> (file: ManifestFile)
        ensures
            file.includes@.len() == 0,
            file.items@.len() == 0,
    {
        ManifestFile { includes: Vec::new(), items: Vec::new() }
    }
}

} // verus!
