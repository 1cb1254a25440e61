//! The sync items of a resolved manifest tree: one item per top-level
//! manifest item, included manifests first, each item's entries the copies
//! it denotes from system to shed with a leading `$HOME` expanded.

use vstd::prelude::*;

use crate::item::{entry_pair, expand_home, expanded, ResolvedEntry, ResolvedItem};
use crate::manifest::RootItem;
use crate::manifest::resolve::Manifest;
use crate::paths::{join_path, joined, parent_of, path_parent};
use crate::plan3::{copies_of, resolved_root, Direction, Leaf, Planner};

verus! {

/// A sync item as plain values: its name, its storage directory and its
/// entries as system and shed paths.
pub type ItemValue = (Seq<char>, Seq<char>, Seq<(Seq<char>, Seq<char>)>);

pub open spec fn item_value(item: ResolvedItem) -> ItemValue {
    (item.name@, item.shed_base@, item.entries@.map_values(|e: ResolvedEntry| entry_pair(e)))
}

pub open spec fn items_view(items: Seq<ResolvedItem>) -> Seq<ItemValue> {
    items.map_values(|item: ResolvedItem| item_value(item))
}

/// The directory that a manifest's relative shed paths start from: the
/// directory of its file, or nothing when its path has no parent.
pub open spec fn manifest_location(path: Seq<char>) -> Seq<char> {
    match path_parent(path) {
        Some(parent) => parent,
        None => seq![],
    }
}

/// The sync item of one top-level item of a manifest at `location`: named
/// by its system path, stored at its shed path, its entries the copies it
/// denotes when putting, with the system side expanded.
pub open spec fn root_item(location: Seq<char>, root: RootItem, home: Option<Seq<char>>) -> ItemValue {
    (
        root.path@,
        joined(location, root.shed@),
        resolved_root(Direction::Put, location, root).map_values(
            |copy: crate::plan3::Copy| (expanded(copy.0, home), copy.1),
        ),
    )
}

/// The sync items of a manifest tree: those of its includes in order, then
/// one per top-level item.
pub open spec fn manifest_items(manifest: Manifest, home: Option<Seq<char>>) -> Seq<ItemValue>
    decreases manifest,
{
    included_items(manifest.manifests@, home) + manifest.items@.map_values(
        |root: RootItem| root_item(manifest_location(manifest.path@), root, home),
    )
}

/// The sync items of a sequence of manifest trees, in order.
pub open spec fn included_items(manifests: Seq<Manifest>, home: Option<Seq<char>>) -> Seq<ItemValue>
    decreases manifests,
{
    if manifests.len() == 0 {
        seq![]
    } else {
        included_items(manifests.drop_last(), home) + manifest_items(manifests.last(), home)
    }
}

proof fn lemma_items_view_push(items: Seq<ResolvedItem>, item: ResolvedItem)
    ensures
        items_view(items.push(item)) == items_view(items).push(item_value(item)),
{
    assert(items_view(items.push(item)) =~= items_view(items).push(item_value(item)));
}

/// The sync items of a resolved manifest tree.
pub fn items_of(manifest: &Manifest, home: &Option<String>) -> (items: Vec<ResolvedItem>)
    ensures
        items_view(items@) == manifest_items(*manifest, home.deep_view()),
{
    let mut items: Vec<ResolvedItem> = Vec::new();
    push_items(manifest, home, &mut items);
    assert(items_view(items@) =~= Seq::<ItemValue>::empty() + manifest_items(
        *manifest,
        home.deep_view(),
    ));
    items
}

fn push_items(manifest: &Manifest, home: &Option<String>, items: &mut Vec<ResolvedItem>)
    ensures
        items_view(final(items)@) == items_view(old(items)@) + manifest_items(
            *manifest,
            home.deep_view(),
        ),
    decreases *manifest,
{
    let ghost start = items_view(items@);
    let included = &manifest.manifests;
    for i in 0..included.len()
        invariant
            included == manifest.manifests,
            items_view(items@) == start + included_items(included@.take(i as int), home.deep_view()),
    {
        proof {
            assert(decreases_to!(*manifest => manifest.manifests));
            assert(decreases_to!(manifest.manifests => manifest.manifests@));
            assert(decreases_to!(manifest.manifests@ => manifest.manifests@[i as int]));
        }
        push_items(&included[i], home, items);
        proof {
            assert(included@.take(i + 1).drop_last() =~= included@.take(i as int));
            assert(included@.take(i + 1).last() == included@[i as int]);
        }
    }
    proof {
        assert(included@.take(included@.len() as int) =~= included@);
    }
    let ghost middle = items_view(items@);
    let location = match parent_of(manifest.path.as_str()) {
        Some(parent) => parent,
        None => String::new(),
    };
    assert(location@ == manifest_location(manifest.path@));
    let ghost roots = manifest.items@.map_values(
        |root: RootItem| root_item(manifest_location(manifest.path@), root, home.deep_view()),
    );
    let planner = Planner::new(Direction::Put);
    for r in 0..manifest.items.len()
        invariant
            location@ == manifest_location(manifest.path@),
            planner.direction == Direction::Put,
            roots == manifest.items@.map_values(
                |root: RootItem| root_item(manifest_location(manifest.path@), root, home.deep_view()),
            ),
            items_view(items@) == middle + roots.take(r as int),
    {
        let root = &manifest.items[r];
        let mut leaves: Vec<Leaf> = Vec::new();
        planner.resolve_root(&location, root, &mut leaves);
        assert(copies_of(leaves@) =~= resolved_root(Direction::Put, location@, *root));
        let ghost target = root_item(location@, *root, home.deep_view()).2;
        let mut entries: Vec<ResolvedEntry> = Vec::new();
        for e in 0..leaves.len()
            invariant
                copies_of(leaves@) == resolved_root(Direction::Put, location@, *root),
                target == resolved_root(Direction::Put, location@, *root).map_values(
                    |copy: crate::plan3::Copy| (expanded(copy.0, home.deep_view()), copy.1),
                ),
                entries@.len() == e,
                forall|j: int|
                    0 <= j < e ==> entry_pair(#[trigger] entries@[j]) == target[j],
        {
            let leaf = &leaves[e];
            assert(copies_of(leaves@)[e as int] == (leaf.src@, leaf.dst@));
            let entry = ResolvedEntry {
                system: expand_home(leaf.src.as_str(), home),
                shed: leaf.dst.clone(),
            };
            entries.push(entry);
        }
        assert(entries@.map_values(|e: ResolvedEntry| entry_pair(e)) =~= target);
        let item = ResolvedItem {
            name: root.path.clone(),
            shed_base: join_path(location.as_str(), root.shed.as_str()),
            entries,
        };
        proof {
            lemma_items_view_push(items@, item);
            assert(item_value(item) == roots[r as int]);
            assert(roots.take(r + 1) =~= roots.take(r as int).push(roots[r as int]));
        }
        items.push(item);
    }
    proof {
        assert(roots.take(manifest.items@.len() as int) =~= roots);
        assert(items_view(items@) =~= start + (included_items(included@, home.deep_view()) + roots));
    }
}

} // verus!
