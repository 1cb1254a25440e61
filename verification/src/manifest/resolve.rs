//! Resolving a root manifest and its includes into a tree.
//!
//! Includes are resolved depth-first in declaration order. A name is looked
//! up as `<name>.yaml`, then `<name>.yml` when the first does not exist;
//! relative names are taken from the including manifest's directory. A
//! manifest that includes itself, directly or through others, is an include
//! cycle. A manifest reached more than once elsewhere is kept each time. When
//! anything below a manifest fails, the partial tree is discarded and only the
//! counts are kept.
//!
//! The file system is consulted through a snapshot of answers: resolution
//! either finishes on the snapshot or names the one question it needs
//! answered next (a canonical path, or a file's contents). The caller answers
//! it, records the answer and resolves again.

use vstd::prelude::*;
use vstd::string::*;

use crate::manifest::{ChildItem, ManifestFile, RootItem};
use crate::paths::{is_absolute, join_path, joined, parent_of, path_is_absolute, path_parent};

verus! {

// ---------------------------------------------------------------------------
// Views of manifest data

/// A child item as plain values.
pub enum EntryView {
    Bare(Seq<char>),
    Object { path: Seq<char>, shed: Option<Seq<char>>, items: Option<Seq<EntryView>> },
}

/// A top-level item as plain values.
pub struct RootView {
    pub path: Seq<char>,
    pub shed: Seq<char>,
    pub items: Option<Seq<EntryView>>,
}

pub open spec fn entry_view(child: ChildItem) -> EntryView
    decreases child,
{
    match child {
        ChildItem::Path(path) => EntryView::Bare(path@),
        ChildItem::Item(item) => EntryView::Object {
            path: item.path@,
            shed: item.shed.deep_view(),
            items: entries_view_opt(item.items),
        },
    }
}

pub open spec fn entries_view_opt(children: Option<Vec<ChildItem>>) -> Option<Seq<EntryView>>
    decreases children,
{
    match children {
        Some(children) => Some(entries_view(children@)),
        None => None,
    }
}

pub open spec fn entries_view(children: Seq<ChildItem>) -> Seq<EntryView>
    decreases children,
{
    if children.len() == 0 {
        seq![]
    } else {
        entries_view(children.drop_last()).push(entry_view(children.last()))
    }
}

pub open spec fn root_view(root: RootItem) -> RootView {
    RootView { path: root.path@, shed: root.shed@, items: entries_view_opt(root.items) }
}

pub open spec fn roots_view(roots: Seq<RootItem>) -> Seq<RootView> {
    roots.map_values(|root: RootItem| root_view(root))
}

proof fn lemma_entries_view_push(children: Seq<ChildItem>, child: ChildItem)
    ensures
        entries_view(children.push(child)) == entries_view(children).push(entry_view(child)),
{
    assert(children.push(child).drop_last() =~= children);
}

fn copy_string_opt(value: &Option<String>) -> (copy: Option<String>)
    ensures
        copy.deep_view() == value.deep_view(),
{
    match value {
        Some(s) => Some(s.clone()),
        None => None,
    }
}

fn copy_child(child: &ChildItem) -> (copy: ChildItem)
    ensures
        entry_view(copy) == entry_view(*child),
    decreases *child,
{
    match child {
        ChildItem::Path(path) => ChildItem::Path(path.clone()),
        ChildItem::Item(item) => {
            let items = copy_children(&item.items);
            ChildItem::Item(
                crate::manifest::Item {
                    path: item.path.clone(),
                    shed: copy_string_opt(&item.shed),
                    items,
                },
            )
        },
    }
}

fn copy_children(children: &Option<Vec<ChildItem>>) -> (copy: Option<Vec<ChildItem>>)
    ensures
        entries_view_opt(copy) == entries_view_opt(*children),
    decreases *children,
{
    match children {
        Some(kids) => {
            let mut out: Vec<ChildItem> = Vec::new();
            for i in 0..kids.len()
                invariant
                    *children == Some(*kids),
                    entries_view(out@) == entries_view(kids@.take(i as int)),
            {
                proof {
                    assert(decreases_to!(*children => (*children)->0));
                    assert(decreases_to!(*kids => kids@));
                    assert(decreases_to!(kids@ => kids@[i as int]));
                }
                let c = copy_child(&kids[i]);
                proof {
                    lemma_entries_view_push(out@, c);
                    lemma_entries_view_push(kids@.take(i as int), kids@[i as int]);
                    assert(kids@.take(i + 1) =~= kids@.take(i as int).push(kids@[i as int]));
                }
                out.push(c);
            }
            proof {
                assert(kids@.take(kids@.len() as int) =~= kids@);
            }
            Some(out)
        },
        None => None,
    }
}

impl RootItem {
    /// A copy of this item and its children.
    pub fn copy(&self) -> (copy: RootItem)
        ensures
            root_view(copy) == root_view(*self),
    {
        RootItem { path: self.path.clone(), shed: self.shed.clone(), items: copy_children(&self.items) }
    }
}

fn copy_roots(roots: &Vec<RootItem>) -> (copy: Vec<RootItem>)
    ensures
        roots_view(copy@) == roots_view(roots@),
{
    let mut out: Vec<RootItem> = Vec::new();
    for i in 0..roots.len()
        invariant
            out@.len() == i,
            roots_view(out@) == roots_view(roots@.take(i as int)),
    {
        let r = &roots[i];
        let c = RootItem { path: r.path.clone(), shed: r.shed.clone(), items: copy_children(&r.items) };
        proof {
            assert(root_view(c) == root_view(roots@[i as int]));
            assert forall|j: int| 0 <= j < i implies root_view(#[trigger] out@.push(c)[j])
                == root_view(roots@.take(i + 1)[j]) by {
                assert(roots_view(out@)[j] == roots_view(roots@.take(i as int))[j]);
            }
            assert(roots_view(out@.push(c)) =~= roots_view(roots@.take(i + 1)));
        }
        out.push(c);
    }
    proof {
        assert(roots@.take(roots@.len() as int) =~= roots@);
    }
    out
}

// ---------------------------------------------------------------------------
// Resolved manifests

/// A resolved manifest: its logical name, canonical path, resolved includes
/// in declaration order, and its own items.
#[derive(Debug, PartialEq)]
pub struct Manifest {
    pub name: String,
    pub path: String,
    pub manifests: Vec<Manifest>,
    pub items: Vec<RootItem>,
}

/// A resolved manifest as plain values.
pub struct ManifestView {
    pub name: Seq<char>,
    pub path: Seq<char>,
    pub manifests: Seq<ManifestView>,
    pub items: Seq<RootView>,
}

pub open spec fn manifest_view(manifest: Manifest) -> ManifestView
    decreases manifest,
{
    ManifestView {
        name: manifest.name@,
        path: manifest.path@,
        manifests: manifests_view(manifest.manifests@),
        items: roots_view(manifest.items@),
    }
}

pub open spec fn manifests_view(manifests: Seq<Manifest>) -> Seq<ManifestView>
    decreases manifests,
{
    if manifests.len() == 0 {
        seq![]
    } else {
        manifests_view(manifests.drop_last()).push(manifest_view(manifests.last()))
    }
}

impl View for Manifest {
    type V = ManifestView;

    open spec fn view(&self) -> ManifestView {
        manifest_view(*self)
    }
}

proof fn lemma_manifests_view_len(manifests: Seq<Manifest>)
    ensures
        manifests_view(manifests).len() == manifests.len(),
    decreases manifests.len(),
{
    if manifests.len() > 0 {
        lemma_manifests_view_len(manifests.drop_last());
    }
}

proof fn lemma_manifests_view_index(manifests: Seq<Manifest>, i: int)
    requires
        0 <= i < manifests.len(),
    ensures
        manifests_view(manifests)[i] == manifest_view(manifests[i]),
    decreases manifests.len(),
{
    lemma_manifests_view_len(manifests.drop_last());
    if i < manifests.len() - 1 {
        lemma_manifests_view_index(manifests.drop_last(), i);
    }
}

/// The manifest reached by following include positions from `manifest`.
pub open spec fn manifest_at(manifest: ManifestView, indexes: Seq<usize>) -> Option<ManifestView>
    decreases indexes.len(),
{
    if indexes.len() == 0 {
        Some(manifest)
    } else {
        match manifest_at(manifest, indexes.drop_last()) {
            Some(parent) => if indexes.last() < parent.manifests.len() {
                Some(parent.manifests[indexes.last() as int])
            } else {
                None
            },
            None => None,
        }
    }
}

impl Manifest {
    /// The manifest at the given include positions below this one, if any.
    pub fn get(&self, indexes: &[usize]) -> (found: Option<&Manifest>)
        ensures
            match found {
                Some(m) => manifest_at(self@, indexes@) == Some(m@),
                None => manifest_at(self@, indexes@) is None,
            },
    {
        let mut current: &Manifest = self;
        let mut k: usize = 0;
        while k < indexes.len()
            invariant
                0 <= k <= indexes@.len(),
                manifest_at(self@, indexes@.take(k as int)) == Some(current@),
            decreases indexes@.len() - k,
        {
            proof {
                assert(indexes@.take(k + 1).drop_last() =~= indexes@.take(k as int));
                lemma_manifests_view_len(current.manifests@);
            }
            let index = indexes[k];
            if index < current.manifests.len() {
                proof {
                    lemma_manifests_view_index(current.manifests@, index as int);
                }
                current = &current.manifests[index];
                k = k + 1;
            } else {
                proof {
                    lemma_manifest_at_none(self@, indexes@, k as int + 1);
                }
                return None;
            }
        }
        proof {
            assert(indexes@.take(indexes@.len() as int) =~= indexes@);
        }
        Some(current)
    }
}

proof fn lemma_manifest_at_none(manifest: ManifestView, indexes: Seq<usize>, k: int)
    requires
        0 < k <= indexes.len(),
        manifest_at(manifest, indexes.take(k)) is None,
    ensures
        manifest_at(manifest, indexes) is None,
    decreases indexes.len() - k,
{
    if k < indexes.len() {
        assert(indexes.take(k + 1).drop_last() =~= indexes.take(k));
        lemma_manifest_at_none(manifest, indexes, k + 1);
    } else {
        assert(indexes.take(k) =~= indexes);
    }
}

/// Following two lists of positions one after the other reaches the same
/// manifest as following their concatenation.
pub proof fn lemma_manifest_at_concat(manifest: ManifestView, first: Seq<usize>, second: Seq<usize>)
    ensures
        manifest_at(manifest, first + second) == match manifest_at(manifest, first) {
            Some(m) => manifest_at(m, second),
            None => None,
        },
    decreases second.len(),
{
    if second.len() == 0 {
        assert(first + second =~= first);
    } else {
        assert((first + second).drop_last() =~= first + second.drop_last());
        lemma_manifest_at_concat(manifest, first, second.drop_last());
    }
}

} // verus!

verus! {

// ---------------------------------------------------------------------------
// Errors, events and outcomes

/// Why one manifest could not be resolved.
#[derive(Debug)]
pub enum Error {
    /// Neither candidate file exists.
    NotFound { attempted: [String; 2] },
    /// A candidate or the file could not be accessed.
    Io { path: String, message: String },
    /// The file is not a valid manifest.
    Yaml { path: String, message: String },
    /// The manifest includes itself; the chain runs from the first
    /// occurrence to the repeated one.
    Cycle { chain: Vec<String> },
}

pub enum ErrorView {
    NotFound { yaml: Seq<char>, yml: Seq<char> },
    Io { path: Seq<char>, message: Seq<char> },
    Yaml { path: Seq<char>, message: Seq<char> },
    Cycle { chain: Seq<Seq<char>> },
}

pub open spec fn strings_view(strings: Seq<String>) -> Seq<Seq<char>> {
    strings.map_values(|s: String| s@)
}

impl View for Error {
    type V = ErrorView;

    open spec fn view(&self) -> ErrorView {
        match self {
            Error::NotFound { attempted } => ErrorView::NotFound {
                yaml: attempted@[0]@,
                yml: attempted@[1]@,
            },
            Error::Io { path, message } => ErrorView::Io { path: path@, message: message@ },
            Error::Yaml { path, message } => ErrorView::Yaml { path: path@, message: message@ },
            Error::Cycle { chain } => ErrorView::Cycle { chain: strings_view(chain@) },
        }
    }
}

/// Progress of a resolution.
#[derive(Debug)]
pub enum Event {
    Started { name: String },
    Resolved { name: String, path: String },
    Error { name: String, error: Error },
    Finished { resolved: usize, errors: usize },
}

pub enum EventView {
    Started { name: Seq<char> },
    Resolved { name: Seq<char>, path: Seq<char> },
    Error { name: Seq<char>, error: ErrorView },
    Finished { resolved: nat, errors: nat },
}

impl View for Event {
    type V = EventView;

    open spec fn view(&self) -> EventView {
        match self {
            Event::Started { name } => EventView::Started { name: name@ },
            Event::Resolved { name, path } => EventView::Resolved { name: name@, path: path@ },
            Event::Error { name, error } => EventView::Error { name: name@, error: error@ },
            Event::Finished { resolved, errors } => EventView::Finished {
                resolved: *resolved as nat,
                errors: *errors as nat,
            },
        }
    }
}

pub open spec fn events_view(events: Seq<Event>) -> Seq<EventView> {
    events.map_values(|e: Event| e@)
}

/// The result of resolving a root manifest: the tree when nothing failed,
/// and how many manifests were resolved and how many failed.
#[derive(Debug, PartialEq)]
pub struct Outcome {
    pub manifest: Option<Manifest>,
    pub resolved: usize,
    pub errors: usize,
}

/// The outcome of one node of the include tree, as plain values.
pub struct NodeView {
    pub manifest: Option<ManifestView>,
    pub resolved: nat,
    pub errors: nat,
}

pub open spec fn outcome_view(outcome: Outcome) -> NodeView {
    NodeView {
        manifest: match outcome.manifest {
            Some(m) => Some(m@),
            None => None,
        },
        resolved: outcome.resolved as nat,
        errors: outcome.errors as nat,
    }
}

// ---------------------------------------------------------------------------
// The snapshot of file-system answers

/// What canonicalizing a candidate path answered.
pub enum Lookup {
    /// The candidate exists; this is its canonical path.
    Found(String),
    /// The candidate does not exist.
    Missing,
    /// The candidate could not be accessed; the message says why.
    Failed(String),
}

/// What reading and parsing a manifest file answered.
pub enum Load {
    Parsed(ManifestFile),
    /// The file could not be read; the message says why.
    Unreadable(String),
    /// The file is not a valid manifest; the message says why.
    Malformed(String),
}

/// The answers gathered so far, by candidate path and by canonical path.
pub struct Snapshot {
    lookups: Vec<(String, Lookup)>,
    loads: Vec<(String, Load)>,
}

impl Snapshot {
    /// The canonicalization answers, in the order they were recorded.
    pub closed spec fn lookup_entries(self) -> Seq<(String, Lookup)> {
        self.lookups@
    }

    /// The read answers, in the order they were recorded.
    pub closed spec fn load_entries(self) -> Seq<(String, Load)> {
        self.loads@
    }

    #[verifier::type_invariant]
    spec fn canonical_paths_have_parents(self) -> bool {
        well_formed(self)
    }
}

/// A question that resolution needs answered.
pub enum Request {
    Canonicalize(String),
    Read(String),
}

pub enum RequestView {
    Canonicalize(Seq<char>),
    Read(Seq<char>),
}

pub open spec fn request_view(request: Request) -> RequestView {
    match request {
        Request::Canonicalize(path) => RequestView::Canonicalize(path@),
        Request::Read(path) => RequestView::Read(path@),
    }
}

/// What one resolution pass over a snapshot ends with.
pub enum Step {
    /// Resolution is complete; the events are in the order they happened.
    Finished { outcome: Outcome, events: Vec<Event> },
    /// The snapshot lacks an answer to this question.
    Needs(Request),
}

/// The first answer recorded for a candidate path.
pub open spec fn lookup_of(entries: Seq<(String, Lookup)>, key: Seq<char>) -> Option<Lookup>
    decreases entries.len(),
{
    if entries.len() == 0 {
        None
    } else {
        match lookup_of(entries.drop_last(), key) {
            Some(found) => Some(found),
            None => if entries.last().0@ == key {
                Some(entries.last().1)
            } else {
                None
            },
        }
    }
}

/// The first answer recorded for a canonical path.
pub open spec fn load_of(entries: Seq<(String, Load)>, key: Seq<char>) -> Option<Load>
    decreases entries.len(),
{
    if entries.len() == 0 {
        None
    } else {
        match load_of(entries.drop_last(), key) {
            Some(found) => Some(found),
            None => if entries.last().0@ == key {
                Some(entries.last().1)
            } else {
                None
            },
        }
    }
}

/// The canonical path a lookup answered, if it found one.
pub open spec fn found_path(lookup: Lookup) -> Option<Seq<char>> {
    match lookup {
        Lookup::Found(path) => Some(path@),
        _ => None,
    }
}

/// `path` is a canonical path that the snapshot recorded.
pub open spec fn is_found(snapshot: Snapshot, path: Seq<char>) -> bool {
    exists|i: int|
        0 <= i < snapshot.lookup_entries().len() && found_path((#[trigger] snapshot.lookup_entries()[i]).1) == Some(
            path,
        )
}

/// Every canonical path in the snapshot has a parent directory, as the
/// canonical path of an existing file does.
pub open spec fn well_formed(snapshot: Snapshot) -> bool {
    forall|i: int|
        0 <= i < snapshot.lookup_entries().len() ==> match found_path((#[trigger] snapshot.lookup_entries()[i]).1) {
            Some(p) => path_parent(p) is Some,
            None => true,
        }
}

// ---------------------------------------------------------------------------
// Resolution as plain values

pub open spec fn yaml_extension() -> Seq<char> {
    seq!['y', 'a', 'm', 'l']
}

pub open spec fn yml_extension() -> Seq<char> {
    seq!['y', 'm', 'l']
}

/// The file that `name` with `extension` denotes: absolute as written, else
/// in `directory` when there is one.
pub open spec fn candidate(name: Seq<char>, extension: Seq<char>, directory: Option<Seq<char>>) -> Seq<
    char,
> {
    let file = name + seq!['.'] + extension;
    if is_absolute(file) {
        file
    } else {
        match directory {
            Some(directory) => joined(directory, file),
            None => file,
        }
    }
}

/// Where looking for a manifest ends.
pub enum Search {
    Needs(RequestView),
    At(Seq<char>),
    Failed(ErrorView),
}

/// Looks for `name` as a `.yaml` file, then as a `.yml` file when the first
/// does not exist.
pub open spec fn find_manifest(snapshot: Snapshot, name: Seq<char>, directory: Option<Seq<char>>) -> Search {
    let yaml = candidate(name, yaml_extension(), directory);
    let yml = candidate(name, yml_extension(), directory);
    match lookup_of(snapshot.lookup_entries(), yaml) {
        None => Search::Needs(RequestView::Canonicalize(yaml)),
        Some(Lookup::Found(path)) => Search::At(path@),
        Some(Lookup::Failed(message)) => Search::Failed(ErrorView::Io { path: yaml, message: message@ }),
        Some(Lookup::Missing) => match lookup_of(snapshot.lookup_entries(), yml) {
            None => Search::Needs(RequestView::Canonicalize(yml)),
            Some(Lookup::Found(path)) => Search::At(path@),
            Some(Lookup::Failed(message)) => Search::Failed(
                ErrorView::Io { path: yml, message: message@ },
            ),
            Some(Lookup::Missing) => Search::Failed(ErrorView::NotFound { yaml, yml }),
        },
    }
}

/// The position of the first occurrence of `x` in `s`.
pub open spec fn first_index(s: Seq<Seq<char>>, x: Seq<char>) -> int
    decreases s.len(),
{
    if s.len() == 0 {
        0
    } else if s[0] == x {
        0
    } else {
        1 + first_index(s.drop_first(), x)
    }
}

pub enum NodeResult {
    Needs(RequestView),
    Done(NodeView, Seq<EventView>),
}

pub enum ChildrenResult {
    Needs(RequestView),
    Done(Seq<NodeView>, Seq<EventView>),
}

pub open spec fn total_resolved(nodes: Seq<NodeView>) -> nat
    decreases nodes.len(),
{
    if nodes.len() == 0 {
        0
    } else {
        total_resolved(nodes.drop_last()) + nodes.last().resolved
    }
}

pub open spec fn total_errors(nodes: Seq<NodeView>) -> nat
    decreases nodes.len(),
{
    if nodes.len() == 0 {
        0
    } else {
        total_errors(nodes.drop_last()) + nodes.last().errors
    }
}

/// A node that failed: one error, nothing resolved.
pub open spec fn failed(name: Seq<char>, error: ErrorView) -> NodeResult {
    NodeResult::Done(
        NodeView { manifest: None, resolved: 0, errors: 1 },
        seq![EventView::Started { name }, EventView::Error { name, error }],
    )
}

/// A node whose file was read: the partial tree is discarded when any
/// include failed; otherwise the node is one more resolved manifest.
pub open spec fn completed(
    name: Seq<char>,
    path: Seq<char>,
    file: ManifestFile,
    children: Seq<NodeView>,
    events: Seq<EventView>,
) -> NodeResult {
    let resolved = total_resolved(children);
    let errors = total_errors(children);
    let started = seq![EventView::Started { name }];
    if errors > 0 {
        NodeResult::Done(NodeView { manifest: None, resolved, errors }, started + events)
    } else {
        NodeResult::Done(
            NodeView {
                manifest: Some(
                    ManifestView {
                        name,
                        path,
                        manifests: children.map_values(|child: NodeView| child.manifest->0),
                        items: roots_view(file.items@),
                    },
                ),
                resolved: resolved + 1,
                errors: 0,
            },
            (started + events).push(EventView::Resolved { name, path }),
        )
    }
}

/// The longest include chain a snapshot allows: each manifest on a chain has
/// a distinct canonical path recorded in it.
pub open spec fn chain_bound(snapshot: Snapshot) -> int {
    snapshot.lookup_entries().len() as int
}

/// Resolves the manifest `name` below `directory`, with the canonical paths
/// of its including manifests in `active`.
pub open spec fn node_resolution(
    snapshot: Snapshot,
    name: Seq<char>,
    directory: Option<Seq<char>>,
    active: Seq<Seq<char>>,
) -> NodeResult
    decreases chain_bound(snapshot) - active.len(), 0int, 0int,
{
    match find_manifest(snapshot, name, directory) {
        Search::Needs(request) => NodeResult::Needs(request),
        Search::Failed(error) => failed(name, error),
        Search::At(path) => if active.contains(path) {
            failed(
                name,
                ErrorView::Cycle {
                    chain: active.subrange(first_index(active, path), active.len() as int).push(path),
                },
            )
        } else {
            match load_of(snapshot.load_entries(), path) {
                None => NodeResult::Needs(RequestView::Read(path)),
                Some(Load::Unreadable(message)) => failed(
                    name,
                    ErrorView::Io { path, message: message@ },
                ),
                Some(Load::Malformed(message)) => failed(
                    name,
                    ErrorView::Yaml { path, message: message@ },
                ),
                Some(Load::Parsed(file)) => if active.len() >= chain_bound(snapshot) {
                    // Never taken: see `lemma_chain_fits`.
                    NodeResult::Needs(RequestView::Read(path))
                } else {
                    match children_resolution(
                        snapshot,
                        strings_view(file.includes@),
                        path_parent(path),
                        active.push(path),
                    ) {
                        ChildrenResult::Needs(request) => NodeResult::Needs(request),
                        ChildrenResult::Done(children, events) => completed(
                            name,
                            path,
                            file,
                            children,
                            events,
                        ),
                    }
                },
            }
        },
    }
}

/// Resolves included manifests in declaration order.
pub open spec fn children_resolution(
    snapshot: Snapshot,
    names: Seq<Seq<char>>,
    directory: Option<Seq<char>>,
    active: Seq<Seq<char>>,
) -> ChildrenResult
    decreases chain_bound(snapshot) - active.len(), 1int, names.len(),
{
    if names.len() == 0 {
        ChildrenResult::Done(seq![], seq![])
    } else {
        match children_resolution(snapshot, names.drop_last(), directory, active) {
            ChildrenResult::Needs(request) => ChildrenResult::Needs(request),
            ChildrenResult::Done(nodes, events) => match node_resolution(
                snapshot,
                names.last(),
                directory,
                active,
            ) {
                NodeResult::Needs(request) => ChildrenResult::Needs(request),
                NodeResult::Done(node, more) => ChildrenResult::Done(nodes.push(node), events + more),
            },
        }
    }
}

/// The paths on an include chain are distinct canonical paths of the snapshot.
pub open spec fn valid_chain(snapshot: Snapshot, active: Seq<Seq<char>>) -> bool {
    &&& active.no_duplicates()
    &&& forall|i: int| 0 <= i < active.len() ==> is_found(snapshot, #[trigger] active[i])
}

/// A chain extended by a new canonical path still fits the bound.
pub proof fn lemma_chain_fits(snapshot: Snapshot, active: Seq<Seq<char>>, path: Seq<char>)
    requires
        valid_chain(snapshot, active),
        is_found(snapshot, path),
        !active.contains(path),
    ensures
        active.len() < chain_bound(snapshot),
        valid_chain(snapshot, active.push(path)),
{
    let longer = active.push(path);
    assert(longer.no_duplicates()) by {
        assert forall|i: int, j: int| 0 <= i < longer.len() && 0 <= j < longer.len() && i != j
            implies longer[i] != longer[j] by {
            if i == active.len() {
                assert(active.contains(longer[j]) || j == i);
            } else if j == active.len() {
                assert(active.contains(longer[i]));
            }
        }
    }
    let found = snapshot.lookup_entries().map_values(
        |entry: (String, Lookup)| match entry.1 {
            Lookup::Found(p) => p@,
            _ => seq![],
        },
    );
    assert forall|x: Seq<char>| longer.to_set().contains(x) implies found.to_set().contains(x) by {
        let i = choose|i: int| 0 <= i < longer.len() && longer[i] == x;
        assert(is_found(snapshot, longer[i]));
        let e = choose|e: int|
            0 <= e < snapshot.lookup_entries().len() && found_path((#[trigger] snapshot.lookup_entries()[e]).1) == Some(
                longer[i],
            );
        assert(found[e] == x);
    }
    longer.unique_seq_to_set();
    found.lemma_cardinality_of_set();
    vstd::set_lib::lemma_len_subset(longer.to_set(), found.to_set());
}

} // verus!

verus! {

// ---------------------------------------------------------------------------
// Resolution

/// The outcome of one node of the include tree.
struct NodeOutcome {
    manifest: Option<Manifest>,
    resolved: usize,
    errors: usize,
}

spec fn node_view(node: NodeOutcome) -> NodeView {
    NodeView {
        manifest: match node.manifest {
            Some(m) => Some(m@),
            None => None,
        },
        resolved: node.resolved as nat,
        errors: node.errors as nat,
    }
}

spec fn node_views(nodes: Seq<NodeOutcome>) -> Seq<NodeView> {
    nodes.map_values(|node: NodeOutcome| node_view(node))
}

enum Found {
    Needs(Request),
    At(String, Ghost<int>),
    Failed(Error),
}

proof fn lemma_events_push(events: Seq<Event>, event: Event)
    ensures
        events_view(events.push(event)) == events_view(events).push(event@),
{
    assert(events_view(events.push(event)) =~= events_view(events).push(event@));
}

proof fn lemma_lookup_step(entries: Seq<(String, Lookup)>, key: Seq<char>, i: int)
    requires
        0 <= i < entries.len(),
    ensures
        lookup_of(entries.take(i + 1), key) == match lookup_of(entries.take(i), key) {
            Some(found) => Some(found),
            None => if entries[i].0@ == key {
                Some(entries[i].1)
            } else {
                None
            },
        },
{
    assert(entries.take(i + 1).drop_last() =~= entries.take(i));
}

proof fn lemma_load_step(entries: Seq<(String, Load)>, key: Seq<char>, i: int)
    requires
        0 <= i < entries.len(),
    ensures
        load_of(entries.take(i + 1), key) == match load_of(entries.take(i), key) {
            Some(found) => Some(found),
            None => if entries[i].0@ == key {
                Some(entries[i].1)
            } else {
                None
            },
        },
{
    assert(entries.take(i + 1).drop_last() =~= entries.take(i));
}

/// The position of the first answer recorded for a candidate path.
fn lookup_index(entries: &Vec<(String, Lookup)>, key: &String) -> (found: Option<usize>)
    ensures
        match found {
            Some(i) => i < entries@.len() && entries@[i as int].0@ == key@ && lookup_of(
                entries@,
                key@,
            ) == Some(entries@[i as int].1),
            None => lookup_of(entries@, key@) is None,
        },
{
    let mut i: usize = 0;
    while i < entries.len()
        invariant
            0 <= i <= entries@.len(),
            lookup_of(entries@.take(i as int), key@) is None,
        decreases entries@.len() - i,
    {
        proof {
            lemma_lookup_step(entries@, key@, i as int);
        }
        if entries[i].0.eq(key) {
            proof {
                lemma_lookup_prefix(entries@, key@, (i + 1) as int);
            }
            return Some(i);
        }
        i = i + 1;
    }
    proof {
        assert(entries@.take(entries@.len() as int) =~= entries@);
    }
    None
}

proof fn lemma_lookup_prefix(entries: Seq<(String, Lookup)>, key: Seq<char>, k: int)
    requires
        0 <= k <= entries.len(),
        lookup_of(entries.take(k), key) is Some,
    ensures
        lookup_of(entries, key) == lookup_of(entries.take(k), key),
    decreases entries.len() - k,
{
    if k < entries.len() {
        lemma_lookup_step(entries, key, k);
        lemma_lookup_prefix(entries, key, k + 1);
    } else {
        assert(entries.take(k) =~= entries);
    }
}

proof fn lemma_load_prefix(entries: Seq<(String, Load)>, key: Seq<char>, k: int)
    requires
        0 <= k <= entries.len(),
        load_of(entries.take(k), key) is Some,
    ensures
        load_of(entries, key) == load_of(entries.take(k), key),
    decreases entries.len() - k,
{
    if k < entries.len() {
        lemma_load_step(entries, key, k);
        lemma_load_prefix(entries, key, k + 1);
    } else {
        assert(entries.take(k) =~= entries);
    }
}

/// The position of the first answer recorded for a canonical path.
fn load_index(entries: &Vec<(String, Load)>, key: &String) -> (found: Option<usize>)
    ensures
        match found {
            Some(i) => i < entries@.len() && load_of(entries@, key@) == Some(entries@[i as int].1),
            None => load_of(entries@, key@) is None,
        },
{
    let mut i: usize = 0;
    while i < entries.len()
        invariant
            0 <= i <= entries@.len(),
            load_of(entries@.take(i as int), key@) is None,
        decreases entries@.len() - i,
    {
        proof {
            lemma_load_step(entries@, key@, i as int);
        }
        if entries[i].0.eq(key) {
            proof {
                lemma_load_prefix(entries@, key@, (i + 1) as int);
            }
            return Some(i);
        }
        i = i + 1;
    }
    proof {
        assert(entries@.take(entries@.len() as int) =~= entries@);
    }
    None
}

/// The candidate file for `name` with an extension.
fn candidate_path(name: &String, extension: &str, directory: &Option<String>) -> (path: String)
    ensures
        path@ == candidate(name@, extension@, directory.deep_view()),
{
    let mut file = name.clone();
    proof {
        reveal_strlit(".");
    }
    file.append(".");
    file.append(extension);
    if path_is_absolute(file.as_str()) {
        file
    } else {
        match directory {
            Some(directory) => join_path(directory.as_str(), file.as_str()),
            None => file,
        }
    }
}

fn find_manifest_in(snapshot: &Snapshot, name: &String, directory: &Option<String>) -> (found: Found)
    ensures
        match find_manifest(*snapshot, name@, directory.deep_view()) {
            Search::Needs(request) => found is Needs && request_view(found->Needs_0) == request,
            Search::Failed(error) => found is Failed && found->Failed_0@ == error,
            Search::At(path) => found is At && found->At_0@ == path && {
                let i = found->At_1@;
                &&& 0 <= i < snapshot.lookup_entries().len()
                &&& found_path(snapshot.lookup_entries()[i].1) == Some(path)
            },
        },
{
    proof {
        reveal_strlit("yaml");
        reveal_strlit("yml");
    }
    let yaml = candidate_path(name, "yaml", directory);
    let yml = candidate_path(name, "yml", directory);
    assert(yaml@ == candidate(name@, yaml_extension(), directory.deep_view()));
    assert(yml@ == candidate(name@, yml_extension(), directory.deep_view()));
    match lookup_index(&snapshot.lookups, &yaml) {
        None => Found::Needs(Request::Canonicalize(yaml)),
        Some(i) => match &snapshot.lookups[i].1 {
            Lookup::Found(path) => Found::At(path.clone(), Ghost(i as int)),
            Lookup::Failed(message) => Found::Failed(Error::Io { path: yaml, message: message.clone() }),
            Lookup::Missing => match lookup_index(&snapshot.lookups, &yml) {
                None => Found::Needs(Request::Canonicalize(yml)),
                Some(j) => match &snapshot.lookups[j].1 {
                    Lookup::Found(path) => Found::At(path.clone(), Ghost(j as int)),
                    Lookup::Failed(message) => Found::Failed(
                        Error::Io { path: yml, message: message.clone() },
                    ),
                    Lookup::Missing => {
                        let ghost (a, b) = (yaml@, yml@);
                        let attempted = [yaml, yml];
                        assert(attempted@[0]@ == a && attempted@[1]@ == b);
                        Found::Failed(Error::NotFound { attempted })
                    },
                },
            },
        },
    }
}

/// The position of `path` on the include chain, if it is there.
fn chain_position(active: &Vec<String>, path: &String) -> (position: Option<usize>)
    ensures
        match position {
            Some(p) => strings_view(active@).contains(path@) && p as int == first_index(
                strings_view(active@),
                path@,
            ) && p < active@.len(),
            None => !strings_view(active@).contains(path@),
        },
{
    let ghost chain = strings_view(active@);
    let mut i: usize = 0;
    while i < active.len()
        invariant
            0 <= i <= active@.len(),
            chain == strings_view(active@),
            forall|j: int| 0 <= j < i ==> chain[j] != path@,
        decreases active@.len() - i,
    {
        if active[i].eq(path) {
            proof {
                lemma_first_index(chain, path@, i as int);
            }
            return Some(i);
        }
        i = i + 1;
    }
    None
}

proof fn lemma_first_index(s: Seq<Seq<char>>, x: Seq<char>, i: int)
    requires
        0 <= i < s.len(),
        s[i] == x,
        forall|j: int| 0 <= j < i ==> s[j] != x,
    ensures
        first_index(s, x) == i,
        s.contains(x),
    decreases i,
{
    if i > 0 {
        assert(s.drop_first()[i - 1] == x);
        lemma_first_index(s.drop_first(), x, i - 1);
    }
}

fn copy_strings(strings: &Vec<String>) -> (copy: Vec<String>)
    ensures
        strings_view(copy@) == strings_view(strings@),
{
    let mut out: Vec<String> = Vec::new();
    for i in 0..strings.len()
        invariant
            out@.len() == i,
            strings_view(out@) == strings_view(strings@.take(i as int)),
    {
        let s = strings[i].clone();
        proof {
            assert forall|j: int| 0 <= j < i implies (#[trigger] out@.push(s)[j])@ == strings@.take(
                i + 1,
            )[j]@ by {
                assert(strings_view(out@)[j] == strings_view(strings@.take(i as int))[j]);
            }
            assert(strings_view(out@.push(s)) =~= strings_view(strings@.take(i + 1)));
        }
        out.push(s);
    }
    proof {
        assert(strings@.take(strings@.len() as int) =~= strings@);
    }
    out
}

fn fail_node(name: &String, error: Error, events: &mut Vec<Event>) -> (node: NodeOutcome)
    ensures
        node_view(node) == (NodeView { manifest: None, resolved: 0, errors: 1 }),
        events_view(final(events)@) == events_view(old(events)@) + seq![
            EventView::Started { name: name@ },
            EventView::Error { name: name@, error: error@ },
        ],
        final(events)@.len() == old(events)@.len() + 2,
{
    let ghost before = events@;
    let ghost view = error@;
    events.push(Event::Started { name: name.clone() });
    events.push(Event::Error { name: name.clone(), error });
    proof {
        assert(events_view(events@) =~= events_view(before) + seq![
            EventView::Started { name: name@ },
            EventView::Error { name: name@, error: view },
        ]);
    }
    NodeOutcome { manifest: None, resolved: 0, errors: 1 }
}

proof fn lemma_totals_step(nodes: Seq<NodeView>, i: int)
    requires
        0 <= i < nodes.len(),
    ensures
        total_resolved(nodes.take(i + 1)) == total_resolved(nodes.take(i)) + nodes[i].resolved,
        total_errors(nodes.take(i + 1)) == total_errors(nodes.take(i)) + nodes[i].errors,
{
    assert(nodes.take(i + 1).drop_last() =~= nodes.take(i));
}

proof fn lemma_totals_prefix(nodes: Seq<NodeView>, i: int)
    requires
        0 <= i <= nodes.len(),
    ensures
        total_resolved(nodes.take(i)) <= total_resolved(nodes),
        total_errors(nodes.take(i)) <= total_errors(nodes),
    decreases nodes.len() - i,
{
    if i < nodes.len() {
        lemma_totals_step(nodes, i);
        lemma_totals_prefix(nodes, i + 1);
    } else {
        assert(nodes.take(i) =~= nodes);
    }
}

} // verus!

verus! {

proof fn lemma_manifests_view_push(manifests: Seq<Manifest>, manifest: Manifest)
    ensures
        manifests_view(manifests.push(manifest)) == manifests_view(manifests).push(manifest@),
{
    assert(manifests.push(manifest).drop_last() =~= manifests);
}

/// Resolves one manifest and, depth-first, its includes.
fn resolve_node(
    snapshot: &Snapshot,
    name: &String,
    directory: &Option<String>,
    active: &Vec<String>,
    events: &mut Vec<Event>,
) -> (result: Result<NodeOutcome, Request>)
    requires
        well_formed(*snapshot),
        valid_chain(*snapshot, strings_view(active@)),
    ensures
        match node_resolution(*snapshot, name@, directory.deep_view(), strings_view(active@)) {
            NodeResult::Needs(request) => result is Err && request_view(result->Err_0) == request,
            NodeResult::Done(node, added) => result is Ok && node_view(result->Ok_0) == node
                && events_view(final(events)@) == events_view(old(events)@) + added
                && result->Ok_0.resolved + result->Ok_0.errors <= added.len(),
        },
    decreases chain_bound(*snapshot) - active@.len(), 0int, 0int,
{
    let ghost chain = strings_view(active@);
    let ghost prefix = events_view(events@);
    match find_manifest_in(snapshot, name, directory) {
        Found::Needs(request) => Err(request),
        Found::Failed(error) => Ok(fail_node(name, error, events)),
        Found::At(path, _) => {
            match chain_position(active, &path) {
                Some(start) => {
                    let mut cycle: Vec<String> = Vec::new();
                    let mut k = start;
                    while k < active.len()
                        invariant
                            start <= k <= active@.len(),
                            chain == strings_view(active@),
                            cycle@.len() == k - start,
                            strings_view(cycle@) == chain.subrange(start as int, k as int),
                        decreases active@.len() - k,
                    {
                        let s = active[k].clone();
                        proof {
                            assert forall|j: int| 0 <= j < cycle@.len() + 1 implies (
                            #[trigger] cycle@.push(s)[j])@ == chain.subrange(start as int, k + 1)[j] by {
                                if j < cycle@.len() {
                                    assert(strings_view(cycle@)[j] == chain.subrange(
                                        start as int,
                                        k as int,
                                    )[j]);
                                }
                            }
                            assert(strings_view(cycle@.push(s)) =~= chain.subrange(
                                start as int,
                                k + 1,
                            ));
                        }
                        cycle.push(s);
                        k = k + 1;
                    }
                    let ghost so_far = strings_view(cycle@);
                    cycle.push(path);
                    proof {
                        assert(strings_view(cycle@) =~= so_far.push(path@));
                    }
                    Ok(fail_node(name, Error::Cycle { chain: cycle }, events))
                },
                None => {
                    match load_index(&snapshot.loads, &path) {
                        None => Err(Request::Read(path)),
                        Some(l) => match &snapshot.loads[l].1 {
                            Load::Unreadable(message) => Ok(
                                fail_node(name, Error::Io { path, message: message.clone() }, events),
                            ),
                            Load::Malformed(message) => Ok(
                                fail_node(
                                    name,
                                    Error::Yaml { path, message: message.clone() },
                                    events,
                                ),
                            ),
                            Load::Parsed(file) => {
                                proof {
                                    assert(is_found(*snapshot, path@));
                                    lemma_chain_fits(*snapshot, chain, path@);
                                }
                                let parent = match parent_of(path.as_str()) {
                                    Some(parent) => parent,
                                    None => {
                                        proof {
                                            assert(path_parent(path@) is Some);
                                        }
                                        String::new()
                                    },
                                };
                                let inner = Some(parent);
                                let mut deeper = copy_strings(active);
                                let ghost deeper_chain = strings_view(deeper@);
                                deeper.push(path.clone());
                                proof {
                                    assert(strings_view(deeper@) =~= deeper_chain.push(path@));
                                }
                                let ghost before = events@;
                                events.push(Event::Started { name: name.clone() });
                                proof {
                                    lemma_events_push(before, events@.last());
                                }
                                let ghost mid = events_view(events@);
                                let children = match resolve_children(
                                    snapshot,
                                    &file.includes,
                                    &inner,
                                    &deeper,
                                    events,
                                ) {
                                    Ok(children) => children,
                                    Err(request) => {
                                        return Err(request);
                                    },
                                };
                                let ghost child_added = events_view(events@).subrange(
                                    mid.len() as int,
                                    events_view(events@).len() as int,
                                );
                                proof {
                                    assert(child_added =~= match children_resolution(
                                        *snapshot,
                                        strings_view(file.includes@),
                                        inner.deep_view(),
                                        strings_view(deeper@),
                                    ) {
                                        ChildrenResult::Done(_, added) => added,
                                        ChildrenResult::Needs(_) => child_added,
                                    });
                                    assert(events_view(events@) =~= prefix + seq![
                                        EventView::Started { name: name@ },
                                    ] + child_added);
                                }
                                complete_node(
                                    name,
                                    path,
                                    file,
                                    children,
                                    events,
                                    Ghost(prefix),
                                    Ghost(child_added),
                                )
                            },
                        },
                    }
                },
            }
        },
    }
}

/// Combines a read manifest with its resolved includes.
fn complete_node(
    name: &String,
    path: String,
    file: &ManifestFile,
    children: Vec<NodeOutcome>,
    events: &mut Vec<Event>,
    Ghost(prefix): Ghost<Seq<EventView>>,
    Ghost(child_added): Ghost<Seq<EventView>>,
) -> (result: Result<NodeOutcome, Request>)
    requires
        events_view(old(events)@) == prefix + seq![EventView::Started { name: name@ }] + child_added,
        total_resolved(node_views(children@)) + total_errors(node_views(children@))
            <= child_added.len(),
        forall|i: int|
            0 <= i < children@.len() ==> ((#[trigger] children@[i]).errors == 0) == (
            children@[i].manifest is Some),
    ensures
        result is Ok,
        match completed(name@, path@, *file, node_views(children@), child_added) {
            NodeResult::Done(node, added) => node_view(result->Ok_0) == node && events_view(
                final(events)@,
            ) == prefix + added && result->Ok_0.resolved + result->Ok_0.errors <= added.len(),
            NodeResult::Needs(_) => false,
        },
{
    let ghost views = node_views(children@);
    let mut resolved: usize = 0;
    let mut errors: usize = 0;
    let total = events.len();
    assert(events_view(events@).len() == events@.len());
    proof {
        lemma_totals_prefix(views, 0);
    }
    for i in 0..children.len()
        invariant
            views == node_views(children@),
            resolved == total_resolved(views.take(i as int)),
            errors == total_errors(views.take(i as int)),
            total_resolved(views) + total_errors(views) <= total,
    {
        proof {
            lemma_totals_step(views, i as int);
            lemma_totals_prefix(views, i + 1);
        }
        resolved = resolved + children[i].resolved;
        errors = errors + children[i].errors;
    }
    proof {
        assert(views.take(children@.len() as int) =~= views);
    }
    if errors > 0 {
        return Ok(NodeOutcome { manifest: None, resolved, errors });
    }
    let mut manifests: Vec<Manifest> = Vec::new();
    let mut rest = children;
    let ghost all = rest@;
    let n = rest.len();
    let mut i: usize = 0;
    while i < n
        invariant
            0 <= i <= n,
            n == all.len(),
            views == node_views(all),
            total_errors(views) == 0,
            rest@ == all.subrange(i as int, n as int),
            forall|j: int|
                0 <= j < all.len() ==> ((#[trigger] all[j]).errors == 0) == (all[j].manifest is Some),
            manifests_view(manifests@) == views.take(i as int).map_values(
                |child: NodeView| child.manifest->0,
            ),
        decreases n - i,
    {
        let child = rest.remove(0);
        proof {
            assert(child == all[i as int]);
            lemma_no_errors_each(views, i as int);
        }
        let manifest = match child.manifest {
            Some(m) => m,
            None => {
                proof {
                    assert(all[i as int].errors == 0);
                }
                Manifest { name: String::new(), path: String::new(), manifests: Vec::new(), items: Vec::new() }
            },
        };
        proof {
            lemma_manifests_view_push(manifests@, manifest);
            assert(views.take(i + 1).map_values(|c: NodeView| c.manifest->0) =~= views.take(
                i as int,
            ).map_values(|c: NodeView| c.manifest->0).push(views[i as int].manifest->0));
        }
        manifests.push(manifest);
        i = i + 1;
    }
    proof {
        assert(views.take(n as int) =~= views);
    }
    let items = copy_roots(&file.items);
    let ghost at_end = events@;
    events.push(Event::Resolved { name: name.clone(), path: path.clone() });
    proof {
        lemma_events_push(at_end, events@.last());
    }
    Ok(
        NodeOutcome {
            manifest: Some(Manifest { name: name.clone(), path, manifests, items }),
            resolved: resolved + 1,
            errors: 0,
        },
    )
}

proof fn lemma_no_errors_each(nodes: Seq<NodeView>, i: int)
    requires
        0 <= i < nodes.len(),
        total_errors(nodes) == 0,
    ensures
        nodes[i].errors == 0,
    decreases nodes.len(),
{
    if i < nodes.len() - 1 {
        lemma_no_errors_each(nodes.drop_last(), i);
    }
}

/// Resolves included manifests, depth-first in declaration order.
fn resolve_children(
    snapshot: &Snapshot,
    names: &Vec<String>,
    directory: &Option<String>,
    active: &Vec<String>,
    events: &mut Vec<Event>,
) -> (result: Result<Vec<NodeOutcome>, Request>)
    requires
        well_formed(*snapshot),
        valid_chain(*snapshot, strings_view(active@)),
    ensures
        match children_resolution(
            *snapshot,
            strings_view(names@),
            directory.deep_view(),
            strings_view(active@),
        ) {
            ChildrenResult::Needs(request) => result is Err && request_view(result->Err_0) == request,
            ChildrenResult::Done(nodes, added) => result is Ok && node_views(result->Ok_0@) == nodes
                && events_view(final(events)@) == events_view(old(events)@) + added
                && total_resolved(nodes) + total_errors(nodes) <= added.len() && forall|i: int|
                0 <= i < result->Ok_0@.len() ==> ((#[trigger] result->Ok_0@[i]).errors == 0) == (
                result->Ok_0@[i].manifest is Some),
        },
    decreases chain_bound(*snapshot) - active@.len(), 1int, names@.len(),
{
    let ghost all = strings_view(names@);
    let ghost start = events_view(events@);
    let ghost mut acc: Seq<EventView> = seq![];
    let mut nodes: Vec<NodeOutcome> = Vec::new();
    proof {
        assert(all.take(0) =~= Seq::<Seq<char>>::empty());
        assert(node_views(nodes@) =~= Seq::<NodeView>::empty());
        assert(events_view(events@) =~= start + acc);
    }
    for i in 0..names.len()
        invariant
            well_formed(*snapshot),
            valid_chain(*snapshot, strings_view(active@)),
            all == strings_view(names@),
            events_view(events@) == start + acc,
            children_resolution(
                *snapshot,
                all.take(i as int),
                directory.deep_view(),
                strings_view(active@),
            ) == ChildrenResult::Done(node_views(nodes@), acc),
            total_resolved(node_views(nodes@)) + total_errors(node_views(nodes@)) <= acc.len(),
            forall|j: int|
                0 <= j < nodes@.len() ==> ((#[trigger] nodes@[j]).errors == 0) == (
                nodes@[j].manifest is Some),
    {
        proof {
            assert(all.take(i + 1).drop_last() =~= all.take(i as int));
        }
        let ghost before = events_view(events@);
        let node = match resolve_node(snapshot, &names[i], directory, active, events) {
            Ok(node) => node,
            Err(request) => {
                proof {
                    lemma_needs_persist(
                        *snapshot,
                        all,
                        directory.deep_view(),
                        strings_view(active@),
                        i + 1,
                    );
                }
                return Err(request);
            },
        };
        proof {
            lemma_node_manifest_iff(
                *snapshot,
                names@[i as int]@,
                directory.deep_view(),
                strings_view(active@),
            );
            let added = events_view(events@).subrange(before.len() as int, events_view(events@).len() as int);
            assert(added =~= match node_resolution(
                *snapshot,
                names@[i as int]@,
                directory.deep_view(),
                strings_view(active@),
            ) {
                NodeResult::Done(_, more) => more,
                NodeResult::Needs(_) => added,
            });
            assert(node_views(nodes@.push(node)) =~= node_views(nodes@).push(node_view(node)));
            assert(node_views(nodes@.push(node)).drop_last() =~= node_views(nodes@));
            assert(events_view(events@) =~= start + (acc + added));
            acc = acc + added;
        }
        nodes.push(node);
    }
    proof {
        assert(all.take(names@.len() as int) =~= all);
    }
    Ok(nodes)
}

/// Once resolving the first `k` includes needs an answer, resolving all of
/// them needs the same answer.
proof fn lemma_needs_persist(
    snapshot: Snapshot,
    names: Seq<Seq<char>>,
    directory: Option<Seq<char>>,
    active: Seq<Seq<char>>,
    k: int,
)
    requires
        0 <= k <= names.len(),
        children_resolution(snapshot, names.take(k), directory, active) is Needs,
    ensures
        children_resolution(snapshot, names, directory, active) == children_resolution(
            snapshot,
            names.take(k),
            directory,
            active,
        ),
    decreases names.len() - k,
{
    if k < names.len() {
        assert(names.take(k + 1).drop_last() =~= names.take(k));
        lemma_needs_persist(snapshot, names, directory, active, k + 1);
    } else {
        assert(names.take(k) =~= names);
    }
}

/// A resolved node keeps its tree exactly when nothing below it failed.
pub proof fn lemma_node_manifest_iff(
    snapshot: Snapshot,
    name: Seq<char>,
    directory: Option<Seq<char>>,
    active: Seq<Seq<char>>,
)
    ensures
        node_resolution(snapshot, name, directory, active) matches NodeResult::Done(node, _) ==> (
        node.errors == 0) == (node.manifest is Some),
{
}

} // verus!

verus! {

impl Snapshot {
    /// A snapshot with no answers yet.
    pub fn new() -> (snapshot: Snapshot)
        ensures
            snapshot.lookup_entries().len() == 0,
            snapshot.load_entries().len() == 0,
    {
        Snapshot { lookups: Vec::new(), loads: Vec::new() }
    }

    /// Records what canonicalizing `candidate` answered. A canonical path
    /// without a parent directory names no manifest file and is not recorded;
    /// the result says whether the answer was recorded.
    pub fn record_lookup(&mut self, candidate: String, lookup: Lookup) -> (recorded: bool)
        ensures
            recorded == match found_path(lookup) {
                Some(path) => path_parent(path) is Some,
                None => true,
            },
            recorded ==> final(self).lookup_entries() == old(self).lookup_entries().push(
                (candidate, lookup),
            ),
            !recorded ==> final(self).lookup_entries() == old(self).lookup_entries(),
            final(self).load_entries() == old(self).load_entries(),
    {
        proof {
            use_type_invariant(&*self);
        }
        let acceptable = match &lookup {
            Lookup::Found(path) => parent_of(path.as_str()).is_some(),
            _ => true,
        };
        if acceptable {
            let ghost entries = self.lookups@.push((candidate, lookup));
            let mut lookups: Vec<(String, Lookup)> = Vec::new();
            std::mem::swap(&mut lookups, &mut self.lookups);
            lookups.push((candidate, lookup));
            assert(well_formed(Snapshot { lookups, loads: self.loads })) by {
                assert(lookups@ == entries);
            }
            self.lookups = lookups;
        }
        acceptable
    }

    /// Records what reading the manifest at `path` answered.
    pub fn record_load(&mut self, path: String, load: Load)
        ensures
            final(self).load_entries() == old(self).load_entries().push((path, load)),
            final(self).lookup_entries() == old(self).lookup_entries(),
    {
        proof {
            use_type_invariant(&*self);
        }
        let mut loads: Vec<(String, Load)> = Vec::new();
        std::mem::swap(&mut loads, &mut self.loads);
        loads.push((path, load));
        self.loads = loads;
    }
}

/// Resolves the root manifest `name` over the answers in `snapshot`: either
/// the outcome with every event of the resolution, ending with `Finished`,
/// or the next question the snapshot cannot answer.
pub fn resolve(name: &str, snapshot: &Snapshot) -> (step: Step)
    ensures
        match node_resolution(*snapshot, name@, None, seq![]) {
            NodeResult::Needs(request) => step is Needs && request_view(step->Needs_0) == request,
            NodeResult::Done(node, added) => step is Finished && outcome_view(step->outcome) == node
                && events_view(step->events@) == added.push(
                EventView::Finished { resolved: node.resolved, errors: node.errors },
            ),
        },
{
    proof {
        use_type_invariant(snapshot);
    }
    let root = String::from_str(name);
    let active: Vec<String> = Vec::new();
    let mut events: Vec<Event> = Vec::new();
    proof {
        assert(strings_view(active@) =~= Seq::<Seq<char>>::empty());
        assert(events_view(events@) =~= Seq::<EventView>::empty());
    }
    match resolve_node(snapshot, &root, &None, &active, &mut events) {
        Err(request) => Step::Needs(request),
        Ok(node) => {
            let ghost before = events@;
            let finished = Event::Finished { resolved: node.resolved, errors: node.errors };
            events.push(finished);
            proof {
                lemma_events_push(before, finished);
            }
            Step::Finished {
                outcome: Outcome { manifest: node.manifest, resolved: node.resolved, errors: node.errors },
                events,
            }
        },
    }
}

} // verus!

verus! {

// ---------------------------------------------------------------------------
// Laws of resolution

/// How many events report a resolved manifest.
pub open spec fn resolved_events(events: Seq<EventView>) -> nat
    decreases events.len(),
{
    if events.len() == 0 {
        0
    } else {
        resolved_events(events.drop_last()) + if events.last() is Resolved {
            1nat
        } else {
            0nat
        }
    }
}

/// How many events report a failure.
pub open spec fn error_events(events: Seq<EventView>) -> nat
    decreases events.len(),
{
    if events.len() == 0 {
        0
    } else {
        error_events(events.drop_last()) + if events.last() is Error {
            1nat
        } else {
            0nat
        }
    }
}

/// Every reported include cycle starts and ends at the same manifest.
pub open spec fn cycles_closed(events: Seq<EventView>) -> bool {
    forall|i: int|
        0 <= i < events.len() ==> match #[trigger] events[i] {
            EventView::Error { error: ErrorView::Cycle { chain }, .. } => chain.len() >= 2 && chain[0]
                == chain.last(),
            _ => true,
        }
}

/// How many manifests a resolved tree holds.
pub open spec fn tree_size(manifest: ManifestView) -> nat
    decreases manifest,
{
    1 + forest_size(manifest.manifests)
}

/// How many manifests resolved trees hold together.
pub open spec fn forest_size(manifests: Seq<ManifestView>) -> nat
    decreases manifests,
{
    if manifests.len() == 0 {
        0
    } else {
        forest_size(manifests.drop_last()) + tree_size(manifests.last())
    }
}

proof fn lemma_event_counts_add(a: Seq<EventView>, b: Seq<EventView>)
    ensures
        resolved_events(a + b) == resolved_events(a) + resolved_events(b),
        error_events(a + b) == error_events(a) + error_events(b),
        cycles_closed(a) && cycles_closed(b) ==> cycles_closed(a + b),
    decreases b.len(),
{
    if b.len() > 0 {
        assert((a + b).drop_last() =~= a + b.drop_last());
        lemma_event_counts_add(a, b.drop_last());
    } else {
        assert(a + b =~= a);
    }
    if cycles_closed(a) && cycles_closed(b) {
        assert forall|i: int| 0 <= i < (a + b).len() implies match #[trigger] (a + b)[i] {
            EventView::Error { error: ErrorView::Cycle { chain }, .. } => chain.len() >= 2 && chain[0]
                == chain.last(),
            _ => true,
        } by {
            if i < a.len() {
                assert((a + b)[i] == a[i]);
            } else {
                assert((a + b)[i] == b[i - a.len()]);
            }
        }
    }
}

proof fn lemma_forest_of_children(children: Seq<NodeView>)
    requires
        total_errors(children) == 0,
        forall|i: int|
            0 <= i < children.len() ==> ((#[trigger] children[i]).manifest matches Some(m)
                && children[i].resolved == tree_size(m)),
    ensures
        forest_size(children.map_values(|child: NodeView| child.manifest->0)) == total_resolved(
            children,
        ),
    decreases children.len(),
{
    if children.len() > 0 {
        let rest = children.drop_last();
        assert forall|i: int| 0 <= i < rest.len() implies ((#[trigger] rest[i]).manifest matches Some(m)
            && rest[i].resolved == tree_size(m)) by {
            assert(rest[i] == children[i]);
        }
        lemma_forest_of_children(rest);
        assert(children.map_values(|child: NodeView| child.manifest->0).drop_last()
            =~= rest.map_values(|child: NodeView| child.manifest->0));
        assert(children[children.len() - 1].manifest is Some);
    }
}

/// The laws of one resolved manifest: one resolved event per resolved
/// manifest and one error event per failure, closed include cycles, and a
/// kept tree that holds exactly the resolved manifests under the name it was
/// included as.
pub proof fn lemma_node_laws(
    snapshot: Snapshot,
    name: Seq<char>,
    directory: Option<Seq<char>>,
    active: Seq<Seq<char>>,
)
    requires
        valid_chain(snapshot, active),
    ensures
        node_resolution(snapshot, name, directory, active) matches NodeResult::Done(node, added) ==> {
            &&& resolved_events(added) == node.resolved
            &&& error_events(added) == node.errors
            &&& cycles_closed(added)
            &&& node.manifest matches Some(m) ==> node.resolved == tree_size(m) && m.name == name
        },
    decreases chain_bound(snapshot) - active.len(), 0int, 0int,
{
    let started = seq![EventView::Started { name }];
    match find_manifest(snapshot, name, directory) {
        Search::Needs(_) => {},
        Search::Failed(error) => {
            lemma_failed_laws(name, error);
        },
        Search::At(path) => {
            if active.contains(path) {
                let start = first_index(active, path);
                lemma_first_index_found(active, path);
                let chain = active.subrange(start, active.len() as int).push(path);
                assert(chain[0] == path);
                lemma_failed_laws(name, ErrorView::Cycle { chain });
            } else {
                match load_of(snapshot.load_entries(), path) {
                    None => {},
                    Some(Load::Unreadable(message)) => {
                        lemma_failed_laws(name, ErrorView::Io { path, message: message@ });
                    },
                    Some(Load::Malformed(message)) => {
                        lemma_failed_laws(name, ErrorView::Yaml { path, message: message@ });
                    },
                    Some(Load::Parsed(file)) => {
                        if active.len() < chain_bound(snapshot) {
                            assert(is_found(snapshot, path)) by {
                                lemma_found_path_is_found(snapshot, name, directory);
                            }
                            lemma_chain_fits(snapshot, active, path);
                            let names = strings_view(file.includes@);
                            lemma_children_laws(snapshot, names, path_parent(path), active.push(path));
                            match children_resolution(snapshot, names, path_parent(path), active.push(path)) {
                                ChildrenResult::Needs(_) => {},
                                ChildrenResult::Done(children, events) => {
                                    lemma_event_counts_add(started, events);
                                    assert(started.drop_last() =~= Seq::<EventView>::empty());
                                    assert(started.last() == EventView::Started { name });
                                    assert(resolved_events(started.drop_last()) == 0);
                                    assert(error_events(started.drop_last()) == 0);
                                    assert(resolved_events(started) == 0);
                                    assert(error_events(started) == 0);
                                    assert(cycles_closed(started));
                                    if total_errors(children) == 0 {
                                        assert forall|i: int| 0 <= i < children.len() implies ((
                                        #[trigger] children[i]).manifest matches Some(m)
                                            && children[i].resolved == tree_size(m)) by {
                                            lemma_no_errors_each(children, i);
                                        }
                                        lemma_forest_of_children(children);
                                        let done = (started + events).push(
                                            EventView::Resolved { name, path },
                                        );
                                        assert(done.drop_last() =~= started + events);
                                        assert forall|i: int| 0 <= i < done.len() implies match #[trigger] done[i] {
                                            EventView::Error { error: ErrorView::Cycle { chain }, .. } => chain.len() >= 2
                                                && chain[0] == chain.last(),
                                            _ => true,
                                        } by {
                                            if i < done.len() - 1 {
                                                assert(done[i] == (started + events)[i]);
                                            }
                                        }
                                    }
                                },
                            }
                        }
                    },
                }
            }
        },
    }
}

proof fn lemma_failed_laws(name: Seq<char>, error: ErrorView)
    requires
        error matches ErrorView::Cycle { chain } ==> chain.len() >= 2 && chain[0] == chain.last(),
    ensures
        failed(name, error) matches NodeResult::Done(node, added) && resolved_events(added) == node.resolved
            && error_events(added) == node.errors && cycles_closed(added) && node.manifest is None,
{
    let added = seq![EventView::Started { name }, EventView::Error { name, error }];
    let first = seq![EventView::Started { name }];
    assert(added.drop_last() =~= first);
    assert(first.drop_last() =~= Seq::<EventView>::empty());
    assert(first.last() == EventView::Started { name });
    assert(resolved_events(Seq::<EventView>::empty()) == 0);
    assert(error_events(Seq::<EventView>::empty()) == 0);
    assert(resolved_events(first) == 0);
    assert(error_events(first) == 0);
    assert(resolved_events(added) == 0);
    assert(error_events(added) == 1);
    assert forall|i: int| 0 <= i < added.len() implies match #[trigger] added[i] {
        EventView::Error { error: ErrorView::Cycle { chain }, .. } => chain.len() >= 2 && chain[0]
            == chain.last(),
        _ => true,
    } by {
        if i == 1 {
            assert(added[i] == EventView::Error { name, error });
        } else {
            assert(added[i] == EventView::Started { name });
        }
    }
}

proof fn lemma_first_index_found(s: Seq<Seq<char>>, x: Seq<char>)
    requires
        s.contains(x),
    ensures
        0 <= first_index(s, x) < s.len(),
        s[first_index(s, x)] == x,
    decreases s.len(),
{
    if s[0] != x {
        let i = choose|i: int| 0 <= i < s.len() && s[i] == x;
        assert(s.drop_first()[i - 1] == x);
        lemma_first_index_found(s.drop_first(), x);
    }
}

proof fn lemma_found_path_is_found(snapshot: Snapshot, name: Seq<char>, directory: Option<Seq<char>>)
    ensures
        find_manifest(snapshot, name, directory) matches Search::At(path) ==> is_found(snapshot, path),
{
    let yaml = candidate(name, yaml_extension(), directory);
    let yml = candidate(name, yml_extension(), directory);
    lemma_lookup_entry(snapshot.lookup_entries(), yaml);
    lemma_lookup_entry(snapshot.lookup_entries(), yml);
}

proof fn lemma_lookup_entry(entries: Seq<(String, Lookup)>, key: Seq<char>)
    ensures
        lookup_of(entries, key) matches Some(found) ==> exists|i: int|
            0 <= i < entries.len() && (#[trigger] entries[i]).1 == found,
    decreases entries.len(),
{
    if entries.len() > 0 {
        lemma_lookup_entry(entries.drop_last(), key);
        if lookup_of(entries.drop_last(), key) is Some {
            let i = choose|i: int|
                0 <= i < entries.drop_last().len() && (#[trigger] entries.drop_last()[i]).1
                    == lookup_of(entries.drop_last(), key)->0;
            assert(entries[i] == entries.drop_last()[i]);
        } else if entries.last().0@ == key {
            assert(entries[entries.len() - 1] == entries.last());
        }
    }
}

/// The laws of resolving includes: one result per include, in declaration
/// order and under its own name, with the counts of the events they report.
pub proof fn lemma_children_laws(
    snapshot: Snapshot,
    names: Seq<Seq<char>>,
    directory: Option<Seq<char>>,
    active: Seq<Seq<char>>,
)
    requires
        valid_chain(snapshot, active),
    ensures
        children_resolution(snapshot, names, directory, active) matches ChildrenResult::Done(nodes, added) ==> {
            &&& nodes.len() == names.len()
            &&& resolved_events(added) == total_resolved(nodes)
            &&& error_events(added) == total_errors(nodes)
            &&& cycles_closed(added)
            &&& forall|i: int|
                0 <= i < nodes.len() ==> ((#[trigger] nodes[i]).manifest matches Some(m) ==> nodes[i].resolved
                    == tree_size(m) && m.name == names[i])
            &&& forall|i: int|
                0 <= i < nodes.len() ==> ((#[trigger] nodes[i]).errors == 0) == (nodes[i].manifest is Some)
        },
    decreases chain_bound(snapshot) - active.len(), 1int, names.len(),
{
    if names.len() == 0 {
        assert(cycles_closed(Seq::<EventView>::empty()));
    } else {
        lemma_children_laws(snapshot, names.drop_last(), directory, active);
        lemma_node_laws(snapshot, names.last(), directory, active);
        lemma_node_manifest_iff(snapshot, names.last(), directory, active);
        match children_resolution(snapshot, names.drop_last(), directory, active) {
            ChildrenResult::Needs(_) => {},
            ChildrenResult::Done(nodes, events) => {
                match node_resolution(snapshot, names.last(), directory, active) {
                    NodeResult::Needs(_) => {},
                    NodeResult::Done(node, more) => {
                        lemma_event_counts_add(events, more);
                        let all = nodes.push(node);
                        assert(all.drop_last() =~= nodes);
                        assert forall|i: int|
                            0 <= i < all.len() implies ((#[trigger] all[i]).manifest matches Some(m) ==> all[i].resolved
                                == tree_size(m) && m.name == names[i]) by {
                            if i < nodes.len() {
                                assert(all[i] == nodes[i]);
                                assert(names[i] == names.drop_last()[i]);
                            }
                        }
                    },
                }
            },
        }
    }
}

} // verus!

verus! {

/// A kept manifest lists its includes in declaration order, each under the
/// name it was included as, and holds the items its file declares.
pub proof fn lemma_includes_in_order(
    snapshot: Snapshot,
    name: Seq<char>,
    directory: Option<Seq<char>>,
    active: Seq<Seq<char>>,
)
    requires
        valid_chain(snapshot, active),
    ensures
        node_resolution(snapshot, name, directory, active) matches NodeResult::Done(node, _) ==> (
        node.manifest matches Some(m) ==> (load_of(snapshot.load_entries(), m.path) matches Some(
            Load::Parsed(file),
        ) && m.items == roots_view(file.items@) && m.manifests.len() == file.includes@.len()
            && forall|i: int|
            0 <= i < m.manifests.len() ==> (#[trigger] m.manifests[i]).name == file.includes@[i]@)),
{
    match find_manifest(snapshot, name, directory) {
        Search::At(path) => {
            if !active.contains(path) {
                match load_of(snapshot.load_entries(), path) {
                    Some(Load::Parsed(file)) => {
                        if active.len() < chain_bound(snapshot) {
                            lemma_found_path_is_found(snapshot, name, directory);
                            lemma_chain_fits(snapshot, active, path);
                            let names = strings_view(file.includes@);
                            lemma_children_laws(snapshot, names, path_parent(path), active.push(path));
                            match children_resolution(snapshot, names, path_parent(path), active.push(path)) {
                                ChildrenResult::Done(children, _) => {
                                    if total_errors(children) == 0 {
                                        assert forall|i: int| 0 <= i < children.len() implies (
                                        #[trigger] children[i]).manifest is Some by {
                                            lemma_no_errors_each(children, i);
                                        }
                                    }
                                },
                                _ => {},
                            }
                        }
                    },
                    _ => {},
                }
            }
        },
        _ => {},
    }
}

} // verus!

verus! {

/// A manifest to resolve: the name it was asked for by and its path.
#[derive(Clone, Debug, PartialEq)]
pub struct Input {
    pub name: String,
    pub path: String,
}

/// The candidate file for an include: `<name>.<extension>`, taken from
/// `directory` unless it is absolute.
pub fn include_input_candidate_path(directory: &str, name: &str, extension: &str) -> (path: String)
    ensures
        path@ == candidate(name@, extension@, Some(directory@)),
{
    candidate_path(&String::from_str(name), extension, &Some(String::from_str(directory)))
}

} // verus!

verus! {

/// Once includes were all resolved, each was looked up: for every name,
/// its `.yaml` candidate in `directory` has a recorded answer.
proof fn lemma_children_looked_up(
    snapshot: Snapshot,
    names: Seq<Seq<char>>,
    directory: Option<Seq<char>>,
    active: Seq<Seq<char>>,
)
    ensures
        children_resolution(snapshot, names, directory, active) is Done ==> forall|i: int|
            0 <= i < names.len() ==> lookup_of(
                snapshot.lookup_entries(),
                candidate(#[trigger] names[i], yaml_extension(), directory),
            ) is Some,
    decreases names.len(),
{
    if names.len() > 0 {
        lemma_children_looked_up(snapshot, names.drop_last(), directory, active);
        if children_resolution(snapshot, names, directory, active) is Done {
            assert forall|i: int| 0 <= i < names.len() implies lookup_of(
                snapshot.lookup_entries(),
                candidate(#[trigger] names[i], yaml_extension(), directory),
            ) is Some by {
                if i < names.len() - 1 {
                    assert(names[i] == names.drop_last()[i]);
                } else {
                    assert(names[i] == names.last());
                    assert(children_resolution(snapshot, names.drop_last(), directory, active) is Done);
                    assert(node_resolution(snapshot, names.last(), directory, active) is Done);
                }
            }
        }
    }
}

/// The first include that is not looked up yet is the question a
/// resolution of includes asks first.
proof fn lemma_children_ask_first(
    snapshot: Snapshot,
    names: Seq<Seq<char>>,
    directory: Option<Seq<char>>,
    active: Seq<Seq<char>>,
)
    requires
        names.len() > 0,
        lookup_of(snapshot.lookup_entries(), candidate(names[0], yaml_extension(), directory)) is None,
    ensures
        children_resolution(snapshot, names, directory, active) == ChildrenResult::Needs(
            RequestView::Canonicalize(candidate(names[0], yaml_extension(), directory)),
        ),
    decreases names.len(),
{
    if names.len() > 1 {
        assert(names.drop_last()[0] == names[0]);
        lemma_children_ask_first(snapshot, names.drop_last(), directory, active);
    } else {
        assert(names.last() == names[0]);
        assert(names.drop_last().len() == 0);
        assert(children_resolution(snapshot, names.drop_last(), directory, active) == ChildrenResult::Done(
            seq![],
            seq![],
        ));
        assert(node_resolution(snapshot, names[0], directory, active) == NodeResult::Needs(
            RequestView::Canonicalize(candidate(names[0], yaml_extension(), directory)),
        ));
    }
}

/// Includes are looked up beside the manifest that declares them: for a
/// manifest found at canonical path `path` (from whatever directory) and
/// parsed, every include name is looked up as a candidate in the parent
/// directory of `path`. Its first include is the first question asked when
/// that candidate is not answered yet, and a resolution that completes has
/// looked every include up there.
pub proof fn lemma_includes_beside_their_manifest(
    snapshot: Snapshot,
    name: Seq<char>,
    directory: Option<Seq<char>>,
    active: Seq<Seq<char>>,
    path: Seq<char>,
    file: ManifestFile,
)
    requires
        valid_chain(snapshot, active),
        find_manifest(snapshot, name, directory) == Search::At(path),
        !active.contains(path),
        load_of(snapshot.load_entries(), path) == Some(Load::Parsed(file)),
    ensures
        file.includes@.len() > 0 && lookup_of(
            snapshot.lookup_entries(),
            candidate(file.includes@[0]@, yaml_extension(), path_parent(path)),
        ) is None ==> node_resolution(snapshot, name, directory, active) == NodeResult::Needs(
            RequestView::Canonicalize(candidate(file.includes@[0]@, yaml_extension(), path_parent(path))),
        ),
        node_resolution(snapshot, name, directory, active) is Done ==> forall|i: int|
            0 <= i < file.includes@.len() ==> lookup_of(
                snapshot.lookup_entries(),
                candidate((#[trigger] file.includes@[i])@, yaml_extension(), path_parent(path)),
            ) is Some,
{
    lemma_found_path_is_found(snapshot, name, directory);
    lemma_chain_fits(snapshot, active, path);
    let names = strings_view(file.includes@);
    let deeper = active.push(path);
    lemma_children_looked_up(snapshot, names, path_parent(path), deeper);
    if file.includes@.len() > 0 && lookup_of(
        snapshot.lookup_entries(),
        candidate(file.includes@[0]@, yaml_extension(), path_parent(path)),
    ) is None {
        assert(names[0] == file.includes@[0]@);
        lemma_children_ask_first(snapshot, names, path_parent(path), deeper);
    }
    assert forall|i: int| 0 <= i < file.includes@.len() implies names[i] == (
    #[trigger] file.includes@[i])@ by {}
}

} // verus!
