//! Collections: named lists of item references that may inherit other
//! collections.
//!
//! A collection's inherited collections are resolved first, depth-first in
//! the order they are listed, each from `<dir>/<name>.yaml` where `<dir>` is
//! the directory of the inheriting collection's file; then its own items are
//! added. An item already added is not added again. A
//! collection reached a second time by another path (diamond inheritance)
//! is skipped once it is complete; a collection that inherits itself,
//! directly or through others, is an inheritance cycle.
//!
//! The file system is consulted through a record of answers: resolution
//! either finishes on it or names the one question it needs answered next.

use vstd::prelude::*;
use vstd::string::*;

use crate::paths::{join_path, joined, parent_of, path_parent};

verus! {

// ---------------------------------------------------------------------------
// Collection files and answers

/// A collection file as written.
#[derive(Debug, PartialEq)]
pub struct CollectionFile {
    /// If true, this collection cannot be run directly (only inherited).
    pub is_abstract: bool,
    /// Collection names to inherit, relative to this file's directory.
    pub inherit: Vec<String>,
    /// Item references (paths relative to the items directory, without
    /// `.yaml`).
    pub items: Vec<String>,
}

impl Default for CollectionFile {
    /// A concrete collection that inherits nothing and lists no items.
    fn default() -> (file: CollectionFile)
        ensures
            !file.is_abstract,
            file.inherit@.len() == 0,
            file.items@.len() == 0,
    {
        CollectionFile { is_abstract: false, inherit: Vec::new(), items: Vec::new() }
    }
}

/// What resolving a collection gives: whether the collection asked for is
/// abstract, and every item it references, inherited ones first, each once.
#[derive(Debug, PartialEq)]
pub struct ResolvedCollection {
    pub abstract_root: bool,
    pub item_refs: Vec<String>,
}

/// What canonicalizing a collection's path answered.
pub enum Canonical {
    /// The canonical path.
    Found(String),
    /// It failed; the message says why.
    Failed(String),
}

/// What reading and parsing a collection file answered.
pub enum CollectionLoad {
    Parsed(CollectionFile),
    /// The file could not be read; the message says why.
    Unreadable(String),
    /// The file is not a valid collection; the message says why.
    Malformed(String),
}

/// A question resolution needs answered.
#[derive(Debug, PartialEq)]
pub enum CollectionRequest {
    Canonicalize(String),
    Read(String),
}

/// Why a collection could not be resolved.
#[derive(Debug, PartialEq)]
pub enum CollectionError {
    /// The path of a collection could not be canonicalized.
    Canonicalize { path: String, message: String },
    /// A collection file could not be read.
    Read { path: String, message: String },
    /// A collection file is malformed.
    Yaml { path: String, message: String },
    /// The inheritance chain, joined by ` -> `, that returns to a collection
    /// already on it.
    Cycle(String),
}

/// What resolving over the recorded answers ends with.
pub enum CollectionStep {
    Done(Result<ResolvedCollection, CollectionError>),
    Needs(CollectionRequest),
}

/// The answers recorded so far.
pub struct CollectionAnswers {
    pub canonical: Vec<(String, Canonical)>,
    pub loads: Vec<(String, CollectionLoad)>,
}

impl CollectionAnswers {
    /// No answers yet.
    pub fn new() -> (answers: CollectionAnswers)
        ensures
            answers.canonical@.len() == 0,
            answers.loads@.len() == 0,
    {
        CollectionAnswers { canonical: Vec::new(), loads: Vec::new() }
    }
}

pub enum RequestView {
    Canonicalize(Seq<char>),
    Read(Seq<char>),
}

pub enum ErrorView {
    Canonicalize(Seq<char>, Seq<char>),
    Read(Seq<char>, Seq<char>),
    Yaml(Seq<char>, Seq<char>),
    Cycle(Seq<char>),
}

pub open spec fn request_view(request: CollectionRequest) -> RequestView {
    match request {
        CollectionRequest::Canonicalize(path) => RequestView::Canonicalize(path@),
        CollectionRequest::Read(path) => RequestView::Read(path@),
    }
}

/// Names joined by ` -> `.
pub open spec fn joined_chain(names: Seq<Seq<char>>) -> Seq<char>
    decreases names.len(),
{
    if names.len() == 0 {
        seq![]
    } else if names.len() == 1 {
        names[0]
    } else {
        joined_chain(names.drop_last()) + " -> "@ + names.last()
    }
}

pub open spec fn error_view(error: CollectionError) -> ErrorView {
    match error {
        CollectionError::Canonicalize { path, message } => ErrorView::Canonicalize(path@, message@),
        CollectionError::Read { path, message } => ErrorView::Read(path@, message@),
        CollectionError::Yaml { path, message } => ErrorView::Yaml(path@, message@),
        CollectionError::Cycle(chain) => ErrorView::Cycle(chain@),
    }
}

pub open spec fn strings_view(strings: Seq<String>) -> Seq<Seq<char>> {
    strings.map_values(|s: String| s@)
}

/// The first answer recorded for a path.
pub open spec fn answer_of<T>(entries: Seq<(String, T)>, key: Seq<char>) -> Option<T>
    decreases entries.len(),
{
    if entries.len() == 0 {
        None
    } else {
        match answer_of(entries.drop_last(), key) {
            Some(found) => Some(found),
            None => if entries.last().0@ == key {
                Some(entries.last().1)
            } else {
                None
            },
        }
    }
}

} // verus!

verus! {

// ---------------------------------------------------------------------------
// Resolution

/// The collections completed and the items added so far.
pub struct Walk {
    pub visited: Seq<Seq<char>>,
    pub items: Seq<Seq<char>>,
}

/// Where resolving a collection ends.
pub enum NodeStep {
    Needs(RequestView),
    Failed(ErrorView),
    Done(Walk),
}

/// Adds items in order, skipping those already present.
pub open spec fn add_items(items: Seq<Seq<char>>, added: Seq<Seq<char>>) -> Seq<Seq<char>>
    decreases added.len(),
{
    if added.len() == 0 {
        items
    } else {
        let earlier = add_items(items, added.drop_last());
        if earlier.contains(added.last()) {
            earlier
        } else {
            earlier.push(added.last())
        }
    }
}

/// Every collection name the recorded files inherit.
pub open spec fn inherited_names(entries: Seq<(String, CollectionLoad)>) -> Seq<Seq<char>>
    decreases entries.len(),
{
    if entries.len() == 0 {
        seq![]
    } else {
        inherited_names(entries.drop_last()) + match entries.last().1 {
            CollectionLoad::Parsed(file) => strings_view(file.inherit@),
            _ => seq![],
        }
    }
}

/// Every name an inheritance chain can hold: the root's and those the
/// recorded files inherit.
pub open spec fn universe(answers: CollectionAnswers, root: Seq<char>) -> Seq<Seq<char>> {
    seq![root] + inherited_names(answers.loads@)
}

/// The longest chain the answers allow: a chain holds distinct names.
pub open spec fn chain_bound(answers: CollectionAnswers, root: Seq<char>) -> int {
    universe(answers, root).len() as int
}

/// The directory of a collection file: its parent, or nothing when the
/// path has none.
pub open spec fn file_dir(path: Seq<char>) -> Seq<char> {
    match path_parent(path) {
        Some(parent) => parent,
        None => seq![],
    }
}

/// The file of an inherited collection: `<dir>/<name>.yaml`, with `dir` the
/// directory of the inheriting file.
pub open spec fn inherited_path(base_dir: Seq<char>, name: Seq<char>) -> Seq<char> {
    joined(base_dir, name + ".yaml"@)
}

/// Resolves collection `name` at `path`, with the names of the collections
/// that inherit it on `chain`; what it inherits is looked up in the
/// directory of `path`.
pub open spec fn node_step(
    answers: CollectionAnswers,
    root: Seq<char>,
    name: Seq<char>,
    path: Seq<char>,
    chain: Seq<Seq<char>>,
    walk: Walk,
) -> NodeStep
    decreases chain_bound(answers, root) - chain.len(), 0int, 0int,
{
    match answer_of(answers.canonical@, path) {
        None => NodeStep::Needs(RequestView::Canonicalize(path)),
        Some(Canonical::Failed(message)) => NodeStep::Failed(
            ErrorView::Canonicalize(path, message@),
        ),
        Some(Canonical::Found(canonical)) => if chain.contains(name) {
            NodeStep::Failed(ErrorView::Cycle(joined_chain(chain.push(name))))
        } else if walk.visited.contains(canonical@) {
            NodeStep::Done(walk)
        } else {
            match answer_of(answers.loads@, path) {
                None => NodeStep::Needs(RequestView::Read(path)),
                Some(CollectionLoad::Unreadable(message)) => NodeStep::Failed(
                    ErrorView::Read(path, message@),
                ),
                Some(CollectionLoad::Malformed(message)) => NodeStep::Failed(
                    ErrorView::Yaml(path, message@),
                ),
                Some(CollectionLoad::Parsed(file)) => if chain.len() >= chain_bound(answers, root) {
                    // Never taken: see `lemma_chain_fits`.
                    NodeStep::Needs(RequestView::Read(path))
                } else {
                    match inherits_step(
                        answers,
                        root,
                        strings_view(file.inherit@),
                        file_dir(path),
                        chain.push(name),
                        walk,
                    ) {
                        NodeStep::Done(done) => NodeStep::Done(
                            Walk {
                                visited: done.visited.push(canonical@),
                                items: add_items(done.items, strings_view(file.items@)),
                            },
                        ),
                        other => other,
                    }
                },
            }
        },
    }
}

/// Resolves inherited collections in the order they are listed, each from
/// `base_dir`, the directory of the inheriting file.
pub open spec fn inherits_step(
    answers: CollectionAnswers,
    root: Seq<char>,
    names: Seq<Seq<char>>,
    base_dir: Seq<char>,
    chain: Seq<Seq<char>>,
    walk: Walk,
) -> NodeStep
    decreases chain_bound(answers, root) - chain.len(), 1int, names.len(),
{
    if names.len() == 0 {
        NodeStep::Done(walk)
    } else {
        match inherits_step(answers, root, names.drop_last(), base_dir, chain, walk) {
            NodeStep::Done(done) => node_step(
                answers,
                root,
                names.last(),
                inherited_path(base_dir, names.last()),
                chain,
                done,
            ),
            other => other,
        }
    }
}

/// The name resolution starts from: the collection file's stem, or `root`.
pub open spec fn root_name(collection_path: Seq<char>) -> Seq<char> {
    match path_file_stem(collection_path) {
        Some(stem) => stem,
        None => "root"@,
    }
}

/// Where resolving a collection file ends.
pub enum CollectionResult {
    Needs(RequestView),
    Failed(ErrorView),
    Resolved(bool, Seq<Seq<char>>),
}

/// Resolves the collection at `collection_path`: the file is read first;
/// then it and everything it inherits are resolved, each inherited name
/// from the directory of the file that names it.
pub open spec fn collection_result(
    answers: CollectionAnswers,
    collection_path: Seq<char>,
) -> CollectionResult {
    match answer_of(answers.loads@, collection_path) {
        None => CollectionResult::Needs(RequestView::Read(collection_path)),
        Some(CollectionLoad::Unreadable(message)) => CollectionResult::Failed(
            ErrorView::Read(collection_path, message@),
        ),
        Some(CollectionLoad::Malformed(message)) => CollectionResult::Failed(
            ErrorView::Yaml(collection_path, message@),
        ),
        Some(CollectionLoad::Parsed(file)) => match node_step(
            answers,
            root_name(collection_path),
            root_name(collection_path),
            collection_path,
            seq![],
            Walk { visited: seq![], items: seq![] },
        ) {
            NodeStep::Needs(request) => CollectionResult::Needs(request),
            NodeStep::Failed(error) => CollectionResult::Failed(error),
            NodeStep::Done(walk) => CollectionResult::Resolved(file.is_abstract, walk.items),
        },
    }
}

/// Name for what `std::path::Path::file_stem` returns for a path, as text:
/// the final component without its extension, if there is one.
pub uninterp spec fn path_file_stem(path: Seq<char>) -> Option<Seq<char>>;

/// Calls `std::path::Path::file_stem`. The contract claims only that the
/// result is the one `path_file_stem` names for this argument.
#[verifier::external_body]
fn file_stem_of(path: &str) -> (stem: Option<String>)
    ensures
        stem.deep_view() == path_file_stem(path@),
{
    std::path::Path::new(path).file_stem().map(|stem| stem.to_string_lossy().into_owned())
}

} // verus!

verus! {

// ---------------------------------------------------------------------------
// Lemmas

proof fn lemma_answer_persists<T>(entries: Seq<(String, T)>, key: Seq<char>, k: int)
    requires
        0 <= k <= entries.len(),
        answer_of(entries.take(k), key) is Some,
    ensures
        answer_of(entries, key) == answer_of(entries.take(k), key),
    decreases entries.len() - k,
{
    if k < entries.len() {
        assert(entries.take(k + 1).drop_last() =~= entries.take(k));
        lemma_answer_persists(entries, key, k + 1);
    } else {
        assert(entries.take(k) =~= entries);
    }
}

proof fn lemma_answer_recorded<T>(entries: Seq<(String, T)>, key: Seq<char>)
    requires
        answer_of(entries, key) is Some,
    ensures
        exists|e: int| 0 <= e < entries.len() && entries[e].1 == answer_of(entries, key)->0,
    decreases entries.len(),
{
    if answer_of(entries.drop_last(), key) is Some {
        lemma_answer_recorded(entries.drop_last(), key);
        let e = choose|e: int|
            0 <= e < entries.drop_last().len() && entries.drop_last()[e].1 == answer_of(
                entries.drop_last(),
                key,
            )->0;
        assert(entries[e] == entries.drop_last()[e]);
    } else {
        assert(entries[entries.len() - 1].1 == answer_of(entries, key)->0);
    }
}

proof fn lemma_inherited_listed(entries: Seq<(String, CollectionLoad)>, e: int, file: CollectionFile, i: int)
    requires
        0 <= e < entries.len(),
        entries[e].1 == CollectionLoad::Parsed(file),
        0 <= i < file.inherit@.len(),
    ensures
        inherited_names(entries).contains(file.inherit@[i]@),
    decreases entries.len(),
{
    let earlier = inherited_names(entries.drop_last());
    let last = match entries.last().1 {
        CollectionLoad::Parsed(f) => strings_view(f.inherit@),
        _ => seq![],
    };
    assert(inherited_names(entries) == earlier + last);
    if e == entries.len() - 1 {
        assert((earlier + last)[earlier.len() + i] == file.inherit@[i]@);
    } else {
        lemma_inherited_listed(entries.drop_last(), e, file, i);
        let j = choose|j: int| 0 <= j < earlier.len() && earlier[j] == file.inherit@[i]@;
        assert((earlier + last)[j] == file.inherit@[i]@);
    }
}

/// The names a recorded collection inherits can be on a chain.
proof fn lemma_inherited_in_universe(
    answers: CollectionAnswers,
    root: Seq<char>,
    path: Seq<char>,
    file: CollectionFile,
)
    requires
        answer_of(answers.loads@, path) == Some(CollectionLoad::Parsed(file)),
    ensures
        forall|i: int|
            0 <= i < file.inherit@.len() ==> universe(answers, root).contains(
                #[trigger] file.inherit@[i]@,
            ),
{
    lemma_answer_recorded(answers.loads@, path);
    let e = choose|e: int|
        0 <= e < answers.loads@.len() && answers.loads@[e].1 == answer_of(answers.loads@, path)->0;
    assert forall|i: int| 0 <= i < file.inherit@.len() implies universe(answers, root).contains(
        #[trigger] file.inherit@[i]@,
    ) by {
        lemma_inherited_listed(answers.loads@, e, file, i);
        let names = inherited_names(answers.loads@);
        let j = choose|j: int| 0 <= j < names.len() && names[j] == file.inherit@[i]@;
        assert(universe(answers, root)[j + 1] == file.inherit@[i]@);
    }
}

/// A chain holds distinct names that can be on a chain.
pub open spec fn valid_chain(answers: CollectionAnswers, root: Seq<char>, chain: Seq<Seq<char>>) -> bool {
    &&& chain.no_duplicates()
    &&& forall|i: int| 0 <= i < chain.len() ==> universe(answers, root).contains(#[trigger] chain[i])
}

/// A chain extended by a new name still fits the bound.
pub proof fn lemma_chain_fits(
    answers: CollectionAnswers,
    root: Seq<char>,
    chain: Seq<Seq<char>>,
    name: Seq<char>,
)
    requires
        valid_chain(answers, root, chain),
        universe(answers, root).contains(name),
        !chain.contains(name),
    ensures
        chain.len() < chain_bound(answers, root),
        valid_chain(answers, root, chain.push(name)),
{
    let longer = chain.push(name);
    let all = universe(answers, root);
    assert(longer.no_duplicates()) by {
        assert forall|i: int, j: int| 0 <= i < longer.len() && 0 <= j < longer.len() && i != j
            implies longer[i] != longer[j] by {
            if i == chain.len() {
                assert(chain.contains(longer[j]) || j == i);
            } else if j == chain.len() {
                assert(chain.contains(longer[i]));
            }
        }
    }
    assert forall|x: Seq<char>| longer.to_set().contains(x) implies all.to_set().contains(x) by {
        let i = choose|i: int| 0 <= i < longer.len() && longer[i] == x;
        if i < chain.len() {
            assert(all.contains(chain[i]));
        }
    }
    longer.unique_seq_to_set();
    all.lemma_cardinality_of_set();
    vstd::set_lib::lemma_len_subset(longer.to_set(), all.to_set());
}

proof fn lemma_inherits_persist(
    answers: CollectionAnswers,
    root: Seq<char>,
    names: Seq<Seq<char>>,
    base_dir: Seq<char>,
    chain: Seq<Seq<char>>,
    walk: Walk,
    k: int,
)
    requires
        0 <= k <= names.len(),
        !(inherits_step(answers, root, names.take(k), base_dir, chain, walk) is Done),
    ensures
        inherits_step(answers, root, names, base_dir, chain, walk) == inherits_step(
            answers,
            root,
            names.take(k),
            base_dir,
            chain,
            walk,
        ),
    decreases names.len() - k,
{
    if k < names.len() {
        assert(names.take(k + 1).drop_last() =~= names.take(k));
        lemma_inherits_persist(answers, root, names, base_dir, chain, walk, k + 1);
    } else {
        assert(names.take(k) =~= names);
    }
}

// ---------------------------------------------------------------------------
// Executable resolution

/// Why resolution stopped before finishing.
enum Halt {
    Needs(CollectionRequest),
    Failed(CollectionError),
}

fn answer_index<T>(entries: &Vec<(String, T)>, key: &String) -> (found: Option<usize>)
    ensures
        match found {
            Some(i) => i < entries@.len() && answer_of(entries@, key@) == Some(entries@[i as int].1),
            None => answer_of(entries@, key@) is None,
        },
{
    let mut i: usize = 0;
    while i < entries.len()
        invariant
            0 <= i <= entries@.len(),
            answer_of(entries@.take(i as int), key@) is None,
        decreases entries@.len() - i,
    {
        assert(entries@.take(i + 1).drop_last() =~= entries@.take(i as int));
        if entries[i].0.eq(key) {
            proof {
                lemma_answer_persists(entries@, key@, i + 1);
            }
            return Some(i);
        }
        i = i + 1;
    }
    assert(entries@.take(i as int) =~= entries@);
    None
}

fn contains_name(names: &Vec<String>, name: &String) -> (found: bool)
    ensures
        found == strings_view(names@).contains(name@),
{
    let mut i: usize = 0;
    while i < names.len()
        invariant
            0 <= i <= names@.len(),
            forall|j: int| 0 <= j < i ==> names@[j]@ != name@,
        decreases names@.len() - i,
    {
        if names[i].eq(name) {
            assert(strings_view(names@)[i as int] == name@);
            return true;
        }
        i = i + 1;
    }
    proof {
        if strings_view(names@).contains(name@) {
            let j = choose|j: int| 0 <= j < names@.len() && strings_view(names@)[j] == name@;
            assert(names@[j]@ == name@);
        }
    }
    false
}

proof fn lemma_strings_push(strings: Seq<String>, s: String)
    ensures
        strings_view(strings.push(s)) == strings_view(strings).push(s@),
{
    assert(strings_view(strings.push(s)) =~= strings_view(strings).push(s@));
}

/// The chain followed by `last`, joined by ` -> `.
fn join_chain(chain: &Vec<String>, last: &String) -> (text: String)
    ensures
        text@ == joined_chain(strings_view(chain@).push(last@)),
{
    let mut text = String::new();
    let ghost names = strings_view(chain@).push(last@);
    proof {
        reveal_strlit(" -> ");
    }
    for i in 0..chain.len()
        invariant
            names == strings_view(chain@).push(last@),
            i == 0 ==> text@ == Seq::<char>::empty(),
            i > 0 ==> text@ == joined_chain(names.take(i as int)),
    {
        if i > 0 {
            text.append(" -> ");
        }
        text.append(chain[i].as_str());
        proof {
            assert(names.take(i + 1).drop_last() =~= names.take(i as int));
            assert(names.take(i + 1).last() == chain@[i as int]@);
            if i == 0 {
                assert(joined_chain(names.take(1)) == names.take(1)[0]);
            }
        }
    }
    if chain.len() > 0 {
        text.append(" -> ");
    }
    text.append(last.as_str());
    proof {
        assert(names.take(names.len() as int) =~= names);
        assert(names.drop_last() =~= names.take(chain@.len() as int));
        if chain@.len() == 0 {
            assert(joined_chain(names) == names[0]);
        }
    }
    text
}

fn add_new_items(items: &mut Vec<String>, added: &Vec<String>)
    ensures
        strings_view(final(items)@) == add_items(strings_view(old(items)@), strings_view(added@)),
{
    let ghost start = strings_view(items@);
    for i in 0..added.len()
        invariant
            strings_view(items@) == add_items(start, strings_view(added@).take(i as int)),
    {
        let item = &added[i];
        proof {
            assert(strings_view(added@).take(i + 1).drop_last() =~= strings_view(added@).take(
                i as int,
            ));
            assert(strings_view(added@).take(i + 1).last() == item@);
        }
        if !contains_name(items, item) {
            let ghost before = items@;
            items.push(item.clone());
            proof {
                lemma_strings_push(before, items@.last());
            }
        }
    }
    proof {
        assert(strings_view(added@).take(added@.len() as int) =~= strings_view(added@));
    }
}

/// The file of an inherited collection.
fn inherited_file(base_dir: &str, name: &String) -> (path: String)
    ensures
        path@ == inherited_path(base_dir@, name@),
{
    let mut file = name.clone();
    proof {
        reveal_strlit(".yaml");
    }
    file.append(".yaml");
    join_path(base_dir, file.as_str())
}

} // verus!

verus! {

/// The halt that a step that did not finish stands for.
spec fn halts_with(result: Result<(), Halt>, step: NodeStep) -> bool {
    match step {
        NodeStep::Needs(request) => result matches Err(Halt::Needs(q)) && request_view(q) == request,
        NodeStep::Failed(error) => result matches Err(Halt::Failed(e)) && error_view(e) == error,
        NodeStep::Done(_) => false,
    }
}

/// Resolves one collection and, depth-first, what it inherits.
#[verifier::loop_isolation(false)]
fn resolve_node(
    answers: &CollectionAnswers,
    root: &String,
    name: &String,
    path: &String,
    chain: &mut Vec<String>,
    visited: &mut Vec<String>,
    items: &mut Vec<String>,
) -> (result: Result<(), Halt>)
    requires
        valid_chain(*answers, root@, strings_view(old(chain)@)),
        universe(*answers, root@).contains(name@),
    ensures
        match node_step(
            *answers,
            root@,
            name@,
            path@,
            strings_view(old(chain)@),
            Walk { visited: strings_view(old(visited)@), items: strings_view(old(items)@) },
        ) {
            NodeStep::Done(walk) => {
                &&& result is Ok
                &&& strings_view(final(visited)@) == walk.visited
                &&& strings_view(final(items)@) == walk.items
                &&& final(chain)@ == old(chain)@
            },
            step => halts_with(result, step),
        },
    decreases chain_bound(*answers, root@) - old(chain)@.len(),
{
    let ghost chain0 = strings_view(chain@);
    let ghost walk0 = Walk { visited: strings_view(visited@), items: strings_view(items@) };
    let c = match answer_index(&answers.canonical, path) {
        None => {
            return Err(Halt::Needs(CollectionRequest::Canonicalize(path.clone())));
        },
        Some(c) => c,
    };
    let canonical = match &answers.canonical[c].1 {
        Canonical::Failed(message) => {
            return Err(
                Halt::Failed(
                    CollectionError::Canonicalize { path: path.clone(), message: message.clone() },
                ),
            );
        },
        Canonical::Found(canonical) => canonical,
    };
    if contains_name(chain, name) {
        return Err(Halt::Failed(CollectionError::Cycle(join_chain(chain, name))));
    }
    if contains_name(visited, canonical) {
        return Ok(());
    }
    let l = match answer_index(&answers.loads, path) {
        None => {
            return Err(Halt::Needs(CollectionRequest::Read(path.clone())));
        },
        Some(l) => l,
    };
    let file = match &answers.loads[l].1 {
        CollectionLoad::Unreadable(message) => {
            return Err(
                Halt::Failed(CollectionError::Read { path: path.clone(), message: message.clone() }),
            );
        },
        CollectionLoad::Malformed(message) => {
            return Err(
                Halt::Failed(CollectionError::Yaml { path: path.clone(), message: message.clone() }),
            );
        },
        CollectionLoad::Parsed(file) => file,
    };
    proof {
        lemma_chain_fits(*answers, root@, chain0, name@);
        lemma_inherited_in_universe(*answers, root@, path@, *file);
    }
    let ghost before = chain@;
    chain.push(name.clone());
    proof {
        lemma_strings_push(before, chain@.last());
    }
    let base_dir = match parent_of(path.as_str()) {
        Some(parent) => parent,
        None => String::new(),
    };
    assert(base_dir@ == file_dir(path@));
    let ghost names = strings_view(file.inherit@);
    let ghost deeper = chain0.push(name@);
    proof {
        assert(names.take(0).len() == 0);
    }
    for k in 0..file.inherit.len()
        invariant
            valid_chain(*answers, root@, deeper),
            strings_view(chain@) == deeper,
            chain@ == before.push(chain@.last()),
            chain@.len() == old(chain)@.len() + 1,
            deeper.len() == chain0.len() + 1,
            chain0.len() < chain_bound(*answers, root@),
            chain0 == strings_view(before),
            names == strings_view(file.inherit@),
            forall|i: int|
                0 <= i < file.inherit@.len() ==> universe(*answers, root@).contains(
                    #[trigger] file.inherit@[i]@,
                ),
            base_dir@ == file_dir(path@),
            inherits_step(*answers, root@, names.take(k as int), base_dir@, deeper, walk0)
                == NodeStep::Done(Walk { visited: strings_view(visited@), items: strings_view(items@) }),
    {
        let inherited = &file.inherit[k];
        let inherited_at = inherited_file(base_dir.as_str(), inherited);
        proof {
            assert(names.take(k + 1).drop_last() =~= names.take(k as int));
            assert(names.take(k + 1).last() == inherited@);
            assert(universe(*answers, root@).contains(file.inherit@[k as int]@));
        }
        let ghost mid = chain@;
        let outcome = resolve_node(answers, root, inherited, &inherited_at, chain, visited, items);
        match outcome {
            Ok(()) => {},
            Err(halt) => {
                proof {
                    lemma_inherits_persist(*answers, root@, names, base_dir@, deeper, walk0, k + 1);
                }
                return Err(halt);
            },
        }
    }
    proof {
        assert(names.take(names.len() as int) =~= names);
    }
    chain.pop();
    visited.push(canonical.clone());
    add_new_items(items, &file.items);
    Ok(())
}

} // verus!

verus! {

/// Resolves the collection at `collection_path` over the recorded answers:
/// either the result, or the next question the answers cannot settle.
/// Inherited names are taken from the directory of the file that names them,
/// so the configuration directory is not consulted.
pub fn resolve(collection_path: &str, _config_dir: &str, answers: &CollectionAnswers) -> (step:
    CollectionStep)
    ensures
        match collection_result(*answers, collection_path@) {
            CollectionResult::Needs(request) => step matches CollectionStep::Needs(q)
                && request_view(q) == request,
            CollectionResult::Failed(error) => step matches CollectionStep::Done(Err(e))
                && error_view(e) == error,
            CollectionResult::Resolved(is_abstract, items) => step matches CollectionStep::Done(
                Ok(resolved),
            ) && resolved.abstract_root == is_abstract && strings_view(resolved.item_refs@)
                == items,
        },
{
    let path = String::from_str(collection_path);
    let l = match answer_index(&answers.loads, &path) {
        None => {
            return CollectionStep::Needs(CollectionRequest::Read(path));
        },
        Some(l) => l,
    };
    let file = match &answers.loads[l].1 {
        CollectionLoad::Unreadable(message) => {
            return CollectionStep::Done(
                Err(CollectionError::Read { path, message: message.clone() }),
            );
        },
        CollectionLoad::Malformed(message) => {
            return CollectionStep::Done(
                Err(CollectionError::Yaml { path, message: message.clone() }),
            );
        },
        CollectionLoad::Parsed(file) => file,
    };
    let root = match file_stem_of(collection_path) {
        Some(stem) => stem,
        None => {
            proof {
                reveal_strlit("root");
            }
            String::from_str("root")
        },
    };
    let mut chain: Vec<String> = Vec::new();
    let mut visited: Vec<String> = Vec::new();
    let mut items: Vec<String> = Vec::new();
    proof {
        assert(strings_view(chain@) =~= Seq::<Seq<char>>::empty());
        assert(strings_view(visited@) =~= Seq::<Seq<char>>::empty());
        assert(strings_view(items@) =~= Seq::<Seq<char>>::empty());
        assert(universe(*answers, root@)[0] == root@);
    }
    match resolve_node(answers, &root, &root, &path, &mut chain, &mut visited, &mut items) {
        Ok(()) => CollectionStep::Done(
            Ok(ResolvedCollection { abstract_root: file.is_abstract, item_refs: items }),
        ),
        Err(Halt::Needs(request)) => CollectionStep::Needs(request),
        Err(Halt::Failed(error)) => CollectionStep::Done(Err(error)),
    }
}

} // verus!

verus! {

// ---------------------------------------------------------------------------
// Laws

proof fn lemma_add_items(items: Seq<Seq<char>>, added: Seq<Seq<char>>)
    requires
        items.no_duplicates(),
    ensures
        add_items(items, added).no_duplicates(),
        add_items(items, added).take(items.len() as int) == items,
        items.len() <= add_items(items, added).len(),
    decreases added.len(),
{
    if added.len() > 0 {
        lemma_add_items(items, added.drop_last());
        let earlier = add_items(items, added.drop_last());
        if !earlier.contains(added.last()) {
            let longer = earlier.push(added.last());
            assert(longer.no_duplicates()) by {
                assert forall|i: int, j: int|
                    0 <= i < longer.len() && 0 <= j < longer.len() && i != j implies longer[i]
                    != longer[j] by {
                    if i == earlier.len() {
                        assert(earlier.contains(longer[j]) || j == i);
                    } else if j == earlier.len() {
                        assert(earlier.contains(longer[i]));
                    }
                }
            }
            assert(longer.take(items.len() as int) =~= earlier.take(items.len() as int));
        }
    }
}

proof fn lemma_node_items(
    answers: CollectionAnswers,
    root: Seq<char>,
    name: Seq<char>,
    path: Seq<char>,
    chain: Seq<Seq<char>>,
    walk: Walk,
)
    requires
        walk.items.no_duplicates(),
    ensures
        node_step(answers, root, name, path, chain, walk) matches NodeStep::Done(done)
            ==> done.items.no_duplicates() && walk.items.len() <= done.items.len()
            && done.items.take(walk.items.len() as int) == walk.items,
    decreases chain_bound(answers, root) - chain.len(), 0int, 0int,
{
    match answer_of(answers.canonical@, path) {
        Some(Canonical::Found(canonical)) => {
            if !chain.contains(name) && !walk.visited.contains(canonical@) {
                match answer_of(answers.loads@, path) {
                    Some(CollectionLoad::Parsed(file)) => {
                        if chain.len() < chain_bound(answers, root) {
                            lemma_inherits_items(
                                answers,
                                root,
                                strings_view(file.inherit@),
                                file_dir(path),
                                chain.push(name),
                                walk,
                            );
                            match inherits_step(
                                answers,
                                root,
                                strings_view(file.inherit@),
                                file_dir(path),
                                chain.push(name),
                                walk,
                            ) {
                                NodeStep::Done(done) => {
                                    lemma_add_items(done.items, strings_view(file.items@));
                                    let all = add_items(done.items, strings_view(file.items@));
                                    assert(all.take(walk.items.len() as int) =~= all.take(
                                        done.items.len() as int,
                                    ).take(walk.items.len() as int));
                                },
                                _ => {},
                            }
                        }
                    },
                    _ => {},
                }
            }
        },
        _ => {},
    }
}

proof fn lemma_inherits_items(
    answers: CollectionAnswers,
    root: Seq<char>,
    names: Seq<Seq<char>>,
    base_dir: Seq<char>,
    chain: Seq<Seq<char>>,
    walk: Walk,
)
    requires
        walk.items.no_duplicates(),
    ensures
        inherits_step(answers, root, names, base_dir, chain, walk) matches NodeStep::Done(done)
            ==> done.items.no_duplicates() && walk.items.len() <= done.items.len()
            && done.items.take(walk.items.len() as int) == walk.items,
    decreases chain_bound(answers, root) - chain.len(), 1int, names.len(),
{
    if names.len() > 0 {
        lemma_inherits_items(answers, root, names.drop_last(), base_dir, chain, walk);
        match inherits_step(answers, root, names.drop_last(), base_dir, chain, walk) {
            NodeStep::Done(done) => {
                lemma_node_items(
                    answers,
                    root,
                    names.last(),
                    inherited_path(base_dir, names.last()),
                    chain,
                    done,
                );
                match node_step(
                    answers,
                    root,
                    names.last(),
                    inherited_path(base_dir, names.last()),
                    chain,
                    done,
                ) {
                    NodeStep::Done(last) => {
                        assert(last.items.take(walk.items.len() as int) =~= last.items.take(
                            done.items.len() as int,
                        ).take(walk.items.len() as int));
                    },
                    _ => {},
                }
            },
            _ => {},
        }
    }
}

/// A resolved collection lists every item at most once.
pub proof fn lemma_resolved_items_unique(answers: CollectionAnswers, collection_path: Seq<char>)
    ensures
        collection_result(answers, collection_path) matches CollectionResult::Resolved(
            _,
            items,
        ) ==> items.no_duplicates(),
{
    let root = root_name(collection_path);
    lemma_node_items(
        answers,
        root,
        root,
        collection_path,
        seq![],
        Walk { visited: seq![], items: seq![] },
    );
}

/// Inherited items come first: resolving an inherited collection only
/// appends to the items gathered before it, and a collection's own items
/// are appended after everything it inherits.
pub proof fn lemma_items_only_grow(
    answers: CollectionAnswers,
    root: Seq<char>,
    name: Seq<char>,
    path: Seq<char>,
    chain: Seq<Seq<char>>,
    walk: Walk,
)
    requires
        walk.items.no_duplicates(),
    ensures
        node_step(answers, root, name, path, chain, walk) matches NodeStep::Done(done)
            ==> done.items.take(walk.items.len() as int) == walk.items,
{
    lemma_node_items(answers, root, name, path, chain, walk);
}

} // verus!
