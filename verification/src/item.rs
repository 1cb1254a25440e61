//! Item files: a list of system/shed path pairs for one synced item.
//!
//! An item reference such as `editors/neovim` names the file
//! `<config>/editors/neovim.yaml`. Its shed paths are taken relative to
//! `<sync>/editors/neovim`. A system path that begins with a complete
//! `$HOME` (the whole path, or `$HOME` followed by `/`) has that prefix
//! replaced by the home directory, when one is known.

use vstd::prelude::*;
use vstd::string::*;

use crate::paths::{join_path, joined};

verus! {

/// One entry of an item file as written.
#[derive(Debug, PartialEq)]
pub struct ItemEntry {
    /// Absolute system path (supports `$HOME` expansion).
    pub system: String,
    /// Relative path within the item's storage directory.
    pub shed: String,
}

/// One entry with both paths resolved.
#[derive(Debug, PartialEq)]
pub struct ResolvedEntry {
    pub system: String,
    pub shed: String,
}

/// An item with its storage directory and resolved entries.
#[derive(Debug, PartialEq)]
pub struct ResolvedItem {
    pub name: String,
    pub shed_base: String,
    pub entries: Vec<ResolvedEntry>,
}

/// What reading an item file gave.
pub enum ItemFile {
    /// No file at the item's path.
    Missing,
    /// The file exists but could not be read; the reason.
    Unreadable(String),
    /// The file is not a valid list of entries; the reason.
    Malformed(String),
    /// The entries it lists.
    Parsed(Vec<ItemEntry>),
}

/// Why an item could not be loaded.
#[derive(Debug, PartialEq)]
pub enum ItemError {
    /// No item file at this path.
    NotFound(String),
    /// Reading the item file at this path failed, for this reason.
    Io(String, String),
    /// The item file at this path is malformed, for this reason.
    Yaml(String, String),
}

pub open spec fn home_prefix() -> Seq<char> {
    "$HOME"@
}

/// Whether a path begins with a complete `$HOME`: the whole path, or
/// `$HOME` followed by `/`.
pub open spec fn uses_home(path: Seq<char>) -> bool {
    &&& path.len() >= 5
    &&& path.take(5) == home_prefix()
    &&& (path.len() == 5 || path[5] == '/')
}

/// A system path with a complete leading `$HOME` replaced by `home`, when
/// one is known; any other path, or any path when no home is known, stays as
/// it is.
pub open spec fn expanded(path: Seq<char>, home: Option<Seq<char>>) -> Seq<char> {
    match home {
        Some(home) => if uses_home(path) {
            home + path.skip(5)
        } else {
            path
        },
        None => path,
    }
}

/// `<config>/<reference>.yaml`.
pub open spec fn item_path(config_dir: Seq<char>, item_ref: Seq<char>) -> Seq<char> {
    joined(config_dir, item_ref + ".yaml"@)
}

/// The storage directory of an item: `<sync>/<reference>`.
pub open spec fn shed_base_of(sync_dir: Seq<char>, item_ref: Seq<char>) -> Seq<char> {
    joined(sync_dir, item_ref)
}

/// An entry as plain values: its system and shed paths.
pub open spec fn entry_pair(entry: ResolvedEntry) -> (Seq<char>, Seq<char>) {
    (entry.system@, entry.shed@)
}

/// The entries of an item resolved from what its file lists.
pub open spec fn resolved_entries(
    entries: Seq<ItemEntry>,
    shed_base: Seq<char>,
    home: Option<Seq<char>>,
) -> Seq<(Seq<char>, Seq<char>)> {
    Seq::new(
        entries.len(),
        |i: int| (expanded(entries[i].system@, home), joined(shed_base, entries[i].shed@)),
    )
}

/// An item, resolved: its name, its storage directory and its entries.
pub open spec fn item_resolves_to(
    item: ResolvedItem,
    item_ref: Seq<char>,
    sync_dir: Seq<char>,
    home: Option<Seq<char>>,
    entries: Seq<ItemEntry>,
) -> bool {
    &&& item.name@ == item_ref
    &&& item.shed_base@ == shed_base_of(sync_dir, item_ref)
    &&& item.entries@.map_values(|e: ResolvedEntry| entry_pair(e)) == resolved_entries(
        entries,
        shed_base_of(sync_dir, item_ref),
        home,
    )
}

/// An item loaded from a parsed file.
pub open spec fn loaded_from(
    item: ResolvedItem,
    file: ItemFile,
    item_ref: Seq<char>,
    sync_dir: Seq<char>,
    home: Option<Seq<char>>,
) -> bool {
    match file {
        ItemFile::Parsed(entries) => item_resolves_to(item, item_ref, sync_dir, home, entries@),
        _ => false,
    }
}

/// The error that a failed item file gives, if it failed.
pub open spec fn file_error(file: ItemFile, path: Seq<char>) -> Option<(int, Seq<char>, Seq<char>)> {
    match file {
        ItemFile::Missing => Some((0, path, seq![])),
        ItemFile::Unreadable(reason) => Some((1, path, reason@)),
        ItemFile::Malformed(reason) => Some((2, path, reason@)),
        ItemFile::Parsed(_) => None,
    }
}

/// An error as plain values: its kind (not found, unreadable, malformed),
/// its path and its reason.
pub open spec fn error_view(error: ItemError) -> (int, Seq<char>, Seq<char>) {
    match error {
        ItemError::NotFound(path) => (0, path@, seq![]),
        ItemError::Io(path, reason) => (1, path@, reason@),
        ItemError::Yaml(path, reason) => (2, path@, reason@),
    }
}

/// The first item whose file failed, if any.
pub open spec fn first_failure(files: Seq<ItemFile>) -> Option<int>
    decreases files.len(),
{
    if files.len() == 0 {
        None
    } else {
        match first_failure(files.drop_last()) {
            Some(i) => Some(i),
            None => if files.last() is Parsed {
                None
            } else {
                Some(files.len() - 1)
            },
        }
    }
}

/// Whether `path` begins with a complete `$HOME`.
fn starts_with_home(path: &str) -> (found: bool)
    ensures
        found == uses_home(path@),
{
    proof {
        reveal_strlit("$HOME");
    }
    let prefix = "$HOME";
    if path.unicode_len() < 5 {
        return false;
    }
    let mut i: usize = 0;
    while i < 5
        invariant
            0 <= i <= 5,
            path@.len() >= 5,
            prefix@ == home_prefix(),
            prefix@.len() == 5,
            forall|j: int| 0 <= j < i ==> path@[j] == prefix@[j],
        decreases 5 - i,
    {
        if path.get_char(i) != prefix.get_char(i) {
            assert(path@.take(5)[i as int] != home_prefix()[i as int]);
            return false;
        }
        i = i + 1;
    }
    assert(path@.take(5) =~= home_prefix());
    path.unicode_len() == 5 || path.get_char(5) == '/'
}

/// Replaces a complete leading `$HOME` of a system path with the home
/// directory, when one is known.
pub fn expand_home(path: &str, home: &Option<String>) -> (out: String)
    ensures
        out@ == expanded(path@, home.deep_view()),
{
    match home {
        Some(home) => {
            if starts_with_home(path) {
                let mut out = home.clone();
                let n = path.unicode_len();
                out.append(path.substring_char(5, n));
                assert(path@.subrange(5, n as int) =~= path@.skip(5));
                out
            } else {
                String::from_str(path)
            }
        },
        None => String::from_str(path),
    }
}

/// The path of an item's file: `<config>/<reference>.yaml`.
pub fn item_file_path(config_dir: &str, item_ref: &str) -> (path: String)
    ensures
        path@ == item_path(config_dir@, item_ref@),
{
    let mut name = String::from_str(item_ref);
    name.append(".yaml");
    proof {
        reveal_strlit(".yaml");
    }
    join_path(config_dir, name.as_str())
}

/// Resolves one item from what its file gave: an error for a missing,
/// unreadable or malformed file, else the item with its entries resolved.
pub fn load_item(
    item_ref: &str,
    config_dir: &str,
    sync_dir: &str,
    home: &Option<String>,
    file: ItemFile,
) -> (result: Result<ResolvedItem, ItemError>)
    ensures
        match result {
            Ok(item) => loaded_from(item, file, item_ref@, sync_dir@, home.deep_view()),
            Err(error) => file_error(file, item_path(config_dir@, item_ref@)) == Some(
                error_view(error),
            ),
        },
{
    let path = item_file_path(config_dir, item_ref);
    let entries = match file {
        ItemFile::Missing => {
            return Err(ItemError::NotFound(path));
        },
        ItemFile::Unreadable(reason) => {
            return Err(ItemError::Io(path, reason));
        },
        ItemFile::Malformed(reason) => {
            return Err(ItemError::Yaml(path, reason));
        },
        ItemFile::Parsed(entries) => entries,
    };
    let shed_base = join_path(sync_dir, item_ref);
    let mut resolved: Vec<ResolvedEntry> = Vec::new();
    let ghost target = resolved_entries(entries@, shed_base@, home.deep_view());
    for i in 0..entries.len()
        invariant
            target == resolved_entries(entries@, shed_base@, home.deep_view()),
            resolved@.len() == i,
            forall|j: int|
                0 <= j < i ==> entry_pair(#[trigger] resolved@[j]) == target[j],
    {
        let entry = &entries[i];
        let system = expand_home(entry.system.as_str(), home);
        let shed = join_path(shed_base.as_str(), entry.shed.as_str());
        resolved.push(ResolvedEntry { system, shed });
    }
    assert(resolved@.map_values(|e: ResolvedEntry| entry_pair(e)) =~= target);
    Ok(ResolvedItem { name: String::from_str(item_ref), shed_base, entries: resolved })
}

/// Loads every referenced item, in order, from what its file gave. The
/// first failed file decides the error; otherwise every item resolves.
pub fn load_all(
    item_refs: &Vec<String>,
    config_dir: &str,
    sync_dir: &str,
    home: &Option<String>,
    files: Vec<ItemFile>,
) -> (result: Result<Vec<ResolvedItem>, ItemError>)
    requires
        files@.len() == item_refs@.len(),
    ensures
        match result {
            Ok(items) => {
                &&& first_failure(files@) is None
                &&& items@.len() == item_refs@.len()
                &&& forall|i: int|
                    0 <= i < items@.len() ==> loaded_from(
                        #[trigger] items@[i],
                        files@[i],
                        item_refs@[i]@,
                        sync_dir@,
                        home.deep_view(),
                    )
            },
            Err(error) => match first_failure(files@) {
                Some(i) => file_error(files@[i], item_path(config_dir@, item_refs@[i]@)) == Some(
                    error_view(error),
                ),
                None => false,
            },
        },
{
    let ghost all = files@;
    let mut remaining = files;
    let mut items: Vec<ResolvedItem> = Vec::new();
    let mut i: usize = 0;
    while i < item_refs.len()
        invariant
            all == files@,
            all.len() == item_refs@.len(),
            0 <= i <= item_refs@.len(),
            remaining@ == all.skip(i as int),
            first_failure(all.take(i as int)) is None,
            items@.len() == i,
            forall|j: int|
                0 <= j < i ==> loaded_from(
                    #[trigger] items@[j],
                    all[j],
                    item_refs@[j]@,
                    sync_dir@,
                    home.deep_view(),
                ),
        decreases item_refs@.len() - i,
    {
        let file = remaining.remove(0);
        assert(file == all[i as int]);
        assert(remaining@ =~= all.skip(i + 1));
        assert(all.take(i + 1).drop_last() =~= all.take(i as int));
        assert(all.take(i + 1).last() == all[i as int]);
        match load_item(item_refs[i].as_str(), config_dir, sync_dir, home, file) {
            Ok(item) => {
                let ghost before = items@;
                items.push(item);
                assert(items@[i as int] == item);
                assert forall|j: int| 0 <= j < i + 1 implies loaded_from(
                    #[trigger] items@[j],
                    all[j],
                    item_refs@[j]@,
                    sync_dir@,
                    home.deep_view(),
                ) by {
                    if j < i {
                        assert(items@[j] == before[j]);
                    }
                }
                assert(first_failure(all.take(i + 1)) is None);
            },
            Err(error) => {
                assert(first_failure(all.take(i + 1)) == Some(i as int));
                proof {
                    lemma_first_failure_persists(all, i + 1);
                }
                assert(first_failure(all) == Some(i as int) && file_error(
                    all[i as int],
                    item_path(config_dir@, item_refs@[i as int]@),
                ) == Some(error_view(error)));
                return Err(error);
            },
        }
        i = i + 1;
    }
    assert(all.take(i as int) =~= all);
    Ok(items)
}

proof fn lemma_first_failure_persists(files: Seq<ItemFile>, k: int)
    requires
        0 <= k <= files.len(),
        first_failure(files.take(k)) is Some,
    ensures
        first_failure(files) == first_failure(files.take(k)),
    decreases files.len() - k,
{
    if k < files.len() {
        assert(files.take(k + 1).drop_last() =~= files.take(k));
        lemma_first_failure_persists(files, k + 1);
    } else {
        assert(files.take(k) =~= files);
    }
}

} // verus!
