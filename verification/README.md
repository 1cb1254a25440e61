# shed

`shed` copies dotfiles between their live system paths and a local directory
(the shed) that can be kept under version control: `shed put` copies from the
system to the shed, `shed get` back.

The crate is a Verus project. `src/` is the verified library; `app/` is the
command around it.

## Library (`src/`)

- `manifest`, `manifest::resolve`: the manifest data model, and resolving a
  root manifest with its includes (depth-first, `.yaml` then `.yml`, cycles
  reported, failed subtrees discarded). Resolution runs over a snapshot of
  file-system answers and names the next question it needs answered.
- `plan2`, `plan3`: planning copies from manifests, as a tree or grouped by
  destination directory; `plan1` holds the same data model.
- `collection`, `item`: collections with inheritance and item files.
- `sync_items`: the sync items of a resolved manifest tree.
- `sync`: the decisions of a sync: scanning an item into operations,
  gathering scans into a plan, the serial directory pass, grouping copies by
  destination, counting results, settling item statuses, the summary and the
  exit code.
- `progress`: the report layout and per-row view model, the event-driven
  state of the inline display, the plain reporter, and every text the
  display prints.
- `paths`, `text`: paths as strings with `PathBuf::join` semantics, decimal
  numbers and byte counts.

Each public function states its result in its contract; laws that relate
several functions are public proof functions.

## Application (`app/`)

Argument parsing (clap), YAML parsing and the JSON Schema (serde, schemars),
the file-system and async work (tokio, async-walkdir), Ctrl-C handling, and
drawing with Ratatui. The planning, syncing and reporting decisions are
the library's; the application holds the order of a sync's phases and some
unverified glue, such as checking that a root manifest path names the file
that resolution found.
