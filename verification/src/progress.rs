//! The progress view: the report layout, the per-item view model, the rows
//! it shows, and the text of item reports and of the final summary.
//! Drawing on the terminal belongs to the application.

use vstd::prelude::*;
use vstd::string::*;

use crate::sync::{direction_label, status_label, Direction, Duration, ItemStatus, Summary};
use crate::item::ResolvedItem;
use crate::text::{bytes_text, decimal, decimal_text, format_bytes};

verus! {

// ---------------------------------------------------------------------------
// Text of the final report

/// Name for what `format!("{:.1}s", d.as_secs_f64())` prints for a duration
/// of `secs` seconds and `nanos` nanoseconds: the seconds as an `f64`,
/// rounded to one decimal.
pub uninterp spec fn seconds_with_tenths(secs: u64, nanos: u32) -> Seq<char>;

/// Prints a duration below ten seconds with one decimal, through
/// `Duration::new`, `Duration::as_secs_f64` and `format!`. Its arguments are
/// kept where `Duration::new` cannot panic (nanoseconds below a second). The
/// contract claims only that the text is the one `seconds_with_tenths` names
/// for these arguments.
#[verifier::external_body]
fn tenths_of_seconds(secs: u64, nanos: u32) -> (text: String)
    requires
        secs < 10,
        nanos < 1_000_000_000,
    ensures
        text@ == seconds_with_tenths(secs, nanos),
{
    format!("{:.1}s", std::time::Duration::new(secs, nanos).as_secs_f64())
}

/// A duration for people: whole seconds from ten seconds on, tenths below.
pub open spec fn duration_text(duration: Duration) -> Seq<char> {
    if duration.seconds() >= 10 {
        decimal(duration.seconds() as nat) + "s"@
    } else {
        seconds_with_tenths(duration.seconds(), duration.subsec())
    }
}

pub fn format_duration(duration: Duration) -> (text: String)
    ensures
        text@ == duration_text(duration),
{
    let secs = duration.as_secs();
    if secs >= 10 {
        let mut text = decimal_text(secs);
        text.append("s");
        text
    } else {
        tenths_of_seconds(secs, duration.subsec_nanos())
    }
}

pub open spec fn plural_text(count: nat, singular: Seq<char>, plural: Seq<char>) -> Seq<char> {
    if count == 1 {
        singular
    } else {
        plural
    }
}

pub fn plural<'a>(count: usize, singular: &'a str, several: &'a str) -> (word: &'a str)
    ensures
        word@ == plural_text(count as nat, singular@, several@),
{
    if count == 1 {
        singular
    } else {
        several
    }
}

fn append_count(text: &mut String, count: usize)
    ensures
        final(text)@ == old(text)@ + decimal(count as nat),
{
    let digits = decimal_text(count as u64);
    text.append(digits.as_str());
}

/// The warning and error counts after a summary that has any.
pub open spec fn diagnostic_suffix_text(summary: Summary) -> Seq<char> {
    if summary.warnings == 0 && summary.errors == 0 {
        seq![]
    } else {
        " — "@ + decimal(summary.warnings as nat) + " "@ + plural_text(
            summary.warnings as nat,
            "warning"@,
            "warnings"@,
        ) + ", "@ + decimal(summary.errors as nat) + " "@ + plural_text(
            summary.errors as nat,
            "error"@,
            "errors"@,
        )
    }
}

pub fn diagnostic_suffix(summary: &Summary) -> (text: String)
    ensures
        text@ == diagnostic_suffix_text(*summary),
{
    if summary.warnings == 0 && summary.errors == 0 {
        return String::new();
    }
    let mut text = String::from_str(" — ");
    append_count(&mut text, summary.warnings);
    text.append(" ");
    text.append(plural(summary.warnings, "warning", "warnings"));
    text.append(", ");
    append_count(&mut text, summary.errors);
    text.append(" ");
    text.append(plural(summary.errors, "error", "errors"));
    assert(text@ =~= diagnostic_suffix_text(*summary));
    text
}

/// The leading word or symbol of a summary: cancellation first, then
/// errors, then warnings.
pub open spec fn summary_symbol(summary: Summary, unicode: bool) -> Seq<char> {
    if summary.cancelled {
        if unicode {
            "⨯ cancelled"@
        } else {
            "cancelled"@
        }
    } else if summary.errors > 0 {
        if unicode {
            "✗"@
        } else {
            "error:"@
        }
    } else if summary.warnings > 0 {
        if unicode {
            "⚠"@
        } else {
            "warning:"@
        }
    } else if unicode {
        "✓"@
    } else {
        "ok:"@
    }
}

/// The per-status item counts of a summary with diagnostics.
pub open spec fn item_states_text(summary: Summary) -> Seq<char> {
    decimal(summary.done_items as nat) + " done"@ + (if summary.warning_items > 0 {
        ", "@ + decimal(summary.warning_items as nat) + " warning"@
    } else {
        seq![]
    }) + (if summary.skipped_items > 0 {
        ", "@ + decimal(summary.skipped_items as nat) + " skipped"@
    } else {
        seq![]
    }) + (if summary.failed_items > 0 {
        ", "@ + decimal(summary.failed_items as nat) + " failed"@
    } else {
        seq![]
    })
}

/// The one-line summary of a sync.
pub open spec fn summary_text(summary: Summary, unicode: bool) -> Seq<char> {
    let symbol = summary_symbol(summary, unicode);
    let label = direction_label(summary.direction);
    let elapsed = duration_text(summary.elapsed);
    if summary.cancelled_during_planning {
        symbol + " "@ + label + " during planning: "@ + decimal(summary.scanned_items as nat) + "/"@
            + decimal(summary.total_items as nat) + " items scanned, "@ + decimal(
            summary.discovered_files as nat,
        ) + " files discovered in "@ + elapsed + diagnostic_suffix_text(summary)
    } else if summary.cancelled {
        symbol + " "@ + label + ": "@ + decimal(summary.completed_items as nat) + "/"@ + decimal(
            summary.total_items as nat,
        ) + " items, "@ + decimal(summary.copied_files as nat) + "/"@ + decimal(
            summary.planned_files as nat,
        ) + " files, "@ + bytes_text(summary.copied_bytes as nat) + " in "@ + elapsed
            + diagnostic_suffix_text(summary)
    } else if summary.warnings == 0 && summary.errors == 0 {
        symbol + " "@ + label + ": "@ + decimal(summary.total_items as nat) + " "@ + plural_text(
            summary.total_items as nat,
            "item"@,
            "items"@,
        ) + ", "@ + decimal(summary.copied_files as nat) + " "@ + plural_text(
            summary.copied_files as nat,
            "file"@,
            "files"@,
        ) + ", "@ + bytes_text(summary.copied_bytes as nat) + " in "@ + elapsed
    } else {
        symbol + " "@ + label + ": "@ + decimal(summary.total_items as nat) + " items ("@
            + item_states_text(summary) + "), "@ + decimal(summary.copied_files as nat) + "/"@
            + decimal(summary.planned_files as nat) + " files, "@ + bytes_text(
            summary.copied_bytes as nat,
        ) + " in "@ + elapsed + diagnostic_suffix_text(summary)
    }
}

fn summary_symbol_text(summary: &Summary, unicode: bool) -> (symbol: &'static str)
    ensures
        symbol@ == summary_symbol(*summary, unicode),
{
    if summary.cancelled {
        if unicode {
            "⨯ cancelled"
        } else {
            "cancelled"
        }
    } else if summary.errors > 0 {
        if unicode {
            "✗"
        } else {
            "error:"
        }
    } else if summary.warnings > 0 {
        if unicode {
            "⚠"
        } else {
            "warning:"
        }
    } else if unicode {
        "✓"
    } else {
        "ok:"
    }
}

fn item_states(summary: &Summary) -> (text: String)
    ensures
        text@ == item_states_text(*summary),
{
    let mut text = decimal_text(summary.done_items as u64);
    text.append(" done");
    let ghost first = text@;
    if summary.warning_items > 0 {
        text.append(", ");
        append_count(&mut text, summary.warning_items);
        text.append(" warning");
    }
    let ghost second = text@;
    if summary.skipped_items > 0 {
        text.append(", ");
        append_count(&mut text, summary.skipped_items);
        text.append(" skipped");
    }
    let ghost third = text@;
    if summary.failed_items > 0 {
        text.append(", ");
        append_count(&mut text, summary.failed_items);
        text.append(" failed");
    }
    assert(text@ =~= item_states_text(*summary));
    text
}

/// The one-line summary of a sync, with symbols when `unicode` is set.
pub fn format_summary(summary: &Summary, unicode: bool) -> (text: String)
    ensures
        text@ == summary_text(*summary, unicode),
{
    let mut text = String::from_str(summary_symbol_text(summary, unicode));
    text.append(" ");
    text.append(summary.direction.label());
    let elapsed = format_duration(summary.elapsed);
    if summary.cancelled_during_planning {
        text.append(" during planning: ");
        append_count(&mut text, summary.scanned_items);
        text.append("/");
        append_count(&mut text, summary.total_items);
        text.append(" items scanned, ");
        append_count(&mut text, summary.discovered_files);
        text.append(" files discovered in ");
        text.append(elapsed.as_str());
        let suffix = diagnostic_suffix(summary);
        text.append(suffix.as_str());
        assert(text@ =~= summary_text(*summary, unicode));
        return text;
    }
    if summary.cancelled {
        text.append(": ");
        append_count(&mut text, summary.completed_items);
        text.append("/");
        append_count(&mut text, summary.total_items);
        text.append(" items, ");
        append_count(&mut text, summary.copied_files);
        text.append("/");
        append_count(&mut text, summary.planned_files);
        text.append(" files, ");
        let bytes = format_bytes(summary.copied_bytes);
        text.append(bytes.as_str());
        text.append(" in ");
        text.append(elapsed.as_str());
        let suffix = diagnostic_suffix(summary);
        text.append(suffix.as_str());
        assert(text@ =~= summary_text(*summary, unicode));
        return text;
    }
    if summary.warnings == 0 && summary.errors == 0 {
        text.append(": ");
        append_count(&mut text, summary.total_items);
        text.append(" ");
        text.append(plural(summary.total_items, "item", "items"));
        text.append(", ");
        append_count(&mut text, summary.copied_files);
        text.append(" ");
        text.append(plural(summary.copied_files, "file", "files"));
        text.append(", ");
        let bytes = format_bytes(summary.copied_bytes);
        text.append(bytes.as_str());
        text.append(" in ");
        text.append(elapsed.as_str());
        assert(text@ =~= summary_text(*summary, unicode));
        return text;
    }
    text.append(": ");
    append_count(&mut text, summary.total_items);
    text.append(" items (");
    let states = item_states(summary);
    text.append(states.as_str());
    text.append("), ");
    append_count(&mut text, summary.copied_files);
    text.append("/");
    append_count(&mut text, summary.planned_files);
    text.append(" files, ");
    let bytes = format_bytes(summary.copied_bytes);
    text.append(bytes.as_str());
    text.append(" in ");
    text.append(elapsed.as_str());
    let suffix = diagnostic_suffix(summary);
    text.append(suffix.as_str());
    assert(text@ =~= summary_text(*summary, unicode));
    text
}

} // verus!

verus! {

// ---------------------------------------------------------------------------
// The report layout and the view model

/// A group of report rows, under an optional heading (an included manifest).
#[derive(Clone, Debug, PartialEq)]
pub struct ReportSection {
    pub heading: Option<String>,
    pub roots: Vec<usize>,
}

/// One authored item of the report tree. A node with a leaf index stands
/// for one synced item; a node without one is a branch over its children.
/// A duplicate node shows the status of the leaf it repeats.
#[derive(Clone, Debug, PartialEq)]
pub struct ReportNode {
    pub label: String,
    pub origin: String,
    pub depth: usize,
    pub children: Vec<usize>,
    pub leaf: Option<usize>,
    pub duplicate_of: Option<usize>,
}

/// The authored hierarchy of a sync: sections of node trees, and for each
/// synced item the node that owns it.
#[derive(Clone, Debug, PartialEq)]
pub struct ReportLayout {
    pub sections: Vec<ReportSection>,
    pub nodes: Vec<ReportNode>,
    pub leaf_owners: Vec<usize>,
}

/// Node indices point into the layout, and children come after their
/// parent, so the node trees are finite.
pub open spec fn layout_wf(layout: ReportLayout) -> bool {
    &&& forall|s: int, r: int|
        0 <= s < layout.sections@.len() && 0 <= r < layout.sections@[s].roots@.len()
            ==> #[trigger] layout.sections@[s].roots@[r] < layout.nodes@.len()
    &&& forall|n: int, c: int|
        0 <= n < layout.nodes@.len() && 0 <= c < layout.nodes@[n].children@.len() ==> n
            < #[trigger] layout.nodes@[n].children@[c] < layout.nodes@.len()
    &&& forall|n: int|
        0 <= n < layout.nodes@.len() ==> ((#[trigger] layout.nodes@[n]).duplicate_of matches Some(
            o,
        ) ==> o < layout.nodes@.len())
    &&& forall|i: int|
        0 <= i < layout.leaf_owners@.len() ==> #[trigger] layout.leaf_owners@[i]
            < layout.nodes@.len()
}

/// The progress of one row of the report.
#[derive(Clone, Debug, PartialEq)]
pub struct ItemView {
    pub name: String,
    pub status: ItemStatus,
    pub total_files: usize,
    pub processed_files: usize,
    pub copied_files: usize,
    pub copied_bytes: u64,
    pub current_path: String,
    pub had_warning: bool,
    pub had_error: bool,
    pub total_items: usize,
    pub completed_items: usize,
    pub branch: bool,
    pub duplicate: bool,
}

/// A row of the report as plain values.
pub struct RowModel {
    pub name: Seq<char>,
    pub status: ItemStatus,
    pub total_files: nat,
    pub processed_files: nat,
    pub copied_files: nat,
    pub copied_bytes: nat,
    pub current_path: Seq<char>,
    pub had_warning: bool,
    pub had_error: bool,
    pub total_items: nat,
    pub completed_items: nat,
    pub branch: bool,
    pub duplicate: bool,
}

impl View for ItemView {
    type V = RowModel;

    open spec fn view(&self) -> RowModel {
        RowModel {
            name: self.name@,
            status: self.status,
            total_files: self.total_files as nat,
            processed_files: self.processed_files as nat,
            copied_files: self.copied_files as nat,
            copied_bytes: self.copied_bytes as nat,
            current_path: self.current_path@,
            had_warning: self.had_warning,
            had_error: self.had_error,
            total_items: self.total_items as nat,
            completed_items: self.completed_items as nat,
            branch: self.branch,
            duplicate: self.duplicate,
        }
    }
}

/// A pending row with nothing counted yet.
pub open spec fn fresh_row(name: Seq<char>) -> RowModel {
    RowModel {
        name,
        status: ItemStatus::Pending,
        total_files: 0,
        processed_files: 0,
        copied_files: 0,
        copied_bytes: 0,
        current_path: seq![],
        had_warning: false,
        had_error: false,
        total_items: 0,
        completed_items: 0,
        branch: false,
        duplicate: false,
    }
}

impl ItemView {
    pub fn new(name: String) -> (view: ItemView)
        ensures
            view@ == fresh_row(name@),
    {
        ItemView {
            name,
            status: ItemStatus::Pending,
            total_files: 0,
            processed_files: 0,
            copied_files: 0,
            copied_bytes: 0,
            current_path: String::new(),
            had_warning: false,
            had_error: false,
            total_items: 0,
            completed_items: 0,
            branch: false,
            duplicate: false,
        }
    }

    /// A copy of this row.
    pub fn copy(&self) -> (copy: ItemView)
        ensures
            copy@ == self@,
    {
        ItemView {
            name: self.name.clone(),
            status: self.status,
            total_files: self.total_files,
            processed_files: self.processed_files,
            copied_files: self.copied_files,
            copied_bytes: self.copied_bytes,
            current_path: self.current_path.clone(),
            had_warning: self.had_warning,
            had_error: self.had_error,
            total_items: self.total_items,
            completed_items: self.completed_items,
            branch: self.branch,
            duplicate: self.duplicate,
        }
    }
}

/// A finished item: done, warned, skipped, failed or cancelled.
pub open spec fn terminal(status: ItemStatus) -> bool {
    status == ItemStatus::Done || status == ItemStatus::Warning || status == ItemStatus::Skipped
        || status == ItemStatus::Failed || status == ItemStatus::Cancelled
}

pub fn is_terminal(status: ItemStatus) -> (finished: bool)
    ensures
        finished == terminal(status),
{
    match status {
        ItemStatus::Done | ItemStatus::Warning | ItemStatus::Skipped | ItemStatus::Failed
        | ItemStatus::Cancelled => true,
        _ => false,
    }
}

pub open spec fn has_status(rows: Seq<RowModel>, status: ItemStatus) -> bool {
    exists|i: int| 0 <= i < rows.len() && (#[trigger] rows[i]).status == status
}

/// The status a branch shows: activity first, then what is still to come,
/// then failures, warnings, skips and cancellations; done when every child
/// is done or there are no children.
pub open spec fn aggregated_status(rows: Seq<RowModel>) -> ItemStatus {
    if has_status(rows, ItemStatus::Scanning) {
        ItemStatus::Scanning
    } else if has_status(rows, ItemStatus::Copying) {
        ItemStatus::Copying
    } else if has_status(rows, ItemStatus::Pending) {
        ItemStatus::Pending
    } else if has_status(rows, ItemStatus::Ready) {
        ItemStatus::Ready
    } else if has_status(rows, ItemStatus::Failed) {
        ItemStatus::Failed
    } else if has_status(rows, ItemStatus::Warning) {
        ItemStatus::Warning
    } else if has_status(rows, ItemStatus::Skipped) {
        ItemStatus::Skipped
    } else if has_status(rows, ItemStatus::Cancelled) {
        ItemStatus::Cancelled
    } else {
        ItemStatus::Done
    }
}

fn any_status(children: &Vec<ItemView>, status: ItemStatus) -> (found: bool)
    ensures
        found == has_status(children@.map_values(|v: ItemView| v@), status),
{
    let ghost rows = children@.map_values(|v: ItemView| v@);
    let mut i: usize = 0;
    while i < children.len()
        invariant
            0 <= i <= children@.len(),
            rows == children@.map_values(|v: ItemView| v@),
            forall|j: int| 0 <= j < i ==> rows[j].status != status,
        decreases children@.len() - i,
    {
        if children[i].status == status {
            assert(rows[i as int].status == status);
            return true;
        }
        i = i + 1;
    }
    false
}

pub fn aggregate_status(children: &Vec<ItemView>) -> (status: ItemStatus)
    ensures
        status == aggregated_status(children@.map_values(|v: ItemView| v@)),
{
    if any_status(children, ItemStatus::Scanning) {
        ItemStatus::Scanning
    } else if any_status(children, ItemStatus::Copying) {
        ItemStatus::Copying
    } else if any_status(children, ItemStatus::Pending) {
        ItemStatus::Pending
    } else if any_status(children, ItemStatus::Ready) {
        ItemStatus::Ready
    } else if any_status(children, ItemStatus::Failed) {
        ItemStatus::Failed
    } else if any_status(children, ItemStatus::Warning) {
        ItemStatus::Warning
    } else if any_status(children, ItemStatus::Skipped) {
        ItemStatus::Skipped
    } else if any_status(children, ItemStatus::Cancelled) {
        ItemStatus::Cancelled
    } else {
        ItemStatus::Done
    }
}

} // verus!

verus! {

/// What the progress display knows of a sync.
#[derive(Clone, Debug)]
pub struct ViewState {
    pub direction: Direction,
    pub layout: ReportLayout,
    pub items: Vec<ItemView>,
    pub current: Option<usize>,
    pub spinner: usize,
    pub scanned_items: usize,
    pub plan_complete: bool,
    pub total_files: usize,
    pub processed_files: usize,
    pub copied_files: usize,
    pub copied_bytes: u64,
    pub name_width: u16,
}

/// Two spaces per level of depth.
pub open spec fn spaces(depth: nat) -> Seq<char> {
    Seq::new(2 * depth, |i: int| ' ')
}

fn indent_text(depth: usize) -> (text: String)
    ensures
        text@ == spaces(depth as nat),
{
    let mut text = String::new();
    proof {
        reveal_strlit("  ");
        assert(text@ =~= spaces(0));
    }
    for i in 0..depth
        invariant
            text@ == spaces(i as nat),
    {
        proof {
            reveal_strlit("  ");
        }
        text.append("  ");
        assert(text@ =~= spaces((i + 1) as nat));
    }
    text
}

/// The indented label of a node.
pub open spec fn node_name(layout: ReportLayout, node: int) -> Seq<char> {
    spaces(layout.nodes@[node].depth as nat) + layout.nodes@[node].label@
}

/// The row of a node that stands for a synced item: the item's progress
/// under the node's name; a duplicate shows the status only and names the
/// node it repeats.
pub open spec fn leaf_row(state: ViewState, node: int, leaf: int) -> RowModel {
    let n = state.layout.nodes@[node];
    let base = if 0 <= leaf < state.items@.len() {
        state.items@[leaf]@
    } else {
        fresh_row(n.label@)
    };
    match n.duplicate_of {
        Some(owner) => RowModel {
            name: node_name(state.layout, node) + "  duplicate → "@ + state.layout.nodes@[owner as int].origin@,
            total_files: 0,
            processed_files: 0,
            copied_files: 0,
            copied_bytes: 0,
            duplicate: true,
            ..base
        },
        None => RowModel { name: node_name(state.layout, node), ..base },
    }
}

/// A branch row with one more child counted. Duplicates count nothing.
pub open spec fn add_child(row: RowModel, child: RowModel) -> RowModel {
    if child.duplicate {
        row
    } else {
        RowModel {
            total_items: row.total_items + 1 + child.total_items,
            completed_items: row.completed_items + (if terminal(child.status) {
                1nat
            } else {
                0nat
            }) + child.completed_items,
            total_files: row.total_files + child.total_files,
            processed_files: row.processed_files + child.processed_files,
            copied_files: row.copied_files + child.copied_files,
            copied_bytes: row.copied_bytes + child.copied_bytes,
            had_warning: row.had_warning || child.had_warning,
            had_error: row.had_error || child.had_error,
            current_path: if row.current_path.len() == 0 && child.current_path.len() > 0 {
                child.current_path
            } else {
                row.current_path
            },
            ..row
        }
    }
}

/// A branch row named `name` that counts the given children.
pub open spec fn counted_rows(name: Seq<char>, children: Seq<RowModel>) -> RowModel
    decreases children.len(),
{
    if children.len() == 0 {
        RowModel { branch: true, ..fresh_row(name) }
    } else {
        add_child(counted_rows(name, children.drop_last()), children.last())
    }
}

/// The row of a branch: its children counted, under their aggregate status.
pub open spec fn branch_row(name: Seq<char>, children: Seq<RowModel>) -> RowModel {
    RowModel { status: aggregated_status(children), ..counted_rows(name, children) }
}

/// The row that a node shows.
pub open spec fn node_row(state: ViewState, node: int) -> RowModel
    decreases state.layout.nodes@.len() - node, 1int, 0int,
{
    if node < 0 || node >= state.layout.nodes@.len() {
        fresh_row(seq![])
    } else {
        match state.layout.nodes@[node].leaf {
            Some(leaf) => leaf_row(state, node, leaf as int),
            None => branch_row(
                node_name(state.layout, node),
                child_rows(state, node, state.layout.nodes@[node].children@.len()),
            ),
        }
    }
}

/// The rows of the first `k` children of a node.
pub open spec fn child_rows(state: ViewState, node: int, k: nat) -> Seq<RowModel>
    decreases state.layout.nodes@.len() - node, 0int, k,
{
    if k == 0 || node < 0 || node >= state.layout.nodes@.len() || k
        > state.layout.nodes@[node].children@.len() {
        seq![]
    } else {
        let child = state.layout.nodes@[node].children@[k - 1] as int;
        child_rows(state, node, (k - 1) as nat).push(
            if node < child < state.layout.nodes@.len() {
                node_row(state, child)
            } else {
                fresh_row(seq![])
            },
        )
    }
}

/// A row's counters fit the integers that hold them.
pub open spec fn row_fits(row: RowModel) -> bool {
    &&& row.total_files <= usize::MAX
    &&& row.processed_files <= usize::MAX
    &&& row.copied_files <= usize::MAX
    &&& row.copied_bytes <= u64::MAX
    &&& row.total_items <= usize::MAX
    &&& row.completed_items <= usize::MAX
}

/// Every node's aggregated counters fit their integers.
pub open spec fn rows_fit(state: ViewState) -> bool {
    forall|n: int| 0 <= n < state.layout.nodes@.len() ==> row_fits(#[trigger] node_row(state, n))
}

proof fn lemma_counted_prefix(name: Seq<char>, children: Seq<RowModel>, i: int)
    requires
        0 <= i <= children.len(),
    ensures
        counted_rows(name, children.take(i)).total_files <= counted_rows(name, children).total_files,
        counted_rows(name, children.take(i)).processed_files <= counted_rows(
            name,
            children,
        ).processed_files,
        counted_rows(name, children.take(i)).copied_files <= counted_rows(name, children).copied_files,
        counted_rows(name, children.take(i)).copied_bytes <= counted_rows(name, children).copied_bytes,
        counted_rows(name, children.take(i)).total_items <= counted_rows(name, children).total_items,
        counted_rows(name, children.take(i)).completed_items <= counted_rows(
            name,
            children,
        ).completed_items,
    decreases children.len() - i,
{
    if i < children.len() {
        lemma_counted_prefix(name, children, i + 1);
        assert(children.take(i + 1).drop_last() =~= children.take(i));
    } else {
        assert(children.take(i) =~= children);
    }
}

proof fn lemma_rows_push(views: Seq<ItemView>, view: ItemView)
    ensures
        views.push(view).map_values(|v: ItemView| v@) == views.map_values(|v: ItemView| v@).push(
            view@,
        ),
{
    assert(views.push(view).map_values(|v: ItemView| v@) =~= views.map_values(|v: ItemView| v@).push(
        view@,
    ));
}

/// The row that a node shows: a synced item's progress, or a branch that
/// aggregates its children.
pub fn node_view(state: &ViewState, node: usize) -> (view: ItemView)
    requires
        layout_wf(state.layout),
        node < state.layout.nodes@.len(),
        rows_fit(*state),
    ensures
        view@ == node_row(*state, node as int),
    decreases state.layout.nodes@.len() - node,
{
    let n = &state.layout.nodes[node];
    let mut name = indent_text(n.depth);
    name.append(n.label.as_str());
    assert(name@ == node_name(state.layout, node as int));
    match n.leaf {
        Some(leaf) => {
            assert(node_row(*state, node as int) == leaf_row(*state, node as int, leaf as int));
            let mut view = if leaf < state.items.len() {
                state.items[leaf].copy()
            } else {
                ItemView::new(n.label.clone())
            };
            let ghost base = view@;
            assert(base == (if 0 <= leaf < state.items@.len() {
                state.items@[leaf as int]@
            } else {
                fresh_row(n.label@)
            }));
            match n.duplicate_of {
                Some(owner) => {
                    view.total_files = 0;
                    view.processed_files = 0;
                    view.copied_files = 0;
                    view.copied_bytes = 0;
                    view.duplicate = true;
                    name.append("  duplicate → ");
                    name.append(state.layout.nodes[owner].origin.as_str());
                    view.name = name;
                    assert(view@ == leaf_row(*state, node as int, leaf as int));
                },
                None => {
                    view.name = name;
                    assert(view@ == leaf_row(*state, node as int, leaf as int));
                },
            }
            view
        },
        None => {
            let mut children: Vec<ItemView> = Vec::new();
            for i in 0..n.children.len()
                invariant
                    layout_wf(state.layout),
                    node < state.layout.nodes@.len(),
                    rows_fit(*state),
                    *n == state.layout.nodes@[node as int],
                    n.leaf is None,
                    children@.map_values(|v: ItemView| v@) == child_rows(*state, node as int, i as nat),
            {
                let child = n.children[i];
                proof {
                    assert(node < child < state.layout.nodes@.len());
                }
                let child_view = node_view(state, child);
                proof {
                    lemma_rows_push(children@, child_view);
                }
                children.push(child_view);
            }
            let ghost rows = children@.map_values(|v: ItemView| v@);
            assert(rows == child_rows(*state, node as int, n.children@.len() as nat));
            proof {
                assert(row_fits(node_row(*state, node as int)));
            }
            let ghost branch_name = name@;
            let mut view = ItemView::new(name);
            view.branch = true;
            assert(view@ == counted_rows(branch_name, rows.take(0)));
            let status = aggregate_status(&children);
            for i in 0..children.len()
                invariant
                    rows == children@.map_values(|v: ItemView| v@),
                    branch_name == node_name(state.layout, node as int),
                    row_fits(branch_row(branch_name, rows)),
                    view@ == counted_rows(branch_name, rows.take(i as int)),
            {
                proof {
                    lemma_counted_prefix(branch_name, rows, i + 1);
                    assert(rows.take(i + 1).drop_last() =~= rows.take(i as int));
                    assert(rows[i as int] == children@[i as int]@);
                }
                let child = &children[i];
                if !child.duplicate {
                    view.total_items = view.total_items + 1 + child.total_items;
                    view.completed_items = view.completed_items + if is_terminal(child.status) {
                        1
                    } else {
                        0
                    } + child.completed_items;
                    view.total_files = view.total_files + child.total_files;
                    view.processed_files = view.processed_files + child.processed_files;
                    view.copied_files = view.copied_files + child.copied_files;
                    view.copied_bytes = view.copied_bytes + child.copied_bytes;
                    view.had_warning = view.had_warning || child.had_warning;
                    view.had_error = view.had_error || child.had_error;
                    if view.current_path.as_str().unicode_len() == 0
                        && child.current_path.as_str().unicode_len() > 0 {
                        view.current_path = child.current_path.clone();
                    }
                }
            }
            proof {
                assert(rows.take(rows.len() as int) =~= rows);
            }
            view.status = status;
            assert(view@ == branch_row(node_name(state.layout, node as int), rows));
            assert(node_row(*state, node as int) == branch_row(
                node_name(state.layout, node as int),
                child_rows(*state, node as int, n.children@.len() as nat),
            ));
            view
        },
    }
}

} // verus!

verus! {

/// One rendered row: a section heading, or a node's row.
#[derive(Clone, Debug)]
pub enum RenderRow {
    Heading(String),
    Item { node: usize, view: ItemView },
}

pub enum RowSpec {
    Heading(Seq<char>),
    Item { node: int, row: RowModel },
}

pub open spec fn render_view(row: RenderRow) -> RowSpec {
    match row {
        RenderRow::Heading(heading) => RowSpec::Heading(heading@),
        RenderRow::Item { node, view } => RowSpec::Item { node: node as int, row: view@ },
    }
}

pub open spec fn renders_view(rows: Seq<RenderRow>) -> Seq<RowSpec> {
    rows.map_values(|row: RenderRow| render_view(row))
}

/// The rows of a node and, below it in order, of its descendants.
pub open spec fn subtree_rows(state: ViewState, node: int) -> Seq<RowSpec>
    decreases state.layout.nodes@.len() - node, 1int, 0int,
{
    if node < 0 || node >= state.layout.nodes@.len() {
        seq![]
    } else {
        seq![RowSpec::Item { node, row: node_row(state, node) }] + children_subtree_rows(
            state,
            node,
            state.layout.nodes@[node].children@.len(),
        )
    }
}

/// The rows of the first `k` children of a node and their descendants.
pub open spec fn children_subtree_rows(state: ViewState, node: int, k: nat) -> Seq<RowSpec>
    decreases state.layout.nodes@.len() - node, 0int, k,
{
    if k == 0 || node < 0 || node >= state.layout.nodes@.len() || k
        > state.layout.nodes@[node].children@.len() {
        seq![]
    } else {
        let child = state.layout.nodes@[node].children@[k - 1] as int;
        children_subtree_rows(state, node, (k - 1) as nat) + if node < child
            < state.layout.nodes@.len() {
            subtree_rows(state, child)
        } else {
            seq![]
        }
    }
}

/// The rows of the trees at the given roots, in order.
pub open spec fn roots_rows(state: ViewState, roots: Seq<usize>) -> Seq<RowSpec>
    decreases roots.len(),
{
    if roots.len() == 0 {
        seq![]
    } else {
        roots_rows(state, roots.drop_last()) + subtree_rows(state, roots.last() as int)
    }
}

/// The rows of a section: its heading, if any, then its trees.
pub open spec fn section_rows(state: ViewState, section: ReportSection) -> Seq<RowSpec> {
    (match section.heading {
        Some(heading) => seq![RowSpec::Heading(heading@)],
        None => seq![],
    }) + roots_rows(state, section.roots@)
}

/// The rows of the given sections, in order.
pub open spec fn sections_rows(state: ViewState, sections: Seq<ReportSection>) -> Seq<RowSpec>
    decreases sections.len(),
{
    if sections.len() == 0 {
        seq![]
    } else {
        sections_rows(state, sections.drop_last()) + section_rows(state, sections.last())
    }
}

/// Every row of the report, section by section, each tree in pre-order.
pub open spec fn report_rows_spec(state: ViewState) -> Seq<RowSpec> {
    sections_rows(state, state.layout.sections@)
}

proof fn lemma_renders_push(rows: Seq<RenderRow>, row: RenderRow)
    ensures
        renders_view(rows.push(row)) == renders_view(rows).push(render_view(row)),
{
    assert(renders_view(rows.push(row)) =~= renders_view(rows).push(render_view(row)));
}

fn push_node_rows(state: &ViewState, node: usize, rows: &mut Vec<RenderRow>)
    requires
        layout_wf(state.layout),
        node < state.layout.nodes@.len(),
        rows_fit(*state),
    ensures
        renders_view(final(rows)@) == renders_view(old(rows)@) + subtree_rows(*state, node as int),
    decreases state.layout.nodes@.len() - node,
{
    let ghost start = renders_view(rows@);
    let view = node_view(state, node);
    let row = RenderRow::Item { node, view };
    proof {
        lemma_renders_push(rows@, row);
    }
    rows.push(row);
    let n = &state.layout.nodes[node];
    for i in 0..n.children.len()
        invariant
            layout_wf(state.layout),
            node < state.layout.nodes@.len(),
            rows_fit(*state),
            *n == state.layout.nodes@[node as int],
            renders_view(rows@) == start + seq![
                RowSpec::Item { node: node as int, row: node_row(*state, node as int) },
            ] + children_subtree_rows(*state, node as int, i as nat),
    {
        let child = n.children[i];
        proof {
            assert(node < child < state.layout.nodes@.len());
        }
        push_node_rows(state, child, rows);
        proof {
            assert(renders_view(rows@) =~= start + seq![
                RowSpec::Item { node: node as int, row: node_row(*state, node as int) },
            ] + children_subtree_rows(*state, node as int, (i + 1) as nat));
        }
    }
}

/// Every row of the report: each section's heading, then its trees in
/// pre-order.
pub fn report_rows(state: &ViewState) -> (rows: Vec<RenderRow>)
    requires
        layout_wf(state.layout),
        rows_fit(*state),
    ensures
        renders_view(rows@) == report_rows_spec(*state),
{
    let mut rows: Vec<RenderRow> = Vec::new();
    let sections = &state.layout.sections;
    for s in 0..sections.len()
        invariant
            layout_wf(state.layout),
            rows_fit(*state),
            *sections == state.layout.sections,
            renders_view(rows@) == sections_rows(*state, sections@.take(s as int)),
    {
        let section = &sections[s];
        let ghost before = renders_view(rows@);
        match &section.heading {
            Some(heading) => {
                let row = RenderRow::Heading(heading.clone());
                proof {
                    lemma_renders_push(rows@, row);
                }
                rows.push(row);
            },
            None => {},
        }
        let ghost after_heading = renders_view(rows@);
        for r in 0..section.roots.len()
            invariant
                layout_wf(state.layout),
                rows_fit(*state),
                *sections == state.layout.sections,
                s < sections@.len(),
                *section == sections@[s as int],
                renders_view(rows@) == after_heading + roots_rows(*state, section.roots@.take(r as int)),
        {
            let root = section.roots[r];
            proof {
                assert(state.layout.sections@[s as int].roots@[r as int] == root);
                assert(root < state.layout.nodes@.len());
                assert(section.roots@.take(r + 1).drop_last() =~= section.roots@.take(r as int));
            }
            push_node_rows(state, root, &mut rows);
            proof {
                assert(renders_view(rows@) =~= after_heading + roots_rows(
                    *state,
                    section.roots@.take(r + 1),
                ));
            }
        }
        proof {
            assert(section.roots@.take(section.roots@.len() as int) =~= section.roots@);
            assert(sections@.take(s + 1).drop_last() =~= sections@.take(s as int));
            assert(renders_view(rows@) =~= sections_rows(*state, sections@.take(s + 1)));
        }
    }
    proof {
        assert(sections@.take(sections@.len() as int) =~= sections@);
    }
    rows
}

} // verus!

verus! {

/// How many rows a node's tree shows.
pub open spec fn subtree_size(layout: ReportLayout, node: int) -> nat
    decreases layout.nodes@.len() - node, 1int, 0int,
{
    if node < 0 || node >= layout.nodes@.len() {
        0
    } else {
        1 + children_size(layout, node, layout.nodes@[node].children@.len())
    }
}

/// How many rows the trees of the first `k` children of a node show.
pub open spec fn children_size(layout: ReportLayout, node: int, k: nat) -> nat
    decreases layout.nodes@.len() - node, 0int, k,
{
    if k == 0 || node < 0 || node >= layout.nodes@.len() || k > layout.nodes@[node].children@.len() {
        0
    } else {
        let child = layout.nodes@[node].children@[k - 1] as int;
        children_size(layout, node, (k - 1) as nat) + if node < child < layout.nodes@.len() {
            subtree_size(layout, child)
        } else {
            0
        }
    }
}

pub open spec fn roots_size(layout: ReportLayout, roots: Seq<usize>) -> nat
    decreases roots.len(),
{
    if roots.len() == 0 {
        0
    } else {
        roots_size(layout, roots.drop_last()) + subtree_size(layout, roots.last() as int)
    }
}

pub open spec fn section_size(layout: ReportLayout, section: ReportSection) -> nat {
    (if section.heading is Some {
        1nat
    } else {
        0nat
    }) + roots_size(layout, section.roots@)
}

pub open spec fn sections_size(layout: ReportLayout, sections: Seq<ReportSection>) -> nat
    decreases sections.len(),
{
    if sections.len() == 0 {
        0
    } else {
        sections_size(layout, sections.drop_last()) + section_size(layout, sections.last())
    }
}

/// How many rows the whole report shows.
pub open spec fn row_count(layout: ReportLayout) -> nat {
    sections_size(layout, layout.sections@)
}

/// The row counts of every tree and of the report fit a `usize`.
pub open spec fn counts_fit(layout: ReportLayout) -> bool {
    &&& forall|n: int| 0 <= n < layout.nodes@.len() ==> #[trigger] subtree_size(layout, n) <= usize::MAX
    &&& row_count(layout) <= usize::MAX
}

proof fn lemma_children_size_prefix(layout: ReportLayout, node: int, k: nat)
    requires
        0 <= node < layout.nodes@.len(),
        k <= layout.nodes@[node].children@.len(),
    ensures
        children_size(layout, node, k) <= children_size(
            layout,
            node,
            layout.nodes@[node].children@.len(),
        ),
    decreases layout.nodes@[node].children@.len() - k,
{
    if k < layout.nodes@[node].children@.len() {
        lemma_children_size_prefix(layout, node, k + 1);
    }
}

proof fn lemma_roots_size_prefix(layout: ReportLayout, roots: Seq<usize>, r: int)
    requires
        0 <= r <= roots.len(),
    ensures
        roots_size(layout, roots.take(r)) <= roots_size(layout, roots),
    decreases roots.len() - r,
{
    if r < roots.len() {
        assert(roots.take(r + 1).drop_last() =~= roots.take(r));
        lemma_roots_size_prefix(layout, roots, r + 1);
    } else {
        assert(roots.take(r) =~= roots);
    }
}

proof fn lemma_sections_size_prefix(layout: ReportLayout, sections: Seq<ReportSection>, s: int)
    requires
        0 <= s <= sections.len(),
    ensures
        sections_size(layout, sections.take(s)) <= sections_size(layout, sections),
    decreases sections.len() - s,
{
    if s < sections.len() {
        assert(sections.take(s + 1).drop_last() =~= sections.take(s));
        lemma_sections_size_prefix(layout, sections, s + 1);
    } else {
        assert(sections.take(s) =~= sections);
    }
}

/// How many rows a node's tree shows: the node and all its descendants.
pub fn node_count(layout: &ReportLayout, node: usize) -> (count: usize)
    requires
        layout_wf(*layout),
        counts_fit(*layout),
        node < layout.nodes@.len(),
    ensures
        count == subtree_size(*layout, node as int),
    decreases layout.nodes@.len() - node,
{
    let n = &layout.nodes[node];
    let mut count: usize = 1;
    proof {
        assert(subtree_size(*layout, node as int) <= usize::MAX);
    }
    for i in 0..n.children.len()
        invariant
            layout_wf(*layout),
            counts_fit(*layout),
            node < layout.nodes@.len(),
            *n == layout.nodes@[node as int],
            count == 1 + children_size(*layout, node as int, i as nat),
    {
        let child = n.children[i];
        proof {
            assert(node < child < layout.nodes@.len());
            lemma_children_size_prefix(*layout, node as int, (i + 1) as nat);
            assert(subtree_size(*layout, node as int) <= usize::MAX);
        }
        count = count + node_count(layout, child);
    }
    count
}

/// How many rows the whole report shows: section headings and every node.
pub fn report_row_count(layout: &ReportLayout) -> (count: usize)
    requires
        layout_wf(*layout),
        counts_fit(*layout),
    ensures
        count == row_count(*layout),
{
    let sections = &layout.sections;
    let mut count: usize = 0;
    for s in 0..sections.len()
        invariant
            layout_wf(*layout),
            counts_fit(*layout),
            *sections == layout.sections,
            count == sections_size(*layout, sections@.take(s as int)),
    {
        let section = &sections[s];
        proof {
            assert(sections@.take(s + 1).drop_last() =~= sections@.take(s as int));
            lemma_sections_size_prefix(*layout, sections@, s + 1);
        }
        if section.heading.is_some() {
            count = count + 1;
        }
        let ghost after_heading = count as nat;
        for r in 0..section.roots.len()
            invariant
                layout_wf(*layout),
                counts_fit(*layout),
                *sections == layout.sections,
                s < sections@.len(),
                *section == sections@[s as int],
                sections_size(*layout, sections@.take(s + 1)) <= usize::MAX,
                sections_size(*layout, sections@.take(s + 1)) == sections_size(
                    *layout,
                    sections@.take(s as int),
                ) + section_size(*layout, *section),
                after_heading == sections_size(*layout, sections@.take(s as int)) + (if section.heading is Some {
                    1nat
                } else {
                    0nat
                }),
                count == after_heading + roots_size(*layout, section.roots@.take(r as int)),
        {
            let root = section.roots[r];
            proof {
                assert(layout.sections@[s as int].roots@[r as int] == root);
                assert(section.roots@.take(r + 1).drop_last() =~= section.roots@.take(r as int));
                lemma_roots_size_prefix(*layout, section.roots@, r + 1);
            }
            count = count + node_count(layout, root);
        }
        proof {
            assert(section.roots@.take(section.roots@.len() as int) =~= section.roots@);
        }
    }
    proof {
        assert(sections@.take(sections@.len() as int) =~= sections@);
    }
    count
}

/// The row count matches the rows: a node's tree shows as many rows as
/// `subtree_size` counts.
pub proof fn lemma_subtree_rows_len(state: ViewState, node: int)
    ensures
        subtree_rows(state, node).len() == subtree_size(state.layout, node),
    decreases state.layout.nodes@.len() - node, 1int, 0int,
{
    if 0 <= node < state.layout.nodes@.len() {
        lemma_children_rows_len(state, node, state.layout.nodes@[node].children@.len());
    }
}

proof fn lemma_children_rows_len(state: ViewState, node: int, k: nat)
    ensures
        children_subtree_rows(state, node, k).len() == children_size(state.layout, node, k),
    decreases state.layout.nodes@.len() - node, 0int, k,
{
    if !(k == 0 || node < 0 || node >= state.layout.nodes@.len() || k
        > state.layout.nodes@[node].children@.len()) {
        lemma_children_rows_len(state, node, (k - 1) as nat);
        let child = state.layout.nodes@[node].children@[k - 1] as int;
        if node < child < state.layout.nodes@.len() {
            lemma_subtree_rows_len(state, child);
        }
    }
}

proof fn lemma_roots_rows_len(state: ViewState, roots: Seq<usize>)
    ensures
        roots_rows(state, roots).len() == roots_size(state.layout, roots),
    decreases roots.len(),
{
    if roots.len() > 0 {
        lemma_roots_rows_len(state, roots.drop_last());
        lemma_subtree_rows_len(state, roots.last() as int);
    }
}

proof fn lemma_sections_rows_len(state: ViewState, sections: Seq<ReportSection>)
    ensures
        sections_rows(state, sections).len() == sections_size(state.layout, sections),
    decreases sections.len(),
{
    if sections.len() > 0 {
        lemma_sections_rows_len(state, sections.drop_last());
        lemma_roots_rows_len(state, sections.last().roots@);
    }
}

/// The viewport is sized from `report_row_count`, and the report renders
/// `report_rows`: both agree on how many rows there are.
pub proof fn lemma_row_count_matches_rows(state: ViewState)
    ensures
        report_rows_spec(state).len() == row_count(state.layout),
{
    lemma_sections_rows_len(state, state.layout.sections@);
}

} // verus!

verus! {

/// The node or one of its descendants is `wanted`.
pub open spec fn subtree_has(layout: ReportLayout, node: int, wanted: int) -> bool
    decreases layout.nodes@.len() - node, 1int, 0int,
{
    0 <= node < layout.nodes@.len() && (node == wanted || children_have(
        layout,
        node,
        layout.nodes@[node].children@.len(),
        wanted,
    ))
}

/// One of the trees of the first `k` children of a node holds `wanted`.
pub open spec fn children_have(layout: ReportLayout, node: int, k: nat, wanted: int) -> bool
    decreases layout.nodes@.len() - node, 0int, k,
{
    if k == 0 || node < 0 || node >= layout.nodes@.len() || k > layout.nodes@[node].children@.len() {
        false
    } else {
        let child = layout.nodes@[node].children@[k - 1] as int;
        children_have(layout, node, (k - 1) as nat, wanted) || (node < child < layout.nodes@.len()
            && subtree_has(layout, child, wanted))
    }
}

/// Whether `wanted` is `node` or lies below it.
pub fn node_contains(layout: &ReportLayout, node: usize, wanted: usize) -> (found: bool)
    requires
        layout_wf(*layout),
        node < layout.nodes@.len(),
    ensures
        found == subtree_has(*layout, node as int, wanted as int),
    decreases layout.nodes@.len() - node,
{
    if node == wanted {
        return true;
    }
    let n = &layout.nodes[node];
    for i in 0..n.children.len()
        invariant
            layout_wf(*layout),
            node < layout.nodes@.len(),
            node != wanted,
            *n == layout.nodes@[node as int],
            !children_have(*layout, node as int, i as nat, wanted as int),
    {
        let child = n.children[i];
        proof {
            assert(node < child < layout.nodes@.len());
        }
        if node_contains(layout, child, wanted) {
            proof {
                assert(children_have(*layout, node as int, (i + 1) as nat, wanted as int));
                lemma_children_have_grows(*layout, node as int, (i + 1) as nat, wanted as int);
            }
            return true;
        }
    }
    false
}

proof fn lemma_children_have_grows(layout: ReportLayout, node: int, k: nat, wanted: int)
    requires
        0 <= node < layout.nodes@.len(),
        k <= layout.nodes@[node].children@.len(),
        children_have(layout, node, k, wanted),
    ensures
        children_have(layout, node, layout.nodes@[node].children@.len(), wanted),
    decreases layout.nodes@[node].children@.len() - k,
{
    if k < layout.nodes@[node].children@.len() {
        lemma_children_have_grows(layout, node, k + 1, wanted);
    }
}

/// One of a section's trees holds `wanted`.
pub open spec fn section_has(layout: ReportLayout, section: ReportSection, wanted: int) -> bool {
    exists|r: int|
        0 <= r < section.roots@.len() && subtree_has(layout, #[trigger] section.roots@[r] as int, wanted)
}

/// The first of the given sections that holds `wanted`.
pub open spec fn first_section_with(layout: ReportLayout, sections: Seq<ReportSection>, wanted: int) -> Option<
    int,
>
    decreases sections.len(),
{
    if sections.len() == 0 {
        None
    } else {
        match first_section_with(layout, sections.drop_last(), wanted) {
            Some(s) => Some(s),
            None => if section_has(layout, sections.last(), wanted) {
                Some(sections.len() - 1)
            } else {
                None
            },
        }
    }
}

proof fn lemma_first_section_persists(
    layout: ReportLayout,
    sections: Seq<ReportSection>,
    wanted: int,
    s: int,
)
    requires
        0 <= s <= sections.len(),
        first_section_with(layout, sections.take(s), wanted) is Some,
    ensures
        first_section_with(layout, sections, wanted) == first_section_with(
            layout,
            sections.take(s),
            wanted,
        ),
    decreases sections.len() - s,
{
    if s < sections.len() {
        assert(sections.take(s + 1).drop_last() =~= sections.take(s));
        lemma_first_section_persists(layout, sections, wanted, s + 1);
    } else {
        assert(sections.take(s) =~= sections);
    }
}

/// The first section whose trees hold the node `wanted`.
pub fn section_containing(layout: &ReportLayout, wanted: usize) -> (section: Option<usize>)
    requires
        layout_wf(*layout),
    ensures
        match section {
            Some(s) => first_section_with(*layout, layout.sections@, wanted as int) == Some(s as int),
            None => first_section_with(*layout, layout.sections@, wanted as int) is None,
        },
{
    let sections = &layout.sections;
    for s in 0..sections.len()
        invariant
            layout_wf(*layout),
            *sections == layout.sections,
            first_section_with(*layout, sections@.take(s as int), wanted as int) is None,
    {
        let section = &sections[s];
        proof {
            assert(sections@.take(s + 1).drop_last() =~= sections@.take(s as int));
        }
        let mut r: usize = 0;
        while r < section.roots.len()
            invariant
                layout_wf(*layout),
                s < sections@.len(),
                *sections == layout.sections,
                *section == sections@[s as int],
                first_section_with(*layout, sections@.take(s as int), wanted as int) is None,
                sections@.take(s + 1).drop_last() =~= sections@.take(s as int),
                0 <= r <= section.roots@.len(),
                forall|j: int|
                    0 <= j < r ==> !subtree_has(*layout, #[trigger] section.roots@[j] as int, wanted as int),
            decreases section.roots@.len() - r,
        {
            let root = section.roots[r];
            proof {
                assert(layout.sections@[s as int].roots@[r as int] == root);
            }
            if node_contains(layout, root, wanted) {
                proof {
                    assert(section_has(*layout, *section, wanted as int));
                    assert(sections@.take(s + 1).last() == *section);
                    assert(sections@.take(s + 1).len() == s + 1);
                    assert(first_section_with(*layout, sections@.take(s + 1), wanted as int) == Some(
                        s as int,
                    ));
                    lemma_first_section_persists(*layout, sections@, wanted as int, s + 1);
                }
                return Some(s);
            }
            r = r + 1;
        }
    }
    proof {
        assert(sections@.take(sections@.len() as int) =~= sections@);
    }
    None
}

/// The rows from `start` to `end` that a viewport of `visible` rows shows
/// of `total` rows: everything when it fits, else a window around the
/// current row, kept inside the rows.
pub open spec fn window(total: nat, visible: nat, current: Option<usize>) -> (nat, nat) {
    if total <= visible {
        (0, total)
    } else {
        let wanted = match current {
            Some(c) => c as nat,
            None => 0,
        };
        let row = if wanted < total - 1 {
            wanted
        } else {
            (total - 1) as nat
        };
        let centered = if row >= visible / 2 {
            (row - visible / 2) as nat
        } else {
            0
        };
        let start = if centered < total - visible {
            centered
        } else {
            (total - visible) as nat
        };
        (start, start + visible)
    }
}

pub fn visible_window(total: usize, visible: usize, current: Option<usize>) -> (range: (usize, usize))
    ensures
        range.0 == window(total as nat, visible as nat, current).0,
        range.1 == window(total as nat, visible as nat, current).1,
{
    if total <= visible {
        return (0, total);
    }
    let wanted = match current {
        Some(c) => c,
        None => 0,
    };
    let row = if wanted < total - 1 {
        wanted
    } else {
        total - 1
    };
    let centered = if row >= visible / 2 {
        row - visible / 2
    } else {
        0
    };
    let start = if centered < total - visible {
        centered
    } else {
        total - visible
    };
    (start, start + visible)
}

/// The inline display is used only for a normal sync on a terminal: both
/// output streams are terminals and neither a dry run, verbose output nor
/// `--no-progress` was asked for.
pub fn should_use_inline(
    dry: bool,
    verbose: bool,
    no_progress: bool,
    stderr_tty: bool,
    stdout_tty: bool,
) -> (inline: bool)
    ensures
        inline == (stderr_tty && stdout_tty && !dry && !verbose && !no_progress),
{
    stderr_tty && stdout_tty && !dry && !verbose && !no_progress
}

pub open spec fn spinner_frame(index: nat) -> Seq<char> {
    let frame = index % 10;
    if frame == 0 {
        "⠋"@
    } else if frame == 1 {
        "⠙"@
    } else if frame == 2 {
        "⠹"@
    } else if frame == 3 {
        "⠸"@
    } else if frame == 4 {
        "⠼"@
    } else if frame == 5 {
        "⠴"@
    } else if frame == 6 {
        "⠦"@
    } else if frame == 7 {
        "⠧"@
    } else if frame == 8 {
        "⠇"@
    } else {
        "⠏"@
    }
}

/// The frame of the scanning spinner for a tick.
pub fn spinner(index: usize) -> (frame: &'static str)
    ensures
        frame@ == spinner_frame(index as nat),
        frame@.len() == 1,
{
    proof {
        reveal_strlit("⠋");
        reveal_strlit("⠙");
        reveal_strlit("⠹");
        reveal_strlit("⠸");
        reveal_strlit("⠼");
        reveal_strlit("⠴");
        reveal_strlit("⠦");
        reveal_strlit("⠧");
        reveal_strlit("⠇");
        reveal_strlit("⠏");
    }
    let frame = index % 10;
    if frame == 0 {
        "⠋"
    } else if frame == 1 {
        "⠙"
    } else if frame == 2 {
        "⠹"
    } else if frame == 3 {
        "⠸"
    } else if frame == 4 {
        "⠼"
    } else if frame == 5 {
        "⠴"
    } else if frame == 6 {
        "⠦"
    } else if frame == 7 {
        "⠧"
    } else if frame == 8 {
        "⠇"
    } else {
        "⠏"
    }
}

pub open spec fn status_symbol_text(status: ItemStatus, spinner_index: nat) -> Seq<char> {
    match status {
        ItemStatus::Pending | ItemStatus::Ready => "·"@,
        ItemStatus::Scanning => spinner_frame(spinner_index),
        ItemStatus::Copying => "›"@,
        ItemStatus::Done => "✓"@,
        ItemStatus::Warning | ItemStatus::Skipped => "⚠"@,
        ItemStatus::Failed => "✗"@,
        ItemStatus::Cancelled => "⨯"@,
    }
}

/// The one-character symbol of a status.
pub fn status_symbol(status: ItemStatus, spinner_index: usize) -> (symbol: &'static str)
    ensures
        symbol@ == status_symbol_text(status, spinner_index as nat),
        symbol@.len() == 1,
{
    proof {
        reveal_strlit("·");
        reveal_strlit("›");
        reveal_strlit("✓");
        reveal_strlit("⚠");
        reveal_strlit("✗");
        reveal_strlit("⨯");
    }
    match status {
        ItemStatus::Pending | ItemStatus::Ready => "·",
        ItemStatus::Scanning => spinner(spinner_index),
        ItemStatus::Copying => "›",
        ItemStatus::Done => "✓",
        ItemStatus::Warning | ItemStatus::Skipped => "⚠",
        ItemStatus::Failed => "✗",
        ItemStatus::Cancelled => "⨯",
    }
}

/// A text cut to at most `width` characters, ending in an ellipsis when cut.
pub open spec fn truncated(value: Seq<char>, width: nat) -> Seq<char> {
    if value.len() <= width {
        value
    } else if width == 0 {
        seq![]
    } else if width == 1 {
        "…"@
    } else {
        value.take(width - 1) + "…"@
    }
}

pub fn truncate(value: &str, width: usize) -> (text: String)
    ensures
        text@ == truncated(value@, width as nat),
{
    let count = value.unicode_len();
    if count <= width {
        return String::from_str(value);
    }
    if width == 0 {
        return String::new();
    }
    if width == 1 {
        return String::from_str("…");
    }
    let mut text = String::from_str(value.substring_char(0, width - 1));
    text.append("…");
    assert(value@.subrange(0, width - 1) =~= value@.take(width - 1));
    text
}

} // verus!

verus! {

// ---------------------------------------------------------------------------
// The final report of one row

/// The text after a row's name in the final report: the status alone for a
/// duplicate; item and file counts, bytes and status for a branch; file
/// counts, bytes and status for an item when the width reaches 55, else the
/// bare counts and status.
pub open spec fn report_suffix(row: RowModel, width: nat) -> Seq<char> {
    if row.duplicate {
        "  "@ + status_label(row.status)
    } else if row.branch {
        "  "@ + decimal(row.completed_items) + "/"@ + decimal(row.total_items) + " items  "@
            + decimal(row.copied_files) + "/"@ + decimal(row.total_files) + " files  "@
            + bytes_text(row.copied_bytes) + "  "@ + status_label(row.status)
    } else if width >= 55 {
        "  "@ + decimal(row.copied_files) + "/"@ + decimal(row.total_files) + " files  "@
            + bytes_text(row.copied_bytes) + "  "@ + status_label(row.status)
    } else {
        "  "@ + decimal(row.copied_files) + "/"@ + decimal(row.total_files) + "  "@ + status_label(
            row.status,
        )
    }
}

/// The line of the final report for a row shown `width` columns wide: the
/// status symbol, the name cut to what the width leaves (at least one
/// character), and the suffix.
pub open spec fn item_report_text(row: RowModel, width: nat) -> Seq<char> {
    let suffix = report_suffix(row, width);
    let fixed = 2 + suffix.len();
    let name_width: nat = if width > fixed {
        (width - fixed) as nat
    } else {
        1
    };
    status_symbol_text(row.status, 0) + " "@ + truncated(row.name, name_width) + suffix
}

fn append_str(text: &mut String, piece: &str)
    ensures
        final(text)@ == old(text)@ + piece@,
{
    text.append(piece);
}

fn report_suffix_text(item: &ItemView, width: u16) -> (suffix: String)
    ensures
        suffix@ == report_suffix(item@, width as nat),
{
    proof {
        reveal_strlit("  ");
        reveal_strlit("/");
        reveal_strlit(" items  ");
        reveal_strlit(" files  ");
    }
    let mut suffix = String::from_str("  ");
    if item.duplicate {
        append_str(&mut suffix, item.status.label());
        assert(suffix@ =~= report_suffix(item@, width as nat));
        return suffix;
    }
    if item.branch {
        append_count(&mut suffix, item.completed_items);
        append_str(&mut suffix, "/");
        append_count(&mut suffix, item.total_items);
        append_str(&mut suffix, " items  ");
    }
    append_count(&mut suffix, item.copied_files);
    append_str(&mut suffix, "/");
    append_count(&mut suffix, item.total_files);
    if item.branch || width >= 55 {
        append_str(&mut suffix, " files  ");
        let bytes = format_bytes(item.copied_bytes);
        append_str(&mut suffix, bytes.as_str());
    }
    append_str(&mut suffix, "  ");
    append_str(&mut suffix, item.status.label());
    assert(suffix@ =~= report_suffix(item@, width as nat));
    suffix
}

/// The line of the final report for one row.
pub fn format_item_report(item: &ItemView, width: u16) -> (text: String)
    ensures
        text@ == item_report_text(item@, width as nat),
{
    let symbol = status_symbol(item.status, 0);
    let suffix = report_suffix_text(item, width);
    let suffix_len = suffix.as_str().unicode_len();
    let columns = width as usize;
    let name_width: usize = if suffix_len < columns && columns - suffix_len > 2 {
        columns - suffix_len - 2
    } else {
        1
    };
    let mut text = String::from_str(symbol);
    proof {
        reveal_strlit(" ");
    }
    text.append(" ");
    let name = truncate(item.name.as_str(), name_width);
    text.append(name.as_str());
    text.append(suffix.as_str());
    assert(text@ =~= item_report_text(item@, width as nat));
    text
}

} // verus!

verus! {

// ---------------------------------------------------------------------------
// Building the view state

/// The widest indented label among the nodes, if there are any.
pub open spec fn widest_label(nodes: Seq<ReportNode>) -> Option<nat>
    decreases nodes.len(),
{
    if nodes.len() == 0 {
        None
    } else {
        let last = nodes.last();
        let width: nat = last.label@.len() + 2 * (last.depth as nat);
        match widest_label(nodes.drop_last()) {
            Some(w) => Some(if w >= width { w } else { width }),
            None => Some(width),
        }
    }
}

/// The width of the name column: the widest indented label, ten when there
/// are no nodes, kept between ten and thirty.
pub open spec fn name_column_width(nodes: Seq<ReportNode>) -> nat {
    let widest = match widest_label(nodes) {
        Some(w) => w,
        None => 10,
    };
    if widest < 10 {
        10
    } else if widest > 30 {
        30
    } else {
        widest
    }
}

/// The provisional name of item `index` before any row shows it.
pub open spec fn provisional_name(index: nat) -> Seq<char> {
    "item-"@ + decimal(index)
}

/// The widest indented label, capped at `usize::MAX`.
spec fn capped(width: Option<nat>) -> Option<usize> {
    match width {
        Some(w) => Some(if w > usize::MAX { usize::MAX } else { w as usize }),
        None => None,
    }
}

fn name_width_of(nodes: &Vec<ReportNode>) -> (width: u16)
    ensures
        width == name_column_width(nodes@),
{
    let mut widest: Option<usize> = None;
    for i in 0..nodes.len()
        invariant
            widest == capped(widest_label(nodes@.take(i as int))),
    {
        assert(nodes@.take(i + 1).drop_last() =~= nodes@.take(i as int));
        assert(nodes@.take(i + 1).last() == nodes@[i as int]);
        let node = &nodes[i];
        let label = node.label.as_str().unicode_len();
        let width = match node.depth.checked_mul(2) {
            Some(indent) => match label.checked_add(indent) {
                Some(total) => total,
                None => usize::MAX,
            },
            None => usize::MAX,
        };
        widest = match widest {
            Some(w) => Some(if w >= width { w } else { width }),
            None => Some(width),
        };
    }
    assert(nodes@.take(nodes@.len() as int) =~= nodes@);
    let widest = match widest {
        Some(w) => w,
        None => 10,
    };
    if widest < 10 {
        10
    } else if widest > 30 {
        30
    } else {
        widest as u16
    }
}

fn provisional(index: usize) -> (name: String)
    ensures
        name@ == provisional_name(index as nat),
{
    let mut name = String::from_str("item-");
    proof {
        reveal_strlit("item-");
    }
    append_count(&mut name, index);
    name
}

/// A flat layout over named items: one section without a heading, one
/// top-level node per item, labelled with its name.
pub open spec fn is_flat_layout(layout: ReportLayout, names: Seq<Seq<char>>) -> bool {
    &&& layout.sections@.len() == 1
    &&& layout.sections@[0].heading is None
    &&& layout.sections@[0].roots@ == Seq::new(names.len(), |i: int| i as usize)
    &&& layout.nodes@.len() == names.len()
    &&& layout.leaf_owners@ == Seq::new(names.len(), |i: int| i as usize)
    &&& forall|i: int|
        0 <= i < names.len() ==> {
            &&& (#[trigger] layout.nodes@[i]).label@ == names[i]
            &&& layout.nodes@[i].origin@ == names[i]
            &&& layout.nodes@[i].depth == 0
            &&& layout.nodes@[i].children@.len() == 0
            &&& layout.nodes@[i].leaf == Some(i as usize)
            &&& layout.nodes@[i].duplicate_of is None
        }
}

fn flat_layout(names: Vec<String>) -> (layout: ReportLayout)
    ensures
        is_flat_layout(layout, names.deep_view()),
        layout_wf(layout),
{
    let mut nodes: Vec<ReportNode> = Vec::new();
    let mut leaf_owners: Vec<usize> = Vec::new();
    let mut roots: Vec<usize> = Vec::new();
    for leaf in 0..names.len()
        invariant
            nodes@.len() == leaf,
            leaf_owners@ == Seq::new(leaf as nat, |i: int| i as usize),
            roots@ == Seq::new(leaf as nat, |i: int| i as usize),
            forall|i: int|
                0 <= i < leaf ==> {
                    &&& (#[trigger] nodes@[i]).label@ == names@[i]@
                    &&& nodes@[i].origin@ == names@[i]@
                    &&& nodes@[i].depth == 0
                    &&& nodes@[i].children@.len() == 0
                    &&& nodes@[i].leaf == Some(i as usize)
                    &&& nodes@[i].duplicate_of is None
                },
    {
        let name = &names[leaf];
        nodes.push(
            ReportNode {
                label: name.clone(),
                origin: name.clone(),
                depth: 0,
                children: Vec::new(),
                leaf: Some(leaf),
                duplicate_of: None,
            },
        );
        leaf_owners.push(leaf);
        roots.push(leaf);
        assert(leaf_owners@ =~= Seq::new((leaf + 1) as nat, |i: int| i as usize));
        assert(roots@ =~= Seq::new((leaf + 1) as nat, |i: int| i as usize));
    }
    let mut sections: Vec<ReportSection> = Vec::new();
    sections.push(ReportSection { heading: None, roots });
    let layout = ReportLayout { sections, nodes, leaf_owners };
    assert(names.deep_view().len() == names@.len());
    assert forall|i: int| 0 <= i < names@.len() implies (#[trigger] names.deep_view()[i])
        == names@[i]@ by {}
    layout
}

impl ReportLayout {
    /// A flat layout over the given items, in order.
    pub fn flat(items: &Vec<ResolvedItem>) -> (layout: ReportLayout)
        ensures
            is_flat_layout(layout, items@.map_values(|item: ResolvedItem| item.name@)),
            layout_wf(layout),
    {
        let mut names: Vec<String> = Vec::new();
        for i in 0..items.len()
            invariant
                names@.len() == i,
                forall|j: int| 0 <= j < i ==> (#[trigger] names@[j])@ == items@[j].name@,
        {
            names.push(items[i].name.clone());
        }
        proof {
            assert(names.deep_view() =~= items@.map_values(|item: ResolvedItem| item.name@));
        }
        flat_layout(names)
    }

    /// The label and depth of the node that owns item `item`, if any.
    pub fn leaf_label(&self, item: usize) -> (label: Option<(String, usize)>)
        requires
            layout_wf(*self),
        ensures
            match label {
                Some((name, depth)) => {
                    &&& item < self.leaf_owners@.len()
                    &&& name@ == self.nodes@[self.leaf_owners@[item as int] as int].label@
                    &&& depth == self.nodes@[self.leaf_owners@[item as int] as int].depth
                },
                None => item >= self.leaf_owners@.len(),
            },
    {
        if item >= self.leaf_owners.len() {
            return None;
        }
        let node = &self.nodes[self.leaf_owners[item]];
        Some((node.label.clone(), node.depth))
    }
}

/// A fresh view of a sync over `layout`: every item pending under its
/// provisional name, nothing counted, the name column as wide as the
/// layout's labels allow.
pub open spec fn fresh_state(state: ViewState, direction: Direction, layout: ReportLayout) -> bool {
    &&& state.direction == direction
    &&& state.layout == layout
    &&& state.items@.len() == layout.leaf_owners@.len()
    &&& forall|i: int|
        0 <= i < state.items@.len() ==> (#[trigger] state.items@[i])@ == fresh_row(
            provisional_name(i as nat),
        )
    &&& state.current is None
    &&& state.spinner == 0
    &&& state.scanned_items == 0
    &&& !state.plan_complete
    &&& state.total_files == 0
    &&& state.processed_files == 0
    &&& state.copied_files == 0
    &&& state.copied_bytes == 0
    &&& state.name_width == name_column_width(layout.nodes@)
}

impl ViewState {
    /// A fresh view over a flat layout of the named items.
    pub fn new(direction: Direction, names: Vec<String>) -> (state: ViewState)
        ensures
            is_flat_layout(state.layout, names.deep_view()),
            fresh_state(state, direction, state.layout),
    {
        let layout = flat_layout(names);
        ViewState::with_layout(direction, layout)
    }

    /// A fresh view over `layout`.
    pub fn with_layout(direction: Direction, layout: ReportLayout) -> (state: ViewState)
        ensures
            fresh_state(state, direction, layout),
    {
        let item_count = layout.leaf_owners.len();
        let name_width = name_width_of(&layout.nodes);
        let mut items: Vec<ItemView> = Vec::new();
        for index in 0..item_count
            invariant
                items@.len() == index,
                forall|i: int|
                    0 <= i < index ==> (#[trigger] items@[i])@ == fresh_row(
                        provisional_name(i as nat),
                    ),
        {
            items.push(ItemView::new(provisional(index)));
        }
        ViewState {
            direction,
            layout,
            items,
            current: None,
            spinner: 0,
            scanned_items: 0,
            plan_complete: false,
            total_files: 0,
            processed_files: 0,
            copied_files: 0,
            copied_bytes: 0,
            name_width,
        }
    }
}

} // verus!

verus! {

// ---------------------------------------------------------------------------
// Events and the inline display's state machine

/// What a sync reports as it goes.
pub enum OwnedEvent {
    ScanStarted { item: usize },
    ScanPath { item: usize, logical_path: String },
    ScanFinished { item: usize, total_files: usize },
    PlanFinished { total_files: usize },
    ItemStarted { item: usize },
    FileStarted { item: usize, logical_path: String, src: String, dst: String },
    FileFinished { item: usize, copied: bool, bytes: u64 },
    ItemFinished { item: usize, status: ItemStatus },
    Warning { item: Option<usize>, message: String },
    Error { item: Option<usize>, message: String },
    Finish(Summary),
}

/// The view state as plain values.
pub struct StateView {
    pub direction: Direction,
    pub layout: ReportLayout,
    pub rows: Seq<RowModel>,
    pub current: Option<usize>,
    pub spinner: usize,
    pub scanned_items: nat,
    pub plan_complete: bool,
    pub total_files: nat,
    pub processed_files: nat,
    pub copied_files: nat,
    pub copied_bytes: nat,
    pub name_width: u16,
}

pub open spec fn rows_view(items: Seq<ItemView>) -> Seq<RowModel> {
    items.map_values(|v: ItemView| v@)
}

impl View for ViewState {
    type V = StateView;

    open spec fn view(&self) -> StateView {
        StateView {
            direction: self.direction,
            layout: self.layout,
            rows: rows_view(self.items@),
            current: self.current,
            spinner: self.spinner,
            scanned_items: self.scanned_items as nat,
            plan_complete: self.plan_complete,
            total_files: self.total_files as nat,
            processed_files: self.processed_files as nat,
            copied_files: self.copied_files as nat,
            copied_bytes: self.copied_bytes as nat,
            name_width: self.name_width,
        }
    }
}

/// The first row with the given status.
pub open spec fn first_with(rows: Seq<RowModel>, status: ItemStatus) -> Option<usize>
    decreases rows.len(),
{
    if rows.len() == 0 {
        None
    } else {
        match first_with(rows.drop_last(), status) {
            Some(i) => Some(i),
            None => if rows.last().status == status {
                Some((rows.len() - 1) as usize)
            } else {
                None
            },
        }
    }
}

/// Changes row `item` when there is one.
pub open spec fn update_row(rows: Seq<RowModel>, item: usize, row: RowModel) -> Seq<RowModel> {
    if item < rows.len() {
        rows.update(item as int, row)
    } else {
        rows
    }
}

/// The status a row shows once its scan finished: failed after an error,
/// warning after a warning, else ready.
pub open spec fn scanned_status(row: RowModel) -> ItemStatus {
    if row.had_error {
        ItemStatus::Failed
    } else if row.had_warning {
        ItemStatus::Warning
    } else {
        ItemStatus::Ready
    }
}

/// What the display does after an event, besides changing its state.
#[derive(Debug, PartialEq, Eq)]
pub enum Display {
    /// Redraw; unless forced, a redraw may be skipped when the last one is
    /// recent.
    Redraw { force: bool },
    /// Print a diagnostic line above the display, styled by `status`, then
    /// redraw.
    Diagnostic { line: String, status: ItemStatus },
    /// The sync finished: redraw, print the final report, leave.
    Finish,
}

/// The line a diagnostic prints: `  <level>: <message>`.
pub open spec fn diagnostic_line(level: Seq<char>, message: Seq<char>) -> Seq<char> {
    "  "@ + level + ": "@ + message
}

/// The state after the sync was cancelled: rows still scanning or copying
/// become cancelled and lose their current path.
pub open spec fn cancelled_rows(rows: Seq<RowModel>) -> Seq<RowModel> {
    Seq::new(
        rows.len(),
        |i: int|
            if rows[i].status == ItemStatus::Scanning || rows[i].status == ItemStatus::Copying {
                RowModel { status: ItemStatus::Cancelled, current_path: seq![], ..rows[i] }
            } else {
                rows[i]
            },
    )
}

/// The counters an event adds to stay within their machine types.
pub open spec fn event_fits(state: StateView, event: OwnedEvent) -> bool {
    match event {
        OwnedEvent::ScanFinished { .. } => state.scanned_items < usize::MAX,
        OwnedEvent::FileFinished { item, copied, bytes } => {
            &&& state.processed_files < usize::MAX
            &&& copied ==> state.copied_files < usize::MAX
            &&& copied ==> state.copied_bytes + bytes <= u64::MAX
            &&& item < state.rows.len() ==> {
                &&& state.rows[item as int].processed_files < usize::MAX
                &&& copied ==> state.rows[item as int].copied_files < usize::MAX
                &&& copied ==> state.rows[item as int].copied_bytes + bytes <= u64::MAX
            }
        },
        _ => true,
    }
}

/// How the display's state changes with an event.
pub open spec fn next_state(state: StateView, event: OwnedEvent) -> StateView {
    match event {
        OwnedEvent::ScanStarted { item } => StateView {
            current: Some(item),
            rows: if item < state.rows.len() {
                state.rows.update(
                    item as int,
                    RowModel { status: ItemStatus::Scanning, ..state.rows[item as int] },
                )
            } else {
                state.rows
            },
            ..state
        },
        OwnedEvent::ScanPath { item, logical_path } => StateView {
            current: Some(item),
            spinner: if state.spinner == usize::MAX {
                0
            } else {
                (state.spinner + 1) as usize
            },
            rows: if item < state.rows.len() {
                state.rows.update(
                    item as int,
                    RowModel { current_path: logical_path@, ..state.rows[item as int] },
                )
            } else {
                state.rows
            },
            ..state
        },
        OwnedEvent::ScanFinished { item, total_files } => {
            let rows = if item < state.rows.len() {
                state.rows.update(
                    item as int,
                    RowModel {
                        total_files: total_files as nat,
                        status: scanned_status(state.rows[item as int]),
                        current_path: seq![],
                        ..state.rows[item as int]
                    },
                )
            } else {
                state.rows
            };
            StateView {
                rows,
                scanned_items: state.scanned_items + 1,
                current: if state.current == Some(item) {
                    first_with(rows, ItemStatus::Scanning)
                } else {
                    state.current
                },
                ..state
            }
        },
        OwnedEvent::PlanFinished { total_files } => StateView {
            plan_complete: true,
            total_files: total_files as nat,
            current: None,
            ..state
        },
        OwnedEvent::ItemStarted { item } => StateView {
            current: Some(item),
            rows: if item < state.rows.len() {
                state.rows.update(
                    item as int,
                    RowModel { status: ItemStatus::Copying, ..state.rows[item as int] },
                )
            } else {
                state.rows
            },
            ..state
        },
        OwnedEvent::FileStarted { item, logical_path, .. } => StateView {
            current: Some(item),
            rows: if item < state.rows.len() {
                state.rows.update(
                    item as int,
                    RowModel { current_path: logical_path@, ..state.rows[item as int] },
                )
            } else {
                state.rows
            },
            ..state
        },
        OwnedEvent::FileFinished { item, copied, bytes } => StateView {
            processed_files: state.processed_files + 1,
            copied_files: state.copied_files + if copied {
                1nat
            } else {
                0nat
            },
            copied_bytes: state.copied_bytes + if copied {
                bytes as nat
            } else {
                0nat
            },
            rows: if item < state.rows.len() {
                let row = state.rows[item as int];
                state.rows.update(
                    item as int,
                    RowModel {
                        processed_files: row.processed_files + 1,
                        copied_files: row.copied_files + if copied {
                            1nat
                        } else {
                            0nat
                        },
                        copied_bytes: row.copied_bytes + if copied {
                            bytes as nat
                        } else {
                            0nat
                        },
                        ..row
                    },
                )
            } else {
                state.rows
            },
            ..state
        },
        OwnedEvent::ItemFinished { item, status } => {
            let rows = if item < state.rows.len() {
                state.rows.update(
                    item as int,
                    RowModel { status, current_path: seq![], ..state.rows[item as int] },
                )
            } else {
                state.rows
            };
            StateView {
                rows,
                current: if state.current == Some(item) {
                    first_with(rows, ItemStatus::Copying)
                } else {
                    state.current
                },
                ..state
            }
        },
        OwnedEvent::Warning { item, .. } => StateView {
            rows: match item {
                Some(i) => if i < state.rows.len() {
                    let row = state.rows[i as int];
                    state.rows.update(
                        i as int,
                        RowModel {
                            had_warning: true,
                            status: if row.status == ItemStatus::Scanning {
                                ItemStatus::Scanning
                            } else {
                                ItemStatus::Warning
                            },
                            ..row
                        },
                    )
                } else {
                    state.rows
                },
                None => state.rows,
            },
            ..state
        },
        OwnedEvent::Error { item, .. } => StateView {
            rows: match item {
                Some(i) => if i < state.rows.len() {
                    state.rows.update(
                        i as int,
                        RowModel {
                            had_error: true,
                            status: ItemStatus::Failed,
                            ..state.rows[i as int]
                        },
                    )
                } else {
                    state.rows
                },
                None => state.rows,
            },
            ..state
        },
        OwnedEvent::Finish(summary) => if summary.cancelled {
            StateView { rows: cancelled_rows(state.rows), ..state }
        } else {
            state
        },
    }
}

/// What the display does after an event.
pub open spec fn display_after(event: OwnedEvent, display: Display) -> bool {
    match event {
        OwnedEvent::ScanPath { .. } | OwnedEvent::FileStarted { .. }
        | OwnedEvent::FileFinished { .. } => display == Display::Redraw { force: false },
        OwnedEvent::Warning { message, .. } => display matches Display::Diagnostic { line, status }
            && line@ == diagnostic_line("warning"@, message@) && status == ItemStatus::Warning,
        OwnedEvent::Error { message, .. } => display matches Display::Diagnostic { line, status }
            && line@ == diagnostic_line("error"@, message@) && status == ItemStatus::Failed,
        OwnedEvent::Finish(_) => display == Display::Finish,
        _ => display == Display::Redraw { force: true },
    }
}

proof fn lemma_rows_update(items: Seq<ItemView>, i: int, view: ItemView)
    requires
        0 <= i < items.len(),
    ensures
        rows_view(items.update(i, view)) == rows_view(items).update(i, view@),
{
    assert(rows_view(items.update(i, view)) =~= rows_view(items).update(i, view@));
}

fn first_with_status(items: &Vec<ItemView>, status: ItemStatus) -> (found: Option<usize>)
    ensures
        found == first_with(rows_view(items@), status),
{
    let ghost rows = rows_view(items@);
    let mut i: usize = 0;
    while i < items.len()
        invariant
            0 <= i <= items@.len(),
            rows == rows_view(items@),
            first_with(rows.take(i as int), status) is None,
        decreases items@.len() - i,
    {
        assert(rows.take(i + 1).drop_last() =~= rows.take(i as int));
        if items[i].status == status {
            assert(first_with(rows.take(i + 1), status) == Some(i));
            proof {
                lemma_first_with_persists(rows, status, i + 1);
            }
            return Some(i);
        }
        i = i + 1;
    }
    assert(rows.take(i as int) =~= rows);
    None
}

proof fn lemma_first_with_persists(rows: Seq<RowModel>, status: ItemStatus, k: int)
    requires
        0 <= k <= rows.len(),
        first_with(rows.take(k), status) is Some,
    ensures
        first_with(rows, status) == first_with(rows.take(k), status),
    decreases rows.len() - k,
{
    if k < rows.len() {
        assert(rows.take(k + 1).drop_last() =~= rows.take(k));
        lemma_first_with_persists(rows, status, k + 1);
    } else {
        assert(rows.take(k) =~= rows);
    }
}

fn diagnostic(level: &str, message: &String) -> (line: String)
    ensures
        line@ == diagnostic_line(level@, message@),
{
    proof {
        reveal_strlit("  ");
        reveal_strlit(": ");
    }
    let mut line = String::from_str("  ");
    line.append(level);
    line.append(": ");
    line.append(message.as_str());
    line
}

impl ViewState {
    /// Whether an event's counts stay within their machine types here.
    pub fn event_fits(&self, event: &OwnedEvent) -> (fits: bool)
        ensures
            fits == event_fits(self@, *event),
    {
        match event {
            OwnedEvent::ScanFinished { .. } => self.scanned_items < usize::MAX,
            OwnedEvent::FileFinished { item, copied, bytes } => {
                let item = *item;
                let copied = *copied;
                let bytes = *bytes;
                if self.processed_files == usize::MAX {
                    return false;
                }
                if copied && (self.copied_files == usize::MAX || self.copied_bytes > u64::MAX
                    - bytes) {
                    return false;
                }
                if item < self.items.len() {
                    let view = &self.items[item];
                    assert(rows_view(self.items@)[item as int] == view@);
                    if view.processed_files == usize::MAX {
                        return false;
                    }
                    if copied && (view.copied_files == usize::MAX || view.copied_bytes > u64::MAX
                        - bytes) {
                        return false;
                    }
                }
                true
            },
            _ => true,
        }
    }

    /// Takes in one event: the state changes as `next_state` says, and the
    /// display does what `display_after` says.
    pub fn apply(&mut self, event: &OwnedEvent) -> (display: Display)
        requires
            event_fits(old(self)@, *event),
        ensures
            final(self)@ == next_state(old(self)@, *event),
            display_after(*event, display),
    {
        match event {
            OwnedEvent::ScanStarted { .. } => self.on_scan_started(event),
            OwnedEvent::ScanPath { .. } => self.on_scan_path(event),
            OwnedEvent::ScanFinished { .. } => self.on_scan_finished(event),
            OwnedEvent::PlanFinished { .. } => self.on_plan_finished(event),
            OwnedEvent::ItemStarted { .. } => self.on_item_started(event),
            OwnedEvent::FileStarted { .. } => self.on_file_started(event),
            OwnedEvent::FileFinished { .. } => self.on_file_finished(event),
            OwnedEvent::ItemFinished { .. } => self.on_item_finished(event),
            OwnedEvent::Warning { .. } => self.on_warning(event),
            OwnedEvent::Error { .. } => self.on_error(event),
            OwnedEvent::Finish(_) => self.on_finish(event),
        }
    }

    fn on_scan_started(&mut self, event: &OwnedEvent) -> (display: Display)
        requires
            *event is ScanStarted,
        ensures
            final(self)@ == next_state(old(self)@, *event),
            display_after(*event, display),
    {
        match event {
            OwnedEvent::ScanStarted { item } => {
                let item = *item;
                self.current = Some(item);
                if item < self.items.len() {
                    let mut view = self.items[item].copy();
                    view.status = ItemStatus::Scanning;
                    proof {
                        lemma_rows_update(self.items@, item as int, view);
                    }
                    self.items.set(item, view);
                }
                Display::Redraw { force: true }
            },
            _ => unreached(),
        }
    }

    fn on_scan_path(&mut self, event: &OwnedEvent) -> (display: Display)
        requires
            *event is ScanPath,
        ensures
            final(self)@ == next_state(old(self)@, *event),
            display_after(*event, display),
    {
        match event {
            OwnedEvent::ScanPath { item, logical_path } => {
                let item = *item;
                self.current = Some(item);
                self.spinner = if self.spinner == usize::MAX {
                    0
                } else {
                    self.spinner + 1
                };
                if item < self.items.len() {
                    let mut view = self.items[item].copy();
                    view.current_path = logical_path.clone();
                    proof {
                        lemma_rows_update(self.items@, item as int, view);
                    }
                    self.items.set(item, view);
                }
                Display::Redraw { force: false }
            },
            _ => unreached(),
        }
    }

    fn on_scan_finished(&mut self, event: &OwnedEvent) -> (display: Display)
        requires
            *event is ScanFinished,
            event_fits(old(self)@, *event),
        ensures
            final(self)@ == next_state(old(self)@, *event),
            display_after(*event, display),
    {
        match event {
            OwnedEvent::ScanFinished { item, total_files } => {
                let item = *item;
                if item < self.items.len() {
                    let mut view = self.items[item].copy();
                    view.total_files = *total_files;
                    view.status = if view.had_error {
                        ItemStatus::Failed
                    } else if view.had_warning {
                        ItemStatus::Warning
                    } else {
                        ItemStatus::Ready
                    };
                    view.current_path = String::new();
                    proof {
                        lemma_rows_update(self.items@, item as int, view);
                    }
                    self.items.set(item, view);
                }
                self.scanned_items = self.scanned_items + 1;
                if self.current == Some(item) {
                    self.current = first_with_status(&self.items, ItemStatus::Scanning);
                }
                Display::Redraw { force: true }
            },
            _ => unreached(),
        }
    }

    fn on_plan_finished(&mut self, event: &OwnedEvent) -> (display: Display)
        requires
            *event is PlanFinished,
        ensures
            final(self)@ == next_state(old(self)@, *event),
            display_after(*event, display),
    {
        match event {
            OwnedEvent::PlanFinished { total_files } => {
                self.plan_complete = true;
                self.total_files = *total_files;
                self.current = None;
                Display::Redraw { force: true }
            },
            _ => unreached(),
        }
    }

    fn on_item_started(&mut self, event: &OwnedEvent) -> (display: Display)
        requires
            *event is ItemStarted,
        ensures
            final(self)@ == next_state(old(self)@, *event),
            display_after(*event, display),
    {
        match event {
            OwnedEvent::ItemStarted { item } => {
                let item = *item;
                self.current = Some(item);
                if item < self.items.len() {
                    let mut view = self.items[item].copy();
                    view.status = ItemStatus::Copying;
                    proof {
                        lemma_rows_update(self.items@, item as int, view);
                    }
                    self.items.set(item, view);
                }
                Display::Redraw { force: true }
            },
            _ => unreached(),
        }
    }

    fn on_file_started(&mut self, event: &OwnedEvent) -> (display: Display)
        requires
            *event is FileStarted,
        ensures
            final(self)@ == next_state(old(self)@, *event),
            display_after(*event, display),
    {
        match event {
            OwnedEvent::FileStarted { item, logical_path, .. } => {
                let item = *item;
                self.current = Some(item);
                if item < self.items.len() {
                    let mut view = self.items[item].copy();
                    view.current_path = logical_path.clone();
                    proof {
                        lemma_rows_update(self.items@, item as int, view);
                    }
                    self.items.set(item, view);
                }
                Display::Redraw { force: false }
            },
            _ => unreached(),
        }
    }

    fn on_file_finished(&mut self, event: &OwnedEvent) -> (display: Display)
        requires
            *event is FileFinished,
            event_fits(old(self)@, *event),
        ensures
            final(self)@ == next_state(old(self)@, *event),
            display_after(*event, display),
    {
        let ghost before = self@;
        match event {
            OwnedEvent::FileFinished { item, copied, bytes } => {
                let item = *item;
                let copied = *copied;
                let bytes = *bytes;
                self.processed_files = self.processed_files + 1;
                if copied {
                    self.copied_files = self.copied_files + 1;
                    self.copied_bytes = self.copied_bytes + bytes;
                }
                if item < self.items.len() {
                    let mut view = self.items[item].copy();
                    assert(view@ == before.rows[item as int]);
                    view.processed_files = view.processed_files + 1;
                    if copied {
                        view.copied_files = view.copied_files + 1;
                        view.copied_bytes = view.copied_bytes + bytes;
                    }
                    proof {
                        lemma_rows_update(self.items@, item as int, view);
                    }
                    self.items.set(item, view);
                }
                Display::Redraw { force: false }
            },
            _ => unreached(),
        }
    }

    fn on_item_finished(&mut self, event: &OwnedEvent) -> (display: Display)
        requires
            *event is ItemFinished,
        ensures
            final(self)@ == next_state(old(self)@, *event),
            display_after(*event, display),
    {
        match event {
            OwnedEvent::ItemFinished { item, status } => {
                let item = *item;
                if item < self.items.len() {
                    let mut view = self.items[item].copy();
                    view.status = *status;
                    view.current_path = String::new();
                    proof {
                        lemma_rows_update(self.items@, item as int, view);
                    }
                    self.items.set(item, view);
                }
                if self.current == Some(item) {
                    self.current = first_with_status(&self.items, ItemStatus::Copying);
                }
                Display::Redraw { force: true }
            },
            _ => unreached(),
        }
    }

    fn on_warning(&mut self, event: &OwnedEvent) -> (display: Display)
        requires
            *event is Warning,
        ensures
            final(self)@ == next_state(old(self)@, *event),
            display_after(*event, display),
    {
        match event {
            OwnedEvent::Warning { item, message } => {
                if let Some(i) = item {
                    let i = *i;
                    if i < self.items.len() {
                        let mut view = self.items[i].copy();
                        view.had_warning = true;
                        if view.status != ItemStatus::Scanning {
                            view.status = ItemStatus::Warning;
                        }
                        proof {
                            lemma_rows_update(self.items@, i as int, view);
                        }
                        self.items.set(i, view);
                    }
                }
                proof {
                    reveal_strlit("warning");
                }
                Display::Diagnostic { line: diagnostic("warning", message), status: ItemStatus::Warning }
            },
            _ => unreached(),
        }
    }

    fn on_error(&mut self, event: &OwnedEvent) -> (display: Display)
        requires
            *event is Error,
        ensures
            final(self)@ == next_state(old(self)@, *event),
            display_after(*event, display),
    {
        match event {
            OwnedEvent::Error { item, message } => {
                if let Some(i) = item {
                    let i = *i;
                    if i < self.items.len() {
                        let mut view = self.items[i].copy();
                        view.had_error = true;
                        view.status = ItemStatus::Failed;
                        proof {
                            lemma_rows_update(self.items@, i as int, view);
                        }
                        self.items.set(i, view);
                    }
                }
                proof {
                    reveal_strlit("error");
                }
                Display::Diagnostic { line: diagnostic("error", message), status: ItemStatus::Failed }
            },
            _ => unreached(),
        }
    }

    fn on_finish(&mut self, event: &OwnedEvent) -> (display: Display)
        requires
            *event is Finish,
        ensures
            final(self)@ == next_state(old(self)@, *event),
            display_after(*event, display),
    {
        match event {
            OwnedEvent::Finish(summary) => {
                if summary.cancelled {
                    self.cancel_active();
                }
                Display::Finish
            },
            _ => unreached(),
        }
    }

    /// Rows still scanning or copying become cancelled.
    fn cancel_active(&mut self)
        ensures
            final(self)@ == (StateView { rows: cancelled_rows(old(self)@.rows), ..old(self)@ }),
    {
        let ghost start = self@;
        let n = self.items.len();
        for i in 0..n
            invariant
                self.items@.len() == n,
                n == start.rows.len(),
                self@ == (StateView { rows: self@.rows, ..start }),
                forall|j: int| 0 <= j < i ==> self@.rows[j] == cancelled_rows(start.rows)[j],
                forall|j: int| i <= j < n ==> self@.rows[j] == start.rows[j],
        {
            let status = self.items[i].status;
            if status == ItemStatus::Scanning || status == ItemStatus::Copying {
                let mut view = self.items[i].copy();
                view.status = ItemStatus::Cancelled;
                view.current_path = String::new();
                proof {
                    lemma_rows_update(self.items@, i as int, view);
                }
                self.items.set(i, view);
            }
        }
        assert(self@.rows =~= cancelled_rows(start.rows));
    }
}

} // verus!

verus! {

// ---------------------------------------------------------------------------
// The final report and the plain reporter

/// The final-report line of a row: a heading as is, a node's row as its
/// item report.
pub open spec fn report_line(row: RowSpec, width: nat) -> Seq<char> {
    match row {
        RowSpec::Heading(heading) => heading,
        RowSpec::Item { row, .. } => item_report_text(row, width),
    }
}

/// The lines printed when a sync finishes on the inline display: one per
/// report row, then the summary with symbols.
pub fn final_report(state: &ViewState, summary: &Summary, width: u16) -> (lines: Vec<String>)
    requires
        layout_wf(state.layout),
        rows_fit(*state),
    ensures
        lines@.len() == report_rows_spec(*state).len() + 1,
        forall|i: int|
            0 <= i < report_rows_spec(*state).len() ==> (#[trigger] lines@[i])@ == report_line(
                report_rows_spec(*state)[i],
                width as nat,
            ),
        lines@[report_rows_spec(*state).len() as int]@ == summary_text(*summary, true),
{
    let rows = report_rows(state);
    let ghost specs = renders_view(rows@);
    let mut lines: Vec<String> = Vec::new();
    for i in 0..rows.len()
        invariant
            specs == renders_view(rows@),
            specs == report_rows_spec(*state),
            lines@.len() == i,
            forall|j: int| 0 <= j < i ==> (#[trigger] lines@[j])@ == report_line(specs[j], width as nat),
    {
        let line = match &rows[i] {
            RenderRow::Heading(heading) => heading.clone(),
            RenderRow::Item { view, .. } => format_item_report(view, width),
        };
        lines.push(line);
    }
    lines.push(format_summary(summary, true));
    lines
}

/// A line the plain reporter prints.
#[derive(Debug, PartialEq, Eq)]
pub enum PlainLine {
    /// A line on standard output.
    Stdout(String),
    /// A line on standard error.
    Stderr(String),
    /// The copy of `src` to `dst`, on standard output; the paths are
    /// printed quoted, as `{:?}` prints them.
    Copy { src: String, dst: String },
}

/// The reporter used without the inline display: in detailed mode it
/// names each item as it starts (under its section's heading the first
/// time that section comes up) and each copy; it always prints
/// diagnostics, and the summary when cancelled or when asked to.
pub struct PlainReporter {
    pub layout: ReportLayout,
    pub printed_sections: Vec<usize>,
    pub detailed: bool,
    pub print_final_report: bool,
    pub unicode_report: bool,
}

/// The line that names an item as it starts.
pub open spec fn syncing_line(name: Seq<char>, depth: nat) -> Seq<char> {
    spaces(depth) + "syncing: "@ + name
}

/// The lines of a started item: the heading of its section the first time
/// the section comes up, then the item's label under its indentation.
pub open spec fn started_lines(layout: ReportLayout, printed: Seq<usize>, item: usize) -> Seq<
    Seq<char>,
> {
    let heading = if item < layout.leaf_owners@.len() {
        match first_section_with(layout, layout.sections@, layout.leaf_owners@[item as int] as int) {
            Some(s) => if !printed.contains(s as usize) {
                match layout.sections@[s].heading {
                    Some(h) => seq![h@],
                    None => seq![],
                }
            } else {
                seq![]
            },
            None => seq![],
        }
    } else {
        seq![]
    };
    heading + if item < layout.leaf_owners@.len() {
        let node = layout.nodes@[layout.leaf_owners@[item as int] as int];
        seq![syncing_line(node.label@, node.depth as nat)]
    } else {
        seq![]
    }
}

/// The sections whose heading came up after an item started.
pub open spec fn printed_after(layout: ReportLayout, printed: Seq<usize>, item: usize) -> Seq<usize> {
    if item < layout.leaf_owners@.len() {
        match first_section_with(layout, layout.sections@, layout.leaf_owners@[item as int] as int) {
            Some(s) => if !printed.contains(s as usize) {
                printed.push(s as usize)
            } else {
                printed
            },
            None => printed,
        }
    } else {
        printed
    }
}

pub open spec fn stdout_line(line: PlainLine, text: Seq<char>) -> bool {
    match line {
        PlainLine::Stdout(t) => t@ == text,
        _ => false,
    }
}

pub open spec fn stderr_line(line: PlainLine, text: Seq<char>) -> bool {
    match line {
        PlainLine::Stderr(t) => t@ == text,
        _ => false,
    }
}

pub open spec fn copy_line(line: PlainLine, src: Seq<char>, dst: Seq<char>) -> bool {
    match line {
        PlainLine::Copy { src: s, dst: d } => s@ == src && d@ == dst,
        _ => false,
    }
}

/// What the plain reporter prints for an event.
pub open spec fn plain_output(reporter: PlainReporter, event: OwnedEvent, lines: Seq<PlainLine>) -> bool {
    match event {
        OwnedEvent::ItemStarted { item } => if reporter.detailed {
            let expected = started_lines(reporter.layout, reporter.printed_sections@, item);
            &&& lines.len() == expected.len()
            &&& forall|i: int| 0 <= i < lines.len() ==> stdout_line(#[trigger] lines[i], expected[i])
        } else {
            lines.len() == 0
        },
        OwnedEvent::FileStarted { src, dst, .. } => if reporter.detailed {
            lines.len() == 1 && copy_line(lines[0], src@, dst@)
        } else {
            lines.len() == 0
        },
        OwnedEvent::Warning { message, .. } => lines.len() == 1 && stderr_line(
            lines[0],
            diagnostic_line("warning"@, message@),
        ),
        OwnedEvent::Error { message, .. } => lines.len() == 1 && stderr_line(
            lines[0],
            diagnostic_line("error"@, message@),
        ),
        OwnedEvent::Finish(summary) => if summary.cancelled || reporter.print_final_report {
            lines.len() == 1 && stderr_line(lines[0], summary_text(summary, reporter.unicode_report))
        } else {
            lines.len() == 0
        },
        _ => lines.len() == 0,
    }
}

fn contains_section(sections: &Vec<usize>, section: usize) -> (found: bool)
    ensures
        found == sections@.contains(section),
{
    let mut i: usize = 0;
    while i < sections.len()
        invariant
            0 <= i <= sections@.len(),
            forall|j: int| 0 <= j < i ==> sections@[j] != section,
        decreases sections@.len() - i,
    {
        if sections[i] == section {
            assert(sections@[i as int] == section);
            return true;
        }
        i = i + 1;
    }
    false
}

impl PlainReporter {
    /// A plain reporter over `layout`, detailed or not, that prints the
    /// summary only when cancelled.
    pub fn new(layout: ReportLayout, detailed: bool) -> (reporter: PlainReporter)
        ensures
            reporter.layout == layout,
            reporter.printed_sections@.len() == 0,
            reporter.detailed == detailed,
            !reporter.print_final_report,
            !reporter.unicode_report,
    {
        PlainReporter {
            layout,
            printed_sections: Vec::new(),
            detailed,
            print_final_report: false,
            unicode_report: false,
        }
    }

    /// The lines to print for an event. A section's heading is printed
    /// once.
    pub fn report(&mut self, event: &OwnedEvent) -> (lines: Vec<PlainLine>)
        requires
            layout_wf(old(self).layout),
        ensures
            plain_output(*old(self), *event, lines@),
            final(self).layout == old(self).layout,
            final(self).detailed == old(self).detailed,
            final(self).print_final_report == old(self).print_final_report,
            final(self).unicode_report == old(self).unicode_report,
            final(self).printed_sections@ == match *event {
                OwnedEvent::ItemStarted { item } => if old(self).detailed {
                    printed_after(old(self).layout, old(self).printed_sections@, item)
                } else {
                    old(self).printed_sections@
                },
                _ => old(self).printed_sections@,
            },
    {
        let mut lines: Vec<PlainLine> = Vec::new();
        match event {
            OwnedEvent::ItemStarted { item } => {
                if self.detailed {
                    self.item_started(*item, &mut lines);
                }
            },
            OwnedEvent::FileStarted { src, dst, .. } => {
                if self.detailed {
                    lines.push(PlainLine::Copy { src: src.clone(), dst: dst.clone() });
                }
            },
            OwnedEvent::Warning { message, .. } => {
                proof {
                    reveal_strlit("warning");
                }
                lines.push(PlainLine::Stderr(diagnostic("warning", message)));
            },
            OwnedEvent::Error { message, .. } => {
                proof {
                    reveal_strlit("error");
                }
                lines.push(PlainLine::Stderr(diagnostic("error", message)));
            },
            OwnedEvent::Finish(summary) => {
                if summary.cancelled || self.print_final_report {
                    lines.push(PlainLine::Stderr(format_summary(summary, self.unicode_report)));
                }
            },
            _ => {},
        }
        lines
    }

    fn item_started(&mut self, item: usize, lines: &mut Vec<PlainLine>)
        requires
            layout_wf(old(self).layout),
            old(lines)@.len() == 0,
        ensures
            final(self).layout == old(self).layout,
            final(self).detailed == old(self).detailed,
            final(self).print_final_report == old(self).print_final_report,
            final(self).unicode_report == old(self).unicode_report,
            final(self).printed_sections@ == printed_after(
                old(self).layout,
                old(self).printed_sections@,
                item,
            ),
            final(lines)@.len() == started_lines(
                old(self).layout,
                old(self).printed_sections@,
                item,
            ).len(),
            forall|i: int|
                0 <= i < final(lines)@.len() ==> stdout_line(
                    #[trigger] final(lines)@[i],
                    started_lines(old(self).layout, old(self).printed_sections@, item)[i],
                ),
    {
        if item >= self.layout.leaf_owners.len() {
            return;
        }
        let owner = self.layout.leaf_owners[item];
        match section_containing(&self.layout, owner) {
            Some(section) => {
                if !contains_section(&self.printed_sections, section) {
                    self.printed_sections.push(section);
                    proof {
                        lemma_first_section_in_range(
                            self.layout,
                            self.layout.sections@,
                            owner as int,
                        );
                    }
                    match &self.layout.sections[section].heading {
                        Some(heading) => {
                            lines.push(PlainLine::Stdout(heading.clone()));
                        },
                        None => {},
                    }
                }
            },
            None => {},
        }
        let ghost before = lines@;
        match self.layout.leaf_label(item) {
            Some((name, depth)) => {
                let mut text = indent_text(depth);
                proof {
                    reveal_strlit("syncing: ");
                }
                text.append("syncing: ");
                text.append(name.as_str());
                lines.push(PlainLine::Stdout(text));
                assert(lines@.len() == before.len() + 1);
            },
            None => {},
        }
    }
}

proof fn lemma_first_section_in_range(layout: ReportLayout, sections: Seq<ReportSection>, wanted: int)
    ensures
        first_section_with(layout, sections, wanted) matches Some(s) ==> 0 <= s < sections.len(),
    decreases sections.len(),
{
    if sections.len() > 0 {
        lemma_first_section_in_range(layout, sections.drop_last(), wanted);
    }
}

} // verus!

verus! {

// ---------------------------------------------------------------------------
// Laws

/// The viewport shows the current row: the window lies inside the rows,
/// spans as many rows as fit, and contains the current row when there is one.
pub proof fn lemma_window_shows_current(total: nat, visible: nat, current: Option<usize>)
    ensures
        window(total, visible, current).0 <= window(total, visible, current).1 <= total,
        window(total, visible, current).1 - window(total, visible, current).0 == if total
            <= visible {
            total
        } else {
            visible
        },
        forall|c: usize|
            current == Some(c) && c < total && visible > 0 ==> window(total, visible, current).0
                <= c < window(total, visible, current).1,
{
}

/// A cut text is never wider than asked for, and keeps the start of the
/// text.
pub proof fn lemma_truncated_fits(value: Seq<char>, width: nat)
    ensures
        value.len() <= width ==> truncated(value, width) == value,
        value.len() > width && width >= 2 ==> truncated(value, width).take(width - 1) == value.take(
            width - 1,
        ),
        value.len() > width ==> truncated(value, width).len() == width,
{
    reveal_strlit("…");
    if value.len() > width && width >= 2 {
        assert((value.take(width - 1) + "…"@).take(width - 1) =~= value.take(width - 1));
    }
}

} // verus!

verus! {

// ---------------------------------------------------------------------------
// Checking what the report functions require

/// Whether a layout is well formed: node indices in range, children after
/// their parent.
pub fn layout_is_wf(layout: &ReportLayout) -> (wf: bool)
    ensures
        wf == layout_wf(*layout),
{
    let count = layout.nodes.len();
    for s in 0..layout.sections.len()
        invariant
            count == layout.nodes@.len(),
            forall|t: int, r: int|
                0 <= t < s && 0 <= r < layout.sections@[t].roots@.len()
                    ==> #[trigger] layout.sections@[t].roots@[r] < count,
    {
        let roots = &layout.sections[s].roots;
        for r in 0..roots.len()
            invariant
                count == layout.nodes@.len(),
                s < layout.sections@.len(),
                *roots == layout.sections@[s as int].roots,
                forall|t: int, q: int|
                    0 <= t < s && 0 <= q < layout.sections@[t].roots@.len()
                        ==> #[trigger] layout.sections@[t].roots@[q] < count,
                forall|q: int| 0 <= q < r ==> #[trigger] roots@[q] < count,
        {
            if roots[r] >= count {
                assert(layout.sections@[s as int].roots@[r as int] >= count);
                return false;
            }
        }
    }
    for n in 0..count
        invariant
            count == layout.nodes@.len(),
            forall|s: int, r: int|
                0 <= s < layout.sections@.len() && 0 <= r < layout.sections@[s].roots@.len()
                    ==> #[trigger] layout.sections@[s].roots@[r] < count,
            forall|m: int, c: int|
                0 <= m < n && 0 <= c < layout.nodes@[m].children@.len() ==> m
                    < #[trigger] layout.nodes@[m].children@[c] < count,
            forall|m: int|
                0 <= m < n ==> ((#[trigger] layout.nodes@[m]).duplicate_of matches Some(o) ==> o
                    < count),
    {
        let node = &layout.nodes[n];
        for c in 0..node.children.len()
            invariant
                count == layout.nodes@.len(),
                n < count,
                *node == layout.nodes@[n as int],
                forall|d: int| 0 <= d < c ==> n < #[trigger] node.children@[d] < count,
        {
            let child = node.children[c];
            if child <= n || child >= count {
                assert(layout.nodes@[n as int].children@[c as int] == child);
                return false;
            }
        }
        match node.duplicate_of {
            Some(owner) => {
                if owner >= count {
                    assert(layout.nodes@[n as int].duplicate_of == Some(owner));
                    return false;
                }
            },
            None => {},
        }
    }
    for i in 0..layout.leaf_owners.len()
        invariant
            count == layout.nodes@.len(),
            forall|s: int, r: int|
                0 <= s < layout.sections@.len() && 0 <= r < layout.sections@[s].roots@.len()
                    ==> #[trigger] layout.sections@[s].roots@[r] < count,
            forall|m: int, c: int|
                0 <= m < count && 0 <= c < layout.nodes@[m].children@.len() ==> m
                    < #[trigger] layout.nodes@[m].children@[c] < count,
            forall|m: int|
                0 <= m < count ==> ((#[trigger] layout.nodes@[m]).duplicate_of matches Some(o) ==> o
                    < count),
            forall|j: int| 0 <= j < i ==> #[trigger] layout.leaf_owners@[j] < count,
    {
        if layout.leaf_owners[i] >= count {
            assert(layout.leaf_owners@[i as int] >= count);
            return false;
        }
    }
    true
}

proof fn lemma_size_fits_children(layout: ReportLayout, node: int, k: nat)
    requires
        layout_wf(layout),
        0 <= node < layout.nodes@.len(),
        k <= layout.nodes@[node].children@.len(),
    ensures
        children_size(layout, node, k) < subtree_size(layout, node),
{
    lemma_children_size_prefix(layout, node, k);
}

/// Whether every tree's row count and the report's fit a `usize`.
pub fn counts_fit_check(layout: &ReportLayout) -> (fits: bool)
    requires
        layout_wf(*layout),
    ensures
        fits == counts_fit(*layout),
{
    let count = layout.nodes.len();
    let mut sizes: Vec<usize> = vec![0; count];
    let mut n = count;
    while n > 0
        invariant
            layout_wf(*layout),
            count == layout.nodes@.len(),
            sizes@.len() == count,
            n <= count,
            forall|m: int| n <= m < count ==> sizes@[m] == subtree_size(*layout, m),
        decreases n,
    {
        n = n - 1;
        let node = &layout.nodes[n];
        let mut size: usize = 1;
        for c in 0..node.children.len()
            invariant
                layout_wf(*layout),
                count == layout.nodes@.len(),
                sizes@.len() == count,
                n < count,
                *node == layout.nodes@[n as int],
                forall|m: int| n < m < count ==> sizes@[m] == subtree_size(*layout, m),
                size == 1 + children_size(*layout, n as int, c as nat),
        {
            let child = node.children[c];
            assert(n < child < count);
            let child_size = sizes[child];
            assert(children_size(*layout, n as int, (c + 1) as nat) == children_size(
                *layout,
                n as int,
                c as nat,
            ) + subtree_size(*layout, child as int));
            if size > usize::MAX - child_size {
                proof {
                    lemma_size_fits_children(*layout, n as int, (c + 1) as nat);
                    assert(!(subtree_size(*layout, n as int) <= usize::MAX));
                }
                return false;
            }
            size = size + child_size;
        }
        sizes.set(n, size);
    }
    let mut total: usize = 0;
    for s in 0..layout.sections.len()
        invariant
            layout_wf(*layout),
            count == layout.nodes@.len(),
            sizes@.len() == count,
            forall|m: int| 0 <= m < count ==> sizes@[m] == subtree_size(*layout, m),
            total == sections_size(*layout, layout.sections@.take(s as int)),
    {
        let section = &layout.sections[s];
        proof {
            assert(layout.sections@.take(s + 1).drop_last() =~= layout.sections@.take(s as int));
            lemma_sections_size_prefix(*layout, layout.sections@, s + 1);
        }
        let mut part: usize = if section.heading.is_some() { 1 } else { 0 };
        for r in 0..section.roots.len()
            invariant
                layout_wf(*layout),
                count == layout.nodes@.len(),
                sizes@.len() == count,
                s < layout.sections@.len(),
                *section == layout.sections@[s as int],
                forall|m: int| 0 <= m < count ==> sizes@[m] == subtree_size(*layout, m),
                part == (if section.heading is Some { 1nat } else { 0nat }) + roots_size(
                    *layout,
                    section.roots@.take(r as int),
                ),
        {
            let root = section.roots[r];
            assert(layout.sections@[s as int].roots@[r as int] == root);
            proof {
                assert(section.roots@.take(r + 1).drop_last() =~= section.roots@.take(r as int));
                lemma_roots_size_prefix(*layout, section.roots@, r + 1);
            }
            if part > usize::MAX - sizes[root] {
                proof {
                    assert(row_count(*layout) > usize::MAX) by {
                        assert(layout.sections@.take(s + 1).last() == *section);
                        lemma_sections_size_prefix(*layout, layout.sections@, s + 1);
                    }
                }
                return false;
            }
            part = part + sizes[root];
        }
        proof {
            assert(section.roots@.take(section.roots@.len() as int) =~= section.roots@);
            assert(layout.sections@.take(s + 1).last() == *section);
        }
        if total > usize::MAX - part {
            proof {
                lemma_sections_size_prefix(*layout, layout.sections@, s + 1);
            }
            return false;
        }
        total = total + part;
    }
    proof {
        assert(layout.sections@.take(layout.sections@.len() as int) =~= layout.sections@);
    }
    true
}

} // verus!

verus! {

/// The counters, status and duplicate flag of a node's row.
#[derive(Clone, Copy)]
struct Tally {
    total_files: usize,
    processed_files: usize,
    copied_files: usize,
    copied_bytes: u64,
    total_items: usize,
    completed_items: usize,
    status: ItemStatus,
    duplicate: bool,
}

spec fn tallies(tally: Tally, row: RowModel) -> bool {
    &&& tally.total_files == row.total_files
    &&& tally.processed_files == row.processed_files
    &&& tally.copied_files == row.copied_files
    &&& tally.copied_bytes == row.copied_bytes
    &&& tally.total_items == row.total_items
    &&& tally.completed_items == row.completed_items
    &&& tally.status == row.status
    &&& tally.duplicate == row.duplicate
}

proof fn lemma_child_rows_prefix(state: ViewState, node: int, k: nat)
    requires
        0 <= node < state.layout.nodes@.len(),
        k <= state.layout.nodes@[node].children@.len(),
    ensures
        child_rows(state, node, k) == child_rows(
            state,
            node,
            state.layout.nodes@[node].children@.len(),
        ).take(k as int),
        child_rows(state, node, k).len() == k,
    decreases state.layout.nodes@[node].children@.len() - k,
{
    let len = state.layout.nodes@[node].children@.len();
    lemma_child_rows_len(state, node, len);
    if k < len {
        lemma_child_rows_prefix(state, node, k + 1);
        assert(child_rows(state, node, (k + 1) as nat).drop_last() == child_rows(state, node, k));
        assert(child_rows(state, node, len).take((k + 1) as int).drop_last() =~= child_rows(
            state,
            node,
            len,
        ).take(k as int));
    } else {
        lemma_child_rows_len(state, node, k);
        assert(child_rows(state, node, k).take(k as int) =~= child_rows(state, node, k));
    }
}

proof fn lemma_child_rows_len(state: ViewState, node: int, k: nat)
    requires
        0 <= node < state.layout.nodes@.len(),
        k <= state.layout.nodes@[node].children@.len(),
    ensures
        child_rows(state, node, k).len() == k,
    decreases k,
{
    if k > 0 {
        lemma_child_rows_len(state, node, (k - 1) as nat);
    }
}

proof fn lemma_counted_not_duplicate(name: Seq<char>, rows: Seq<RowModel>)
    ensures
        !counted_rows(name, rows).duplicate,
    decreases rows.len(),
{
    if rows.len() > 0 {
        lemma_counted_not_duplicate(name, rows.drop_last());
    }
}

fn child_has_status(
    state: &ViewState,
    tallies_of: &Vec<Tally>,
    node: usize,
    status: ItemStatus,
) -> (found: bool)
    requires
        layout_wf(state.layout),
        node < state.layout.nodes@.len(),
        tallies_of@.len() == state.layout.nodes@.len(),
        forall|m: int|
            node < m < state.layout.nodes@.len() ==> tallies(tallies_of@[m], node_row(*state, m)),
    ensures
        found == has_status(
            child_rows(*state, node as int, state.layout.nodes@[node as int].children@.len()),
            status,
        ),
{
    let children = &state.layout.nodes[node].children;
    let ghost rows = child_rows(*state, node as int, children@.len());
    proof {
        lemma_child_rows_len(*state, node as int, children@.len());
    }
    for k in 0..children.len()
        invariant
            layout_wf(state.layout),
            node < state.layout.nodes@.len(),
            *children == state.layout.nodes@[node as int].children,
            rows == child_rows(*state, node as int, children@.len()),
            rows.len() == children@.len(),
            tallies_of@.len() == state.layout.nodes@.len(),
            forall|m: int|
                node < m < state.layout.nodes@.len() ==> tallies(
                    tallies_of@[m],
                    node_row(*state, m),
                ),
            forall|j: int| 0 <= j < k ==> rows[j].status != status,
    {
        let child = children[k];
        proof {
            assert(node < child < state.layout.nodes@.len());
            lemma_child_rows_prefix(*state, node as int, (k + 1) as nat);
            assert(child_rows(*state, node as int, (k + 1) as nat).last() == node_row(
                *state,
                child as int,
            ));
            assert(rows[k as int] == rows.take(k + 1)[k as int]);
        }
        if tallies_of[child].status == status {
            return true;
        }
    }
    false
}

fn aggregate_children(state: &ViewState, tallies_of: &Vec<Tally>, node: usize) -> (status: ItemStatus)
    requires
        layout_wf(state.layout),
        node < state.layout.nodes@.len(),
        tallies_of@.len() == state.layout.nodes@.len(),
        forall|m: int|
            node < m < state.layout.nodes@.len() ==> tallies(tallies_of@[m], node_row(*state, m)),
    ensures
        status == aggregated_status(
            child_rows(*state, node as int, state.layout.nodes@[node as int].children@.len()),
        ),
{
    if child_has_status(state, tallies_of, node, ItemStatus::Scanning) {
        ItemStatus::Scanning
    } else if child_has_status(state, tallies_of, node, ItemStatus::Copying) {
        ItemStatus::Copying
    } else if child_has_status(state, tallies_of, node, ItemStatus::Pending) {
        ItemStatus::Pending
    } else if child_has_status(state, tallies_of, node, ItemStatus::Ready) {
        ItemStatus::Ready
    } else if child_has_status(state, tallies_of, node, ItemStatus::Failed) {
        ItemStatus::Failed
    } else if child_has_status(state, tallies_of, node, ItemStatus::Warning) {
        ItemStatus::Warning
    } else if child_has_status(state, tallies_of, node, ItemStatus::Skipped) {
        ItemStatus::Skipped
    } else if child_has_status(state, tallies_of, node, ItemStatus::Cancelled) {
        ItemStatus::Cancelled
    } else {
        ItemStatus::Done
    }
}

/// Whether every node's aggregated counters fit their integers.
pub fn rows_fit_check(state: &ViewState) -> (fits: bool)
    requires
        layout_wf(state.layout),
    ensures
        fits == rows_fit(*state),
{
    let count = state.layout.nodes.len();
    let zero = Tally {
        total_files: 0,
        processed_files: 0,
        copied_files: 0,
        copied_bytes: 0,
        total_items: 0,
        completed_items: 0,
        status: ItemStatus::Pending,
        duplicate: false,
    };
    let mut tallies_of: Vec<Tally> = vec![zero; count];
    let mut n = count;
    while n > 0
        invariant
            layout_wf(state.layout),
            count == state.layout.nodes@.len(),
            tallies_of@.len() == count,
            n <= count,
            zero == (Tally {
                total_files: 0,
                processed_files: 0,
                copied_files: 0,
                copied_bytes: 0,
                total_items: 0,
                completed_items: 0,
                status: ItemStatus::Pending,
                duplicate: false,
            }),
            forall|m: int| n <= m < count ==> tallies(tallies_of@[m], node_row(*state, m)),
            forall|m: int| n <= m < count ==> row_fits(#[trigger] node_row(*state, m)),
        decreases n,
    {
        n = n - 1;
        let node = &state.layout.nodes[n];
        let tally = match node.leaf {
            Some(leaf) => {
                let ghost row = node_row(*state, n as int);
                assert(row == leaf_row(*state, n as int, leaf as int));
                let base = if leaf < state.items.len() {
                    let item = &state.items[leaf];
                    Tally {
                        total_files: item.total_files,
                        processed_files: item.processed_files,
                        copied_files: item.copied_files,
                        copied_bytes: item.copied_bytes,
                        total_items: item.total_items,
                        completed_items: item.completed_items,
                        status: item.status,
                        duplicate: item.duplicate,
                    }
                } else {
                    zero
                };
                let ghost base_row = if leaf < state.items@.len() {
                    state.items@[leaf as int]@
                } else {
                    fresh_row(node.label@)
                };
                assert(tallies(base, base_row));
                match node.duplicate_of {
                    Some(_) => {
                        let t = Tally {
                            total_files: 0,
                            processed_files: 0,
                            copied_files: 0,
                            copied_bytes: 0,
                            duplicate: true,
                            ..base
                        };
                        assert(tallies(t, row));
                        t
                    },
                    None => {
                        assert(tallies(base, row));
                        base
                    },
                }
            },
            None => {
                let children = &node.children;
                let ghost name = node_name(state.layout, n as int);
                let ghost rows = child_rows(*state, n as int, children@.len());
                let mut acc = zero;
                proof {
                    lemma_child_rows_len(*state, n as int, children@.len());
                    assert(rows.take(0).len() == 0);
                    assert(counted_rows(name, rows.take(0)) == RowModel {
                        branch: true,
                        ..fresh_row(name)
                    });
                }
                for k in 0..children.len()
                    invariant
                        layout_wf(state.layout),
                        count == state.layout.nodes@.len(),
                        n < count,
                        tallies_of@.len() == count,
                        *node == state.layout.nodes@[n as int],
                        node.leaf is None,
                        *children == node.children,
                        rows == child_rows(*state, n as int, children@.len()),
                        rows.len() == children@.len(),
                        name == node_name(state.layout, n as int),
                        forall|m: int| n < m < count ==> tallies(tallies_of@[m], node_row(*state, m)),
                        tallies(
                            Tally { status: ItemStatus::Pending, duplicate: false, ..acc },
                            RowModel {
                                status: ItemStatus::Pending,
                                duplicate: false,
                                ..counted_rows(name, rows.take(k as int))
                            },
                        ),
                {
                    let child = children[k];
                    proof {
                        assert(n < child < count);
                        lemma_child_rows_prefix(*state, n as int, (k + 1) as nat);
                        assert(rows.take(k + 1).drop_last() =~= rows.take(k as int));
                        assert(rows.take(k + 1).last() == node_row(*state, child as int));
                        lemma_counted_prefix(name, rows, k + 1);
                    }
                    let t = tallies_of[child];
                    proof {
                        assert(counted_rows(name, rows.take(k + 1)) == add_child(
                            counted_rows(name, rows.take(k as int)),
                            node_row(*state, child as int),
                        ));
                        assert(node_row(*state, n as int) == branch_row(name, rows));
                    }
                    if !t.duplicate {
                        let done: usize = if is_terminal(t.status) {
                            1
                        } else {
                            0
                        };
                        if acc.total_files > usize::MAX - t.total_files || acc.processed_files
                            > usize::MAX - t.processed_files || acc.copied_files > usize::MAX
                            - t.copied_files || acc.copied_bytes > u64::MAX - t.copied_bytes
                            || t.total_items == usize::MAX || acc.total_items > usize::MAX - 1
                            - t.total_items || t.completed_items > usize::MAX - done
                            || acc.completed_items > usize::MAX - done - t.completed_items {
                            proof {
                                assert(!row_fits(node_row(*state, n as int)));
                            }
                            return false;
                        }
                        acc = Tally {
                            total_files: acc.total_files + t.total_files,
                            processed_files: acc.processed_files + t.processed_files,
                            copied_files: acc.copied_files + t.copied_files,
                            copied_bytes: acc.copied_bytes + t.copied_bytes,
                            total_items: acc.total_items + 1 + t.total_items,
                            completed_items: acc.completed_items + done + t.completed_items,
                            ..acc
                        };
                    }
                }
                proof {
                    assert(rows.take(rows.len() as int) =~= rows);
                    lemma_counted_not_duplicate(name, rows);
                    assert(node_row(*state, n as int) == branch_row(name, rows));
                }
                let status = aggregate_children(state, &tallies_of, n);
                let t = Tally { status, duplicate: false, ..acc };
                assert(tallies(t, node_row(*state, n as int)));
                t
            },
        };
        proof {
            match node.leaf {
                Some(leaf) => {
                    assert(node_row(*state, n as int) == leaf_row(*state, n as int, leaf as int));
                    if leaf < state.items@.len() {
                        assert(state.items@[leaf as int]@.total_files == state.items@[leaf as int].total_files);
                    }
                },
                None => {
                    assert(node_row(*state, n as int) == branch_row(
                        node_name(state.layout, n as int),
                        child_rows(*state, n as int, node.children@.len()),
                    ));
                },
            }
            assert(tallies(tally, node_row(*state, n as int)));
            assert(row_fits(node_row(*state, n as int)));
        }
        tallies_of.set(n, tally);
    }
    true
}

} // verus!

verus! {

// ---------------------------------------------------------------------------
// Sizing the inline display

/// The inline display needs at least 30 columns and 2 rows.
pub fn inline_display_fits(width: u16, height: u16) -> (fits: bool)
    ensures
        fits == (width >= 30 && height >= 2),
{
    width >= 30 && height >= 2
}

/// The height of the inline display: the overall line and up to ten rows,
/// at least two lines, at most the terminal's height.
pub open spec fn viewport_lines(row_count: nat, terminal_height: nat) -> nat {
    let rows: nat = if row_count < 10 {
        row_count
    } else {
        10
    };
    let desired: nat = 1 + rows;
    let wanted: nat = if desired < 2 {
        2
    } else {
        desired
    };
    if wanted < terminal_height {
        wanted
    } else {
        terminal_height
    }
}

pub fn viewport_height(row_count: usize, terminal_height: u16) -> (height: u16)
    ensures
        height == viewport_lines(row_count as nat, terminal_height as nat),
{
    let rows: u16 = if row_count < 10 {
        row_count as u16
    } else {
        10
    };
    let desired = 1 + rows;
    let wanted = if desired < 2 {
        2
    } else {
        desired
    };
    if wanted < terminal_height {
        wanted
    } else {
        terminal_height
    }
}

/// How many report rows a frame of `height` lines shows below the overall
/// line: at most ten.
pub fn visible_rows(height: u16) -> (rows: usize)
    ensures
        rows == if height == 0 {
            0
        } else if height - 1 < 10 {
            (height - 1) as usize
        } else {
            10
        },
{
    let below = if height == 0 {
        0
    } else {
        height - 1
    };
    if below < 10 {
        below as usize
    } else {
        10
    }
}

/// The report row of the current item: the first row of the node that owns
/// it.
pub open spec fn current_row_of(state: ViewState, rows: Seq<RowSpec>) -> Option<usize> {
    match state.current {
        Some(leaf) => if leaf < state.layout.leaf_owners@.len() {
            first_row_of(rows, state.layout.leaf_owners@[leaf as int] as int)
        } else {
            None
        },
        None => None,
    }
}

/// The first row of node `node`.
pub open spec fn first_row_of(rows: Seq<RowSpec>, node: int) -> Option<usize>
    decreases rows.len(),
{
    if rows.len() == 0 {
        None
    } else {
        match first_row_of(rows.drop_last(), node) {
            Some(i) => Some(i),
            None => if rows.last() matches RowSpec::Item { node: n, .. } && n == node {
                Some((rows.len() - 1) as usize)
            } else {
                None
            },
        }
    }
}

proof fn lemma_first_row_persists(rows: Seq<RowSpec>, node: int, k: int)
    requires
        0 <= k <= rows.len(),
        first_row_of(rows.take(k), node) is Some,
    ensures
        first_row_of(rows, node) == first_row_of(rows.take(k), node),
    decreases rows.len() - k,
{
    if k < rows.len() {
        assert(rows.take(k + 1).drop_last() =~= rows.take(k));
        lemma_first_row_persists(rows, node, k + 1);
    } else {
        assert(rows.take(k) =~= rows);
    }
}

pub fn current_row(state: &ViewState, rows: &Vec<RenderRow>) -> (row: Option<usize>)
    ensures
        row == current_row_of(*state, renders_view(rows@)),
{
    let leaf = match state.current {
        Some(leaf) => leaf,
        None => return None,
    };
    if leaf >= state.layout.leaf_owners.len() {
        return None;
    }
    let owner = state.layout.leaf_owners[leaf];
    let ghost specs = renders_view(rows@);
    let mut i: usize = 0;
    while i < rows.len()
        invariant
            0 <= i <= rows@.len(),
            specs == renders_view(rows@),
            specs.len() == rows@.len(),
            state.current == Some(leaf),
            leaf < state.layout.leaf_owners@.len(),
            owner == state.layout.leaf_owners@[leaf as int],
            first_row_of(specs.take(i as int), owner as int) is None,
        decreases rows@.len() - i,
    {
        assert(specs.take(i + 1).drop_last() =~= specs.take(i as int));
        assert(specs.take(i + 1).last() == render_view(rows@[i as int]));
        match &rows[i] {
            RenderRow::Item { node, .. } => {
                if *node == owner {
                    proof {
                        assert(first_row_of(specs.take(i + 1), owner as int) == Some(i));
                        lemma_first_row_persists(specs, owner as int, i + 1);
                    }
                    return Some(i);
                }
            },
            RenderRow::Heading(_) => {},
        }
        i = i + 1;
    }
    assert(specs.take(i as int) =~= specs);
    None
}

} // verus!

verus! {

// ---------------------------------------------------------------------------
// Text of the live display

/// The overall line while planning: the spinner, the direction, the items
/// scanned so far and, when rows do not fit, how many are hidden.
pub open spec fn scanning_text(state: ViewState, hidden: nat) -> Seq<char> {
    spinner_frame(state.spinner as nat) + " "@ + direction_label(state.direction) + " scanning "@
        + decimal(state.scanned_items as nat) + "/"@ + decimal(state.items@.len()) + " items"@ + if hidden
        > 0 {
        " · "@ + decimal(hidden) + " hidden"@
    } else {
        seq![]
    }
}

pub fn scanning_line(state: &ViewState, hidden: usize) -> (text: String)
    ensures
        text@ == scanning_text(*state, hidden as nat),
{
    proof {
        reveal_strlit(" ");
        reveal_strlit(" scanning ");
        reveal_strlit("/");
        reveal_strlit(" items");
        reveal_strlit(" · ");
        reveal_strlit(" hidden");
    }
    let mut text = String::from_str(spinner(state.spinner));
    text.append(" ");
    text.append(state.direction.label());
    text.append(" scanning ");
    append_count(&mut text, state.scanned_items);
    text.append("/");
    append_count(&mut text, state.items.len());
    text.append(" items");
    if hidden > 0 {
        text.append(" · ");
        append_count(&mut text, hidden);
        text.append(" hidden");
    }
    assert(text@ =~= scanning_text(*state, hidden as nat));
    text
}

/// The overall line once planned, on a narrow terminal: the direction, the
/// files copied of those planned, and the bytes copied.
pub open spec fn narrow_overall_text(state: ViewState) -> Seq<char> {
    direction_label(state.direction) + " "@ + decimal(state.copied_files as nat) + "/"@ + decimal(
        state.total_files as nat,
    ) + " files "@ + bytes_text(state.copied_bytes as nat)
}

pub fn narrow_overall_line(state: &ViewState) -> (text: String)
    ensures
        text@ == narrow_overall_text(*state),
{
    proof {
        reveal_strlit(" ");
        reveal_strlit("/");
        reveal_strlit(" files ");
    }
    let mut text = String::from_str(state.direction.label());
    text.append(" ");
    append_count(&mut text, state.copied_files);
    text.append("/");
    append_count(&mut text, state.total_files);
    text.append(" files ");
    let bytes = format_bytes(state.copied_bytes);
    text.append(bytes.as_str());
    assert(text@ =~= narrow_overall_text(*state));
    text
}

/// The files count of the wide overall line: copied of total files.
pub open spec fn overall_files_text(state: ViewState) -> Seq<char> {
    decimal(state.copied_files as nat) + "/"@ + decimal(state.total_files as nat) + " files"@
}

pub fn overall_files_line(state: &ViewState) -> (text: String)
    ensures
        text@ == overall_files_text(*state),
{
    proof {
        reveal_strlit("/");
        reveal_strlit(" files");
    }
    let mut text = String::new();
    append_count(&mut text, state.copied_files);
    text.append("/");
    append_count(&mut text, state.total_files);
    text.append(" files");
    assert(text@ =~= overall_files_text(*state));
    text
}

/// How many report rows do not fit, as the wide overall line shows it.
pub open spec fn hidden_text(hidden: nat) -> Seq<char> {
    decimal(hidden) + " hidden"@
}

pub fn hidden_line(hidden: usize) -> (text: String)
    ensures
        text@ == hidden_text(hidden as nat),
{
    proof {
        reveal_strlit(" hidden");
    }
    let mut text = String::new();
    append_count(&mut text, hidden);
    text.append(" hidden");
    assert(text@ =~= hidden_text(hidden as nat));
    text
}

/// The counts a row shows: items and files for a branch, the word
/// `duplicate` for a duplicate, else files.
pub open spec fn row_counts_text(row: RowModel) -> Seq<char> {
    if row.branch {
        decimal(row.completed_items) + "/"@ + decimal(row.total_items) + " items · "@ + decimal(
            row.copied_files,
        ) + "/"@ + decimal(row.total_files) + " files"@
    } else if row.duplicate {
        "duplicate"@
    } else {
        decimal(row.copied_files) + "/"@ + decimal(row.total_files)
    }
}

/// The UTF-8 length of the counts text: one byte per character, and one
/// more for the middle dot of a branch.
pub open spec fn row_counts_bytes(row: RowModel) -> nat {
    row_counts_text(row).len() + if row.branch {
        1nat
    } else {
        0nat
    }
}

pub fn row_counts(item: &ItemView) -> (text: String)
    ensures
        text@ == row_counts_text(item@),
{
    proof {
        reveal_strlit("/");
        reveal_strlit(" items · ");
        reveal_strlit(" files");
        reveal_strlit("duplicate");
    }
    let mut text = String::new();
    if item.branch {
        append_count(&mut text, item.completed_items);
        text.append("/");
        append_count(&mut text, item.total_items);
        text.append(" items · ");
        append_count(&mut text, item.copied_files);
        text.append("/");
        append_count(&mut text, item.total_files);
        text.append(" files");
    } else if item.duplicate {
        text.append("duplicate");
    } else {
        append_count(&mut text, item.copied_files);
        text.append("/");
        append_count(&mut text, item.total_files);
    }
    assert(text@ =~= row_counts_text(item@));
    text
}

/// A row on a narrow terminal: symbol, name cut to what the counts and
/// status leave, counts and status.
pub open spec fn narrow_row_text(row: RowModel, width: nat, spinner_index: nat) -> Seq<char> {
    let fixed = 2 + row_counts_bytes(row) + status_label(row.status).len() + 3;
    let name_width: nat = if width > fixed {
        (width - fixed) as nat
    } else {
        1
    };
    status_symbol_text(row.status, spinner_index) + " "@ + truncated(row.name, name_width) + " "@
        + row_counts_text(row) + " "@ + status_label(row.status)
}

pub fn narrow_row_line(item: &ItemView, width: u16, spinner_index: usize) -> (text: String)
    ensures
        text@ == narrow_row_text(item@, width as nat, spinner_index as nat),
{
    proof {
        reveal_strlit(" ");
    }
    let symbol = status_symbol(item.status, spinner_index);
    let counts = row_counts(item);
    let status = item.status.label();
    let counts_len = counts.as_str().unicode_len();
    let counts_bytes = if item.branch && counts_len < usize::MAX {
        counts_len + 1
    } else {
        counts_len
    };
    let status_len = status.unicode_len();
    let columns = width as usize;
    let name_width: usize = if counts_bytes < columns && status_len < columns - counts_bytes
        && columns - counts_bytes - status_len > 5 {
        columns - counts_bytes - status_len - 5
    } else {
        1
    };
    proof {
        if item.branch && counts_len == usize::MAX {
            assert(name_width == 1);
        }
    }
    let mut text = String::from_str(symbol);
    text.append(" ");
    let name = truncate(item.name.as_str(), name_width);
    text.append(name.as_str());
    text.append(" ");
    text.append(counts.as_str());
    text.append(" ");
    text.append(status);
    assert(text@ =~= narrow_row_text(item@, width as nat, spinner_index as nat));
    text
}

} // verus!

verus! {

/// The status whose style a summary takes: failed when cancelled or with
/// errors, warning with warnings, else done.
pub open spec fn summary_status_of(summary: Summary) -> ItemStatus {
    if summary.cancelled || summary.errors > 0 {
        ItemStatus::Failed
    } else if summary.warnings > 0 {
        ItemStatus::Warning
    } else {
        ItemStatus::Done
    }
}

pub fn summary_status(summary: &Summary) -> (status: ItemStatus)
    ensures
        status == summary_status_of(*summary),
{
    if summary.cancelled || summary.errors > 0 {
        ItemStatus::Failed
    } else if summary.warnings > 0 {
        ItemStatus::Warning
    } else {
        ItemStatus::Done
    }
}

} // verus!

verus! {

/// The display's totals only grow: no event lowers the items scanned, the
/// files processed or copied, or the bytes copied, and once planning has
/// finished it stays finished.
pub proof fn lemma_display_totals_only_grow(state: StateView, event: OwnedEvent)
    ensures
        next_state(state, event).scanned_items >= state.scanned_items,
        next_state(state, event).processed_files >= state.processed_files,
        next_state(state, event).copied_files >= state.copied_files,
        next_state(state, event).copied_bytes >= state.copied_bytes,
        state.plan_complete ==> next_state(state, event).plan_complete,
        next_state(state, event).rows.len() == state.rows.len(),
        next_state(state, event).layout == state.layout,
{
}

} // verus!

verus! {

/// How urgent a status is on a branch row, most urgent first: activity,
/// what is still to come, then failures, warnings, skips, cancellations,
/// and done last.
pub open spec fn urgency(status: ItemStatus) -> nat {
    match status {
        ItemStatus::Scanning => 0,
        ItemStatus::Copying => 1,
        ItemStatus::Pending => 2,
        ItemStatus::Ready => 3,
        ItemStatus::Failed => 4,
        ItemStatus::Warning => 5,
        ItemStatus::Skipped => 6,
        ItemStatus::Cancelled => 7,
        ItemStatus::Done => 8,
    }
}

/// A branch shows the most urgent status among its children: one that some
/// child has (done when it has no children), and no child's status is more
/// urgent. In particular, a branch with no active or pending child and some
/// failed child shows failed.
pub proof fn lemma_branch_shows_most_urgent(rows: Seq<RowModel>)
    ensures
        rows.len() == 0 ==> aggregated_status(rows) == ItemStatus::Done,
        rows.len() > 0 ==> exists|i: int|
            0 <= i < rows.len() && (#[trigger] rows[i]).status == aggregated_status(rows),
        forall|j: int|
            0 <= j < rows.len() ==> urgency(aggregated_status(rows)) <= urgency(
                (#[trigger] rows[j]).status,
            ),
        (forall|j: int|
            0 <= j < rows.len() ==> !(#[trigger] rows[j].status == ItemStatus::Scanning
                || rows[j].status == ItemStatus::Copying || rows[j].status == ItemStatus::Pending
                || rows[j].status == ItemStatus::Ready)) && (exists|i: int|
            0 <= i < rows.len() && (#[trigger] rows[i]).status == ItemStatus::Failed)
            ==> aggregated_status(rows) == ItemStatus::Failed,
{
    let result = aggregated_status(rows);
    assert forall|j: int| 0 <= j < rows.len() implies urgency(result) <= urgency(
        (#[trigger] rows[j]).status,
    ) by {
        let s = rows[j].status;
        assert(has_status(rows, s));
    }
    if rows.len() > 0 && result == ItemStatus::Done {
        // No child has any other status, so the first one is done.
        let s = rows[0].status;
        assert(has_status(rows, s));
        assert(rows[0].status == ItemStatus::Done);
    }
}

/// Whether `piece` occurs in `text` as a contiguous part.
pub open spec fn occurs_in(piece: Seq<char>, text: Seq<char>) -> bool {
    exists|i: int| 0 <= i && i + piece.len() <= text.len() && #[trigger] text.subrange(i, i + piece.len()) == piece
}

proof fn lemma_occurs_itself(piece: Seq<char>)
    ensures
        occurs_in(piece, piece),
{
    let i: int = 0;
    assert(piece.subrange(i, i + piece.len()) =~= piece);
}

proof fn lemma_occurs_before(piece: Seq<char>, front: Seq<char>, back: Seq<char>)
    requires
        occurs_in(piece, front),
    ensures
        occurs_in(piece, front + back),
{
    let i = choose|i: int| 0 <= i && i + piece.len() <= front.len() && #[trigger] front.subrange(i, i + piece.len()) == piece;
    assert((front + back).subrange(i, i + piece.len()) =~= front.subrange(i, i + piece.len()));
}

proof fn lemma_occurs_after(piece: Seq<char>, front: Seq<char>, back: Seq<char>)
    requires
        occurs_in(piece, back),
    ensures
        occurs_in(piece, front + back),
{
    let i = choose|i: int| 0 <= i && i + piece.len() <= back.len() && #[trigger] back.subrange(i, i + piece.len()) == piece;
    let j = front.len() + i;
    assert((front + back).subrange(j, j + piece.len()) =~= back.subrange(i, i + piece.len()));
}

/// A piece of the item counts occurs in a summary text built around them.
proof fn lemma_occurs_in_summary(
    piece: Seq<char>,
    head: Seq<char>,
    states: Seq<char>,
    rest: Seq<Seq<char>>,
)
    requires
        occurs_in(piece, states),
        rest.len() == 9,
    ensures
        occurs_in(
            piece,
            head + states + rest[0] + rest[1] + rest[2] + rest[3] + rest[4] + rest[5] + rest[6] + rest[7]
                + rest[8],
        ),
{
    lemma_occurs_after(piece, head, states);
    let t0 = head + states;
    lemma_occurs_before(piece, t0, rest[0]);
    let t1 = t0 + rest[0];
    lemma_occurs_before(piece, t1, rest[1]);
    let t2 = t1 + rest[1];
    lemma_occurs_before(piece, t2, rest[2]);
    let t3 = t2 + rest[2];
    lemma_occurs_before(piece, t3, rest[3]);
    let t4 = t3 + rest[3];
    lemma_occurs_before(piece, t4, rest[4]);
    let t5 = t4 + rest[4];
    lemma_occurs_before(piece, t5, rest[5]);
    let t6 = t5 + rest[5];
    lemma_occurs_before(piece, t6, rest[6]);
    let t7 = t6 + rest[6];
    lemma_occurs_before(piece, t7, rest[7]);
    let t8 = t7 + rest[7];
    lemma_occurs_before(piece, t8, rest[8]);
}

/// The summary of a sync that ran to the end with warnings or errors
/// names every nonzero item count by its status: the done items always,
/// and the warned, skipped and failed items whenever there are any.
pub proof fn lemma_summary_lists_item_states(summary: Summary, unicode: bool)
    requires
        !summary.cancelled,
        !summary.cancelled_during_planning,
        summary.warnings > 0 || summary.errors > 0,
    ensures
        occurs_in(decimal(summary.done_items as nat) + " done"@, summary_text(summary, unicode)),
        summary.warning_items > 0 ==> occurs_in(
            ", "@ + decimal(summary.warning_items as nat) + " warning"@,
            summary_text(summary, unicode),
        ),
        summary.skipped_items > 0 ==> occurs_in(
            ", "@ + decimal(summary.skipped_items as nat) + " skipped"@,
            summary_text(summary, unicode),
        ),
        summary.failed_items > 0 ==> occurs_in(
            ", "@ + decimal(summary.failed_items as nat) + " failed"@,
            summary_text(summary, unicode),
        ),
{
    let head = summary_symbol(summary, unicode) + " "@ + direction_label(summary.direction) + ": "@
        + decimal(summary.total_items as nat) + " items ("@;
    let rest = seq![
        "), "@,
        decimal(summary.copied_files as nat),
        "/"@,
        decimal(summary.planned_files as nat),
        " files, "@,
        bytes_text(summary.copied_bytes as nat),
        " in "@,
        duration_text(summary.elapsed),
        diagnostic_suffix_text(summary),
    ];
    let done = decimal(summary.done_items as nat) + " done"@;
    let warned = if summary.warning_items > 0 {
        ", "@ + decimal(summary.warning_items as nat) + " warning"@
    } else {
        seq![]
    };
    let skipped = if summary.skipped_items > 0 {
        ", "@ + decimal(summary.skipped_items as nat) + " skipped"@
    } else {
        seq![]
    };
    let failed = if summary.failed_items > 0 {
        ", "@ + decimal(summary.failed_items as nat) + " failed"@
    } else {
        seq![]
    };
    let states = item_states_text(summary);
    assert(states == done + warned + skipped + failed);
    assert(summary_text(summary, unicode) == head + states + rest[0] + rest[1] + rest[2] + rest[3]
        + rest[4] + rest[5] + rest[6] + rest[7] + rest[8]);
    lemma_occurs_itself(done);
    lemma_occurs_before(done, done, warned);
    lemma_occurs_before(done, done + warned, skipped);
    lemma_occurs_before(done, done + warned + skipped, failed);
    lemma_occurs_in_summary(done, head, states, rest);
    if summary.warning_items > 0 {
        lemma_occurs_itself(warned);
        lemma_occurs_after(warned, done, warned);
        lemma_occurs_before(warned, done + warned, skipped);
        lemma_occurs_before(warned, done + warned + skipped, failed);
        lemma_occurs_in_summary(warned, head, states, rest);
    }
    if summary.skipped_items > 0 {
        lemma_occurs_itself(skipped);
        lemma_occurs_after(skipped, done + warned, skipped);
        lemma_occurs_before(skipped, done + warned + skipped, failed);
        lemma_occurs_in_summary(skipped, head, states, rest);
    }
    if summary.failed_items > 0 {
        lemma_occurs_itself(failed);
        lemma_occurs_after(failed, done + warned + skipped, failed);
        lemma_occurs_in_summary(failed, head, states, rest);
    }
}

} // verus!
