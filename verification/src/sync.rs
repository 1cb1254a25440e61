//! Sync bookkeeping: directions, item statuses, outcomes and summaries, and
//! the decisions that planning and copying take. The copying itself, the
//! directory walks and the cancellation signal belong to the application,
//! which hands each result back to these functions.

use vstd::prelude::*;
use vstd::string::*;

use crate::item::{ResolvedEntry, ResolvedItem};
use crate::paths::{
    join_path, joined, normal_form, parent_of, path_has_prefix, path_normal, path_parent,
    path_without_prefix, starts_with_path, strip_prefix_of,
};

verus! {

/// Which way a sync copies.
#[derive(Clone, Copy, Debug, PartialEq, Eq, Structural)]
pub enum Direction {
    /// System to shed.
    Put,
    /// Shed to system.
    Get,
}

pub open spec fn direction_label(direction: Direction) -> Seq<char> {
    match direction {
        Direction::Put => "put"@,
        Direction::Get => "get"@,
    }
}

impl Direction {
    pub fn label(self) -> (label: &'static str)
        ensures
            label@ == direction_label(self),
    {
        match self {
            Direction::Put => "put",
            Direction::Get => "get",
        }
    }
}

/// Where one item of a sync stands.
#[derive(Clone, Copy, Debug, PartialEq, Eq, Structural)]
pub enum ItemStatus {
    Pending,
    Scanning,
    Ready,
    Copying,
    Done,
    Warning,
    Skipped,
    Failed,
    Cancelled,
}

pub open spec fn status_label(status: ItemStatus) -> Seq<char> {
    match status {
        ItemStatus::Pending => "pending"@,
        ItemStatus::Scanning => "scanning"@,
        ItemStatus::Ready => "ready"@,
        ItemStatus::Copying => "copying"@,
        ItemStatus::Done => "done"@,
        ItemStatus::Warning => "warning"@,
        ItemStatus::Skipped => "skipped"@,
        ItemStatus::Failed => "failed"@,
        ItemStatus::Cancelled => "cancelled"@,
    }
}

impl Default for ItemStatus {
    /// The status an item starts with.
    fn default() -> (status: ItemStatus)
        ensures
            status == ItemStatus::Pending,
    {
        ItemStatus::Pending
    }
}

impl ItemStatus {
    pub fn label(self) -> (label: &'static str)
        ensures
            label@ == status_label(self),
    {
        match self {
            ItemStatus::Pending => "pending",
            ItemStatus::Scanning => "scanning",
            ItemStatus::Ready => "ready",
            ItemStatus::Copying => "copying",
            ItemStatus::Done => "done",
            ItemStatus::Warning => "warning",
            ItemStatus::Skipped => "skipped",
            ItemStatus::Failed => "failed",
            ItemStatus::Cancelled => "cancelled",
        }
    }
}

/// How a sync ended.
#[derive(Clone, Copy, Debug, PartialEq, Eq)]
pub struct Outcome {
    pub warnings: usize,
    pub errors: usize,
    pub cancelled: bool,
}

/// The process exit code for an outcome: cancellation first, then errors,
/// then warnings.
pub open spec fn exit_code_of(outcome: Outcome) -> u8 {
    if outcome.cancelled {
        130
    } else if outcome.errors > 0 {
        2
    } else if outcome.warnings > 0 {
        1
    } else {
        0
    }
}

impl Outcome {
    pub fn exit_code(&self) -> (code: u8)
        ensures
            code == exit_code_of(*self),
    {
        if self.cancelled {
            130
        } else if self.errors > 0 {
            2
        } else if self.warnings > 0 {
            1
        } else {
            0
        }
    }
}

/// A span of time: whole seconds and the nanoseconds beyond them.
#[derive(Clone, Copy, Debug, PartialEq, Eq)]
pub struct Duration {
    secs: u64,
    nanos: u32,
}

impl Duration {
    pub closed spec fn seconds(self) -> u64 {
        self.secs
    }

    pub closed spec fn subsec(self) -> u32 {
        self.nanos
    }

    #[verifier::type_invariant]
    spec fn nanos_below_a_second(self) -> bool {
        self.nanos < 1_000_000_000
    }

    /// `secs` seconds and `nanos` nanoseconds, carrying whole seconds out of
    /// `nanos`.
    pub fn new(secs: u64, nanos: u32) -> (d: Duration)
        requires
            secs + nanos / 1_000_000_000 <= u64::MAX,
        ensures
            d.seconds() == secs + nanos / 1_000_000_000,
            d.subsec() == nanos % 1_000_000_000,
    {
        Duration { secs: secs + (nanos / 1_000_000_000) as u64, nanos: nanos % 1_000_000_000 }
    }

    pub fn from_millis(millis: u64) -> (d: Duration)
        ensures
            d.seconds() == millis / 1000,
            d.subsec() == (millis % 1000) * 1_000_000,
    {
        Duration { secs: millis / 1000, nanos: ((millis % 1000) * 1_000_000) as u32 }
    }

    pub fn as_secs(&self) -> (secs: u64)
        ensures
            secs == self.seconds(),
    {
        self.secs
    }

    pub fn subsec_nanos(&self) -> (nanos: u32)
        ensures
            nanos == self.subsec(),
            nanos < 1_000_000_000,
    {
        proof {
            use_type_invariant(self);
        }
        self.nanos
    }
}

/// What a sync did, for the final report.
#[derive(Clone, Debug)]
pub struct Summary {
    pub direction: Direction,
    pub total_items: usize,
    pub completed_items: usize,
    pub done_items: usize,
    pub warning_items: usize,
    pub skipped_items: usize,
    pub failed_items: usize,
    pub copied_files: usize,
    pub planned_files: usize,
    pub copied_bytes: u64,
    pub warnings: usize,
    pub errors: usize,
    pub elapsed: Duration,
    pub cancelled: bool,
    pub cancelled_during_planning: bool,
    pub scanned_items: usize,
    pub discovered_files: usize,
}

} // verus!

verus! {

// ---------------------------------------------------------------------------
// Plans and counters

/// One step of an item's plan.
pub enum PlannedOperation {
    /// Create a directory and its missing parents.
    CreateDir { dst: String },
    /// Copy one file; `logical_path` is what the report shows for it.
    CopyFile { src: String, dst: String, logical_path: String },
}

/// A planned operation as plain values.
pub enum OperationView {
    CreateDir(Seq<char>),
    CopyFile(Seq<char>, Seq<char>, Seq<char>),
}

impl View for PlannedOperation {
    type V = OperationView;

    open spec fn view(&self) -> OperationView {
        match self {
            PlannedOperation::CreateDir { dst } => OperationView::CreateDir(dst@),
            PlannedOperation::CopyFile { src, dst, logical_path } => OperationView::CopyFile(
                src@,
                dst@,
                logical_path@,
            ),
        }
    }
}

pub open spec fn operations_view(operations: Seq<PlannedOperation>) -> Seq<OperationView> {
    operations.map_values(|o: PlannedOperation| o@)
}

/// What the scan of one item planned.
pub struct ItemPlan {
    pub operations: Vec<PlannedOperation>,
    pub missing_sources: usize,
    pub had_source: bool,
    pub had_error: bool,
}

/// The plan of a whole sync.
pub struct SyncPlan {
    pub items: Vec<ItemPlan>,
    pub total_files: usize,
}

/// The running totals of a sync and the status of each item.
pub struct Counters {
    pub warnings: usize,
    pub errors: usize,
    pub copied_files: usize,
    pub processed_files: usize,
    pub copied_bytes: u64,
    pub statuses: Vec<ItemStatus>,
}

impl Counters {
    /// Zero totals and every item pending.
    pub fn new(item_count: usize) -> (counters: Counters)
        ensures
            counters.warnings == 0,
            counters.errors == 0,
            counters.copied_files == 0,
            counters.processed_files == 0,
            counters.copied_bytes == 0,
            counters.statuses@ == Seq::new(item_count as nat, |i: int| ItemStatus::Pending),
    {
        let mut statuses: Vec<ItemStatus> = Vec::new();
        for i in 0..item_count
            invariant
                statuses@ == Seq::new(i as nat, |j: int| ItemStatus::Pending),
        {
            statuses.push(ItemStatus::Pending);
            assert(statuses@ =~= Seq::new((i + 1) as nat, |j: int| ItemStatus::Pending));
        }
        Counters {
            warnings: 0,
            errors: 0,
            copied_files: 0,
            processed_files: 0,
            copied_bytes: 0,
            statuses,
        }
    }
}

/// How planning ended: with a plan, or cancelled part way.
pub enum PlanResult {
    Complete(SyncPlan),
    Cancelled { scanned_items: usize, discovered_files: usize },
}

/// The result of scanning one item.
pub struct ItemScan {
    pub item: usize,
    pub plan: ItemPlan,
    pub warnings: usize,
    pub errors: usize,
    pub discovered_files: usize,
    pub complete: bool,
}

/// One file copy, tagged with the item it belongs to.
pub struct CopyWork {
    pub item: usize,
    pub src: String,
    pub dst: String,
    pub logical_path: String,
}

/// What one file copy did.
#[derive(Clone, Copy, Debug, PartialEq, Eq)]
pub struct CopyResult {
    pub item: usize,
    pub copied: bool,
    pub bytes: u64,
    pub error: bool,
}

/// Gathers what a scan found into its result.
pub fn item_scan(
    item: usize,
    operations: Vec<PlannedOperation>,
    missing_sources: usize,
    had_source: bool,
    had_error: bool,
    warnings: usize,
    errors: usize,
    discovered_files: usize,
    complete: bool,
) -> (scan: ItemScan)
    ensures
        scan.item == item,
        scan.plan.operations@ == operations@,
        scan.plan.missing_sources == missing_sources,
        scan.plan.had_source == had_source,
        scan.plan.had_error == had_error,
        scan.warnings == warnings,
        scan.errors == errors,
        scan.discovered_files == discovered_files,
        scan.complete == complete,
{
    ItemScan {
        item,
        plan: ItemPlan { operations, missing_sources, had_source, had_error },
        warnings,
        errors,
        discovered_files,
        complete,
    }
}

// ---------------------------------------------------------------------------
// Small decisions

/// Where a copy of an entry reads and writes: system to shed for `put`,
/// shed to system for `get`.
pub open spec fn endpoint_paths(entry: ResolvedEntry, direction: Direction) -> (Seq<char>, Seq<char>) {
    match direction {
        Direction::Put => (entry.system@, entry.shed@),
        Direction::Get => (entry.shed@, entry.system@),
    }
}

pub fn endpoints(entry: &ResolvedEntry, direction: Direction) -> (paths: (&String, &String))
    ensures
        (paths.0@, paths.1@) == endpoint_paths(*entry, direction),
{
    match direction {
        Direction::Put => (&entry.system, &entry.shed),
        Direction::Get => (&entry.shed, &entry.system),
    }
}

/// What the report shows for a shed path: the path relative to the item's
/// storage directory (the whole path when it is outside it), `.` for the
/// directory itself.
pub open spec fn logical(shed_base: Seq<char>, shed_path: Seq<char>) -> Seq<char> {
    let relative = match path_without_prefix(shed_path, shed_base) {
        Some(rest) => rest,
        None => shed_path,
    };
    if relative.len() == 0 {
        "."@
    } else {
        relative
    }
}

pub fn logical_path(item: &ResolvedItem, shed_path: &str) -> (path: String)
    ensures
        path@ == logical(item.shed_base@, shed_path@),
{
    let relative = match strip_prefix_of(shed_path, item.shed_base.as_str()) {
        Some(rest) => rest,
        None => String::from_str(shed_path),
    };
    if relative.as_str().unicode_len() == 0 {
        proof {
            reveal_strlit(".");
        }
        String::from_str(".")
    } else {
        relative
    }
}

/// A path is blocked when it lies inside a directory that could not be
/// created.
pub open spec fn blocked(path: Seq<char>, failed: Seq<String>) -> bool {
    exists|i: int| 0 <= i < failed.len() && path_has_prefix(path, #[trigger] failed[i]@)
}

pub fn is_blocked(path: &str, failed_directories: &Vec<String>) -> (found: bool)
    ensures
        found == blocked(path@, failed_directories@),
{
    let mut i: usize = 0;
    while i < failed_directories.len()
        invariant
            0 <= i <= failed_directories@.len(),
            forall|j: int|
                0 <= j < i ==> !path_has_prefix(path@, #[trigger] failed_directories@[j]@),
        decreases failed_directories@.len() - i,
    {
        if starts_with_path(path, failed_directories[i].as_str()) {
            return true;
        }
        i = i + 1;
    }
    false
}

/// The status an item ends with when its copies ran: failed on any error,
/// skipped when no source existed and some were missing, warning when some
/// were missing, else done.
pub open spec fn status_after(plan: ItemPlan, had_error: bool) -> ItemStatus {
    if had_error {
        ItemStatus::Failed
    } else if !plan.had_source && plan.missing_sources > 0 {
        ItemStatus::Skipped
    } else if plan.missing_sources > 0 {
        ItemStatus::Warning
    } else {
        ItemStatus::Done
    }
}

pub fn final_status(plan: &ItemPlan, had_error: bool) -> (status: ItemStatus)
    ensures
        status == status_after(*plan, had_error),
{
    if had_error {
        ItemStatus::Failed
    } else if !plan.had_source && plan.missing_sources > 0 {
        ItemStatus::Skipped
    } else if plan.missing_sources > 0 {
        ItemStatus::Warning
    } else {
        ItemStatus::Done
    }
}

/// How many of the statuses are `wanted`.
pub open spec fn count_of(statuses: Seq<ItemStatus>, wanted: ItemStatus) -> nat
    decreases statuses.len(),
{
    if statuses.len() == 0 {
        0
    } else {
        count_of(statuses.drop_last(), wanted) + if statuses.last() == wanted {
            1nat
        } else {
            0nat
        }
    }
}

/// How many items completed: done, warned, skipped or failed (a cancelled
/// item did not complete).
pub open spec fn completed_count(statuses: Seq<ItemStatus>) -> nat {
    count_of(statuses, ItemStatus::Done) + count_of(statuses, ItemStatus::Warning) + count_of(
        statuses,
        ItemStatus::Skipped,
    ) + count_of(statuses, ItemStatus::Failed)
}

proof fn lemma_count_bounded(statuses: Seq<ItemStatus>, wanted: ItemStatus)
    ensures
        count_of(statuses, wanted) <= statuses.len(),
    decreases statuses.len(),
{
    if statuses.len() > 0 {
        lemma_count_bounded(statuses.drop_last(), wanted);
    }
}

proof fn lemma_completed_bounded(statuses: Seq<ItemStatus>)
    ensures
        completed_count(statuses) <= statuses.len(),
    decreases statuses.len(),
{
    if statuses.len() > 0 {
        lemma_completed_bounded(statuses.drop_last());
    }
}

pub fn count_status(statuses: &Vec<ItemStatus>, wanted: ItemStatus) -> (count: usize)
    ensures
        count == count_of(statuses@, wanted),
{
    let mut count: usize = 0;
    for i in 0..statuses.len()
        invariant
            count == count_of(statuses@.take(i as int), wanted),
            count <= i,
    {
        assert(statuses@.take(i + 1).drop_last() =~= statuses@.take(i as int));
        if statuses[i] == wanted {
            count = count + 1;
        }
    }
    assert(statuses@.take(statuses@.len() as int) =~= statuses@);
    count
}

fn count_completed(statuses: &Vec<ItemStatus>) -> (count: usize)
    ensures
        count == completed_count(statuses@),
{
    let mut count: usize = 0;
    for i in 0..statuses.len()
        invariant
            count == completed_count(statuses@.take(i as int)),
            count <= i,
    {
        assert(statuses@.take(i + 1).drop_last() =~= statuses@.take(i as int));
        let status = statuses[i];
        if status == ItemStatus::Done || status == ItemStatus::Warning || status
            == ItemStatus::Skipped || status == ItemStatus::Failed {
            count = count + 1;
        }
    }
    assert(statuses@.take(statuses@.len() as int) =~= statuses@);
    count
}

/// The summary of a sync from its totals and the status of each item.
pub open spec fn summary_of(
    direction: Direction,
    total_items: usize,
    counters: Counters,
    planned_files: usize,
    elapsed: Duration,
    cancelled: bool,
    cancelled_during_planning: bool,
    scanned_items: usize,
    discovered_files: usize,
    summary: Summary,
) -> bool {
    &&& summary.direction == direction
    &&& summary.total_items == total_items
    &&& summary.completed_items == completed_count(counters.statuses@)
    &&& summary.done_items == count_of(counters.statuses@, ItemStatus::Done)
    &&& summary.warning_items == count_of(counters.statuses@, ItemStatus::Warning)
    &&& summary.skipped_items == count_of(counters.statuses@, ItemStatus::Skipped)
    &&& summary.failed_items == count_of(counters.statuses@, ItemStatus::Failed)
    &&& summary.copied_files == counters.copied_files
    &&& summary.planned_files == planned_files
    &&& summary.copied_bytes == counters.copied_bytes
    &&& summary.warnings == counters.warnings
    &&& summary.errors == counters.errors
    &&& summary.elapsed == elapsed
    &&& summary.cancelled == cancelled
    &&& summary.cancelled_during_planning == cancelled_during_planning
    &&& summary.scanned_items == scanned_items
    &&& summary.discovered_files == discovered_files
}

pub fn make_summary(
    direction: Direction,
    total_items: usize,
    counters: &Counters,
    planned_files: usize,
    elapsed: Duration,
    cancelled: bool,
    cancelled_during_planning: bool,
    scanned_items: usize,
    discovered_files: usize,
) -> (summary: Summary)
    ensures
        summary_of(
            direction,
            total_items,
            *counters,
            planned_files,
            elapsed,
            cancelled,
            cancelled_during_planning,
            scanned_items,
            discovered_files,
            summary,
        ),
{
    Summary {
        direction,
        total_items,
        completed_items: count_completed(&counters.statuses),
        done_items: count_status(&counters.statuses, ItemStatus::Done),
        warning_items: count_status(&counters.statuses, ItemStatus::Warning),
        skipped_items: count_status(&counters.statuses, ItemStatus::Skipped),
        failed_items: count_status(&counters.statuses, ItemStatus::Failed),
        copied_files: counters.copied_files,
        planned_files,
        copied_bytes: counters.copied_bytes,
        warnings: counters.warnings,
        errors: counters.errors,
        elapsed,
        cancelled,
        cancelled_during_planning,
        scanned_items,
        discovered_files,
    }
}

/// The summary of a sync cancelled while its items were being scanned:
/// nothing was planned, and the scan counts are those reached.
pub fn planning_cancelled_summary(
    direction: Direction,
    total_items: usize,
    counters: &Counters,
    elapsed: Duration,
    scanned_items: usize,
    discovered_files: usize,
) -> (summary: Summary)
    ensures
        summary_of(
            direction,
            total_items,
            *counters,
            0,
            elapsed,
            true,
            true,
            scanned_items,
            discovered_files,
            summary,
        ),
{
    make_summary(
        direction,
        total_items,
        counters,
        0,
        elapsed,
        true,
        true,
        scanned_items,
        discovered_files,
    )
}

/// The summary of a sync whose plan was complete: every item was scanned
/// and every planned file discovered; `cancelled` tells whether it was
/// cancelled afterwards.
pub fn planned_summary(
    direction: Direction,
    total_items: usize,
    counters: &Counters,
    planned_files: usize,
    elapsed: Duration,
    cancelled: bool,
) -> (summary: Summary)
    ensures
        summary_of(
            direction,
            total_items,
            *counters,
            planned_files,
            elapsed,
            cancelled,
            false,
            total_items,
            planned_files,
            summary,
        ),
{
    make_summary(
        direction,
        total_items,
        counters,
        planned_files,
        elapsed,
        cancelled,
        false,
        total_items,
        planned_files,
    )
}

/// The outcome of a sync: its diagnostic counts and whether it was cancelled.
pub fn outcome_from(summary: &Summary) -> (outcome: Outcome)
    ensures
        outcome.warnings == summary.warnings,
        outcome.errors == summary.errors,
        outcome.cancelled == summary.cancelled,
{
    Outcome { warnings: summary.warnings, errors: summary.errors, cancelled: summary.cancelled }
}

} // verus!

verus! {

// ---------------------------------------------------------------------------
// Scanning one item

/// What the scan of one item has found so far.
pub struct ItemScanner {
    pub item: usize,
    pub operations: Vec<PlannedOperation>,
    pub total_files: usize,
    pub missing_sources: usize,
    pub had_source: bool,
    pub had_error: bool,
    pub warnings: usize,
    pub errors: usize,
}

/// A scan in progress as plain values.
pub struct ScanView {
    pub item: nat,
    pub operations: Seq<OperationView>,
    pub total_files: nat,
    pub missing_sources: nat,
    pub had_source: bool,
    pub had_error: bool,
    pub warnings: nat,
    pub errors: nat,
}

impl View for ItemScanner {
    type V = ScanView;

    open spec fn view(&self) -> ScanView {
        ScanView {
            item: self.item as nat,
            operations: operations_view(self.operations@),
            total_files: self.total_files as nat,
            missing_sources: self.missing_sources as nat,
            had_source: self.had_source,
            had_error: self.had_error,
            warnings: self.warnings as nat,
            errors: self.errors as nat,
        }
    }
}

/// Where a walked path lands: under `dst` at its place below `src`, at `dst`
/// itself when it is not below `src`.
pub open spec fn walked_destination(src: Seq<char>, dst: Seq<char>, path: Seq<char>) -> Seq<char> {
    match path_without_prefix(path, src) {
        Some(rest) => joined(dst, rest),
        None => joined(dst, seq![]),
    }
}

/// The number of file copies among planned operations.
pub open spec fn copy_count(operations: Seq<OperationView>) -> nat
    decreases operations.len(),
{
    if operations.len() == 0 {
        0
    } else {
        copy_count(operations.drop_last()) + if operations.last() is CopyFile {
            1nat
        } else {
            0nat
        }
    }
}

/// The counts of a scan agree with what it found: every discovered file is
/// one planned copy, every warning one missing source, and an error was had
/// exactly when one was counted.
pub open spec fn scan_consistent(scan: ScanView) -> bool {
    &&& scan.total_files == copy_count(scan.operations)
    &&& scan.warnings == scan.missing_sources
    &&& (scan.had_error <==> scan.errors > 0)
}

proof fn lemma_copy_count_push(operations: Seq<OperationView>, operation: OperationView)
    ensures
        copy_count(operations.push(operation)) == copy_count(operations) + if operation is CopyFile {
            1nat
        } else {
            0nat
        },
{
    assert(operations.push(operation).drop_last() =~= operations);
}

proof fn lemma_operations_push(operations: Seq<PlannedOperation>, operation: PlannedOperation)
    ensures
        operations_view(operations.push(operation)) == operations_view(operations).push(operation@),
{
    assert(operations_view(operations.push(operation)) =~= operations_view(operations).push(
        operation@,
    ));
}

impl ItemScanner {
    /// A scan of item `item` that found nothing yet.
    pub fn new(item: usize) -> (scanner: ItemScanner)
        ensures
            scanner@ == (ScanView {
                item: item as nat,
                operations: seq![],
                total_files: 0,
                missing_sources: 0,
                had_source: false,
                had_error: false,
                warnings: 0,
                errors: 0,
            }),
            scan_consistent(scanner@),
    {
        let scanner = ItemScanner {
            item,
            operations: Vec::new(),
            total_files: 0,
            missing_sources: 0,
            had_source: false,
            had_error: false,
            warnings: 0,
            errors: 0,
        };
        assert(scanner@.operations =~= seq![]);
        scanner
    }

    /// A source that does not exist: one more missing source and warning.
    pub fn source_missing(&mut self)
        requires
            old(self).missing_sources < usize::MAX,
            old(self).warnings < usize::MAX,
        ensures
            final(self)@ == (ScanView {
                missing_sources: old(self)@.missing_sources + 1,
                warnings: old(self)@.warnings + 1,
                ..old(self)@
            }),
            scan_consistent(old(self)@) ==> scan_consistent(final(self)@),
    {
        self.missing_sources = self.missing_sources + 1;
        self.warnings = self.warnings + 1;
    }

    /// A source that could not be read: one more error.
    pub fn source_unreadable(&mut self)
        requires
            old(self).errors < usize::MAX,
        ensures
            final(self)@ == (ScanView { had_error: true, errors: old(self)@.errors + 1, ..old(self)@ }),
            scan_consistent(old(self)@) ==> scan_consistent(final(self)@),
    {
        self.had_error = true;
        self.errors = self.errors + 1;
    }

    /// Walking a directory source failed at some entry: one more error.
    pub fn walk_failed(&mut self)
        requires
            old(self).errors < usize::MAX,
        ensures
            final(self)@ == (ScanView { had_error: true, errors: old(self)@.errors + 1, ..old(self)@ }),
            scan_consistent(old(self)@) ==> scan_consistent(final(self)@),
    {
        self.had_error = true;
        self.errors = self.errors + 1;
    }

    /// A directory source: its destination is created, and the path the
    /// report shows for it comes back.
    pub fn directory_source(&mut self, item: &ResolvedItem, dst: &str) -> (shown: String)
        ensures
            shown@ == logical(item.shed_base@, dst@),
            final(self)@ == (ScanView {
                had_source: true,
                operations: old(self)@.operations.push(OperationView::CreateDir(dst@)),
                ..old(self)@
            }),
            scan_consistent(old(self)@) ==> scan_consistent(final(self)@),
    {
        self.had_source = true;
        let operation = PlannedOperation::CreateDir { dst: String::from_str(dst) };
        proof {
            lemma_operations_push(self.operations@, operation);
            lemma_copy_count_push(self@.operations, operation@);
        }
        self.operations.push(operation);
        logical_path(item, dst)
    }

    /// A file source: its parent directory is created and the file copied.
    pub fn file_source(&mut self, item: &ResolvedItem, src: &str, dst: &str) -> (shown: String)
        requires
            old(self).total_files < usize::MAX,
        ensures
            shown@ == logical(item.shed_base@, dst@),
            final(self)@ == (ScanView {
                had_source: true,
                operations: match path_parent(dst@) {
                    Some(parent) => old(self)@.operations.push(OperationView::CreateDir(parent)),
                    None => old(self)@.operations,
                }.push(OperationView::CopyFile(src@, dst@, shown@)),
                total_files: old(self)@.total_files + 1,
                ..old(self)@
            }),
            scan_consistent(old(self)@) ==> scan_consistent(final(self)@),
    {
        self.had_source = true;
        match parent_of(dst) {
            Some(parent) => {
                let operation = PlannedOperation::CreateDir { dst: parent };
                proof {
                    lemma_operations_push(self.operations@, operation);
                    lemma_copy_count_push(self@.operations, operation@);
                }
                self.operations.push(operation);
            },
            None => {},
        }
        let shown = logical_path(item, dst);
        let operation = PlannedOperation::CopyFile {
            src: String::from_str(src),
            dst: String::from_str(dst),
            logical_path: shown.clone(),
        };
        proof {
            lemma_operations_push(self.operations@, operation);
            lemma_copy_count_push(self@.operations, operation@);
        }
        self.operations.push(operation);
        self.total_files = self.total_files + 1;
        shown
    }

    /// One path found while walking the directory source `src` that copies
    /// to `dst`: a directory is created, a file copied. The path the report
    /// shows for it comes back.
    pub fn walked(
        &mut self,
        item: &ResolvedItem,
        src: &str,
        dst: &str,
        path: &str,
        is_dir: bool,
    ) -> (shown: String)
        requires
            old(self).total_files < usize::MAX,
        ensures
            shown@ == logical(item.shed_base@, walked_destination(src@, dst@, path@)),
            is_dir ==> final(self)@ == (ScanView {
                operations: old(self)@.operations.push(
                    OperationView::CreateDir(walked_destination(src@, dst@, path@)),
                ),
                ..old(self)@
            }),
            !is_dir ==> final(self)@ == (ScanView {
                operations: old(self)@.operations.push(
                    OperationView::CopyFile(path@, walked_destination(src@, dst@, path@), shown@),
                ),
                total_files: old(self)@.total_files + 1,
                ..old(self)@
            }),
            scan_consistent(old(self)@) ==> scan_consistent(final(self)@),
    {
        let relative = match strip_prefix_of(path, src) {
            Some(rest) => rest,
            None => String::new(),
        };
        let dst_path = join_path(dst, relative.as_str());
        let shown = logical_path(item, dst_path.as_str());
        if is_dir {
            let operation = PlannedOperation::CreateDir { dst: dst_path };
            proof {
                lemma_operations_push(self.operations@, operation);
                lemma_copy_count_push(self@.operations, operation@);
            }
            self.operations.push(operation);
        } else {
            let operation = PlannedOperation::CopyFile {
                src: String::from_str(path),
                dst: dst_path,
                logical_path: shown.clone(),
            };
            proof {
                lemma_operations_push(self.operations@, operation);
                lemma_copy_count_push(self@.operations, operation@);
            }
            self.operations.push(operation);
            self.total_files = self.total_files + 1;
        }
        shown
    }

    /// The result of the scan; `complete` is false when it was cancelled.
    pub fn finish(self, complete: bool) -> (scan: ItemScan)
        ensures
            scan.item == self.item,
            operations_view(scan.plan.operations@) == self@.operations,
            scan.plan.missing_sources == self.missing_sources,
            scan.plan.had_source == self.had_source,
            scan.plan.had_error == self.had_error,
            scan.warnings == self.warnings,
            scan.errors == self.errors,
            scan.discovered_files == self.total_files,
            scan.complete == complete,
    {
        item_scan(
            self.item,
            self.operations,
            self.missing_sources,
            self.had_source,
            self.had_error,
            self.warnings,
            self.errors,
            self.total_files,
            complete,
        )
    }
}

} // verus!

verus! {

// ---------------------------------------------------------------------------
// Gathering the scans into a plan

/// The scans gathered so far: the plan of each item whose scan completed,
/// the files discovered, the items scanned, and whether a scan was
/// interrupted.
pub struct Planning {
    pub planned: Vec<Option<ItemPlan>>,
    pub discovered_files: usize,
    pub scanned_items: usize,
    pub interrupted: bool,
}

impl Planning {
    /// Nothing gathered yet for `item_count` items.
    pub fn new(item_count: usize) -> (planning: Planning)
        ensures
            planning.planned@.len() == item_count,
            forall|i: int| 0 <= i < item_count ==> (#[trigger] planning.planned@[i]) is None,
            planning.discovered_files == 0,
            planning.scanned_items == 0,
            !planning.interrupted,
    {
        let mut planned: Vec<Option<ItemPlan>> = Vec::new();
        for i in 0..item_count
            invariant
                planned@.len() == i,
                forall|j: int| 0 <= j < i ==> (#[trigger] planned@[j]) is None,
        {
            planned.push(None);
        }
        Planning { planned, discovered_files: 0, scanned_items: 0, interrupted: false }
    }

    /// Adds one scan: its diagnostics and discovered files count in any
    /// case; a completed scan marks its item ready and keeps its plan, an
    /// interrupted one marks the planning interrupted.
    pub fn record(&mut self, counters: &mut Counters, scan: ItemScan)
        requires
            scan.item < old(self).planned@.len(),
            old(counters).statuses@.len() == old(self).planned@.len(),
            old(counters).warnings + scan.warnings <= usize::MAX,
            old(counters).errors + scan.errors <= usize::MAX,
            old(self).discovered_files + scan.discovered_files <= usize::MAX,
            old(self).scanned_items < usize::MAX,
        ensures
            final(counters).warnings == old(counters).warnings + scan.warnings,
            final(counters).errors == old(counters).errors + scan.errors,
            final(counters).copied_files == old(counters).copied_files,
            final(counters).processed_files == old(counters).processed_files,
            final(counters).copied_bytes == old(counters).copied_bytes,
            final(self).discovered_files == old(self).discovered_files + scan.discovered_files,
            scan.complete ==> {
                &&& final(self).scanned_items == old(self).scanned_items + 1
                &&& final(counters).statuses@ == old(counters).statuses@.update(
                    scan.item as int,
                    ItemStatus::Ready,
                )
                &&& final(self).planned@ == old(self).planned@.update(
                    scan.item as int,
                    Some(scan.plan),
                )
                &&& final(self).interrupted == old(self).interrupted
            },
            !scan.complete ==> {
                &&& final(self).scanned_items == old(self).scanned_items
                &&& final(counters).statuses@ == old(counters).statuses@
                &&& final(self).planned@ == old(self).planned@
                &&& final(self).interrupted
            },
    {
        counters.warnings = counters.warnings + scan.warnings;
        counters.errors = counters.errors + scan.errors;
        self.discovered_files = self.discovered_files + scan.discovered_files;
        if scan.complete {
            self.scanned_items = self.scanned_items + 1;
            counters.statuses.set(scan.item, ItemStatus::Ready);
            self.planned.set(scan.item, Some(scan.plan));
        } else {
            self.interrupted = true;
        }
    }

    /// How planning ended: cancelled with the counts so far when a scan was
    /// interrupted, else the plan of every item and the files discovered.
    pub fn finish(self) -> (result: PlanResult)
        requires
            self.interrupted || forall|i: int|
                0 <= i < self.planned@.len() ==> (#[trigger] self.planned@[i]) is Some,
        ensures
            match result {
                PlanResult::Cancelled { scanned_items, discovered_files } => {
                    &&& self.interrupted
                    &&& scanned_items == self.scanned_items
                    &&& discovered_files == self.discovered_files
                },
                PlanResult::Complete(plan) => {
                    &&& !self.interrupted
                    &&& plan.total_files == self.discovered_files
                    &&& plan.items@.len() == self.planned@.len()
                    &&& forall|i: int|
                        0 <= i < plan.items@.len() ==> self.planned@[i] == Some(
                            #[trigger] plan.items@[i],
                        )
                },
            },
    {
        if self.interrupted {
            return PlanResult::Cancelled {
                scanned_items: self.scanned_items,
                discovered_files: self.discovered_files,
            };
        }
        let ghost all = self.planned@;
        let total_files = self.discovered_files;
        let mut remaining = self.planned;
        let mut items: Vec<ItemPlan> = Vec::new();
        while remaining.len() > 0
            invariant
                remaining@ == all.skip(items@.len() as int),
                items@.len() <= all.len(),
                forall|i: int| 0 <= i < all.len() ==> (#[trigger] all[i]) is Some,
                forall|i: int| 0 <= i < items@.len() ==> all[i] == Some(#[trigger] items@[i]),
            decreases remaining@.len(),
        {
            let ghost k = items@.len() as int;
            let next = remaining.remove(0);
            assert(next == all[k]);
            assert(remaining@ =~= all.skip(k + 1));
            match next {
                Some(plan) => {
                    items.push(plan);
                },
                None => {
                    assert(false);
                },
            }
        }
        PlanResult::Complete(SyncPlan { items, total_files })
    }
}

} // verus!

verus! {

// ---------------------------------------------------------------------------
// Creating directories

impl Counters {
    /// Marks every item as copying.
    pub fn start_items(&mut self)
        ensures
            final(self).statuses@ == Seq::new(
                old(self).statuses@.len(),
                |i: int| ItemStatus::Copying,
            ),
            final(self).warnings == old(self).warnings,
            final(self).errors == old(self).errors,
            final(self).copied_files == old(self).copied_files,
            final(self).processed_files == old(self).processed_files,
            final(self).copied_bytes == old(self).copied_bytes,
    {
        let n = self.statuses.len();
        for i in 0..n
            invariant
                self.statuses@.len() == n,
                n == old(self).statuses@.len(),
                forall|j: int| 0 <= j < i ==> self.statuses@[j] == ItemStatus::Copying,
                self.warnings == old(self).warnings,
                self.errors == old(self).errors,
                self.copied_files == old(self).copied_files,
                self.processed_files == old(self).processed_files,
                self.copied_bytes == old(self).copied_bytes,
        {
            self.statuses.set(i, ItemStatus::Copying);
        }
        assert(self.statuses@ =~= Seq::new(n as nat, |i: int| ItemStatus::Copying));
    }
}

/// What to do with a directory of the plan.
#[derive(Clone, Copy, Debug, PartialEq, Eq, Structural)]
pub enum DirectoryAction {
    /// It lies inside a directory that could not be created: the item
    /// fails, nothing is attempted.
    Blocked,
    /// Already created earlier, or a dry run: nothing to do.
    Skip,
    /// Create it.
    Create,
}

/// The state of the serial directory pass: the directories seen (each
/// rebuilt from its components, `path_normal`), those that failed, which
/// items met an error and which items had all their directories handled.
pub struct DirectoryPass {
    pub created: Vec<String>,
    pub failed: Vec<String>,
    pub item_had_error: Vec<bool>,
    pub complete: Vec<bool>,
}

/// Whether a path, compared component by component, is among the seen
/// ones, which are kept rebuilt from their components.
pub open spec fn listed(paths: Seq<String>, path: Seq<char>) -> bool {
    exists|i: int| 0 <= i < paths.len() && (#[trigger] paths[i])@ == path_normal(path)
}

fn is_listed(paths: &Vec<String>, path: &String) -> (found: bool)
    ensures
        found == (exists|i: int| 0 <= i < paths@.len() && (#[trigger] paths@[i])@ == path@),
{
    let mut i: usize = 0;
    while i < paths.len()
        invariant
            0 <= i <= paths@.len(),
            forall|j: int| 0 <= j < i ==> (#[trigger] paths@[j])@ != path@,
        decreases paths@.len() - i,
    {
        if paths[i].eq(path) {
            return true;
        }
        i = i + 1;
    }
    false
}

impl DirectoryPass {
    /// Before the pass: nothing created or failed, each item's error flag
    /// from its plan, no item complete.
    pub fn new(plan: &SyncPlan) -> (pass: DirectoryPass)
        ensures
            pass.created@.len() == 0,
            pass.failed@.len() == 0,
            pass.item_had_error@.len() == plan.items@.len(),
            forall|i: int|
                0 <= i < plan.items@.len() ==> pass.item_had_error@[i]
                    == (#[trigger] plan.items@[i]).had_error,
            pass.complete@ == Seq::new(plan.items@.len(), |i: int| false),
    {
        let mut item_had_error: Vec<bool> = Vec::new();
        let mut complete: Vec<bool> = Vec::new();
        for i in 0..plan.items.len()
            invariant
                item_had_error@.len() == i,
                forall|j: int|
                    0 <= j < i ==> item_had_error@[j] == (#[trigger] plan.items@[j]).had_error,
                complete@ == Seq::new(i as nat, |j: int| false),
        {
            item_had_error.push(plan.items[i].had_error);
            complete.push(false);
            assert(complete@ =~= Seq::new((i + 1) as nat, |j: int| false));
        }
        DirectoryPass { created: Vec::new(), failed: Vec::new(), item_had_error, complete }
    }

    /// Decides on directory `dst` of item `item`. A blocked directory marks
    /// the item as failed. Otherwise the directory is remembered as seen; it
    /// is created only the first time it is seen and not in a dry run.
    pub fn directory_action(&mut self, item: usize, dst: &String, dry: bool) -> (action:
        DirectoryAction)
        requires
            item < old(self).item_had_error@.len(),
        ensures
            final(self).failed@ == old(self).failed@,
            final(self).complete@ == old(self).complete@,
            blocked(dst@, old(self).failed@) ==> {
                &&& action == DirectoryAction::Blocked
                &&& final(self).item_had_error@ == old(self).item_had_error@.update(
                    item as int,
                    true,
                )
                &&& final(self).created@ == old(self).created@
            },
            !blocked(dst@, old(self).failed@) ==> {
                &&& final(self).item_had_error@ == old(self).item_had_error@
                &&& listed(old(self).created@, dst@) ==> final(self).created@ == old(self).created@
                &&& !listed(old(self).created@, dst@) ==> final(self).created.deep_view() == old(
                    self,
                ).created.deep_view().push(path_normal(dst@))
                &&& action == if listed(old(self).created@, dst@) || dry {
                    DirectoryAction::Skip
                } else {
                    DirectoryAction::Create
                }
            },
    {
        if is_blocked(dst.as_str(), &self.failed) {
            self.item_had_error.set(item, true);
            return DirectoryAction::Blocked;
        }
        let key = normal_form(dst.as_str());
        let seen = is_listed(&self.created, &key);
        if !seen {
            let ghost before = self.created@;
            self.created.push(key);
            assert(self.created.deep_view() =~= before.map_values(|s: String| s@).push(
                path_normal(dst@),
            ));
        }
        if seen || dry {
            DirectoryAction::Skip
        } else {
            DirectoryAction::Create
        }
    }

    /// Creating directory `dst` of item `item` failed: the item fails, the
    /// error is counted once, and everything under `dst` is blocked.
    pub fn directory_failed(&mut self, counters: &mut Counters, item: usize, dst: String)
        requires
            item < old(self).item_had_error@.len(),
            old(counters).errors < usize::MAX,
        ensures
            final(self).item_had_error@ == old(self).item_had_error@.update(item as int, true),
            final(self).failed@ == old(self).failed@.push(dst),
            final(self).created@ == old(self).created@,
            final(self).complete@ == old(self).complete@,
            final(counters).errors == old(counters).errors + 1,
            final(counters).warnings == old(counters).warnings,
            final(counters).statuses@ == old(counters).statuses@,
            final(counters).copied_files == old(counters).copied_files,
            final(counters).processed_files == old(counters).processed_files,
            final(counters).copied_bytes == old(counters).copied_bytes,
    {
        self.item_had_error.set(item, true);
        counters.errors = counters.errors + 1;
        self.failed.push(dst);
    }

    /// Every directory of item `item` was handled.
    pub fn directories_done(&mut self, item: usize)
        requires
            item < old(self).complete@.len(),
        ensures
            final(self).complete@ == old(self).complete@.update(item as int, true),
            final(self).created@ == old(self).created@,
            final(self).failed@ == old(self).failed@,
            final(self).item_had_error@ == old(self).item_had_error@,
    {
        self.complete.set(item, true);
    }
}

} // verus!

verus! {

// ---------------------------------------------------------------------------
// Grouping the copies by destination

/// A copy as plain values.
pub struct CopyView {
    pub item: nat,
    pub src: Seq<char>,
    pub dst: Seq<char>,
    pub logical_path: Seq<char>,
}

impl View for CopyWork {
    type V = CopyView;

    open spec fn view(&self) -> CopyView {
        CopyView {
            item: self.item as nat,
            src: self.src@,
            dst: self.dst@,
            logical_path: self.logical_path@,
        }
    }
}

pub open spec fn works_view(works: Seq<CopyWork>) -> Seq<CopyView> {
    works.map_values(|w: CopyWork| w@)
}

/// The copies among an item's operations, in order.
pub open spec fn item_copies(item: nat, operations: Seq<OperationView>) -> Seq<CopyView>
    decreases operations.len(),
{
    if operations.len() == 0 {
        seq![]
    } else {
        item_copies(item, operations.drop_last()) + match operations.last() {
            OperationView::CopyFile(src, dst, logical_path) => seq![
                CopyView { item, src, dst, logical_path },
            ],
            OperationView::CreateDir(_) => seq![],
        }
    }
}

/// Every copy of a plan, item by item.
pub open spec fn plan_copies(items: Seq<ItemPlan>) -> Seq<CopyView>
    decreases items.len(),
{
    if items.len() == 0 {
        seq![]
    } else {
        plan_copies(items.drop_last()) + item_copies(
            (items.len() - 1) as nat,
            operations_view(items.last().operations@),
        )
    }
}

/// The destination of a copy as it is compared when grouping: rebuilt from
/// its components, so that paths naming the same place by the same
/// components are one destination.
pub open spec fn dst_key(copy: CopyView) -> Seq<char> {
    path_normal(copy.dst)
}

/// The distinct destinations of the copies (compared by `dst_key`), in order
/// of first appearance.
pub open spec fn destinations(copies: Seq<CopyView>) -> Seq<Seq<char>>
    decreases copies.len(),
{
    if copies.len() == 0 {
        seq![]
    } else {
        let earlier = destinations(copies.drop_last());
        if earlier.contains(dst_key(copies.last())) {
            earlier
        } else {
            earlier.push(dst_key(copies.last()))
        }
    }
}

/// The copies to one destination, in order.
pub open spec fn copies_to(copies: Seq<CopyView>, dst: Seq<char>) -> Seq<CopyView>
    decreases copies.len(),
{
    if copies.len() == 0 {
        seq![]
    } else {
        let earlier = copies_to(copies.drop_last(), dst);
        if dst_key(copies.last()) == dst {
            earlier.push(copies.last())
        } else {
            earlier
        }
    }
}

/// The copies grouped by destination, and how many copies each item has.
pub struct CopyPlan {
    pub groups: Vec<Vec<CopyWork>>,
    pub remaining: Vec<usize>,
}

proof fn lemma_no_copies_to_new(copies: Seq<CopyView>, dst: Seq<char>)
    requires
        !destinations(copies).contains(dst),
    ensures
        copies_to(copies, dst) == Seq::<CopyView>::empty(),
    decreases copies.len(),
{
    if copies.len() > 0 {
        let earlier = destinations(copies.drop_last());
        if !earlier.contains(dst_key(copies.last())) {
            assert(destinations(copies)[earlier.len() as int] == dst_key(copies.last()));
        }
        assert forall|x: Seq<char>| earlier.contains(x) implies destinations(copies).contains(x) by {
            let i = choose|i: int| 0 <= i < earlier.len() && earlier[i] == x;
            assert(destinations(copies)[i] == x);
        }
        lemma_no_copies_to_new(copies.drop_last(), dst);
    }
}

fn find_destination(dsts: &Vec<String>, dst: &String) -> (found: Option<usize>)
    ensures
        match found {
            Some(g) => g < dsts@.len() && dsts@[g as int]@ == dst@,
            None => forall|g: int| 0 <= g < dsts@.len() ==> (#[trigger] dsts@[g])@ != dst@,
        },
{
    let mut g: usize = 0;
    while g < dsts.len()
        invariant
            0 <= g <= dsts@.len(),
            forall|h: int| 0 <= h < g ==> (#[trigger] dsts@[h])@ != dst@,
        decreases dsts@.len() - g,
    {
        if dsts[g].eq(dst) {
            return Some(g);
        }
        g = g + 1;
    }
    None
}

proof fn lemma_copies_push(copies: Seq<CopyView>, copy: CopyView, dst: Seq<char>)
    ensures
        copies_to(copies.push(copy), dst) == if dst_key(copy) == dst {
            copies_to(copies, dst).push(copy)
        } else {
            copies_to(copies, dst)
        },
        destinations(copies.push(copy)) == if destinations(copies).contains(dst_key(copy)) {
            destinations(copies)
        } else {
            destinations(copies).push(dst_key(copy))
        },
{
    assert(copies.push(copy).drop_last() =~= copies);
}

/// The invariant of the grouping loop over the copies seen so far.
spec fn grouping_state(
    seen: Seq<CopyView>,
    dsts: Seq<String>,
    groups: Seq<Vec<CopyWork>>,
) -> bool {
    &&& dsts.map_values(|d: String| d@) == destinations(seen)
    &&& groups.len() == dsts.len()
    &&& forall|g: int|
        0 <= g < groups.len() ==> works_view((#[trigger] groups[g])@) == copies_to(
            seen,
            dsts[g]@,
        )
}

proof fn lemma_works_push(works: Seq<CopyWork>, work: CopyWork)
    ensures
        works_view(works.push(work)) == works_view(works).push(work@),
{
    assert(works_view(works.push(work)) =~= works_view(works).push(work@));
}

/// Groups the copies of a plan by destination: one group per destination
/// (destinations compared component by component, by `dst_key`), in the
/// order destinations first appear, each holding that destination's
/// copies in plan order. Also counts each item's copies.
pub fn copy_groups(plan: &SyncPlan) -> (copies: CopyPlan)
    ensures
        copies.remaining@.len() == plan.items@.len(),
        forall|i: int|
            0 <= i < plan.items@.len() ==> copies.remaining@[i] == item_copies(
                i as nat,
                operations_view((#[trigger] plan.items@[i]).operations@),
            ).len(),
        copies.groups@.len() == destinations(plan_copies(plan.items@)).len(),
        forall|g: int|
            0 <= g < copies.groups@.len() ==> works_view((#[trigger] copies.groups@[g])@)
                == copies_to(plan_copies(plan.items@), destinations(plan_copies(plan.items@))[g]),
{
    let mut remaining: Vec<usize> = Vec::new();
    let mut groups: Vec<Vec<CopyWork>> = Vec::new();
    let mut dsts: Vec<String> = Vec::new();
    proof {
        assert(dsts@.map_values(|d: String| d@) =~= destinations(plan_copies(plan.items@.take(0))));
    }
    for i in 0..plan.items.len()
        invariant
            remaining@.len() == i,
            forall|j: int|
                0 <= j < i ==> remaining@[j] == item_copies(
                    j as nat,
                    operations_view((#[trigger] plan.items@[j]).operations@),
                ).len(),
            grouping_state(plan_copies(plan.items@.take(i as int)), dsts@, groups@),
    {
        let operations = &plan.items[i].operations;
        let ghost before = plan_copies(plan.items@.take(i as int));
        let ghost ops = operations_view(operations@);
        let mut count: usize = 0;
        for k in 0..operations.len()
            invariant
                operations == plan.items@[i as int].operations,
                ops == operations_view(operations@),
                count == item_copies(i as nat, ops.take(k as int)).len(),
                count <= k,
                grouping_state(before + item_copies(i as nat, ops.take(k as int)), dsts@, groups@),
        {
            let ghost seen = before + item_copies(i as nat, ops.take(k as int));
            assert(ops.take(k + 1).drop_last() =~= ops.take(k as int));
            assert(ops.take(k + 1).last() == ops[k as int]);
            match &operations[k] {
                PlannedOperation::CopyFile { src, dst, logical_path } => {
                    let work = CopyWork {
                        item: i,
                        src: src.clone(),
                        dst: dst.clone(),
                        logical_path: logical_path.clone(),
                    };
                    let key = normal_form(dst.as_str());
                    assert(key@ == dst_key(work@));
                    let ghost next = seen.push(work@);
                    assert(before + item_copies(i as nat, ops.take(k + 1)) =~= next);
                    proof {
                        lemma_copies_push(seen, work@, key@);
                    }
                    match find_destination(&dsts, &key) {
                        Some(g) => {
                            proof {
                                assert(destinations(seen)[g as int] == key@);
                                assert(destinations(seen).contains(key@));
                                lemma_works_push(groups@[g as int]@, work);
                                assert forall|h: int| 0 <= h < groups@.len() implies
                                    copies_to(next, dsts@[h]@) == if h == g {
                                        copies_to(seen, dsts@[h]@).push(work@)
                                    } else {
                                        copies_to(seen, dsts@[h]@)
                                    } by {
                                    lemma_copies_push(seen, work@, dsts@[h]@);
                                    if h != g {
                                        assert(destinations(seen)[h] == dsts@[h]@);
                                        assert(destinations(seen)[g as int] == dsts@[g as int]@);
                                        assert(dsts@[h]@ != dsts@[g as int]@) by {
                                            lemma_destinations_distinct(seen, h, g as int);
                                        }
                                    }
                                }
                            }
                            let ghost old_groups = groups@;
                            groups[g].push(work);
                            proof {
                                assert forall|h: int| 0 <= h < groups@.len() implies works_view(
                                    (#[trigger] groups@[h])@,
                                ) == copies_to(next, dsts@[h]@) by {
                                    if h != g {
                                        assert(groups@[h] == old_groups[h]);
                                    }
                                }
                            }
                        },
                        None => {
                            proof {
                                assert(!destinations(seen).contains(key@)) by {
                                    if destinations(seen).contains(key@) {
                                        let h = choose|h: int|
                                            0 <= h < destinations(seen).len()
                                                && destinations(seen)[h] == key@;
                                        assert(dsts@[h]@ == destinations(seen)[h]);
                                    }
                                }
                                lemma_no_copies_to_new(seen, key@);
                                assert forall|h: int| 0 <= h < groups@.len() implies copies_to(
                                    next,
                                    dsts@[h]@,
                                ) == copies_to(seen, dsts@[h]@) by {
                                    lemma_copies_push(seen, work@, dsts@[h]@);
                                }
                            }
                            let mut group: Vec<CopyWork> = Vec::new();
                            let ghost old_groups = groups@;
                            let ghost old_dsts = dsts@;
                            proof {
                                lemma_works_push(group@, work);
                            }
                            group.push(work);
                            groups.push(group);
                            dsts.push(key);
                            proof {
                                assert(dsts@.map_values(|d: String| d@) =~= old_dsts.map_values(
                                    |d: String| d@,
                                ).push(key@));
                                assert forall|h: int| 0 <= h < groups@.len() implies works_view(
                                    (#[trigger] groups@[h])@,
                                ) == copies_to(next, dsts@[h]@) by {
                                    if h < old_groups.len() {
                                        assert(groups@[h] == old_groups[h]);
                                        assert(dsts@[h] == old_dsts[h]);
                                    } else {
                                        assert(works_view(groups@[h]@) =~= seq![work@]);
                                    }
                                }
                            }
                        },
                    }
                    count = count + 1;
                },
                PlannedOperation::CreateDir { .. } => {
                    assert(before + item_copies(i as nat, ops.take(k + 1)) =~= seen);
                },
            }
        }
        proof {
            assert(ops.take(operations@.len() as int) =~= ops);
            assert(plan.items@.take(i + 1).drop_last() =~= plan.items@.take(i as int));
            assert(plan_copies(plan.items@.take(i + 1)) =~= before + item_copies(i as nat, ops));
        }
        remaining.push(count);
    }
    proof {
        assert(plan.items@.take(plan.items@.len() as int) =~= plan.items@);
    }
    CopyPlan { groups, remaining }
}

/// Destinations are distinct.
proof fn lemma_destinations_distinct(copies: Seq<CopyView>, g: int, h: int)
    requires
        0 <= g < destinations(copies).len(),
        0 <= h < destinations(copies).len(),
        g != h,
    ensures
        destinations(copies)[g] != destinations(copies)[h],
    decreases copies.len(),
{
    if copies.len() > 0 {
        let earlier = destinations(copies.drop_last());
        if earlier.contains(dst_key(copies.last())) {
            lemma_destinations_distinct(copies.drop_last(), g, h);
        } else {
            if g < earlier.len() && h < earlier.len() {
                lemma_destinations_distinct(copies.drop_last(), g, h);
            } else if g == earlier.len() {
                assert(earlier[h] != dst_key(copies.last())) by {
                    if earlier[h] == dst_key(copies.last()) {
                        assert(earlier.contains(dst_key(copies.last())));
                    }
                }
            } else {
                assert(earlier[g] != dst_key(copies.last())) by {
                    if earlier[g] == dst_key(copies.last()) {
                        assert(earlier.contains(dst_key(copies.last())));
                    }
                }
            }
        }
    }
}

} // verus!

verus! {

// ---------------------------------------------------------------------------
// Copying and settling

/// What to do with one copy.
#[derive(Clone, Copy, Debug, PartialEq, Eq, Structural)]
pub enum CopyAction {
    /// Its destination lies inside a directory that could not be created:
    /// skipped without a further error (the directory's error was counted).
    Blocked,
    /// A dry run: counted as copied, nothing written.
    Pretend,
    /// Copy the file.
    Copy,
}

pub open spec fn action_for(dst: Seq<char>, failed: Seq<String>, dry: bool) -> CopyAction {
    if blocked(dst, failed) {
        CopyAction::Blocked
    } else if dry {
        CopyAction::Pretend
    } else {
        CopyAction::Copy
    }
}

pub fn copy_action(dst: &str, failed_directories: &Vec<String>, dry: bool) -> (action: CopyAction)
    ensures
        action == action_for(dst@, failed_directories@, dry),
{
    if is_blocked(dst, failed_directories) {
        CopyAction::Blocked
    } else if dry {
        CopyAction::Pretend
    } else {
        CopyAction::Copy
    }
}

/// The result of one copy of item `item`: nothing for a blocked copy, a
/// copy of no bytes for a dry run, else the bytes written or an error
/// (`copied` is `None` when the copy failed).
pub open spec fn result_of(item: usize, action: CopyAction, copied: Option<u64>) -> CopyResult {
    match action {
        CopyAction::Blocked => CopyResult { item, copied: false, bytes: 0, error: false },
        CopyAction::Pretend => CopyResult { item, copied: true, bytes: 0, error: false },
        CopyAction::Copy => match copied {
            Some(bytes) => CopyResult { item, copied: true, bytes, error: false },
            None => CopyResult { item, copied: false, bytes: 0, error: true },
        },
    }
}

pub fn copy_result(item: usize, action: CopyAction, copied: Option<u64>) -> (result: CopyResult)
    ensures
        result == result_of(item, action, copied),
{
    match action {
        CopyAction::Blocked => CopyResult { item, copied: false, bytes: 0, error: false },
        CopyAction::Pretend => CopyResult { item, copied: true, bytes: 0, error: false },
        CopyAction::Copy => match copied {
            Some(bytes) => CopyResult { item, copied: true, bytes, error: false },
            None => CopyResult { item, copied: false, bytes: 0, error: true },
        },
    }
}

/// Counts one finished copy: one more processed file and one fewer left
/// for its item; a copied file adds its bytes; an error is counted and
/// fails the item.
pub fn record_copy(
    counters: &mut Counters,
    remaining: &mut Vec<usize>,
    item_had_error: &mut Vec<bool>,
    result: CopyResult,
)
    requires
        result.item < old(remaining)@.len(),
        result.item < old(item_had_error)@.len(),
        old(counters).processed_files < usize::MAX,
        result.copied ==> old(counters).copied_files < usize::MAX,
        result.copied ==> old(counters).copied_bytes + result.bytes <= u64::MAX,
        result.error ==> old(counters).errors < usize::MAX,
    ensures
        final(counters).processed_files == old(counters).processed_files + 1,
        final(remaining)@ == old(remaining)@.update(
            result.item as int,
            if old(remaining)@[result.item as int] > 0 {
                (old(remaining)@[result.item as int] - 1) as usize
            } else {
                0
            },
        ),
        final(counters).copied_files == old(counters).copied_files + if result.copied {
            1int
        } else {
            0int
        },
        final(counters).copied_bytes == old(counters).copied_bytes + if result.copied {
            result.bytes as int
        } else {
            0int
        },
        final(counters).errors == old(counters).errors + if result.error {
            1int
        } else {
            0int
        },
        final(item_had_error)@ == if result.error {
            old(item_had_error)@.update(result.item as int, true)
        } else {
            old(item_had_error)@
        },
        final(counters).warnings == old(counters).warnings,
        final(counters).statuses@ == old(counters).statuses@,
{
    counters.processed_files = counters.processed_files + 1;
    let left = remaining[result.item];
    remaining.set(result.item, if left > 0 { left - 1 } else { 0 });
    if result.copied {
        counters.copied_files = counters.copied_files + 1;
        counters.copied_bytes = counters.copied_bytes + result.bytes;
    }
    if result.error {
        counters.errors = counters.errors + 1;
        item_had_error.set(result.item, true);
    }
}

/// The status an item ends a sync with: cancelled when the sync was
/// cancelled before its directories or copies were all done, else what
/// its plan and errors give.
pub open spec fn settled_status(
    plan: ItemPlan,
    cancelled: bool,
    directories_complete: bool,
    remaining: usize,
    had_error: bool,
) -> ItemStatus {
    if cancelled && (!directories_complete || remaining > 0) {
        ItemStatus::Cancelled
    } else {
        status_after(plan, had_error)
    }
}

/// Settles every item of a plan after the copies: records each item's final
/// status and returns them, in item order.
pub fn settle_items(
    counters: &mut Counters,
    plan: &SyncPlan,
    cancelled: bool,
    directories_complete: &Vec<bool>,
    remaining: &Vec<usize>,
    item_had_error: &Vec<bool>,
) -> (statuses: Vec<ItemStatus>)
    requires
        old(counters).statuses@.len() == plan.items@.len(),
        directories_complete@.len() == plan.items@.len(),
        remaining@.len() == plan.items@.len(),
        item_had_error@.len() == plan.items@.len(),
    ensures
        statuses@.len() == plan.items@.len(),
        forall|i: int|
            0 <= i < plan.items@.len() ==> statuses@[i] == settled_status(
                #[trigger] plan.items@[i],
                cancelled,
                directories_complete@[i],
                remaining@[i],
                item_had_error@[i],
            ),
        final(counters).statuses@ == statuses@,
        final(counters).warnings == old(counters).warnings,
        final(counters).errors == old(counters).errors,
        final(counters).copied_files == old(counters).copied_files,
        final(counters).processed_files == old(counters).processed_files,
        final(counters).copied_bytes == old(counters).copied_bytes,
{
    let mut statuses: Vec<ItemStatus> = Vec::new();
    for i in 0..plan.items.len()
        invariant
            statuses@.len() == i,
            counters.statuses@.len() == plan.items@.len(),
            directories_complete@.len() == plan.items@.len(),
            remaining@.len() == plan.items@.len(),
            item_had_error@.len() == plan.items@.len(),
            forall|j: int|
                0 <= j < i ==> statuses@[j] == settled_status(
                    #[trigger] plan.items@[j],
                    cancelled,
                    directories_complete@[j],
                    remaining@[j],
                    item_had_error@[j],
                ),
            forall|j: int| 0 <= j < i ==> counters.statuses@[j] == statuses@[j],
            counters.warnings == old(counters).warnings,
            counters.errors == old(counters).errors,
            counters.copied_files == old(counters).copied_files,
            counters.processed_files == old(counters).processed_files,
            counters.copied_bytes == old(counters).copied_bytes,
    {
        let status = if cancelled && (!directories_complete[i] || remaining[i] > 0) {
            ItemStatus::Cancelled
        } else {
            final_status(&plan.items[i], item_had_error[i])
        };
        counters.statuses.set(i, status);
        statuses.push(status);
    }
    assert(counters.statuses@ =~= statuses@);
    statuses
}

} // verus!

verus! {

// ---------------------------------------------------------------------------
// Laws

/// Every copy goes to the group of its destination, so the groups hold the
/// copies exactly once between them: their sizes add up to the number of
/// copies.
pub open spec fn group_sizes(copies: Seq<CopyView>, dsts: Seq<Seq<char>>) -> nat
    decreases dsts.len(),
{
    if dsts.len() == 0 {
        0
    } else {
        group_sizes(copies, dsts.drop_last()) + copies_to(copies, dsts.last()).len()
    }
}

proof fn lemma_group_sizes_split(copies: Seq<CopyView>, dsts: Seq<Seq<char>>, copy: CopyView)
    requires
        dsts.no_duplicates(),
    ensures
        group_sizes(copies.push(copy), dsts) == group_sizes(copies, dsts) + if dsts.contains(
            dst_key(copy),
        ) {
            1nat
        } else {
            0nat
        },
    decreases dsts.len(),
{
    if dsts.len() > 0 {
        let rest = dsts.drop_last();
        lemma_copies_push(copies, copy, dsts.last());
        assert(rest.no_duplicates()) by {
            assert forall|i: int, j: int| 0 <= i < rest.len() && 0 <= j < rest.len() && i != j
                implies rest[i] != rest[j] by {
                assert(dsts[i] == rest[i] && dsts[j] == rest[j]);
            }
        }
        lemma_group_sizes_split(copies, rest, copy);
        if dsts.last() == dst_key(copy) {
            assert(!rest.contains(dst_key(copy))) by {
                if rest.contains(dst_key(copy)) {
                    let i = choose|i: int| 0 <= i < rest.len() && rest[i] == dst_key(copy);
                    assert(dsts[i] == dsts[dsts.len() - 1]);
                }
            }
            assert(dsts.contains(dst_key(copy))) by {
                assert(dsts[dsts.len() - 1] == dst_key(copy));
            }
        } else {
            assert(dsts.contains(dst_key(copy)) == rest.contains(dst_key(copy))) by {
                if dsts.contains(dst_key(copy)) {
                    let i = choose|i: int| 0 <= i < dsts.len() && dsts[i] == dst_key(copy);
                    assert(rest[i] == dst_key(copy));
                }
                if rest.contains(dst_key(copy)) {
                    let i = choose|i: int| 0 <= i < rest.len() && rest[i] == dst_key(copy);
                    assert(dsts[i] == dst_key(copy));
                }
            }
        }
    }
}

proof fn lemma_destinations_unique(copies: Seq<CopyView>)
    ensures
        destinations(copies).no_duplicates(),
{
    assert forall|i: int, j: int|
        0 <= i < destinations(copies).len() && 0 <= j < destinations(copies).len() && i != j
        implies destinations(copies)[i] != destinations(copies)[j] by {
        lemma_destinations_distinct(copies, i, j);
    }
}

proof fn lemma_destination_listed(copies: Seq<CopyView>, i: int)
    requires
        0 <= i < copies.len(),
    ensures
        destinations(copies).contains(dst_key(copies[i])),
    decreases copies.len(),
{
    let earlier = destinations(copies.drop_last());
    if i < copies.len() - 1 {
        lemma_destination_listed(copies.drop_last(), i);
        let k = choose|k: int| 0 <= k < earlier.len() && earlier[k] == dst_key(copies[i]);
        if !earlier.contains(dst_key(copies.last())) {
            assert(destinations(copies)[k] == dst_key(copies[i]));
        }
    } else if earlier.contains(dst_key(copies.last())) {
    } else {
        assert(destinations(copies)[earlier.len() as int] == dst_key(copies[i]));
    }
}

/// Grouping copies by destination loses and repeats none: every copy's
/// destination has a group, the groups' destinations are distinct, and the
/// group sizes add up to the number of copies.
pub proof fn lemma_groups_partition_copies(copies: Seq<CopyView>)
    ensures
        destinations(copies).no_duplicates(),
        forall|i: int|
            0 <= i < copies.len() ==> destinations(copies).contains(#[trigger] dst_key(copies[i])),
        group_sizes(copies, destinations(copies)) == copies.len(),
    decreases copies.len(),
{
    lemma_destinations_unique(copies);
    assert forall|i: int| 0 <= i < copies.len() implies destinations(copies).contains(
        #[trigger] dst_key(copies[i]),
    ) by {
        lemma_destination_listed(copies, i);
    }
    if copies.len() > 0 {
        let rest = copies.drop_last();
        let last = copies.last();
        lemma_groups_partition_copies(rest);
        assert(rest.push(last) =~= copies);
        let dsts = destinations(copies);
        lemma_group_sizes_split(rest, dsts, last);
        lemma_destination_listed(copies, copies.len() - 1);
        if destinations(rest).contains(dst_key(last)) {
            assert(dsts == destinations(rest));
        } else {
            assert(dsts == destinations(rest).push(dst_key(last)));
            lemma_no_copies_to_new(rest, dst_key(last));
            assert(dsts.drop_last() =~= destinations(rest));
            assert(group_sizes(rest, dsts) == group_sizes(rest, destinations(rest)) + copies_to(
                rest,
                dst_key(last),
            ).len());
        }
    }
}

/// Once a directory could not be created, every copy below it is blocked,
/// and a blocked copy neither copies nor counts an error: the directory's
/// one error stands for all of them.
pub proof fn lemma_failed_directory_blocks_copies(
    failed: Seq<String>,
    dir: String,
    dst: Seq<char>,
    dry: bool,
    item: usize,
    copied: Option<u64>,
)
    requires
        path_has_prefix(dst, dir@),
    ensures
        action_for(dst, failed.push(dir), dry) == CopyAction::Blocked,
        !result_of(item, action_for(dst, failed.push(dir), dry), copied).copied,
        !result_of(item, action_for(dst, failed.push(dir), dry), copied).error,
{
    assert(failed.push(dir)[failed.len() as int] == dir);
}

/// The counts of a summary agree: the completed items are the done,
/// warning, skipped and failed ones, and there are no more of them than
/// items.
pub proof fn lemma_summary_counts(
    direction: Direction,
    total_items: usize,
    counters: Counters,
    planned_files: usize,
    elapsed: Duration,
    cancelled: bool,
    cancelled_during_planning: bool,
    scanned_items: usize,
    discovered_files: usize,
    summary: Summary,
)
    requires
        total_items == counters.statuses@.len(),
        summary_of(
            direction,
            total_items,
            counters,
            planned_files,
            elapsed,
            cancelled,
            cancelled_during_planning,
            scanned_items,
            discovered_files,
            summary,
        ),
    ensures
        summary.completed_items == summary.done_items + summary.warning_items
            + summary.skipped_items + summary.failed_items,
        summary.completed_items <= summary.total_items,
{
    lemma_completed_bounded(counters.statuses@);
}

/// A sync that was not cancelled settles no item as cancelled: each item
/// ends with the status its plan and errors give.
pub proof fn lemma_uncancelled_items_settle(
    plan: ItemPlan,
    directories_complete: bool,
    remaining: usize,
    had_error: bool,
)
    ensures
        settled_status(plan, false, directories_complete, remaining, had_error) == status_after(
            plan,
            had_error,
        ),
        settled_status(plan, false, directories_complete, remaining, had_error)
            != ItemStatus::Cancelled,
{
}

} // verus!

verus! {

/// A copy either copied or failed, never both; only a real copy reports
/// bytes.
pub proof fn lemma_copy_results_exclusive(item: usize, action: CopyAction, copied: Option<u64>)
    ensures
        !(result_of(item, action, copied).copied && result_of(item, action, copied).error),
        result_of(item, action, copied).bytes > 0 ==> action == CopyAction::Copy,
        result_of(item, action, copied).item == item,
{
}

} // verus!

verus! {

/// Exit codes: a cancelled sync exits with 130 whatever it counted; an
/// uncancelled one with an error exits with 2 whatever its warnings; one
/// with warnings and no error with 1; a clean one with 0.
pub proof fn lemma_exit_code_priority(outcome: Outcome)
    ensures
        outcome.cancelled ==> exit_code_of(outcome) == 130,
        !outcome.cancelled && outcome.errors > 0 ==> exit_code_of(outcome) == 2,
        !outcome.cancelled && outcome.errors == 0 && outcome.warnings > 0 ==> exit_code_of(outcome)
            == 1,
        !outcome.cancelled && outcome.errors == 0 && outcome.warnings == 0 ==> exit_code_of(outcome)
            == 0,
{
}

/// How an item settles after its copies ran: an item that had an error
/// fails, whatever its sources; without an error it is skipped exactly when
/// it had no source and some were missing, warned exactly when it had a
/// source and some were missing, and done exactly when none was missing.
/// When the sync was not cancelled, an item with an error settles as failed.
pub proof fn lemma_final_status_priority(
    plan: ItemPlan,
    had_error: bool,
    directories_complete: bool,
    remaining: usize,
)
    ensures
        had_error ==> status_after(plan, had_error) == ItemStatus::Failed,
        !had_error ==> status_after(plan, had_error) != ItemStatus::Failed,
        !had_error ==> ((status_after(plan, had_error) == ItemStatus::Skipped) <==> (!plan.had_source
            && plan.missing_sources > 0)),
        !had_error ==> ((status_after(plan, had_error) == ItemStatus::Warning) <==> (plan.had_source
            && plan.missing_sources > 0)),
        !had_error ==> ((status_after(plan, had_error) == ItemStatus::Done) <==> (plan.missing_sources
            == 0)),
        settled_status(plan, false, directories_complete, remaining, true) == ItemStatus::Failed,
{
}

} // verus!
