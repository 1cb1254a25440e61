use shed::item::{ResolvedEntry, ResolvedItem};
use shed::progress::{
    final_report, format_duration, format_item_report, format_summary, node_count, plural,
    report_row_count, report_rows, section_containing, should_use_inline, spinner, status_symbol,
    truncate, visible_window, Display, ItemView, OwnedEvent, PlainLine, PlainReporter, RenderRow,
    ReportLayout, ReportNode, ReportSection, ViewState,
};
use shed::sync::{Direction, Duration, ItemStatus, Summary};

fn summary() -> Summary {
    Summary {
        direction: Direction::Put,
        total_items: 2,
        completed_items: 2,
        done_items: 2,
        warning_items: 0,
        skipped_items: 0,
        failed_items: 0,
        copied_files: 3,
        planned_files: 3,
        copied_bytes: 1536,
        warnings: 0,
        errors: 0,
        elapsed: Duration::from_millis(200),
        cancelled: false,
        cancelled_during_planning: false,
        scanned_items: 2,
        discovered_files: 3,
    }
}

#[test]
fn mode_selection_requires_a_normal_tty_sync() {
    assert!(should_use_inline(false, false, false, true, true));
    assert!(!should_use_inline(true, false, false, true, true));
    assert!(!should_use_inline(false, true, false, true, true));
    assert!(!should_use_inline(false, false, true, true, true));
    assert!(!should_use_inline(false, false, false, false, true));
    assert!(!should_use_inline(false, false, false, true, false));
}

#[test]
fn formats_completed_item_report() {
    let mut item = ItemView::new("editors/neovim".into());
    item.status = ItemStatus::Done;
    item.total_files = 3;
    item.processed_files = 3;
    item.copied_files = 3;
    item.copied_bytes = 1536;
    assert_eq!(format_item_report(&item, 100), "✓ editors/neovim  3/3 files  1.5 KiB  done");
}

#[test]
fn formats_clean_summary() {
    assert_eq!(format_summary(&summary(), true), "✓ put: 2 items, 3 files, 1.5 KiB in 0.2s");
}

#[test]
fn formats_non_clean_summary_with_item_breakdown() {
    let mut summary = summary();
    summary.done_items = 0;
    summary.warning_items = 1;
    summary.failed_items = 1;
    summary.copied_files = 2;
    summary.planned_files = 3;
    summary.warnings = 1;
    summary.errors = 1;
    assert_eq!(
        format_summary(&summary, true),
        "✗ put: 2 items (0 done, 1 warning, 1 failed), 2/3 files, 1.5 KiB in 0.2s — 1 warning, 1 error"
    );
}

#[test]
fn formats_cancelled_planning_summary() {
    let mut summary = summary();
    summary.cancelled = true;
    summary.cancelled_during_planning = true;
    summary.scanned_items = 1;
    summary.discovered_files = 2;
    assert_eq!(
        format_summary(&summary, false),
        "cancelled put during planning: 1/2 items scanned, 2 files discovered in 0.2s"
    );
}

#[test]
fn visible_window_keeps_current_item_in_view() {
    assert_eq!(visible_window(20, 10, Some(0)), (0, 10));
    assert_eq!(visible_window(20, 10, Some(10)), (5, 15));
    assert_eq!(visible_window(20, 10, Some(19)), (10, 20));
}

fn node(label: &str, origin: &str, depth: usize, children: Vec<usize>, leaf: Option<usize>) -> ReportNode {
    ReportNode {
        label: label.into(),
        origin: origin.into(),
        depth,
        children,
        leaf,
        duplicate_of: None,
    }
}

fn nested_layout() -> ReportLayout {
    ReportLayout {
        sections: vec![ReportSection { heading: Some("nested.yaml".into()), roots: vec![0] }],
        nodes: vec![
            node(
                "$HOME/.config/app → stored/app",
                "nested.yaml:$HOME/.config/app",
                0,
                vec![1, 2],
                None,
            ),
            node("one", "nested.yaml:one", 1, vec![], Some(0)),
            node("two", "nested.yaml:two", 1, vec![], Some(1)),
        ],
        leaf_owners: vec![1, 2],
    }
}

#[test]
fn aggregates_authored_tree_rows() {
    let mut state = ViewState::with_layout(Direction::Put, nested_layout());
    state.items[0].status = ItemStatus::Done;
    state.items[0].total_files = 2;
    state.items[0].copied_files = 2;
    state.items[1].status = ItemStatus::Warning;
    state.items[1].total_files = 1;

    let rows = report_rows(&state);
    assert_eq!(rows.len(), 4);
    let RenderRow::Item { view, .. } = &rows[1] else {
        panic!("expected branch row");
    };
    assert!(view.branch);
    assert_eq!(view.total_items, 2);
    assert_eq!(view.completed_items, 2);
    assert_eq!(view.total_files, 3);
    assert_eq!(view.copied_files, 2);
    assert_eq!(view.status, ItemStatus::Warning);
}

fn duplicate_layout() -> ReportLayout {
    let mut second = node("second", "duplicates.yaml:second", 0, vec![], Some(0));
    second.duplicate_of = Some(0);
    ReportLayout {
        sections: vec![ReportSection { heading: Some("duplicates.yaml".into()), roots: vec![0, 1] }],
        nodes: vec![node("first", "duplicates.yaml:first", 0, vec![], Some(0)), second],
        leaf_owners: vec![0],
    }
}

#[test]
fn duplicate_rows_share_status_without_metrics() {
    let mut state = ViewState::with_layout(Direction::Put, duplicate_layout());
    state.items[0].status = ItemStatus::Done;
    state.items[0].total_files = 3;
    state.items[0].copied_files = 3;

    let rows = report_rows(&state);
    let RenderRow::Item { view, .. } = &rows[2] else {
        panic!("expected duplicate row");
    };
    assert!(view.duplicate);
    assert_eq!(view.status, ItemStatus::Done);
    assert_eq!(view.total_files, 0);
    assert!(view.name.contains("duplicate → duplicates.yaml:first"));
}

#[test]
fn counts_rows_with_headings() {
    let layout = nested_layout();
    assert_eq!(report_row_count(&layout), 4);
    assert_eq!(node_count(&layout, 0), 3);
    assert_eq!(node_count(&layout, 2), 1);
    assert_eq!(report_row_count(&duplicate_layout()), 3);
}

#[test]
fn finds_the_section_of_a_node() {
    let layout = nested_layout();
    assert_eq!(section_containing(&layout, 2), Some(0));
    assert_eq!(section_containing(&layout, 7), None);
}

#[test]
fn truncates_with_an_ellipsis() {
    assert_eq!(truncate("editors/neovim", 20), "editors/neovim");
    assert_eq!(truncate("editors/neovim", 5), "edit…");
    assert_eq!(truncate("editors/neovim", 1), "…");
    assert_eq!(truncate("editors/neovim", 0), "");
    assert_eq!(truncate("äöü", 2), "ä…");
}

#[test]
fn narrow_item_reports_drop_bytes() {
    let mut item = ItemView::new("dots".into());
    item.status = ItemStatus::Copying;
    item.total_files = 4;
    item.copied_files = 2;
    item.copied_bytes = 2048;
    assert_eq!(format_item_report(&item, 40), "› dots  2/4  copying");
    assert_eq!(format_item_report(&item, 12), "› …  2/4  copying");
    assert_eq!(format_item_report(&item, 18), "› d…  2/4  copying");
}

#[test]
fn branch_and_duplicate_reports() {
    let mut branch = ItemView::new("tree".into());
    branch.branch = true;
    branch.status = ItemStatus::Failed;
    branch.total_items = 3;
    branch.completed_items = 1;
    branch.total_files = 5;
    branch.copied_files = 4;
    branch.copied_bytes = 10 * 1024 * 1024;
    assert_eq!(format_item_report(&branch, 100), "✗ tree  1/3 items  4/5 files  10 MiB  failed");
    let mut duplicate = ItemView::new("copy".into());
    duplicate.duplicate = true;
    duplicate.status = ItemStatus::Skipped;
    assert_eq!(format_item_report(&duplicate, 100), "⚠ copy  skipped");
}

#[test]
fn symbols_and_spinner_frames() {
    assert_eq!(status_symbol(ItemStatus::Pending, 0), "·");
    assert_eq!(status_symbol(ItemStatus::Done, 0), "✓");
    assert_eq!(status_symbol(ItemStatus::Cancelled, 0), "⨯");
    assert_eq!(status_symbol(ItemStatus::Scanning, 3), "⠸");
    assert_eq!(spinner(10), "⠋");
    assert_eq!(spinner(19), "⠏");
}

#[test]
fn durations_and_plurals() {
    assert_eq!(format_duration(Duration::new(12, 900_000_000)), "12s");
    assert_eq!(format_duration(Duration::from_millis(1260)), "1.3s");
    assert_eq!(plural(1, "item", "items"), "item");
    assert_eq!(plural(0, "item", "items"), "items");
}

#[test]
fn clean_summary_uses_singular_words() {
    let mut summary = summary();
    summary.total_items = 1;
    summary.copied_files = 1;
    summary.copied_bytes = 5;
    summary.elapsed = Duration::new(30, 0);
    assert_eq!(format_summary(&summary, false), "ok: put: 1 item, 1 file, 5 B in 30s");
}

#[test]
fn cancelled_summary_reports_progress() {
    let mut summary = summary();
    summary.cancelled = true;
    summary.completed_items = 1;
    summary.copied_files = 1;
    summary.warnings = 2;
    assert_eq!(
        format_summary(&summary, true),
        "⨯ cancelled put: 1/2 items, 1/3 files, 1.5 KiB in 0.2s — 2 warnings, 0 errors"
    );
}

#[test]
fn view_state_names_items_and_sizes_the_name_column() {
    let state = ViewState::new(Direction::Get, vec!["a".into(), "editors/neovim".into()]);
    assert_eq!(state.items.len(), 2);
    assert_eq!(state.items[1].name, "item-1");
    assert_eq!(state.items[0].status, ItemStatus::Pending);
    assert_eq!(state.name_width, 14);
    let wide = ViewState::with_layout(Direction::Put, nested_layout());
    assert_eq!(wide.name_width, 30);
    let empty = ViewState::new(Direction::Put, Vec::new());
    assert_eq!(empty.name_width, 10);
}

#[test]
fn events_drive_the_view_state() {
    let mut state = ViewState::new(Direction::Put, vec!["one".into(), "two".into()]);
    assert_eq!(state.apply(&OwnedEvent::ScanStarted { item: 0 }), Display::Redraw { force: true });
    assert_eq!(state.items[0].status, ItemStatus::Scanning);
    assert_eq!(state.current, Some(0));
    let path = OwnedEvent::ScanPath { item: 0, logical_path: "x.txt".into() };
    assert_eq!(state.apply(&path), Display::Redraw { force: false });
    assert_eq!(state.items[0].current_path, "x.txt");
    assert_eq!(state.spinner, 1);
    state.apply(&OwnedEvent::ScanStarted { item: 1 });
    state.apply(&OwnedEvent::ScanFinished { item: 1, total_files: 2 });
    assert_eq!(state.items[1].status, ItemStatus::Ready);
    assert_eq!(state.current, Some(0));
    let warning = OwnedEvent::Warning { item: Some(0), message: "source not found".into() };
    assert_eq!(
        state.apply(&warning),
        Display::Diagnostic { line: "  warning: source not found".into(), status: ItemStatus::Warning }
    );
    assert_eq!(state.items[0].status, ItemStatus::Scanning);
    state.apply(&OwnedEvent::ScanFinished { item: 0, total_files: 1 });
    assert_eq!(state.items[0].status, ItemStatus::Warning);
    assert_eq!(state.items[0].current_path, "");
    assert_eq!(state.current, None);
    assert_eq!(state.scanned_items, 2);
    state.apply(&OwnedEvent::PlanFinished { total_files: 3 });
    assert!(state.plan_complete);
    state.apply(&OwnedEvent::ItemStarted { item: 1 });
    state.apply(&OwnedEvent::FileFinished { item: 1, copied: true, bytes: 10 });
    state.apply(&OwnedEvent::FileFinished { item: 1, copied: false, bytes: 99 });
    assert_eq!(state.processed_files, 2);
    assert_eq!(state.copied_files, 1);
    assert_eq!(state.copied_bytes, 10);
    assert_eq!(state.items[1].copied_bytes, 10);
    assert_eq!(state.items[1].processed_files, 2);
    let error = OwnedEvent::Error { item: Some(1), message: "boom".into() };
    assert_eq!(
        state.apply(&error),
        Display::Diagnostic { line: "  error: boom".into(), status: ItemStatus::Failed }
    );
    assert_eq!(state.items[1].status, ItemStatus::Failed);
    let mut cancelled = summary();
    cancelled.cancelled = true;
    state.apply(&OwnedEvent::ItemStarted { item: 0 });
    assert_eq!(state.apply(&OwnedEvent::Finish(cancelled)), Display::Finish);
    assert_eq!(state.items[0].status, ItemStatus::Cancelled);
    assert_eq!(state.items[1].status, ItemStatus::Failed);
}

#[test]
fn finished_item_moves_current_to_the_next_copying_item() {
    let mut state = ViewState::new(Direction::Put, vec!["one".into(), "two".into()]);
    state.apply(&OwnedEvent::ItemStarted { item: 0 });
    state.apply(&OwnedEvent::ItemStarted { item: 1 });
    state.apply(&OwnedEvent::ItemFinished { item: 1, status: ItemStatus::Done });
    assert_eq!(state.current, Some(0));
    state.apply(&OwnedEvent::ItemFinished { item: 0, status: ItemStatus::Done });
    assert_eq!(state.current, None);
}

#[test]
fn event_counts_that_would_overflow_are_refused() {
    let mut state = ViewState::new(Direction::Put, vec!["one".into()]);
    state.copied_bytes = u64::MAX;
    assert!(!state.event_fits(&OwnedEvent::FileFinished { item: 0, copied: true, bytes: 1 }));
    assert!(state.event_fits(&OwnedEvent::FileFinished { item: 0, copied: false, bytes: 1 }));
}

#[test]
fn final_report_lists_rows_then_summary() {
    let mut state = ViewState::with_layout(Direction::Put, duplicate_layout());
    state.items[0].status = ItemStatus::Done;
    let lines = final_report(&state, &summary(), 100);
    assert_eq!(lines.len(), 4);
    assert_eq!(lines[0], "duplicates.yaml");
    assert!(lines[1].starts_with("✓ first  0/0 files  0 B  done"));
    assert!(lines[2].contains("duplicate → duplicates.yaml:first"));
    assert_eq!(lines[3], "✓ put: 2 items, 3 files, 1.5 KiB in 0.2s");
}

fn items(names: &[&str]) -> Vec<ResolvedItem> {
    names
        .iter()
        .map(|name| ResolvedItem {
            name: name.to_string(),
            shed_base: format!("/shed/{name}"),
            entries: vec![ResolvedEntry { system: "/s".into(), shed: "/shed/x".into() }],
        })
        .collect()
}

#[test]
fn flat_layout_has_one_row_per_item() {
    let layout = ReportLayout::flat(&items(&["a", "b"]));
    assert_eq!(layout.sections.len(), 1);
    assert_eq!(layout.sections[0].roots, vec![0, 1]);
    assert_eq!(layout.leaf_owners, vec![0, 1]);
    assert_eq!(layout.leaf_label(1), Some(("b".to_string(), 0)));
    assert_eq!(layout.leaf_label(2), None);
    assert_eq!(report_row_count(&layout), 2);
}

#[test]
fn plain_reporter_prints_each_heading_once() {
    let mut reporter = PlainReporter::new(nested_layout(), true);
    let first = reporter.report(&OwnedEvent::ItemStarted { item: 0 });
    assert_eq!(
        first,
        vec![PlainLine::Stdout("nested.yaml".into()), PlainLine::Stdout("  syncing: one".into())]
    );
    let second = reporter.report(&OwnedEvent::ItemStarted { item: 1 });
    assert_eq!(second, vec![PlainLine::Stdout("  syncing: two".into())]);
    let copy = reporter.report(&OwnedEvent::FileStarted {
        item: 1,
        logical_path: "x".into(),
        src: "/a".into(),
        dst: "/b".into(),
    });
    assert_eq!(copy, vec![PlainLine::Copy { src: "/a".into(), dst: "/b".into() }]);
    let warning = reporter.report(&OwnedEvent::Warning { item: None, message: "careful".into() });
    assert_eq!(warning, vec![PlainLine::Stderr("  warning: careful".into())]);
    assert!(reporter.report(&OwnedEvent::Finish(summary())).is_empty());
    let mut cancelled = summary();
    cancelled.cancelled = true;
    assert_eq!(reporter.report(&OwnedEvent::Finish(cancelled)).len(), 1);
}

#[test]
fn quiet_plain_reporter_prints_only_diagnostics() {
    let mut reporter = PlainReporter::new(nested_layout(), false);
    assert!(reporter.report(&OwnedEvent::ItemStarted { item: 0 }).is_empty());
    assert_eq!(
        reporter.report(&OwnedEvent::Error { item: Some(0), message: "bad".into() }),
        vec![PlainLine::Stderr("  error: bad".into())]
    );
}
