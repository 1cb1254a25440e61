use shed::progress::{
    counts_fit_check, current_row, hidden_line, inline_display_fits, layout_is_wf,
    narrow_overall_line, overall_files_line,
    narrow_row_line, report_row_count, report_rows, row_counts, rows_fit_check, scanning_line,
    summary_status, viewport_height, visible_rows, ItemView, OwnedEvent, ReportLayout, ReportNode,
    ReportSection, ViewState,
};
use shed::sync::{Direction, Duration, ItemStatus, Summary};

fn node(label: &str, depth: usize, children: Vec<usize>, leaf: Option<usize>) -> ReportNode {
    ReportNode {
        label: label.into(),
        origin: format!("m.yaml:{label}"),
        depth,
        children,
        leaf,
        duplicate_of: None,
    }
}

fn tree() -> ReportLayout {
    ReportLayout {
        sections: vec![ReportSection { heading: Some("m.yaml".into()), roots: vec![0, 3] }],
        nodes: vec![
            node("dir", 0, vec![1, 2], None),
            node("a", 1, vec![], Some(0)),
            node("b", 1, vec![], Some(1)),
            node("c", 0, vec![], Some(2)),
        ],
        leaf_owners: vec![1, 2, 3],
    }
}

#[test]
fn checks_layouts_and_counts() {
    let layout = tree();
    assert!(layout_is_wf(&layout));
    assert!(counts_fit_check(&layout));
    let mut broken = tree();
    broken.nodes[1].children = vec![0];
    assert!(!layout_is_wf(&broken));
    let mut dangling = tree();
    dangling.leaf_owners.push(9);
    assert!(!layout_is_wf(&dangling));
}

#[test]
fn row_count_matches_the_rows() {
    let state = ViewState::with_layout(Direction::Put, tree());
    assert!(rows_fit_check(&state));
    assert_eq!(report_rows(&state).len(), report_row_count(&state.layout));
    assert_eq!(report_row_count(&state.layout), 5);
}

#[test]
fn overflowing_aggregates_are_detected() {
    let mut state = ViewState::with_layout(Direction::Put, tree());
    state.items[0].copied_bytes = u64::MAX;
    state.items[1].copied_bytes = 1;
    assert!(!rows_fit_check(&state));
    state.items[1].copied_bytes = 0;
    assert!(rows_fit_check(&state));
    state.items[2].copied_bytes = u64::MAX;
    assert!(rows_fit_check(&state));
}

#[test]
fn the_current_item_maps_to_its_row() {
    let mut state = ViewState::with_layout(Direction::Put, tree());
    let rows = report_rows(&state);
    assert_eq!(current_row(&state, &rows), None);
    state.apply(&OwnedEvent::ItemStarted { item: 1 });
    assert_eq!(current_row(&state, &rows), Some(3));
    state.apply(&OwnedEvent::ItemStarted { item: 2 });
    assert_eq!(current_row(&state, &rows), Some(4));
}

#[test]
fn sizes_the_inline_display() {
    assert!(inline_display_fits(30, 2));
    assert!(!inline_display_fits(29, 20));
    assert!(!inline_display_fits(80, 1));
    assert_eq!(viewport_height(0, 40), 2);
    assert_eq!(viewport_height(3, 40), 4);
    assert_eq!(viewport_height(50, 40), 11);
    assert_eq!(viewport_height(50, 5), 5);
    assert_eq!(visible_rows(0), 0);
    assert_eq!(visible_rows(4), 3);
    assert_eq!(visible_rows(40), 10);
}

#[test]
fn live_display_texts() {
    let mut state = ViewState::new(Direction::Get, vec!["a".into(), "b".into()]);
    state.apply(&OwnedEvent::ScanStarted { item: 0 });
    state.apply(&OwnedEvent::ScanFinished { item: 0, total_files: 2 });
    assert_eq!(scanning_line(&state, 0), "⠋ get scanning 1/2 items");
    assert_eq!(scanning_line(&state, 7), "⠋ get scanning 1/2 items · 7 hidden");
    state.apply(&OwnedEvent::PlanFinished { total_files: 4 });
    state.apply(&OwnedEvent::FileFinished { item: 0, copied: true, bytes: 2048 });
    assert_eq!(narrow_overall_line(&state), "get 1/4 files 2.0 KiB");
    assert_eq!(overall_files_line(&state), "1/4 files");
    assert_eq!(hidden_line(12), "12 hidden");
}

#[test]
fn narrow_rows_fit_their_width() {
    let mut item = ItemView::new("editors/neovim".into());
    item.status = ItemStatus::Copying;
    item.total_files = 4;
    item.copied_files = 2;
    assert_eq!(row_counts(&item), "2/4");
    assert_eq!(narrow_row_line(&item, 40, 0), "› editors/neovim 2/4 copying");
    assert_eq!(narrow_row_line(&item, 20, 0), "› edit… 2/4 copying");
    let mut branch = ItemView::new("tree".into());
    branch.branch = true;
    branch.total_items = 2;
    branch.completed_items = 1;
    branch.total_files = 3;
    branch.copied_files = 1;
    assert_eq!(row_counts(&branch), "1/2 items · 1/3 files");
    let mut duplicate = ItemView::new("again".into());
    duplicate.duplicate = true;
    assert_eq!(row_counts(&duplicate), "duplicate");
}

#[test]
fn summary_styles_follow_the_outcome() {
    let mut summary = Summary {
        direction: Direction::Put,
        total_items: 1,
        completed_items: 1,
        done_items: 1,
        warning_items: 0,
        skipped_items: 0,
        failed_items: 0,
        copied_files: 1,
        planned_files: 1,
        copied_bytes: 1,
        warnings: 0,
        errors: 0,
        elapsed: Duration::from_millis(1),
        cancelled: false,
        cancelled_during_planning: false,
        scanned_items: 1,
        discovered_files: 1,
    };
    assert_eq!(summary_status(&summary), ItemStatus::Done);
    summary.warnings = 1;
    assert_eq!(summary_status(&summary), ItemStatus::Warning);
    summary.cancelled = true;
    assert_eq!(summary_status(&summary), ItemStatus::Failed);
}
