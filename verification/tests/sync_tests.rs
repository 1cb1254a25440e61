use shed::item::{ResolvedEntry, ResolvedItem};
use shed::sync::{
    copy_action, copy_groups, copy_result, count_status, endpoints, final_status, is_blocked,
    logical_path, make_summary, outcome_from, record_copy, settle_items, CopyAction, Counters,
    Direction, DirectoryAction, DirectoryPass, Duration, ItemPlan, ItemScanner, ItemStatus,
    Outcome, PlanResult, PlannedOperation, Planning, SyncPlan,
};
use shed::sync::{planned_summary, planning_cancelled_summary};

#[test]
fn cancellation_exit_code_takes_precedence() {
    let outcome = Outcome { warnings: 1, errors: 1, cancelled: true };
    assert_eq!(outcome.exit_code(), 130);
}

#[test]
fn clean_warning_and_error_exit_codes_are_distinct() {
    assert_eq!(Outcome { warnings: 0, errors: 0, cancelled: false }.exit_code(), 0);
    assert_eq!(Outcome { warnings: 1, errors: 0, cancelled: false }.exit_code(), 1);
    assert_eq!(Outcome { warnings: 0, errors: 1, cancelled: false }.exit_code(), 2);
}

#[test]
fn labels() {
    assert_eq!(Direction::Put.label(), "put");
    assert_eq!(Direction::Get.label(), "get");
    assert_eq!(ItemStatus::Cancelled.label(), "cancelled");
    assert_eq!(ItemStatus::default(), ItemStatus::Pending);
}

fn item() -> ResolvedItem {
    ResolvedItem {
        name: "item".into(),
        shed_base: "/shed/item".into(),
        entries: vec![ResolvedEntry { system: "/home/u/.rc".into(), shed: "/shed/item/rc".into() }],
    }
}

#[test]
fn endpoints_follow_the_direction() {
    let entry = &item().entries[0];
    let (src, dst) = endpoints(entry, Direction::Put);
    assert_eq!((src.as_str(), dst.as_str()), ("/home/u/.rc", "/shed/item/rc"));
    let (src, dst) = endpoints(entry, Direction::Get);
    assert_eq!((src.as_str(), dst.as_str()), ("/shed/item/rc", "/home/u/.rc"));
}

#[test]
fn logical_paths_are_relative_to_the_storage_directory() {
    let item = item();
    assert_eq!(logical_path(&item, "/shed/item/config/a.txt"), "config/a.txt");
    assert_eq!(logical_path(&item, "/shed/item"), ".");
    assert_eq!(logical_path(&item, "/elsewhere/b"), "/elsewhere/b");
}

#[test]
fn blocked_paths_lie_under_a_failed_directory() {
    let failed = vec!["/tmp/blocker/target".to_string()];
    assert!(is_blocked("/tmp/blocker/target/one.txt", &failed));
    assert!(is_blocked("/tmp/blocker/target", &failed));
    assert!(!is_blocked("/tmp/blocker/targets", &failed));
    assert!(!is_blocked("/tmp/other", &Vec::new()));
}

fn plan(missing: usize, had_source: bool) -> ItemPlan {
    ItemPlan { operations: Vec::new(), missing_sources: missing, had_source, had_error: false }
}

#[test]
fn final_status_orders_failure_skip_and_warning() {
    assert_eq!(final_status(&plan(0, true), true), ItemStatus::Failed);
    assert_eq!(final_status(&plan(1, false), false), ItemStatus::Skipped);
    assert_eq!(final_status(&plan(1, true), false), ItemStatus::Warning);
    assert_eq!(final_status(&plan(0, true), false), ItemStatus::Done);
    assert_eq!(final_status(&plan(0, false), false), ItemStatus::Done);
}

#[test]
fn summary_counts_item_states() {
    let mut counters = Counters::new(5);
    counters.statuses = vec![
        ItemStatus::Done,
        ItemStatus::Warning,
        ItemStatus::Failed,
        ItemStatus::Cancelled,
        ItemStatus::Done,
    ];
    counters.copied_files = 7;
    counters.warnings = 1;
    let summary =
        make_summary(Direction::Get, 5, &counters, 9, Duration::from_millis(5), false, false, 5, 9);
    assert_eq!(summary.completed_items, 4);
    assert_eq!(summary.done_items, 2);
    assert_eq!(summary.warning_items, 1);
    assert_eq!(summary.failed_items, 1);
    assert_eq!(summary.skipped_items, 0);
    assert_eq!(summary.copied_files, 7);
    assert_eq!(summary.planned_files, 9);
    let outcome = outcome_from(&summary);
    assert_eq!((outcome.warnings, outcome.errors, outcome.cancelled), (1, 0, false));
    assert_eq!(outcome.exit_code(), 1);
    assert_eq!(count_status(&counters.statuses, ItemStatus::Done), 2);
}

#[test]
fn scanning_a_file_source_plans_its_parent_and_the_copy() {
    let item = item();
    let mut scanner = ItemScanner::new(0);
    let shown = scanner.file_source(&item, "/home/u/.rc", "/shed/item/dir/rc");
    assert_eq!(shown, "dir/rc");
    scanner.source_missing();
    let scan = scanner.finish(true);
    assert!(scan.complete);
    assert_eq!(scan.discovered_files, 1);
    assert_eq!(scan.warnings, 1);
    assert_eq!(scan.plan.missing_sources, 1);
    assert!(scan.plan.had_source);
    assert_eq!(scan.plan.operations.len(), 2);
    assert!(matches!(&scan.plan.operations[0], PlannedOperation::CreateDir { dst } if dst == "/shed/item/dir"));
    assert!(matches!(
        &scan.plan.operations[1],
        PlannedOperation::CopyFile { src, dst, logical_path }
            if src == "/home/u/.rc" && dst == "/shed/item/dir/rc" && logical_path == "dir/rc"
    ));
}

#[test]
fn scanning_a_directory_source_maps_walked_paths() {
    let item = item();
    let mut scanner = ItemScanner::new(3);
    assert_eq!(scanner.directory_source(&item, "/shed/item/cfg"), "cfg");
    assert_eq!(scanner.walked(&item, "/src", "/shed/item/cfg", "/src/nested", true), "cfg/nested");
    assert_eq!(
        scanner.walked(&item, "/src", "/shed/item/cfg", "/src/nested/a.txt", false),
        "cfg/nested/a.txt"
    );
    scanner.walk_failed();
    let scan = scanner.finish(false);
    assert!(!scan.complete);
    assert_eq!(scan.item, 3);
    assert_eq!(scan.errors, 1);
    assert!(scan.plan.had_error);
    assert_eq!(scan.discovered_files, 1);
    assert_eq!(scan.plan.operations.len(), 3);
    assert!(matches!(&scan.plan.operations[1], PlannedOperation::CreateDir { dst } if dst == "/shed/item/cfg/nested"));
}

#[test]
fn planning_gathers_scans_or_reports_cancellation() {
    let mut counters = Counters::new(2);
    let mut planning = Planning::new(2);
    let mut first = ItemScanner::new(1);
    first.source_unreadable();
    planning.record(&mut counters, first.finish(true));
    let mut second = ItemScanner::new(0);
    second.file_source(&item(), "/a", "/shed/item/a");
    planning.record(&mut counters, second.finish(true));
    assert_eq!(counters.errors, 1);
    assert_eq!(counters.statuses, vec![ItemStatus::Ready, ItemStatus::Ready]);
    match planning.finish() {
        PlanResult::Complete(plan) => {
            assert_eq!(plan.items.len(), 2);
            assert_eq!(plan.total_files, 1);
            assert!(plan.items[1].had_error);
        }
        PlanResult::Cancelled { .. } => panic!("every scan completed"),
    }

    let mut counters = Counters::new(2);
    let mut planning = Planning::new(2);
    planning.record(&mut counters, ItemScanner::new(0).finish(true));
    planning.record(&mut counters, ItemScanner::new(1).finish(false));
    assert!(matches!(
        planning.finish(),
        PlanResult::Cancelled { scanned_items: 1, discovered_files: 0 }
    ));
}

fn copy(src: &str, dst: &str) -> PlannedOperation {
    PlannedOperation::CopyFile { src: src.into(), dst: dst.into(), logical_path: dst.into() }
}

#[test]
fn copies_are_grouped_by_destination_in_order() {
    let plan = SyncPlan {
        items: vec![
            ItemPlan {
                operations: vec![
                    PlannedOperation::CreateDir { dst: "/d".into() },
                    copy("/s1", "/d/a"),
                    copy("/s2", "/d/b"),
                ],
                missing_sources: 0,
                had_source: true,
                had_error: false,
            },
            ItemPlan {
                operations: vec![copy("/s3", "/d/a")],
                missing_sources: 0,
                had_source: true,
                had_error: false,
            },
        ],
        total_files: 3,
    };
    let copies = copy_groups(&plan);
    assert_eq!(copies.remaining, vec![2, 1]);
    assert_eq!(copies.groups.len(), 2);
    assert_eq!(copies.groups[0].len(), 2);
    assert_eq!(copies.groups[0][0].src, "/s1");
    assert_eq!(copies.groups[0][1].src, "/s3");
    assert_eq!(copies.groups[0][1].item, 1);
    assert_eq!(copies.groups[1][0].dst, "/d/b");
}

#[test]
fn directories_are_created_once_and_failures_block_descendants() {
    let plan = SyncPlan {
        items: vec![plan(0, true), ItemPlan { had_error: true, ..plan(0, true) }],
        total_files: 0,
    };
    let mut counters = Counters::new(2);
    let mut pass = DirectoryPass::new(&plan);
    assert_eq!(pass.item_had_error, vec![false, true]);
    let dir = "/out/dir".to_string();
    assert_eq!(pass.directory_action(0, &dir, false), DirectoryAction::Create);
    assert_eq!(pass.directory_action(1, &dir, false), DirectoryAction::Skip);
    assert_eq!(pass.directory_action(0, &"/out/dry".to_string(), true), DirectoryAction::Skip);
    pass.directory_failed(&mut counters, 0, "/blocked".to_string());
    assert_eq!(counters.errors, 1);
    assert_eq!(pass.directory_action(1, &"/blocked/inner".to_string(), false), DirectoryAction::Blocked);
    assert_eq!(pass.item_had_error, vec![true, true]);
    pass.directories_done(1);
    assert_eq!(pass.complete, vec![false, true]);

    assert_eq!(copy_action("/blocked/inner/file", &pass.failed, false), CopyAction::Blocked);
    assert_eq!(copy_action("/free/file", &pass.failed, true), CopyAction::Pretend);
    assert_eq!(copy_action("/free/file", &pass.failed, false), CopyAction::Copy);
    let blocked = copy_result(1, CopyAction::Blocked, None);
    assert!(!blocked.copied && !blocked.error);
    let failed = copy_result(1, CopyAction::Copy, None);
    assert!(!failed.copied && failed.error);
    let copied = copy_result(1, CopyAction::Copy, Some(42));
    assert!(copied.copied && copied.bytes == 42);
    let pretend = copy_result(0, CopyAction::Pretend, Some(42));
    assert!(pretend.copied && pretend.bytes == 0);
}

#[test]
fn copies_are_counted_and_items_settled() {
    let plan = SyncPlan {
        items: vec![plan(0, true), plan(1, true), plan(0, true)],
        total_files: 3,
    };
    let mut counters = Counters::new(3);
    counters.start_items();
    assert_eq!(counters.statuses, vec![ItemStatus::Copying; 3]);
    let mut remaining = vec![1, 1, 1];
    let mut had_error = vec![false, false, false];
    record_copy(&mut counters, &mut remaining, &mut had_error, copy_result(0, CopyAction::Copy, Some(5)));
    record_copy(&mut counters, &mut remaining, &mut had_error, copy_result(1, CopyAction::Copy, None));
    assert_eq!(counters.processed_files, 2);
    assert_eq!(counters.copied_files, 1);
    assert_eq!(counters.copied_bytes, 5);
    assert_eq!(counters.errors, 1);
    assert_eq!(remaining, vec![0, 0, 1]);
    let statuses = settle_items(&mut counters, &plan, true, &vec![true, true, true], &remaining, &had_error);
    assert_eq!(statuses, vec![ItemStatus::Done, ItemStatus::Failed, ItemStatus::Cancelled]);
    assert_eq!(counters.statuses, statuses);
    let calm = settle_items(&mut counters, &plan, false, &vec![false, true, true], &remaining, &had_error);
    assert_eq!(calm, vec![ItemStatus::Done, ItemStatus::Failed, ItemStatus::Done]);
}

#[test]
fn destinations_are_compared_component_by_component() {
    let copies_plan = SyncPlan {
        items: vec![ItemPlan {
            operations: vec![copy("/s1", "/d/x//a"), copy("/s2", "/d/x/a"), copy("/s3", "/d/x/a/")],
            missing_sources: 0,
            had_source: true,
            had_error: false,
        }],
        total_files: 3,
    };
    let copies = copy_groups(&copies_plan);
    assert_eq!(copies.remaining, vec![3]);
    assert_eq!(copies.groups.len(), 1);
    assert_eq!(copies.groups[0].len(), 3);

    let dirs_plan = SyncPlan { items: vec![plan(0, true)], total_files: 0 };
    let mut pass = DirectoryPass::new(&dirs_plan);
    assert_eq!(pass.directory_action(0, &"/out/dir".to_string(), false), DirectoryAction::Create);
    assert_eq!(pass.directory_action(0, &"/out//dir/".to_string(), false), DirectoryAction::Skip);
    assert_eq!(pass.directory_action(0, &"/out/other".to_string(), false), DirectoryAction::Create);
}

#[test]
fn scan_counts_stay_consistent() {
    let item = item();
    let mut scanner = ItemScanner::new(0);
    scanner.file_source(&item, "/a", "/shed/item/a");
    scanner.directory_source(&item, "/shed/item/cfg");
    scanner.walked(&item, "/src", "/shed/item/cfg", "/src/f", false);
    scanner.walked(&item, "/src", "/shed/item/cfg", "/src/d", true);
    scanner.source_missing();
    scanner.source_unreadable();
    let copies = scanner
        .operations
        .iter()
        .filter(|operation| matches!(operation, PlannedOperation::CopyFile { .. }))
        .count();
    assert_eq!(scanner.total_files, copies);
    assert_eq!(scanner.total_files, 2);
    assert_eq!(scanner.warnings, scanner.missing_sources);
    assert_eq!(scanner.had_error, scanner.errors > 0);
}

#[test]
fn summaries_at_each_point_of_a_sync() {
    let counters = Counters::new(3);
    let early = planning_cancelled_summary(Direction::Put, 3, &counters, Duration::new(1, 0), 2, 5);
    assert!(early.cancelled && early.cancelled_during_planning);
    assert_eq!((early.planned_files, early.scanned_items, early.discovered_files), (0, 2, 5));
    let late = planned_summary(Direction::Get, 3, &counters, 7, Duration::new(1, 0), false);
    assert!(!late.cancelled && !late.cancelled_during_planning);
    assert_eq!((late.planned_files, late.scanned_items, late.discovered_files), (7, 3, 7));
}
