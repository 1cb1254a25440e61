//! Runs the sync decisions end to end over a file system held in memory.

use shed::item::{ResolvedEntry, ResolvedItem};
use shed::sync::{
    copy_action, copy_groups, copy_result, endpoints, make_summary, outcome_from, record_copy,
    settle_items, CopyAction, CopyPlan, Counters, Direction, DirectoryAction, DirectoryPass,
    Duration, ItemScanner, ItemStatus, PlanResult, PlannedOperation, Planning, Summary,
};

/// A source: a file, a directory with the files under it, or nothing.
enum Source {
    File,
    Dir(Vec<&'static str>),
    Missing,
}

struct World {
    sources: Vec<(&'static str, Source)>,
    unwritable: Vec<&'static str>,
}

impl World {
    fn source(&self, path: &str) -> &Source {
        self.sources
            .iter()
            .find(|(p, _)| *p == path)
            .map(|(_, s)| s)
            .unwrap_or(&Source::Missing)
    }
}

fn sync(world: &World, items: &[ResolvedItem], direction: Direction, dry: bool) -> (Summary, Vec<ItemStatus>) {
    let mut counters = Counters::new(items.len());
    let mut planning = Planning::new(items.len());
    for (index, item) in items.iter().enumerate() {
        let mut scanner = ItemScanner::new(index);
        for entry in &item.entries {
            let (src, dst) = endpoints(entry, direction);
            match world.source(src) {
                Source::Missing => scanner.source_missing(),
                Source::File => {
                    scanner.file_source(item, src, dst);
                }
                Source::Dir(files) => {
                    scanner.directory_source(item, dst);
                    for file in files {
                        let path = format!("{src}/{file}");
                        scanner.walked(item, src, dst, &path, false);
                    }
                }
            }
        }
        planning.record(&mut counters, scanner.finish(true));
    }
    let plan = match planning.finish() {
        PlanResult::Complete(plan) => plan,
        PlanResult::Cancelled { .. } => panic!("nothing was cancelled"),
    };
    counters.start_items();
    let mut pass = DirectoryPass::new(&plan);
    for (item, item_plan) in plan.items.iter().enumerate() {
        for operation in &item_plan.operations {
            if let PlannedOperation::CreateDir { dst } = operation {
                if pass.directory_action(item, dst, dry) == DirectoryAction::Create
                    && world.unwritable.iter().any(|u| dst.starts_with(u))
                {
                    pass.directory_failed(&mut counters, item, dst.clone());
                }
            }
        }
        pass.directories_done(item);
    }
    let CopyPlan { groups, mut remaining } = copy_groups(&plan);
    let mut had_error = pass.item_had_error.clone();
    for group in groups {
        for work in group {
            let action = copy_action(&work.dst, &pass.failed, dry);
            let copied = if action == CopyAction::Copy { Some(7) } else { None };
            record_copy(&mut counters, &mut remaining, &mut had_error, copy_result(work.item, action, copied));
        }
    }
    let statuses = settle_items(&mut counters, &plan, false, &pass.complete, &remaining, &had_error);
    let summary = make_summary(
        direction,
        items.len(),
        &counters,
        plan.total_files,
        Duration::from_millis(0),
        false,
        false,
        items.len(),
        plan.total_files,
    );
    (summary, statuses)
}

fn item(entries: Vec<(&str, &str)>) -> ResolvedItem {
    ResolvedItem {
        name: "item".into(),
        shed_base: "/shed/item".into(),
        entries: entries
            .into_iter()
            .map(|(system, shed)| ResolvedEntry { system: system.into(), shed: shed.into() })
            .collect(),
    }
}

#[test]
fn copies_a_file_and_finishes_clean() {
    let world = World { sources: vec![("/src/a.txt", Source::File)], unwritable: vec![] };
    let (summary, statuses) = sync(&world, &[item(vec![("/src/a.txt", "/shed/item/a.txt")])], Direction::Put, false);
    assert_eq!(statuses, vec![ItemStatus::Done]);
    assert_eq!((summary.copied_files, summary.planned_files, summary.done_items), (1, 1, 1));
    assert_eq!(summary.copied_bytes, 7);
    assert_eq!(outcome_from(&summary).exit_code(), 0);
}

#[test]
fn a_missing_source_is_a_warning_and_skips_its_item() {
    let world = World { sources: vec![], unwritable: vec![] };
    let (summary, statuses) = sync(&world, &[item(vec![("/src/absent.txt", "/shed/item/x")])], Direction::Put, false);
    assert_eq!(statuses, vec![ItemStatus::Skipped]);
    assert_eq!((summary.warnings, summary.errors), (1, 0));
    assert_eq!(outcome_from(&summary).exit_code(), 1);
}

#[test]
fn a_dry_run_counts_copies_without_bytes() {
    let world = World { sources: vec![("/src/a.txt", Source::File)], unwritable: vec![] };
    let (summary, _) = sync(&world, &[item(vec![("/src/a.txt", "/shed/item/a.txt")])], Direction::Put, true);
    assert_eq!(summary.copied_files, 1);
    assert_eq!(summary.copied_bytes, 0);
}

#[test]
fn get_reads_from_the_shed() {
    let world = World { sources: vec![("/shed/item/stored.txt", Source::File)], unwritable: vec![] };
    let (summary, statuses) =
        sync(&world, &[item(vec![("/system/loaded.txt", "/shed/item/stored.txt")])], Direction::Get, false);
    assert_eq!(statuses, vec![ItemStatus::Done]);
    assert_eq!(summary.copied_files, 1);
}

#[test]
fn a_directory_failure_blocks_its_files_with_one_error() {
    let world = World {
        sources: vec![("/src", Source::Dir(vec!["one.txt", "two.txt"]))],
        unwritable: vec!["/blocker"],
    };
    let (summary, statuses) = sync(&world, &[item(vec![("/src", "/blocker/target")])], Direction::Put, false);
    assert_eq!(summary.errors, 1);
    assert_eq!(summary.copied_files, 0);
    assert_eq!(statuses, vec![ItemStatus::Failed]);
    assert_eq!(outcome_from(&summary).exit_code(), 2);
}

#[test]
fn cancellation_before_planning_reports_the_scans_so_far() {
    let mut counters = Counters::new(1);
    let mut planning = Planning::new(1);
    planning.record(&mut counters, ItemScanner::new(0).finish(false));
    let PlanResult::Cancelled { scanned_items, discovered_files } = planning.finish() else {
        panic!("the scan was interrupted");
    };
    let summary = make_summary(
        Direction::Put,
        1,
        &counters,
        0,
        Duration::from_millis(0),
        true,
        true,
        scanned_items,
        discovered_files,
    );
    assert!(summary.cancelled_during_planning);
    assert_eq!(outcome_from(&summary).exit_code(), 130);
}
