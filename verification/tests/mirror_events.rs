use tcp_localhost::events::{handle_file_created, handle_file_removed, plan_event, FileEventKind};
use tcp_localhost::mirror::{clone_to_reports, remove_cloned_report};
use tcp_localhost::startup::{startup, IndexAction};

#[test]
fn qualifying_path_yields_a_copy() {
    let task = clone_to_reports("/r/Templates/a.html").expect("qualifying path");
    assert_eq!(task.from, "/r/Templates/a.html");
    assert_eq!(task.to, "/r/Reports/a.html");
}

#[test]
fn non_qualifying_paths_are_no_ops() {
    assert!(clone_to_reports("/r/Reports/a.html").is_none());
    assert!(clone_to_reports("/r/Templates/a.txt").is_none());
    assert!(clone_to_reports("/r/other/a.html").is_none());
    assert!(remove_cloned_report("/r/Reports/a.html").is_none());
    assert!(remove_cloned_report("/r/Templates/notes.txt").is_none());
    assert!(remove_cloned_report("/elsewhere/a.html").is_none());
}

#[test]
fn removal_targets_the_counterpart() {
    assert_eq!(
        remove_cloned_report("/r/Templates/a.html"),
        Some("/r/Reports/a.html".to_string())
    );
}

#[test]
fn created_event_plans_copies_and_a_refresh() {
    let paths = vec![
        "/r/Templates/c.html".to_string(),
        "/r/Templates/skip.txt".to_string(),
    ];
    let plan = plan_event(&FileEventKind::Created, &paths);
    assert!(plan.refresh_links);
    assert!(plan.removals.is_empty());
    assert_eq!(plan.copies.len(), 1);
    assert_eq!(plan.copies[0].from, "/r/Templates/c.html");
    assert_eq!(plan.copies[0].to, "/r/Reports/c.html");

    let tasks = handle_file_created(&paths);
    assert_eq!(tasks.len(), 1);
    assert_eq!(tasks[0].to, "/r/Reports/c.html");
}

#[test]
fn removed_event_plans_deletions_and_a_refresh() {
    let paths = vec![
        "/r/Templates/a.html".to_string(),
        "/r/Templates/b.html".to_string(),
    ];
    let plan = plan_event(&FileEventKind::Removed, &paths);
    assert!(plan.refresh_links);
    assert!(plan.copies.is_empty());
    assert_eq!(
        plan.removals,
        vec!["/r/Reports/a.html".to_string(), "/r/Reports/b.html".to_string()]
    );
    assert_eq!(handle_file_removed(&paths), plan.removals);
}

#[test]
fn other_events_are_ignored() {
    let paths = vec!["/r/Templates/a.html".to_string()];
    let plan = plan_event(&FileEventKind::Other, &paths);
    assert!(!plan.refresh_links);
    assert!(plan.copies.is_empty());
    assert!(plan.removals.is_empty());
}

#[test]
fn fresh_root_plans_everything() {
    let plan = startup(false, false, false, false, false, &vec![], &vec![]);
    assert!(plan.create_templates);
    assert!(plan.create_resources);
    assert!(plan.create_reports);
    assert!(matches!(plan.index_action, IndexAction::WritePlaceholder));
    assert!(plan.removals.is_empty());
    assert!(plan.copies.is_empty());
}

#[test]
fn settled_root_keeps_its_page_and_rebuilds_reports() {
    let reports = vec![
        "/r/Reports/stale.html".to_string(),
        "/r/Reports/junk.txt".to_string(),
    ];
    let templates = vec![
        "/r/Templates/a.html".to_string(),
        "/r/Templates/notes.txt".to_string(),
        "/r/Templates/b.html".to_string(),
    ];
    let plan = startup(true, true, true, true, true, &reports, &templates);
    assert!(!plan.create_templates);
    assert!(!plan.create_resources);
    assert!(!plan.create_reports);
    assert!(matches!(plan.index_action, IndexAction::Keep));
    assert_eq!(plan.removals, reports);
    assert_eq!(plan.copies.len(), 2);
    assert_eq!(plan.copies[0].from, "/r/Templates/a.html");
    assert_eq!(plan.copies[0].to, "/r/Reports/a.html");
    assert_eq!(plan.copies[1].from, "/r/Templates/b.html");
    assert_eq!(plan.copies[1].to, "/r/Reports/b.html");
}

#[test]
fn backup_seeds_the_missing_page() {
    let plan = startup(true, true, true, false, true, &vec![], &vec![]);
    assert!(matches!(plan.index_action, IndexAction::RestoreBackup));
}
