use hydration_client::daemon_loop::{
    check_root, folder_wait, next_tick, to_be_retried, walk_due, Driver, Rounds, FOLDER_RETRY,
    RECENT_SENDS, TICKS_PER_MANIFEST, WALK_EVERY, WATCH_RETRY,
};
use hydration_client::delta::{Applied, Change, Cursor, Kept, Stopped, Why};
use hydration_client::desktop::{Desktop, Queued, Wait, LONGEST_PAUSE, MAX_DETAIL, MAX_KEPT};
use hydration_client::local_changes::FolderGone;
use hydration_client::reclaim::Stamp;
use hydration_client::removals::Renamed;
use hydration_client::table::{FileId, Table};
use hydration_client::upload::Outcome;

const A: FileId = FileId { fsid: 1, ino: 1 };
const B: FileId = FileId { fsid: 1, ino: 2 };

fn desktop() -> Desktop {
    Desktop::load(Vec::new(), Vec::new())
}

#[test]
fn a_pause_expires() {
    let mut d = desktop();
    d.pause(60, 1000);
    assert!(d.paused(1059));
    assert!(!d.paused(1060));
    assert!(!d.begin_pass(1000), "a pass began during a pause");
    d.pause(LONGEST_PAUSE * 2, 1000);
    assert_eq!(d.pause_until(), 1000 + LONGEST_PAUSE);
    d.pause(0, 1000);
    assert!(!d.paused(1000));
    assert!(d.begin_pass(1000));
    assert_eq!(d.wait_for_passes(false), Wait::Again);
    assert_eq!(d.wait_for_passes(true), Wait::Late);
    d.end_pass();
    assert_eq!(d.wait_for_passes(true), Wait::Ready);
}

#[test]
fn an_event_is_listed_once_and_newest_first() {
    let mut d = desktop();
    d.push_event("a", "uploaded", "x", 1);
    d.push_event("b", "uploaded", "x", 2);
    d.push_event("a", "uploaded", "x", 3);
    let seen: Vec<(String, u64)> = d.events().iter().map(|e| (e.path.clone(), e.time)).collect();
    assert_eq!(seen, [("a".to_string(), 3), ("b".to_string(), 2)]);
    for i in 0..MAX_KEPT * 2 {
        d.push_event(&format!("f{i}"), "uploaded", "x", 4);
    }
    assert_eq!(d.events().len(), MAX_KEPT);
}

#[test]
fn uploads_are_reported() {
    let mut d = desktop();
    d.issue("a.txt", "conflict", "two versions");
    d.record(A, Some("a.txt"), &Outcome::Failed("x".repeat(5000)), 1);
    assert_eq!(d.events()[0].status, "error");
    assert_eq!(d.events()[0].detail.len(), MAX_DETAIL);
    assert!(d.record(
        A,
        Some("a.txt"),
        &Outcome::Sent {
            cloud_id: "c".into()
        },
        2
    ));
    assert_eq!(d.events()[0].detail, "Upload confirmed");
    assert!(d.issues().is_empty(), "a sent file kept its issue");
    d.record(A, None, &Outcome::NothingToDo, 3);
    assert_eq!(d.events().len(), 2);
}

#[test]
fn the_stronger_explanation_stays() {
    let mut d = desktop();
    assert!(d.issue("a", "conflict", "one"));
    assert!(!d.issue("a", "conflict", "one"), "nothing new was said");
    assert!(d.issue("a", "availability", "gone"));
    assert_eq!(d.issues().len(), 1);
    assert!(!d.issue("a", "conflict", "two"));
    assert_eq!(d.issues()[0].kind, "availability");
    assert_eq!(d.reconcile_availability(), ["a"]);
    assert!(!d.settle_availability("a", Some(Stamp::Dirty)));
    assert!(!d.settle_availability("a", None));
    assert_eq!(d.issues().len(), 1);
    assert!(d.settle_availability("a", Some(Stamp::Clean)));
    assert!(d.issues().is_empty(), "a clean file kept its issue");
    assert!(d.issue("a", "conflict", "two"));
    assert!(d.clear_issue("a"));
    assert!(!d.clear_issue("a"));
}

#[test]
fn an_issue_ends_with_a_pass_that_settled_it() {
    let mut d = desktop();
    d.issue("kept", "conflict", "x");
    d.issue("done", "conflict", "x");
    d.issue("other", "conflict", "x");
    let upsert = |path: &str| Change::Upserted {
        cloud_id: path.into(),
        path: path.into(),
        size: 1,
        etag: None,
    };
    let mut applied = Applied::default();
    applied.kept_local.push(Kept::new("kept", Why::EditWaiting));
    d.reconciled(&vec![upsert("kept"), upsert("done")], &applied, &Vec::new(), 5);
    let mut left: Vec<&str> = d.issues().iter().map(|i| i.path.as_str()).collect();
    left.sort();
    assert_eq!(left, ["kept", "other"]);
}

#[test]
fn the_queue_is_shown_with_what_went_wrong() {
    let mut d = desktop();
    let mut found: Table<FileId, String> = Table::new();
    found.insert(A, "a.txt".into());
    d.index(&vec![A, B], &found);
    d.record(A, Some("a.txt"), &Outcome::Failed("offline".into()), 1);
    let mut failing: Table<FileId, ()> = Table::new();
    failing.insert(A, ());
    let rows = d.snapshot(
        &vec![
            Queued {
                id: A,
                sending: false,
                retry_after: 9,
            },
            Queued {
                id: B,
                sending: true,
                retry_after: 0,
            },
        ],
        &failing,
    );
    assert_eq!(rows.len(), 2);
    assert_eq!(rows[0].path.as_deref(), Some("a.txt"));
    assert_eq!(rows[0].detail.as_deref(), Some("offline"));
    assert_eq!(rows[0].retry_after, 9);
    assert_eq!(rows[1].path, None);
    assert_ne!(rows[0].status, rows[1].status);
}

#[test]
fn folders_are_chosen_while_work_is_held() {
    let mut d = desktop();
    let (list, until) = d
        .select(&vec!["b".into(), "a".into()], 100)
        .expect("a choice of two folders");
    assert_eq!(list, ["a", "b"]);
    assert!(d.paused(100), "work went on while folders were chosen");
    d.selected(until);
    assert!(!d.paused(100));
    assert_eq!(
        d.select(&vec!["../x".into()], 100),
        Err("Choose a folder relative to the OneDrive root".to_string())
    );
}

fn cursor(s: &str) -> Cursor {
    Cursor(Some(s.into()))
}

#[test]
fn a_cursor_moves_only_past_finished_work() {
    let mut r = Rounds::new();
    assert!(r.needs_mount());
    r.opened(true);
    let mut put_off = Applied::default();
    put_off.retryable = true;
    r.applied(cursor("1"), &Some(put_off));
    assert_eq!(r.cursor(), &Cursor(None));
    r.quiet(cursor("2"));
    assert_eq!(r.cursor(), &Cursor(None), "silence consumed deferred work");
    r.applied(cursor("3"), &Some(Applied::default()));
    assert_eq!(r.cursor(), &cursor("3"));
    r.quiet(cursor("4"));
    assert_eq!(r.cursor(), &cursor("4"));
    r.applied(cursor("5"), &None);
    assert_eq!(r.cursor(), &cursor("4"));
    let mut stopped = Applied::default();
    stopped.stopped = Some(Stopped::MountChanged);
    stopped.retryable = true;
    r.applied(cursor("6"), &Some(stopped));
    assert!(r.needs_mount());
}

#[test]
fn a_root_that_is_no_mount_is_refused() {
    assert_eq!(check_root("/m", &Ok(true)), Ok(()));
    assert!(check_root("/m", &Ok(false))
        .unwrap_err()
        .starts_with("/m is not a mount point; "));
    assert!(check_root("/m", &Err("io".into()))
        .unwrap_err()
        .starts_with("could not tell whether /m is a mount point (io); "));
}

#[test]
fn what_was_put_off_is_kept_until_it_can_be_done() {
    let mut d = Driver::new(0, 1);
    assert!(!d.wants_seed(true, true));
    assert!(d.wants_seed(false, true));
    let mut found: Table<String, ()> = Table::new();
    found.insert("New".into(), ());
    d.seed(&found);
    assert!(!d.wants_seed(false, true));
    d.collect(
        &Table::new(),
        vec![Renamed {
            from: "a".into(),
            to: "b".into(),
            is_dir: false,
        }],
        vec![FolderGone {
            path: "f".into(),
            moved_out: false,
            record: None,
        }],
    );
    assert!(d.take_renames(true).is_empty(), "a rename was sent mid-pass");
    assert_eq!(d.take_renames(false).len(), 1);
    assert!(d.take_renames(false).is_empty());
    assert_eq!(d.take_folders_gone(false).len(), 1);
    assert!(d.wants_creates(false, 0));
    assert!(!d.wants_creates(true, 0));
    let t = d.take_folders();
    assert_eq!(t.len(), 1);
    d.creates_tried(t, 0, 50);
    assert!(!d.wants_creates(false, 49));
    assert!(d.wants_creates(false, 50));
}

#[test]
fn a_new_connection_has_the_tree_watched_again() {
    let mut d = Driver::new(0, 1);
    assert!(!d.wants_watch(1, 0));
    assert!(d.wants_watch(2, 0));
    d.watch_tried(2, 0, false);
    assert!(!d.wants_watch(2, WATCH_RETRY - 1));
    assert!(d.wants_watch(2, WATCH_RETRY));
    d.watch_tried(2, WATCH_RETRY, true);
    assert!(!d.wants_watch(2, WATCH_RETRY * 9));
}

#[test]
fn recent_sends_are_bounded() {
    let mut d = Driver::new(0, 0);
    let sent = Outcome::Sent {
        cloud_id: "c".into(),
    };
    for i in 0..RECENT_SENDS {
        d.note_sent(&Some(format!("f{i}")), &sent);
    }
    assert_eq!(d.recent().len(), RECENT_SENDS);
    d.note_sent(&Some("one more".into()), &sent);
    assert_eq!(d.recent().len(), 1);
    d.note_sent(&Some("failed".into()), &Outcome::Failed("x".into()));
    assert_eq!(d.recent().len(), 1);
}

#[test]
fn a_manifest_is_due_once_in_a_while() {
    let mut t = 0;
    for _ in 0..TICKS_PER_MANIFEST {
        t = next_tick(t);
    }
    assert_eq!(t, 0);
    assert_eq!(next_tick(0), 1);
}

#[test]
fn the_root_is_walked_at_first_and_then_now_and_again() {
    assert!(walk_due(None));
    assert!(!walk_due(Some(0)));
    assert!(!walk_due(Some(WALK_EVERY - 1)));
    assert!(walk_due(Some(WALK_EVERY)));
}

#[test]
fn folders_are_tried_again_after_the_quiet_period_or_a_second() {
    assert_eq!(folder_wait(0), 1_000_000_000);
    assert_eq!(folder_wait(FOLDER_RETRY), FOLDER_RETRY);
    assert_eq!(folder_wait(10_000_000_000), 10_000_000_000);
}

#[test]
fn only_a_failed_upload_is_tried_again() {
    assert!(to_be_retried(&Outcome::Failed("throttled".into())));
    assert!(!to_be_retried(&Outcome::Sent { cloud_id: "a".into() }));
    assert!(!to_be_retried(&Outcome::DeletedInstead));
    assert!(!to_be_retried(&Outcome::NothingToDo));
}
