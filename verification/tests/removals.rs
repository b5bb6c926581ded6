use hydration_client::removals::{
    read_events, settle_moves, ByteOrder, Gone, MoveHalf, RawEvent, Removals, Renamed, IN_CREATE,
    IN_DELETE, IN_IGNORED, IN_ISDIR, IN_MOVED_FROM, IN_MOVED_TO, IN_Q_OVERFLOW,
};
use hydration_client::table::Table;

fn halves(rows: Vec<(u32, &str)>) -> Table<u32, MoveHalf> {
    let mut t = Table::new();
    for (cookie, path) in rows {
        t.insert(
            cookie,
            MoveHalf {
                path: path.into(),
                is_dir: false,
            },
        );
    }
    t
}

#[test]
fn rename_halves_split_across_drains_are_still_paired() {
    let previous = halves(vec![(41, "before.txt")]);
    let destinations = halves(vec![(41, "after.txt")]);
    let (gone, pending, renamed) = settle_moves(previous, Table::new(), destinations, false);
    assert!(gone.is_empty(), "the first half was misread as a move out");
    assert!(pending.is_empty());
    assert_eq!(
        renamed,
        [Renamed {
            from: "before.txt".into(),
            to: "after.txt".into(),
            is_dir: false,
        }]
    );
}

#[test]
fn an_unmatched_move_expires_after_one_later_drain() {
    let current = halves(vec![(73, "gone.txt")]);
    let (gone, pending, renamed) = settle_moves(Table::new(), current, Table::new(), false);
    assert!(gone.is_empty());
    assert!(renamed.is_empty());
    assert_eq!(pending.get(&73).map(|m| m.path.as_str()), Some("gone.txt"));

    let (gone, pending, renamed) = settle_moves(pending, Table::new(), Table::new(), false);
    assert_eq!(gone[0].path, "gone.txt");
    assert!(pending.is_empty());
    assert!(renamed.is_empty());
}

#[test]
fn an_overflow_discards_pending_destructive_conclusions() {
    let previous = halves(vec![(99, "unknown.txt")]);
    let current = halves(vec![(100, "also-unknown.txt")]);
    let (gone, pending, renamed) = settle_moves(previous, current, Table::new(), true);
    assert!(gone.is_empty());
    assert!(pending.is_empty());
    assert!(renamed.is_empty());
}

fn event(wd: i32, mask: u32, cookie: u32, name: &str) -> RawEvent {
    RawEvent {
        wd,
        mask,
        cookie,
        name: name.into(),
    }
}

fn watched() -> Removals {
    let mut r = Removals::new();
    r.watch(1, "");
    r.watch(2, "sub");
    r
}

#[test]
fn an_unlinked_file_is_reported_by_its_path() {
    let mut r = watched();
    assert_eq!(r.watched(), 2);
    let mut d = r.begin();
    assert_eq!(r.note(&mut d, &event(2, IN_DELETE, 0, "a.txt")), None);
    let batch = r.take(d);
    assert_eq!(
        batch.gone,
        [Gone {
            path: "sub/a.txt".into(),
            moved_out: false,
        }]
    );
    assert!(batch.renamed.is_empty());
    assert!(batch.folders_moved_out.is_empty());
    assert!(!r.lost_events());
}

#[test]
fn a_rename_within_the_sync_root_is_not_a_removal() {
    let mut r = watched();
    let mut d = r.begin();
    r.note(&mut d, &event(1, IN_MOVED_FROM, 7, "a.txt"));
    r.note(&mut d, &event(2, IN_MOVED_TO, 7, "b.txt"));
    let batch = r.take(d);
    assert!(batch.gone.is_empty());
    assert_eq!(
        batch.renamed,
        [Renamed {
            from: "a.txt".into(),
            to: "sub/b.txt".into(),
            is_dir: false,
        }]
    );
}

#[test]
fn a_file_moved_out_of_the_sync_root_is_a_removal() {
    let mut r = watched();
    let mut d = r.begin();
    r.note(&mut d, &event(1, IN_MOVED_FROM, 9, "a.txt"));
    let first = r.take(d);
    assert!(first.gone.is_empty(), "the other half may still come");
    let d = r.begin();
    let second = r.take(d);
    assert_eq!(
        second.gone,
        [Gone {
            path: "a.txt".into(),
            moved_out: true,
        }]
    );
}

#[test]
fn a_folder_moved_out_never_enters_the_file_delete_stream() {
    let mut r = watched();
    let mut d = r.begin();
    r.note(&mut d, &event(1, IN_MOVED_FROM | IN_ISDIR, 9, "album"));
    let first = r.take(d);
    assert!(first.gone.is_empty());
    assert!(first.folders_moved_out.is_empty());
    assert!(first.renamed.is_empty());
    let d = r.begin();
    let batch = r.take(d);
    assert!(batch.gone.is_empty(), "a folder reached file deletion");
    assert_eq!(batch.folders_moved_out, ["album"]);
}

#[test]
fn a_directory_created_later_is_watched_too() {
    let mut r = watched();
    let mut d = r.begin();
    assert_eq!(
        r.note(&mut d, &event(1, IN_CREATE | IN_ISDIR, 0, "new")),
        Some("new".to_string()),
        "the new directory has to be walked"
    );
    assert_eq!(r.note(&mut d, &event(1, IN_CREATE, 0, "plain")), None);
    r.watch(3, "new");
    r.note(&mut d, &event(3, IN_DELETE, 0, "inner.txt"));
    let batch = r.take(d);
    assert_eq!(batch.gone[0].path, "new/inner.txt");
}

#[test]
fn a_quiet_tree_reports_nothing() {
    let mut r = watched();
    let d = r.begin();
    let batch = r.take(d);
    assert!(batch.gone.is_empty());
    assert!(batch.folders_moved_out.is_empty());
    assert!(batch.renamed.is_empty());
    assert!(!r.lost_events());
}

#[test]
fn a_watch_that_went_away_is_forgotten() {
    let mut r = watched();
    let mut d = r.begin();
    r.note(&mut d, &event(2, IN_IGNORED, 0, ""));
    assert_eq!(r.watched(), 1);
    r.note(&mut d, &event(2, IN_DELETE, 0, "a.txt"));
    assert!(r.take(d).gone.is_empty());
}

#[test]
fn an_overflow_is_remembered_until_the_next_drain() {
    let mut r = watched();
    let mut d = r.begin();
    r.note(&mut d, &event(1, IN_MOVED_FROM, 9, "a.txt"));
    r.note(&mut d, &event(-1, IN_Q_OVERFLOW, 0, ""));
    r.take(d);
    assert!(r.lost_events());
    let d = r.begin();
    assert!(!r.lost_events());
    assert!(r.take(d).gone.is_empty(), "a half outlived the overflow");
}

fn raw(wd: i32, mask: u32, cookie: u32, name: &str, pad: usize) -> Vec<u8> {
    let mut b = Vec::new();
    b.extend_from_slice(&wd.to_le_bytes());
    b.extend_from_slice(&mask.to_le_bytes());
    b.extend_from_slice(&cookie.to_le_bytes());
    b.extend_from_slice(&(pad as u32).to_le_bytes());
    let mut n = name.as_bytes().to_vec();
    n.resize(pad, 0);
    b.extend_from_slice(&n);
    b
}

#[test]
fn a_buffer_of_events_is_read_record_by_record() {
    let mut b = raw(1, IN_DELETE, 0, "a.txt", 16);
    b.extend_from_slice(&raw(2, IN_MOVED_FROM | IN_ISDIR, 77, "dir", 16));
    b.extend_from_slice(&raw(-1, IN_Q_OVERFLOW, 0, "", 0));
    let n = b.len();
    assert_eq!(
        read_events(&b, n, ByteOrder::Little),
        vec![
            event(1, IN_DELETE, 0, "a.txt"),
            event(2, IN_MOVED_FROM | IN_ISDIR, 77, "dir"),
            event(-1, IN_Q_OVERFLOW, 0, ""),
        ]
    );
    // What follows the filled part of the buffer is not read.
    assert_eq!(read_events(&b, 32, ByteOrder::Little).len(), 1);
    // And a record that is cut short is not one.
    assert_eq!(read_events(&b, 40, ByteOrder::Little).len(), 1);
}

#[test]
fn numbers_are_read_in_the_order_of_the_machine() {
    let mut b = Vec::new();
    for word in [1u32, IN_DELETE, 0, 0] {
        b.extend_from_slice(&word.to_be_bytes());
    }
    assert_eq!(
        read_events(&b, 16, ByteOrder::Big),
        vec![event(1, IN_DELETE, 0, "")]
    );
}
