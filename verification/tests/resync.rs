use hydration_client::reclaim::Stamp;
use hydration_client::resync::{dirty_files, Looked, Resync};
use hydration_client::table::FileId;

fn nothing() -> Resync {
    Resync {
        send: Vec::new(),
        holding: Vec::new(),
    }
}

/// A placeholder as the framework leaves one: sized, empty, marked, stamped.
fn placeholder(name: &str, size: u64) -> Looked {
    Looked {
        path: format!("/sync/{name}"),
        ignored: false,
        regular: true,
        internal: false,
        id: FileId { fsid: 1, ino: 10 },
        size,
        stamp: Some(Stamp::Clean),
        dehydrated: true,
        holds_data: false,
        identified: true,
    }
}

#[test]
fn an_interrupted_fill_is_not_queued_for_upload() {
    let mut p = placeholder("big.iso", 1 << 20);
    p.holds_data = true;
    p.stamp = Some(Stamp::Dirty);
    let found = dirty_files(&vec![p]);
    assert_eq!(found.send, Vec::new(), "a placeholder must not be uploaded");
    assert_eq!(
        found.holding,
        vec!["/sync/big.iso"],
        "and must not be dropped in silence"
    );
}

#[test]
fn a_write_into_a_marked_file_is_named_rather_than_sent() {
    let mut p = placeholder("notes.txt", 8192);
    p.holds_data = true;
    p.stamp = Some(Stamp::Dirty);
    let found = dirty_files(&vec![p]);
    assert_eq!(found.send, Vec::new());
    assert_eq!(found.holding, vec!["/sync/notes.txt"]);
}

#[test]
fn a_touched_placeholder_is_skipped_without_a_warning() {
    let mut p = placeholder("held.bin", 1 << 20);
    p.stamp = Some(Stamp::Dirty);
    let found = dirty_files(&vec![p]);
    assert_eq!(found.send, Vec::new());
    assert_eq!(found.holding, Vec::<String>::new());
}

#[test]
fn a_clean_placeholder_is_neither_sent_nor_reported() {
    assert_eq!(
        dirty_files(&vec![placeholder("quiet.bin", 1 << 20)]),
        nothing()
    );
}

#[test]
fn a_partially_hydrated_file_is_not_reported_as_holding_bytes() {
    // Bytes in the hole, the mark untouched, and a stamp that describes the file
    // as it now stands.
    let mut p = placeholder("half.iso", 1 << 20);
    p.holds_data = true;
    assert_eq!(dirty_files(&vec![p]), nothing(), "a partial fill is not news");
}

#[test]
fn an_edited_file_is_still_queued() {
    let mut p = placeholder("report.txt", 18);
    p.dehydrated = false;
    p.holds_data = true;
    p.stamp = Some(Stamp::Dirty);
    let id = p.id;
    let found = dirty_files(&vec![p]);
    assert_eq!(found.send, vec![id]);
    assert_eq!(found.holding, Vec::<String>::new());
}

#[test]
fn an_unstamped_file_with_content_is_still_queued() {
    let mut p = placeholder("saved.txt", 20);
    p.dehydrated = false;
    p.holds_data = true;
    p.stamp = Some(Stamp::Unstamped);
    p.identified = false;
    let found = dirty_files(&vec![p]);
    assert_eq!(found.send.len(), 1);
    assert_eq!(found.holding, Vec::<String>::new());
}

#[test]
fn what_is_not_the_users_is_passed_over() {
    let edited = |name: &str| {
        let mut p = placeholder(name, 5);
        p.dehydrated = false;
        p.holds_data = true;
        p.stamp = Some(Stamp::Dirty);
        p
    };
    let mut ignored = edited("repo/.git/index");
    ignored.ignored = true;
    let mut internal = edited(".hydration-manifest");
    internal.internal = true;
    let mut link = edited("link");
    link.regular = false;
    assert_eq!(dirty_files(&vec![ignored, internal, link]), nothing());
}
