use hydration_client::lineage::{relative, Lineage, Record};
use hydration_client::table::Table;

fn record(id: &str, tag: Option<&str>) -> Record {
    Record {
        cloud_id: id.to_string(),
        tag: tag.map(str::to_string),
    }
}

fn seen(pairs: &[(&str, &str, Option<&str>)]) -> Table<String, Record> {
    let mut t = Table::new();
    for (p, id, tag) in pairs {
        t.insert(p.to_string(), record(id, *tag));
    }
    t
}

fn live(paths: &[&str]) -> Table<String, ()> {
    let mut t = Table::new();
    for p in paths {
        t.insert(p.to_string(), ());
    }
    t
}

#[test]
fn a_path_that_lost_its_attributes_keeps_what_was_recorded_for_it() {
    let mut l = Lineage::new();
    l.absorb(seen(&[("a.txt", "A", Some("ct:1"))]), &live(&["a.txt"]));

    // The atomic save: same path, no attributes to be read from it.
    l.absorb(seen(&[]), &live(&["a.txt"]));

    assert_eq!(
        l.get("a.txt"),
        Some(&record("A", Some("ct:1"))),
        "the identity was forgotten the moment the file was saved"
    );
}

#[test]
fn an_object_found_at_a_new_path_evicts_every_older_claim_to_it() {
    let mut l = Lineage::new();
    l.absorb(seen(&[("a.txt", "A", Some("ct:1"))]), &live(&["a.txt"]));

    // The object was renamed, and an unrelated `a.txt` was created and saved
    // atomically before this scan.
    l.absorb(
        seen(&[("b.txt", "A", Some("ct:1"))]),
        &live(&["a.txt", "b.txt"]),
    );

    assert_eq!(
        l.get("a.txt"),
        None,
        "a new local file inherited the identity of an object that had been \
         renamed away from its path"
    );
    assert_eq!(l.get("b.txt"), Some(&record("A", Some("ct:1"))));
}

#[test]
fn a_path_that_is_gone_is_not_remembered_for_whatever_appears_there_next() {
    let mut l = Lineage::new();
    l.absorb(seen(&[("a.txt", "A", Some("ct:1"))]), &live(&["a.txt"]));
    l.absorb(seen(&[]), &live(&[]));
    assert_eq!(l.get("a.txt"), None);
}

#[test]
fn an_unchanged_record_is_not_rewritten() {
    let mut l = Lineage::new();
    l.absorb(seen(&[("a.txt", "A", Some("ct:1"))]), &live(&["a.txt"]));
    assert!(l.needs_writing(), "the first record has to be written");

    l.write().expect("write");
    l.written();
    assert!(!l.needs_writing());

    l.absorb(seen(&[("a.txt", "A", Some("ct:1"))]), &live(&["a.txt"]));
    assert!(
        !l.needs_writing(),
        "a scan that learned nothing new still asked for a write"
    );
}

#[test]
fn what_is_written_reads_back_the_same() {
    let mut l = Lineage::new();
    l.absorb(
        seen(&[
            ("a.txt", "A", Some("ct:1")),
            ("deep/b b.txt", "B", None),
            ("c.txt", "C", Some("ct:\"c:{G},9\"")),
        ]),
        &live(&["a.txt", "deep/b b.txt", "c.txt"]),
    );
    let text = l.write().expect("write");

    let back = Lineage::load(Some(text.as_str()));
    assert_eq!(back.get("a.txt"), Some(&record("A", Some("ct:1"))));
    assert_eq!(
        back.get("deep/b b.txt"),
        Some(&record("B", None)),
        "a path with a space, and a record with no tag, are both ordinary"
    );
    assert_eq!(
        back.get("c.txt"),
        Some(&record("C", Some("ct:\"c:{G},9\""))),
        "a tag containing quotes and braces did not survive the round trip"
    );
    assert_eq!(back.len(), 3);
}

#[test]
fn a_damaged_record_is_read_for_what_is_left_of_it() {
    let l = Lineage::load(Some(
        "# a comment\n\
         good.txt\tA\tct:1\n\
         \n\
         truncated-line-with-no-id\n\
         \tB\tct:2\n\
         also-good.txt\tC\n",
    ));
    assert_eq!(l.get("good.txt"), Some(&record("A", Some("ct:1"))));
    assert_eq!(
        l.get("also-good.txt"),
        Some(&record("C", None)),
        "a line with no tag column is a record with no tag, not a broken line"
    );
    assert_eq!(l.len(), 2, "a malformed line was kept");
}

#[test]
fn a_missing_record_is_an_empty_memory_and_not_an_error() {
    let l = Lineage::load(None);
    assert!(l.is_empty());
    assert!(
        !l.needs_writing(),
        "nothing was learned, so nothing is owed"
    );
}

#[test]
fn a_path_outside_the_root_has_no_key() {
    let root = "/sync";
    assert_eq!(
        relative(root, "/sync/a/b.txt").as_deref(),
        Some("a/b.txt")
    );
    assert_eq!(relative(root, "/elsewhere/b.txt"), None);
}

#[test]
fn an_object_is_recorded_at_one_path_only() {
    let mut l = Lineage::new();
    l.absorb(seen(&[("a", "A", None)]), &live(&["a"]));
    l.absorb(seen(&[("b", "A", None)]), &live(&["a", "b"]));
    l.absorb(seen(&[("c", "A", None)]), &live(&["a", "b", "c"]));
    assert_eq!(l.len(), 1);
    assert_eq!(l.entries()[0].0, "c");
}
