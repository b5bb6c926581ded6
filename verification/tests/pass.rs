use hydration_client::delta::{Applied, Change, Failed, Failure, Kept, Stopped, Why};
use hydration_client::pass::{judge, Answer, Ask, FileFacts, Pass, Verdict};
use hydration_client::table::{FileId, Table};

const ID: FileId = FileId { fsid: 1, ino: 9 };

fn upsert(id: &str, path: &str, size: u64, etag: Option<&str>) -> Change {
    Change::Upserted {
        cloud_id: id.into(),
        path: path.into(),
        size,
        etag: etag.map(str::to_string),
    }
}

fn table(rows: &[(&str, &str)]) -> Table<String, String> {
    let mut t = Table::new();
    for (k, v) in rows {
        t.insert(k.to_string(), v.to_string());
    }
    t
}

fn begin(changes: Vec<Change>, files: &[(&str, &str)], folders: &[(&str, &str)]) -> Pass {
    Pass::begin(
        "/s",
        1000,
        vec![".hydration-manifest".into()],
        &changes,
        Table::new(),
        table(files),
        table(folders),
    )
}

fn drive(mut p: Pass, answers: Vec<(Ask, Answer)>) -> Applied {
    for (want, a) in answers {
        assert_eq!(p.ask(), want);
        p.answer(a);
    }
    assert_eq!(p.ask(), Ask::Finished);
    p.outcome().unwrap()
}

fn facts(id: Option<&str>, etag: Option<&str>, len: u64, dirty: bool) -> FileFacts {
    FileFacts {
        file: ID,
        len,
        id: id.map(|s| s.as_bytes().to_vec()),
        etag: etag.map(|s| s.as_bytes().to_vec()),
        dirty,
    }
}

#[test]
fn a_new_object_becomes_a_placeholder() {
    let out = drive(
        begin(vec![upsert("a", "d/a.txt", 5, Some("e"))], &[], &[]),
        vec![
            (Ask::Root, Answer::Current(true)),
            (Ask::LookFile, Answer::Missing),
            (Ask::PlaceNew, Answer::Done),
        ],
    );
    assert_eq!(out.created, 1);
    assert_eq!(out.updated, 0);
    assert!(!out.retryable);
}

#[test]
fn a_current_file_is_left_alone_and_an_old_one_is_refreshed() {
    let c = || vec![upsert("a", "a.txt", 5, Some("e2"))];
    let same = drive(
        begin(c(), &[], &[]),
        vec![
            (Ask::Root, Answer::Current(true)),
            (
                Ask::LookFile,
                Answer::File(facts(Some("a"), Some("e2"), 5, false)),
            ),
        ],
    );
    assert_eq!(same, Applied::default());
    let old = drive(
        begin(c(), &[], &[]),
        vec![
            (Ask::Root, Answer::Current(true)),
            (
                Ask::LookFile,
                Answer::File(facts(Some("a"), Some("e1"), 5, false)),
            ),
            (Ask::PlaceOver, Answer::Done),
        ],
    );
    assert_eq!(old.updated, 1);
}

#[test]
fn local_work_is_never_overwritten() {
    let none = Table::new();
    let tag = Some("e2".to_string());
    assert_eq!(
        judge(&facts(None, None, 5, false), "a", &tag, 5, &none),
        Verdict::Keep(Why::NeverUploaded)
    );
    assert_eq!(
        judge(&facts(Some("a"), Some("e1"), 5, true), "a", &tag, 5, &none),
        Verdict::Keep(Why::ChangedUnderneath)
    );
    let mut waiting: Table<FileId, ()> = Table::new();
    waiting.insert(ID, ());
    assert_eq!(
        judge(
            &facts(Some("a"), Some("e1"), 5, false),
            "a",
            &tag,
            5,
            &waiting
        ),
        Verdict::Keep(Why::EditWaiting)
    );
    let out = drive(
        begin(vec![upsert("a", "a.txt", 5, Some("e2"))], &[], &[]),
        vec![
            (Ask::Root, Answer::Current(true)),
            (Ask::LookFile, Answer::File(facts(None, None, 5, false))),
        ],
    );
    assert_eq!(
        out.kept_local,
        [Kept {
            path: "a.txt".into(),
            why: Why::NeverUploaded
        }]
    );
}

#[test]
fn a_refused_change_does_not_hold_up_the_next() {
    let out = drive(
        begin(
            vec![
                upsert("a", "../evil", 5, None),
                upsert("b", "big", 1001, None),
                upsert("c", ".hydration-manifest", 1, None),
                upsert("d", "fine", 1, None),
            ],
            &[],
            &[],
        ),
        vec![
            (Ask::Root, Answer::Current(true)),
            (Ask::Root, Answer::Current(true)),
            (Ask::Root, Answer::Current(true)),
            (Ask::Root, Answer::Current(true)),
            (Ask::LookFile, Answer::Missing),
            (Ask::PlaceNew, Answer::Done),
        ],
    );
    assert_eq!(out.created, 1);
    assert_eq!(
        out.failed,
        [
            Failed::new("../evil", Failure::PathRefused),
            Failed::new("big", Failure::TooLarge { size: 1001 }),
            Failed::new(".hydration-manifest", Failure::PathRefused),
        ]
    );
    assert!(!out.retryable, "a refusal is not put off");
}

#[test]
fn an_object_that_moved_takes_its_file_along() {
    let p = begin(
        vec![upsert("a", "new/a.txt", 5, Some("e"))],
        &[("a", "/s/old/a.txt")],
        &[],
    );
    assert_eq!(p.existing().as_deref(), Some("/s/old/a.txt"));
    let out = drive(
        p,
        vec![
            (Ask::Root, Answer::Current(true)),
            (Ask::ExistingThere, Answer::There(true)),
            (Ask::TargetThere, Answer::There(false)),
            (Ask::RelocateFile, Answer::Done),
            (
                Ask::LookFile,
                Answer::File(facts(Some("a"), Some("e"), 5, false)),
            ),
        ],
    );
    assert_eq!(out.moved, 1);
    assert_eq!(out.created, 0);
}

#[test]
fn an_occupied_destination_is_put_off() {
    let out = drive(
        begin(
            vec![upsert("a", "b.txt", 5, None)],
            &[("a", "/s/a.txt")],
            &[],
        ),
        vec![
            (Ask::Root, Answer::Current(true)),
            (Ask::ExistingThere, Answer::There(true)),
            (Ask::TargetThere, Answer::There(true)),
        ],
    );
    assert_eq!(
        out.failed,
        [Failed::new("b.txt", Failure::DestinationOccupied)]
    );
    assert!(out.retryable);
}

#[test]
fn a_root_that_leads_elsewhere_stops_the_pass() {
    let out = drive(
        begin(vec![upsert("a", "a", 1, None)], &[], &[]),
        vec![(Ask::Root, Answer::Current(false))],
    );
    assert_eq!(out.stopped, Some(Stopped::MountChanged));
    assert!(out.retryable);
    assert_eq!(out.created, 0);
    let out = drive(
        begin(vec![upsert("a", "a", 1, None)], &[], &[]),
        vec![(Ask::Root, Answer::Unverifiable("io".into()))],
    );
    assert_eq!(out.stopped, Some(Stopped::MountUnverifiable("io".into())));
}

#[test]
fn a_folder_is_made_named_and_tagged() {
    let out = drive(
        begin(
            vec![Change::FolderUpserted {
                cloud_id: "f".into(),
                path: "Work".into(),
                etag: None,
            }],
            &[],
            &[],
        ),
        vec![
            (Ask::Root, Answer::Current(true)),
            (Ask::LookFolder, Answer::Missing),
            (Ask::MakeFolder, Answer::Done),
            (Ask::ReadId, Answer::Id(None)),
            (Ask::WriteId, Answer::Done),
            (Ask::WriteTag, Answer::Done),
        ],
    );
    assert_eq!(out.created, 1);
}

#[test]
fn the_sync_root_is_never_removed() {
    let out = drive(
        begin(
            vec![Change::FolderRemoved {
                cloud_id: "r".into(),
                path: "".into(),
            }],
            &[],
            &[("r", "/s")],
        ),
        vec![(Ask::Root, Answer::Current(true))],
    );
    assert_eq!(
        out.failed,
        [Failed::new(
            "",
            Failure::Remove("the sync root cannot be removed".into())
        )]
    );
}

#[test]
fn an_empty_pass_asks_nothing() {
    let p = begin(Vec::new(), &[], &[]);
    assert_eq!(p.ask(), Ask::Finished);
    assert_eq!(p.outcome().unwrap(), Applied::default());
}
