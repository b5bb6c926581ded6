use hydration_client::manifest::{entries, status_line, BackupPolicy, Entry as Listed, Found, Manifest};
use hydration_client::serve::{
    answer, Answer, Daemon, Refusal, Request, Span, EIO, ENODATA,
};
use hydration_client::store::{
    get_xattr_string, remember_mode, remembered_mode, AttrReply, AttrStep, Entry, Facts, Store,
    Visited, EACCES,
};
use hydration_client::table::{FileId, Table};

fn id(ino: u64) -> FileId {
    FileId { fsid: 1, ino }
}

fn visited(path: &str, ino: u64, cloud_id: Option<&str>, etag: Option<&str>) -> Visited {
    Visited {
        path: path.into(),
        id: id(ino),
        regular: true,
        internal: false,
        placeholder: false,
        cloud_id: cloud_id.map(str::to_string),
        etag: etag.map(str::to_string),
    }
}

fn facts(ino: u64, cloud_id: Option<&str>, etag: Option<&str>, size: u64) -> Facts {
    Facts {
        id: id(ino),
        size,
        cloud_id: cloud_id.map(str::to_string),
        etag: etag.map(str::to_string),
    }
}

#[test]
fn a_scan_indexes_the_users_files() {
    let mut s = Store::new();
    let mut own = visited("/s/.hydration-manifest", 3, None, None);
    own.internal = true;
    let mut dir = visited("/s/d", 4, None, None);
    dir.regular = false;
    let walk = vec![
        visited("/s/a", 1, Some("A"), Some("e")),
        visited("/s/d/b", 2, None, None),
        own,
        dir,
    ];
    assert_eq!(s.scan("/s", None, &walk, true), Some(2));
    assert_eq!(s.len(), 2);
    assert_eq!(s.path_of(&id(1)).map(String::as_str), Some("/s/a"));
    assert_eq!(s.path_of(&id(3)), None);
    assert_eq!(s.root().as_deref(), Some("/s"));
    assert_eq!(s.paths().len(), 2);
    assert_eq!(s.scan("/s", None, &walk, false), None);
}

#[test]
fn an_identity_is_verified_before_it_is_believed() {
    let mut s = Store::new();
    s.scan("/s", None, &vec![visited("/s/a", 1, Some("A"), None)], true);
    let f = facts(1, Some("A"), Some("e"), 5);
    assert_eq!(
        s.lookup(&id(1), Some(&f)),
        Some(Entry {
            path: "/s/a".into(),
            cloud_id: Some("A".into()),
            etag: Some("e".into()),
            size: 5,
        })
    );
    // Another inode has taken the path.
    assert_eq!(s.lookup(&id(1), Some(&facts(7, Some("B"), None, 5))), None);
    assert_eq!(s.lookup(&id(1), None), None);
    assert_eq!(s.lookup(&id(2), Some(&facts(2, None, None, 1))), None);
}

#[test]
fn a_replaced_file_keeps_its_object() {
    let mut s = Store::new().remembering();
    s.scan(
        "/s",
        None,
        &vec![visited("/s/a", 1, Some("A"), Some("e"))],
        true,
    );
    let record = s.lineage_to_write().unwrap();
    s.lineage_written();
    assert_eq!(s.lineage_to_write(), None);
    // An editor replaced the file: a new inode without attributes.
    s.scan(
        "/s",
        Some(record.as_str()),
        &vec![visited("/s/a", 2, None, None)],
        true,
    );
    let e = s.lookup(&id(2), Some(&facts(2, None, None, 9))).unwrap();
    assert_eq!(e.cloud_id.as_deref(), Some("A"));
    assert_eq!(e.etag.as_deref(), Some("e"));
    assert_eq!(s.remembered("/s/a").unwrap().cloud_id, "A");
    assert_eq!(Store::new().consulting().lineage_to_write(), None);
}

#[test]
fn files_are_found_by_their_objects() {
    let mut s = Store::new();
    s.scan(
        "/s",
        None,
        &vec![
            visited("/s/a", 1, Some("A"), None),
            visited("/s/b", 2, None, None),
        ],
        true,
    );
    let mut all: Table<FileId, Facts> = Table::new();
    all.insert(id(1), facts(1, Some("A"), None, 1));
    all.insert(id(2), facts(2, None, None, 1));
    let t = s.by_cloud_id(&all);
    assert_eq!(t.len(), 1);
    assert_eq!(t.get(&"A".to_string()).unwrap().path, "/s/a");
    s.forget(&id(1));
    assert_eq!(s.len(), 1);
    s.remember(id(9), "/s/z");
    assert_eq!(s.path_of(&id(9)).map(String::as_str), Some("/s/z"));
}

#[test]
fn attributes_are_text_or_nothing() {
    assert_eq!(get_xattr_string(Some(b"abc".to_vec())).as_deref(), Some("abc"));
    assert_eq!(get_xattr_string(Some(vec![0xff])), None);
    assert_eq!(get_xattr_string(None), None);
    let m = remember_mode(0o644);
    assert_eq!(remembered_mode(Some(m.into_bytes())), Some(0o644));
    assert_eq!(remembered_mode(Some(b"junk".to_vec())), None);
}

#[test]
fn a_read_only_file_gets_its_mode_back() {
    let refused: Result<(), i32> = Err(EACCES);
    let s = AttrStep::Try.next(AttrReply::Went(refused));
    assert_eq!(s, AttrStep::ReadMode);
    let s = s.next(AttrReply::Mode(Ok(0o444)));
    assert_eq!(s, AttrStep::Relax { mode: 0o444 });
    assert_eq!(s.mode(), Some(0o644));
    let s = s.next(AttrReply::Went(Ok(())));
    assert_eq!(s, AttrStep::Again { mode: 0o444 });
    let s = s.next(AttrReply::Went(Err(28)));
    assert_eq!(s.mode(), Some(0o444), "the mode is restored after a failure too");
    let s = s.next(AttrReply::Went(Ok(())));
    assert_eq!(s, AttrStep::Done(Err(28)));
    assert_eq!(
        AttrStep::Try.next(AttrReply::Went(Ok(()))),
        AttrStep::Done(Ok(()))
    );
    assert_eq!(
        AttrStep::Try.next(AttrReply::Went(Err(2))),
        AttrStep::Done(Err(2))
    );
}

fn entry(cloud_id: Option<&str>) -> Option<Entry> {
    Some(Entry {
        path: "/s/a".into(),
        cloud_id: cloud_id.map(str::to_string),
        etag: Some("e".into()),
        size: 10,
    })
}

#[test]
fn a_part_is_served_whole_or_refused() {
    match answer(1, entry(Some("A")), Span { offset: 2, len: 8 }) {
        Answer::Serve { source, span } => {
            assert_eq!(source.cloud_id, "A");
            assert_eq!(source.size, 10);
            assert_eq!(source.tag.as_deref(), Some("e"));
            assert_eq!(span, Span { offset: 2, len: 8 });
        }
        Answer::Fail(f) => panic!("{}", f.reason),
    }
    match answer(4, entry(Some("A")), Span { offset: 2, len: 9 }) {
        Answer::Fail(f) => {
            assert_eq!(f.id, 4);
            assert_eq!(f.errno, EIO);
            assert_eq!(
                f.reason,
                "asked for 2..11 of an object this daemon has as 10 bytes"
            );
        }
        Answer::Serve { .. } => panic!("served past the end"),
    }
}

#[test]
fn a_refusal_tells_what_is_missing() {
    let f = Refusal::Unknown.into_response(3);
    assert_eq!((f.id, f.errno), (3, EIO));
    assert_eq!(f.reason, "no such file in this sync directory");
    let f = Refusal::NeverUploaded.into_response(4);
    assert_eq!(f.errno, ENODATA);
    assert!(f.reason.contains("never been uploaded"));
    assert!(matches!(
        answer(1, entry(None), Span { offset: 0, len: 1 }),
        Answer::Fail(f) if f.errno == ENODATA
    ));
    assert!(matches!(
        answer(1, None, Span { offset: 0, len: 1 }),
        Answer::Fail(f) if f.errno == EIO
    ));
}

#[test]
fn a_file_that_came_later_is_found_by_looking_again() {
    let mut d = Daemon::new("/s", &Vec::new(), true).unwrap();
    let f = facts(1, Some("A"), None, 4);
    assert!(d.wants_rescan(&id(1), Some(&f)));
    assert_eq!(
        d.rescan(None, &vec![visited("/s/a", 1, Some("A"), None)], true),
        Some(1)
    );
    assert!(!d.wants_rescan(&id(1), Some(&f)));
    let req = Request {
        id: 7,
        file: id(1),
        span: Span { offset: 0, len: 4 },
    };
    assert!(matches!(d.serve(&req, Some(&f)), Answer::Serve { .. }));
    assert!(matches!(d.serve(&req, None), Answer::Fail(_)));
    assert!(d.exposures().is_empty());
    d.exposed(vec!["/mnt/other".into()]);
    assert_eq!(d.exposures(), &["/mnt/other"]);
    d.store_mut().forget(&id(1));
    assert!(d.store().is_empty());
    assert!(Daemon::new("/s", &Vec::new(), false).is_none());
}

fn missing(path: &str, cloud_id: Option<&str>) -> Found {
    Found {
        path: path.into(),
        regular: true,
        internal: false,
        dehydrated: true,
        cloud_id: cloud_id.map(str::to_string),
        size: 3,
        etag: None,
    }
}

#[test]
fn a_manifest_lists_what_a_backup_misses() {
    let mut here = missing("/s/here", Some("H"));
    here.dehydrated = false;
    let m = Manifest::build(
        "/s",
        vec![missing("/s/b", Some("B")), here, missing("/s/a", Some("A")), missing("/s/lost", None)],
    );
    assert_eq!(m.len(), 2);
    assert!(!m.is_empty());
    assert_eq!(m.entries[0].path, "a");
    assert_eq!(m.unrecoverable, ["lost"]);
    assert_eq!(
        m.render(),
        "# Files in this directory that were stored in the cloud and are NOT in your backup.\n\
         # Their metadata was backed up; their content was not. Sign in and re-sync to get it.\n\
         #\n\
         # path\tcloud-id\tsize\tetag\n\
         # 2 file(s)\n\
         a\tA\t3\t-\n\
         b\tB\t3\t-\n\
         #\n\
         # WARNING: 1 file(s) below have no content locally AND no cloud object.\n\
         # Nothing can restore them. This should not happen; please report it.\n\
         # UNRECOVERABLE\tlost\n"
    );
}

#[test]
fn a_manifest_reads_back() {
    let m = Manifest {
        entries: vec![Listed {
            path: "a b".into(),
            cloud_id: "A".into(),
            size: 3,
            etag: Some("t".into()),
        }],
        unrecoverable: Vec::new(),
    };
    let t = entries(Some(m.render().as_str()));
    assert_eq!(t.len(), 1);
    let r = t.get(&"a b".to_string()).unwrap();
    assert_eq!(r.cloud_id, "A");
    assert_eq!(r.tag.as_deref(), Some("t"));
    assert_eq!(entries(None).len(), 0);
    assert_eq!(entries(Some("broken\tline\n")).len(), 0);
}

#[test]
fn the_user_is_told_in_one_sentence() {
    assert_eq!(
        status_line(BackupPolicy::Exclude, 0),
        "No files are excluded from backup."
    );
    assert_eq!(
        status_line(BackupPolicy::Exclude, 2),
        "2 file(s) excluded from backup because they are stored in the cloud. See .hydration-manifest to get them back."
    );
    assert!(status_line(BackupPolicy::Hydrate, 2).starts_with("2 cloud-only file(s) will be"));
    assert!(status_line(BackupPolicy::Deny, 2).contains("refused"));
}
