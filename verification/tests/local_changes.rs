use hydration_client::folder_creates::{Creates, Here, Look, Reply, Want};
use hydration_client::lineage::Record;
use hydration_client::local_changes::{
    apply_folder_removals, apply_removals, apply_rename, FolderGone, FolderRemoval,
    FolderWithdrawal, Registers, Removal, Rename, RenameFacts, Withdrawal,
};
use hydration_client::manifest::{Entry, Manifest};
use hydration_client::offline::{removal_ceiling, REMOVAL_FLOOR};
use hydration_client::removals::Gone;
use hydration_client::table::{FileId, Table};
use hydration_client::upload::Uploaded;

fn gone(path: &str) -> Gone {
    Gone {
        path: path.into(),
        moved_out: false,
    }
}

#[test]
fn deleting_a_placeholder_preserves_its_manifest_precondition() {
    let manifest = Manifest {
        entries: vec![Entry {
            path: "gone.txt".into(),
            cloud_id: "drive|cloud-delete".into(),
            size: 9,
            etag: Some("ct:c:{G},9".into()),
        }],
        unrecoverable: vec![],
    }
    .render();
    let mut registers = Registers::load(None);

    let out = apply_removals(
        &mut registers,
        &vec![gone("gone.txt")],
        &Table::new(),
        &Table::new(),
        0,
        Some(1),
        Some(manifest.as_str()),
    )
    .unwrap();

    assert_eq!(
        out,
        [Removal {
            path: "gone.txt".into(),
            moved_out: false,
            what: Withdrawal::RemoveKnown {
                cloud_id: "drive|cloud-delete".into(),
                tag: Some("ct:c:{G},9".into()),
            },
        }]
    );
}

#[test]
fn what_was_only_just_sent_is_withdrawn_by_its_identity_alone() {
    let mut registers = Registers::load(None);
    let mut recent: Table<String, String> = Table::new();
    recent.insert("new.txt".into(), "cloud-new".into());
    let out = apply_removals(
        &mut registers,
        &vec![gone("new.txt"), gone("never-sent.txt")],
        &Table::new(),
        &recent,
        0,
        None,
        None,
    )
    .unwrap();
    assert_eq!(
        out[0].what,
        Withdrawal::Remove {
            cloud_id: "cloud-new".into()
        }
    );
    assert_eq!(out[1].what, Withdrawal::Nothing);
}

fn folder_gone(path: &str, record: Option<(&str, Option<&str>)>) -> FolderGone {
    FolderGone {
        path: path.into(),
        moved_out: false,
        record: record.map(|(id, tag)| Record {
            cloud_id: id.into(),
            tag: tag.map(str::to_string),
        }),
    }
}

fn sent(out: &[FolderRemoval]) -> Vec<(String, String)> {
    out.iter()
        .filter_map(|r| match &r.what {
            FolderWithdrawal::Remove { cloud_id, tag } => Some((cloud_id.clone(), tag.clone())),
            _ => None,
        })
        .collect()
}

#[test]
fn folder_deletes_are_versioned_and_deepest_first() {
    let out = apply_folder_removals(
        vec![
            folder_gone("Work", Some(("drive|parent", Some("et:parent-1")))),
            folder_gone("Work/Empty", Some(("drive|child", Some("et:child-1")))),
        ],
        &Table::new(),
        0,
    )
    .unwrap();
    assert_eq!(
        sent(&out),
        [
            ("drive|child".to_string(), "et:child-1".to_string()),
            ("drive|parent".to_string(), "et:parent-1".to_string()),
        ]
    );
}

#[test]
fn folder_delete_without_both_identity_and_version_never_reaches_the_sink() {
    let out = apply_folder_removals(
        vec![
            folder_gone("local-only", None),
            folder_gone("unversioned", Some(("drive|folder", None))),
        ],
        &Table::new(),
        0,
    )
    .unwrap();
    assert!(sent(&out).is_empty());
    let what = |path: &str| {
        out.iter()
            .find(|r| r.path == path)
            .map(|r| matches!(r.what, FolderWithdrawal::NoIdentity))
    };
    assert_eq!(what("local-only"), Some(true));
    assert_eq!(what("unversioned"), Some(false));
}

#[test]
fn an_oversized_folder_delete_batch_is_all_or_nothing() {
    // One over the floor, with nothing tracked, so the ceiling is the floor.
    let gone: Vec<FolderGone> = (0..=REMOVAL_FLOOR)
        .map(|index| {
            folder_gone(
                &format!("folder-{index}"),
                Some((
                    format!("drive|folder-{index}").as_str(),
                    Some(format!("et:folder-{index}").as_str()),
                )),
            )
        })
        .collect();
    assert_eq!(apply_folder_removals(gone, &Table::new(), 0), None);
}

#[test]
fn an_oversized_file_delete_batch_is_all_or_nothing() {
    let many: Vec<Gone> = (0..=REMOVAL_FLOOR).map(|i| gone(&format!("f{i}"))).collect();
    let mut registers = Registers::load(None);
    let out = apply_removals(
        &mut registers,
        &many,
        &Table::new(),
        &Table::new(),
        0,
        None,
        None,
    );
    assert_eq!(out, None);
    assert_eq!(removal_ceiling(0), REMOVAL_FLOOR);
    assert_eq!(removal_ceiling(2000), 200);
}

fn facts(id: Option<&[u8]>, etag: Option<&[u8]>) -> RenameFacts {
    RenameFacts {
        internal: false,
        ignored: false,
        cloud_id: id.map(|b| b.to_vec()),
        etag: etag.map(|b| b.to_vec()),
    }
}

#[test]
fn identity_preserving_local_rename_uses_the_namespace_operation() {
    assert_eq!(
        apply_rename(facts(Some(b"cloud-rename"), Some(b"ctag-before"))),
        Rename::Move {
            cloud_id: "cloud-rename".into(),
            tag: Some("ctag-before".into()),
        }
    );
}

#[test]
fn identity_preserving_folder_rename_uses_the_same_guarded_namespace_operation() {
    assert_eq!(
        apply_rename(facts(Some(b"cloud-folder"), Some(b"et:folder-before"))),
        Rename::Move {
            cloud_id: "cloud-folder".into(),
            tag: Some("et:folder-before".into()),
        }
    );
}

#[test]
fn atomic_replacement_without_identity_is_not_a_cloud_rename() {
    assert_eq!(apply_rename(facts(None, None)), Rename::Replacement);
    let mut internal = facts(Some(b"x"), None);
    internal.internal = true;
    assert_eq!(apply_rename(internal), Rename::Ignore);
}

fn here(ino: u64, identified: bool, parent: Option<bool>) -> Reply {
    Reply::Saw(Look {
        ignored: false,
        here: Some(Here {
            folder: true,
            id: FileId { fsid: 1, ino },
        }),
        identified,
        parent,
    })
}

#[test]
fn local_folder_create_is_parent_first_and_records_returned_identity() {
    let mut pending: Table<String, ()> = Table::new();
    pending.insert("Projects/New".into(), ());
    pending.insert("Projects".into(), ());
    let mut c = Creates::begin(pending, Table::new());
    let mut created = Vec::new();
    let mut recorded = Vec::new();
    let mut ino = 10;
    loop {
        match c.want() {
            Want::Over => break,
            Want::Look => {
                ino += 1;
                c.reply(here(ino, false, Some(true)));
            }
            Want::Create => {
                let path = c.path();
                let name = path.rsplit('/').next().unwrap().to_string();
                created.push(path);
                c.reply(Reply::Created(Some(Uploaded {
                    cloud_id: format!("cloud-{name}"),
                    etag: Some(format!("et:version-{name}")),
                })));
            }
            Want::Record => {
                let u = c.object().unwrap();
                recorded.push((c.path(), u.cloud_id.clone(), u.etag.clone()));
                c.reply(Reply::Did(true));
            }
            Want::Withdraw => panic!("nothing was to be withdrawn"),
        }
    }
    assert_eq!(
        created,
        ["Projects", "Projects/New"],
        "a child was sent before its parent's returned cloud identity was recorded"
    );
    assert_eq!(recorded[0].1, "cloud-Projects");
    assert_eq!(recorded[1].2.as_deref(), Some("et:version-New"));
    let (pending, committed, done) = c.finish();
    assert!(pending.is_empty());
    assert!(committed.is_empty());
    assert_eq!(done.len(), 2);
}

#[test]
fn a_create_whose_record_failed_is_not_made_twice() {
    let mut pending: Table<String, ()> = Table::new();
    pending.insert("New".into(), ());
    let mut c = Creates::begin(pending, Table::new());
    assert_eq!(c.want(), Want::Look);
    c.reply(here(7, false, Some(true)));
    assert_eq!(c.want(), Want::Create);
    c.reply(Reply::Created(Some(Uploaded {
        cloud_id: "cloud-New".into(),
        etag: None,
    })));
    assert_eq!(c.want(), Want::Record);
    c.reply(Reply::Did(false));
    assert_eq!(c.want(), Want::Over);
    let (pending, committed, _) = c.finish();
    assert_eq!(pending.len(), 1);
    assert_eq!(committed.len(), 1);

    let mut again = Creates::begin(pending, committed);
    assert_eq!(again.want(), Want::Look);
    again.reply(here(7, false, Some(true)));
    assert_eq!(again.want(), Want::Record, "the folder was created again");
    assert_eq!(again.object().unwrap().cloud_id, "cloud-New");
    again.reply(Reply::Did(true));
    let (pending, committed, done) = again.finish();
    assert!(pending.is_empty());
    assert!(committed.is_empty());
    assert_eq!(done.len(), 1);
}
