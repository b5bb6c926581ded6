use hydration_client::delta::{
    coalesce, folder_path, safe_join, Change, Failure, Kept, Stopped, Why,
};

fn none() -> Vec<String> {
    Vec::new()
}

#[test]
fn a_path_that_would_escape_the_sync_root_is_refused() {
    let root = "/home/frank/OneDrive";
    assert!(safe_join(root, "notes.txt", &none()).is_some());
    assert!(safe_join(root, "sub/notes.txt", &none()).is_some());

    // Each of these puts a file somewhere the user did not ask for, on the
    // say-so of a remote service.
    assert!(safe_join(root, "../../../etc/cron.d/evil", &none()).is_none());
    assert!(safe_join(root, "/etc/passwd", &none()).is_none());
    assert!(safe_join(root, "sub/../../out", &none()).is_none());
    assert!(safe_join(root, "", &none()).is_none());
    assert!(safe_join(root, "./x", &none()).is_none());
}

#[test]
fn a_cloud_object_cannot_claim_one_of_our_own_names() {
    let root = "/home/frank/OneDrive";
    let ours = vec![
        ".hydration-manifest".to_string(),
        ".hydration-manifest.tmp".to_string(),
        ".report.pdf.hydration-4".to_string(),
    ];
    assert!(safe_join(root, ".hydration-manifest", &ours).is_none());
    assert!(safe_join(root, ".hydration-manifest.tmp", &ours).is_none());
    assert!(safe_join(root, "sub/.hydration-manifest", &ours).is_none());
    assert!(safe_join(root, "sub/.report.pdf.hydration-4", &ours).is_none());
    // A name that merely looks similar is the user's business, not ours.
    assert!(safe_join(root, ".hydration-notes.txt", &ours).is_some());
}

#[test]
fn a_safe_path_is_joined_onto_the_root() {
    assert_eq!(
        safe_join("/r", "sub/notes.txt", &none()).as_deref(),
        Some("/r/sub/notes.txt")
    );
    assert_eq!(folder_path("/r", "sub", &none()).as_deref(), Some("/r/sub"));
    assert_eq!(folder_path("/r", "", &none()).as_deref(), Some("/r"));
}

fn file(id: &str, path: &str) -> Change {
    Change::Upserted {
        cloud_id: id.into(),
        path: path.into(),
        size: 1,
        etag: None,
    }
}

#[test]
fn the_last_change_of_each_object_counts() {
    let gone = Change::Removed {
        cloud_id: "b".into(),
    };
    let list = vec![
        file("a", "one.txt"),
        file("b", "two.txt"),
        file("a", "three.txt"),
        gone.clone(),
        file("c", "four.txt"),
    ];
    assert_eq!(
        coalesce(&list),
        vec![file("a", "three.txt"), gone, file("c", "four.txt")],
        "one change per object, and the order kept"
    );
}

#[test]
fn an_object_that_comes_back_is_not_removed() {
    let folder = Change::FolderUpserted {
        cloud_id: "f".into(),
        path: "d".into(),
        etag: None,
    };
    let folder_gone = Change::FolderRemoved {
        cloud_id: "f".into(),
        path: "d".into(),
    };
    assert_eq!(
        coalesce(&vec![folder_gone.clone(), folder.clone()]),
        vec![folder.clone()]
    );
    assert_eq!(
        coalesce(&vec![folder, folder_gone.clone()]),
        vec![folder_gone]
    );
}

#[test]
fn what_went_wrong_is_said_in_words() {
    assert_eq!(
        Failure::PathRefused.message(10),
        "the path is empty, escapes the sync root, or claims one of our own names"
    );
    assert_eq!(
        Failure::TooLarge { size: 4242 }.message(10),
        "it claims 4242 bytes, past the 10-byte limit"
    );
    assert_eq!(
        Failure::DestinationOccupied.message(10),
        "another file is already at that path"
    );
    assert_eq!(
        Failure::Rename("busy".into()).message(10),
        "renaming the local file failed: busy"
    );
    assert_eq!(
        Failure::Place("no room".into()).message(10),
        "writing the placeholder failed: no room"
    );
    assert_eq!(
        Failure::Remove("busy".into()).message(10),
        "removing the local file failed: busy"
    );
    assert!(Stopped::MountUnverifiable("gone".into())
        .message()
        .contains("gone"));
    assert!(!Stopped::MountChanged.message().is_empty());
    assert_eq!(
        Why::EditWaiting.message(),
        "an edit is waiting to be uploaded"
    );
    assert_eq!(Why::NeverUploaded.message(), "it has never been uploaded");
    assert_eq!(
        Why::ChangedUnderneath.message(),
        "it has changed since the framework last wrote it"
    );
    let k = Kept::new("a.txt", Why::EditWaiting);
    assert_eq!(k.path, "a.txt");
    assert_eq!(k.why, Why::EditWaiting);
}
