use hydration_client::folder_index::folders_by_cloud_id;
use hydration_client::offline::{
    detect_offline_removals, has_cloud_identity, journal, scan_present, unidentified_folders,
    Folder, Present, REMOVAL_FLOOR,
};
use hydration_client::table::Table;

fn manifest(entries: &[(&str, &str)]) -> String {
    let mut s = String::from("# path\tcloud-id\tsize\tetag\n");
    for (p, id) in entries {
        s.push_str(&format!("{p}\t{id}\t10\t-\n"));
    }
    s
}

fn lineage(entries: &[(&str, &str)]) -> String {
    let mut s = String::from("# path\tcloud-id\tetag\n");
    for (p, id) in entries {
        s.push_str(&format!("{p}\t{id}\n"));
    }
    s
}

/// A file present on disk, carrying the cloud id the journal knows it by.
fn place(rel: &str, cloud_id: &str) -> Present {
    Present {
        path: format!("/root/{rel}"),
        regular: true,
        internal: false,
        cloud_id: Some(cloud_id.as_bytes().to_vec()),
    }
}

fn detect(
    manifest: Option<&str>,
    lineage: Option<&str>,
    on_disk: Vec<Present>,
    ignored: &[&str],
) -> Vec<String> {
    let journal = journal(manifest, lineage);
    let (present, on_disk) = scan_present("/root", on_disk);
    let mut skip: Table<String, ()> = Table::new();
    for p in ignored {
        skip.insert(p.to_string(), ());
    }
    let mut v: Vec<String> = detect_offline_removals(&journal, &skip, &present, &on_disk)
        .into_iter()
        .map(|(p, _)| p)
        .collect();
    v.sort();
    v
}

#[test]
fn a_file_deleted_while_the_daemon_was_stopped_is_detected() {
    let m = manifest(&[("kept.pdf", "idK"), ("gone.pdf", "idG")]);
    let l = lineage(&[("Work/kept.txt", "idKH"), ("Work/gone.txt", "idGH")]);
    assert_eq!(
        detect(
            Some(&m),
            Some(&l),
            vec![place("kept.pdf", "idK"), place("Work/kept.txt", "idKH")],
            &[],
        ),
        vec!["Work/gone.txt".to_string(), "gone.pdf".to_string()],
        "a deletion made while the daemon was stopped was not detected"
    );
}

#[test]
fn a_root_with_no_journal_deletes_nothing() {
    assert!(
        detect(
            None,
            None,
            vec![place("a.txt", "idA"), place("b.txt", "idB")],
            &[],
        )
        .is_empty(),
        "a root with no journal produced deletion candidates"
    );
}

#[test]
fn an_offline_move_is_not_a_deletion() {
    let m = manifest(&[("old/a.txt", "idA")]);
    assert!(
        detect(Some(&m), None, vec![place("new/a.txt", "idA")], &[]).is_empty(),
        "a file moved while the daemon was stopped was withdrawn from the cloud"
    );
}

#[test]
fn a_file_still_present_is_not_a_candidate() {
    let m = manifest(&[("a.txt", "idA")]);
    assert!(detect(Some(&m), None, vec![place("a.txt", "idA")], &[]).is_empty());
}

#[test]
fn enabling_ignore_withdraws_nothing_offline() {
    let entries = [
        ("Projects/Aurora/.git/index", "id1"),
        ("Projects/Aurora/.git/HEAD", "id2"),
        ("Projects/Aurora/.git/refs/heads/main", "id3"),
        ("a/b/.git/config", "id4"),
        ("submodule/.git", "id5"),
        ("Documents/report.txt", "idReal"),
    ];
    let m = manifest(&entries);
    let ignored: Vec<&str> = entries[..5].iter().map(|(p, _)| *p).collect();
    assert_eq!(
        detect(Some(&m), None, vec![], &ignored),
        vec!["Documents/report.txt".to_string()],
        "an ignored path was an offline withdrawal candidate"
    );
}

#[test]
fn a_whole_root_disappearance_is_refused() {
    let entries: Vec<(String, String)> = (0..REMOVAL_FLOOR * 2)
        .map(|i| (format!("f{i}.txt"), format!("id{i}")))
        .collect();
    let refs: Vec<(&str, &str)> = entries
        .iter()
        .map(|(p, i)| (p.as_str(), i.as_str()))
        .collect();
    let m = manifest(&refs);
    assert!(
        detect(Some(&m), None, vec![], &[]).is_empty(),
        "a whole-root disappearance was withdrawn without being asked"
    );
}

#[test]
fn a_large_folder_that_is_a_small_fraction_is_withdrawn() {
    let mut known: Vec<(String, String)> = Vec::new();
    for i in 0..1850 {
        known.push((format!("Other/f{i}.txt"), format!("keep{i}")));
    }
    for i in 0..150 {
        known.push((format!("Photos/2024/p{i}.jpg"), format!("gone{i}")));
    }
    let refs: Vec<(&str, &str)> = known
        .iter()
        .map(|(p, i)| (p.as_str(), i.as_str()))
        .collect();
    let m = manifest(&refs);
    let placed: Vec<Present> = (0..1850)
        .map(|i| place(&format!("Other/f{i}.txt"), &format!("keep{i}")))
        .collect();
    let candidates = detect(Some(&m), None, placed, &[]);
    assert_eq!(candidates.len(), 150);
    assert!(
        candidates.iter().all(|p| p.starts_with("Photos/2024/")),
        "the withdrawal reached outside the deleted folder"
    );
}

fn folder(path: &str, id: Option<&[u8]>) -> Folder {
    Folder {
        path: path.into(),
        cloud_id: id.map(|b| b.to_vec()),
    }
}

#[test]
fn unidentified_folders_does_not_descend_git() {
    // A directory that is never synced is not walked into, so it is not among
    // the directories found.
    let found = unidentified_folders(
        "/root",
        &vec![
            folder("/root/repo", None),
            folder("/root/Projects", Some(b"id-P")),
            folder("/root/Projects/NewThing", None),
            folder("/root/Projects/Empty", Some(b"")),
        ],
    );
    assert!(found.contains(&"Projects/NewThing".to_string()));
    assert!(found.contains(&"repo".to_string()));
    assert!(!found.contains(&"Projects".to_string()));
    assert!(found.contains(&"Projects/Empty".to_string()));
    assert_eq!(found.len(), 3);
    assert!(!has_cloud_identity(&Some(Vec::new())));
    assert!(has_cloud_identity(&Some(b"x".to_vec())));
    assert!(!has_cloud_identity(&None));
}

#[test]
fn folders_are_indexed_by_their_objects() {
    let t = folders_by_cloud_id(&vec![
        folder("/r/a", Some(b"A")),
        folder("/r/b", None),
        folder("/r/c", Some(b"")),
    ])
    .unwrap();
    assert_eq!(t.len(), 1);
    assert_eq!(t.get(&"A".to_string()).map(String::as_str), Some("/r/a"));
}

#[test]
fn two_folders_with_one_object_are_an_error() {
    let e = folders_by_cloud_id(&vec![
        folder("/r/a", Some(b"A\"1")),
        folder("/r/b", Some(b"A\"1")),
    ])
    .err()
    .unwrap();
    assert_eq!(e, "folder cloud identity \"A\\\"1\" is claimed more than once");
    let e = folders_by_cloud_id(&vec![folder("/r/a", Some(&[0xff, 0xfe]))])
        .err()
        .unwrap();
    assert_eq!(e, "folder at /r/a has a non-UTF-8 cloud identity");
}
