use hydration_client::control::{
    evict_reply, parse_command, pending_reply, pin_reply, status_reply, unknown_reply, Command,
};
use hydration_client::daemon_loop::{sweep_interval, under_pressure, Sweep};
use hydration_client::evict_policy::{Candidate, EvictionConfig};
use hydration_client::reclaim::{
    evictable_candidates, pending, pin_chain, reclaim, set_pin, settle, visit, Facts, Held, Kind,
    Meta, Plan, Real, Reclaimed, Refused, Resident, Stamp, Visit, Walked, UNREAD_PIN,
};
use hydration_client::store::Store;
use hydration_client::table::{FileId, Table};

const ID: FileId = FileId { fsid: 1, ino: 10 };

fn reserved() -> Vec<String> {
    vec![".hydration-manifest".to_string()]
}

/// A file that has been sent and not touched since.
fn synced(rel: &str, size: u64) -> Facts {
    Facts {
        ignored: false,
        meta: Ok(Meta {
            regular: true,
            id: ID,
            size,
            blocks: size / 512,
        }),
        resolved: Some(Real {
            path: format!("/sync/{rel}"),
            root: "/sync".into(),
        }),
        dehydrated: Ok(false),
        pins: pin_chain(&format!("/sync/{rel}"), "/sync")
            .iter()
            .map(|_| Ok(false))
            .collect(),
        cloud_id: Ok(Some(b"cloud-1".to_vec())),
        stamp: Ok(Stamp::Clean),
        etag: Ok(Some(b"etag-1".to_vec())),
    }
}

fn run(rel: &str, facts: &Facts) -> Result<Plan, Refused> {
    reclaim(rel, &reserved(), facts, &Table::new(), &Table::new()).unwrap()
}

fn only(id: FileId) -> Table<FileId, ()> {
    let mut t = Table::new();
    t.insert(id, ());
    t
}

#[test]
fn a_synced_file_gives_its_disk_back_and_keeps_its_identity() {
    let plan = run("report.pdf", &synced("report.pdf", 8192)).unwrap();
    assert_eq!(plan.size, 8192, "the size no longer describes the object");
    assert_eq!(plan.cloud_id, "cloud-1");
    assert_eq!(plan.etag.as_deref(), Some("etag-1"));
    assert_eq!(plan.path, "/sync/report.pdf");

    let mut store = Store::new();
    store.remember(ID, "/sync/report.pdf");
    assert_eq!(
        settle(&mut store, &plan, true, Some(0)),
        Ok(Reclaimed { bytes: 8192 })
    );
    assert!(store.is_empty(), "the index still names the old inode");
}

#[test]
fn an_atomic_save_after_the_clean_check_is_preserved() {
    let plan = run("report.docx", &synced("report.docx", 1024)).unwrap();
    let mut store = Store::new();
    store.remember(ID, "/sync/report.docx");
    assert_eq!(
        settle(&mut store, &plan, false, None),
        Err(Refused::ChangedSinceUpload)
    );
    assert_eq!(store.len(), 1, "nothing was replaced, so nothing is forgotten");
}

#[test]
fn a_placeholder_that_costs_a_block_frees_that_much_less() {
    let plan = run("a.bin", &synced("a.bin", 8192)).unwrap();
    let mut store = Store::new();
    assert_eq!(
        settle(&mut store, &plan, true, Some(8)),
        Ok(Reclaimed { bytes: 4096 })
    );
    assert_eq!(
        settle(&mut store, &plan, true, Some(32)),
        Ok(Reclaimed { bytes: 0 })
    );
}

#[test]
fn a_file_the_cloud_does_not_have_is_never_evicted() {
    let mut f = synced("draft.md", 512);
    f.cloud_id = Ok(None);
    assert_eq!(run("draft.md", &f), Err(Refused::NotUploaded));
    f.cloud_id = Ok(Some(Vec::new()));
    assert_eq!(run("draft.md", &f), Err(Refused::NotUploaded));
    f.cloud_id = Ok(Some(vec![0xff]));
    assert_eq!(run("draft.md", &f), Err(Refused::NotUploaded));
}

fn resident(rel: &str, size: u64) -> Resident {
    Resident {
        path: format!("/sync/{rel}"),
        dehydrated: Ok(false),
        under_pin: false,
        pinned: Ok(false),
        cloud_id: Ok(Some(b"cloud-1".to_vec())),
        stamp: Ok(Stamp::Clean),
        held: Ok(Held {
            mtime: 1_700_000_000,
            blocks: size / 512,
        }),
        hydrated_at: Ok(None),
    }
}

#[test]
fn an_ignored_never_uploaded_file_is_never_an_eviction_candidate() {
    assert_eq!(visit(Kind::Dir, false, true), Visit::Skip);
    assert_eq!(visit(Kind::File, false, true), Visit::Skip);
    assert_eq!(visit(Kind::File, false, false), Visit::Look);

    let candidates = evictable_candidates("/sync", &vec![resident("report.pdf", 8192)]).unwrap();
    assert_eq!(candidates[0].rel, "report.pdf");

    // The explicit request is refused too.
    let mut f = synced("repo/.git/index", 8192);
    f.ignored = true;
    assert_eq!(
        run("repo/.git/index", &f),
        Err(Refused::NotEligible(
            "\"repo/.git/index\" is sync-ignored and is kept as a real local file".into()
        ))
    );
}

#[test]
fn a_file_edited_since_the_upload_is_never_evicted() {
    let mut f = synced("notes.txt", 512);
    f.stamp = Ok(Stamp::Dirty);
    assert_eq!(run("notes.txt", &f), Err(Refused::ChangedSinceUpload));
    f.stamp = Ok(Stamp::Unstamped);
    assert_eq!(run("notes.txt", &f), Err(Refused::ChangedSinceUpload));
}

#[test]
fn a_file_with_an_edit_waiting_is_never_evicted() {
    let f = synced("doc.txt", 512);
    assert_eq!(
        reclaim("doc.txt", &reserved(), &f, &only(ID), &Table::new()).unwrap(),
        Err(Refused::UploadPending)
    );
    // And the same file being sent right now.
    assert_eq!(
        reclaim("doc.txt", &reserved(), &f, &Table::new(), &only(ID)).unwrap(),
        Err(Refused::UploadPending)
    );
}

#[test]
fn evicting_a_placeholder_is_refused_rather_than_repeated() {
    let mut f = synced("a.bin", 256);
    f.dehydrated = Ok(true);
    assert_eq!(run("a.bin", &f), Err(Refused::AlreadyDehydrated));
}

#[test]
fn a_path_outside_the_sync_directory_is_refused() {
    let f = synced("x", 1);
    assert!(matches!(
        run("/elsewhere/not-ours.txt", &f),
        Err(Refused::NotEligible(_))
    ));
}

#[test]
fn a_path_that_walks_out_of_the_sync_directory_is_refused() {
    assert_eq!(
        run("../escape-victim.txt", &synced("x", 1)),
        Err(Refused::NotEligible(
            "\"../escape-victim.txt\" is not a path inside the sync directory".into()
        ))
    );
}

#[test]
fn hostile_arguments_are_refused_and_none_of_them_panic() {
    // What no file is found for is an error and not a refusal.
    let mut missing = synced("x", 1);
    missing.meta = Err("No such file or directory".into());
    for arg in [
        "../../../etc/hosts",
        "/etc/passwd",
        "..",
        "",
        ".",
        "./x",
        "a/../../b",
        "sub/../../../out",
        ".hydration-manifest",
        "\u{0}weird",
    ] {
        let out = reclaim(arg, &reserved(), &missing, &Table::new(), &Table::new());
        assert!(
            matches!(out, Ok(Err(Refused::NotEligible(_))) | Err(_)),
            "{arg:?} was not refused: {out:?}"
        );
    }
}

#[test]
fn a_symlinked_subdirectory_cannot_be_used_to_escape() {
    let mut f = synced("out/symlink-victim.txt", 16);
    f.resolved = Some(Real {
        path: "/symlink-victim.txt".into(),
        root: "/sync".into(),
    });
    assert_eq!(
        run("out/symlink-victim.txt", &f),
        Err(Refused::NotEligible(
            "resolves outside the sync directory".into()
        ))
    );
    // A sibling whose name begins like the root's is outside as well.
    f.resolved = Some(Real {
        path: "/sync2/victim".into(),
        root: "/sync".into(),
    });
    assert!(matches!(
        run("out/symlink-victim.txt", &f),
        Err(Refused::NotEligible(_))
    ));
    f.resolved = None;
    assert_eq!(
        run("out/symlink-victim.txt", &f),
        Err(Refused::NotEligible("could not resolve the path".into()))
    );
}

#[test]
fn the_manifest_is_not_a_candidate() {
    assert!(matches!(
        run(".hydration-manifest", &synced(".hydration-manifest", 16)),
        Err(Refused::NotEligible(_))
    ));
    assert_eq!(visit(Kind::File, true, false), Visit::Skip);
}

#[test]
fn a_pinned_file_is_never_evicted() {
    let mut f = synced("keep.pdf", 8192);
    f.pins[0] = Ok(true);
    assert_eq!(
        run("keep.pdf", &f),
        Err(Refused::Pinned {
            via: "/sync/keep.pdf".into()
        })
    );
}

#[test]
fn a_file_under_a_pinned_directory_is_never_evicted() {
    assert_eq!(
        pin_chain("/sync/keep-me/later.bin", "/sync"),
        ["/sync/keep-me/later.bin", "/sync/keep-me", "/sync"]
    );
    let mut f = synced("keep-me/later.bin", 4096);
    f.pins[1] = Ok(true);
    assert_eq!(
        run("keep-me/later.bin", &f),
        Err(Refused::Pinned {
            via: "/sync/keep-me".into()
        })
    );
}

#[test]
fn unpinning_restores_eligibility_and_does_not_itself_evict() {
    let mut f = synced("toggle.bin", 8192);
    f.pins[0] = Ok(true);
    assert!(matches!(run("toggle.bin", &f), Err(Refused::Pinned { .. })));
    f.pins[0] = Ok(false);
    assert!(run("toggle.bin", &f).is_ok());
}

#[test]
fn what_could_not_be_read_is_an_error_and_no_decision() {
    let mut f = synced("a", 1);
    f.pins[0] = Err("io".into());
    assert_eq!(
        reclaim("a", &reserved(), &f, &Table::new(), &Table::new()),
        Err("io".to_string())
    );
    let mut f = synced("a", 1);
    f.stamp = Err("stamp".into());
    assert_eq!(
        reclaim("a", &reserved(), &f, &Table::new(), &Table::new()),
        Err("stamp".to_string())
    );
}

#[test]
fn set_pin_confines_like_evict() {
    for arg in [
        "../../../etc/hosts",
        "/etc/passwd",
        "..",
        "a/../../b",
        ".hydration-manifest",
        "\u{0}weird",
    ] {
        let out = set_pin(arg, &reserved(), &None);
        assert!(
            matches!(out, Err(Refused::NotEligible(_))),
            "{arg:?} was not refused by set_pin: {out:?}"
        );
    }
    let inside = Some(Real {
        path: "/sync/keep".into(),
        root: "/sync".into(),
    });
    assert_eq!(
        set_pin("keep", &reserved(), &inside),
        Ok("/sync/keep".to_string())
    );
}

fn walked(path: &str, dehydrated: bool) -> Walked {
    Walked {
        path: path.into(),
        dehydrated: Ok(dehydrated),
    }
}

#[test]
fn pending_lists_only_dehydrated_regular_files_and_skips_internal_names() {
    let tree = Some(Real {
        path: "/sync/tree".into(),
        root: "/sync".into(),
    });
    let got = pending(
        "tree",
        &reserved(),
        &tree,
        true,
        &vec![
            walked("/sync/tree/sub/b.bin", true),
            walked("/sync/tree/resident.txt", false),
            walked("/sync/tree/a.bin", true),
        ],
    )
    .unwrap()
    .unwrap();
    assert_eq!(
        got,
        vec!["tree/a.bin".to_string(), "tree/sub/b.bin".to_string()]
    );
}

#[test]
fn pending_confines_to_the_subtree_and_wants_a_directory() {
    for arg in ["../..", "/etc", "..", ".hydration-manifest", "\u{0}x"] {
        let out = pending(arg, &reserved(), &None, true, &Vec::new());
        assert!(
            matches!(out, Ok(Err(Refused::NotEligible(_))) | Err(_)),
            "{arg:?} was not refused by pending: {out:?}"
        );
    }
    let file = Some(Real {
        path: "/sync/lonely.bin".into(),
        root: "/sync".into(),
    });
    assert!(
        matches!(
            pending("lonely.bin", &reserved(), &file, false, &Vec::new()),
            Ok(Err(Refused::NotEligible(_)))
        ),
        "pending accepted a file where it needs a directory"
    );
}

#[test]
fn enumerate_lists_only_evictable_residents() {
    let mut placeholder = resident("placeholder.bin", 0);
    placeholder.dehydrated = Ok(true);
    let mut pinned = resident("pinned.bin", 8192);
    pinned.pinned = Ok(true);
    let mut dirty = resident("dirty.bin", 512);
    dirty.stamp = Ok(Stamp::Dirty);
    let mut offline = resident("offline.bin", 512);
    offline.cloud_id = Ok(None);
    let got = evictable_candidates(
        "/sync",
        &vec![
            placeholder,
            pinned,
            resident("keep-me-not.bin", 8192),
            dirty,
            offline,
        ],
    )
    .unwrap();
    assert_eq!(
        got,
        [Candidate {
            rel: "keep-me-not.bin".into(),
            // What the placeholder gives back is measured in blocks.
            reclaimable: 8192,
            // Nothing was recorded, so the file's own time counts.
            recency: 1_700_000_000,
        }]
    );
}

#[test]
fn enumerate_finds_nested_residents_and_skips_a_pinned_subtree() {
    let mut under = resident("keep/under-pin.bin", 4096);
    under.under_pin = true;
    let mut acquired = resident("a/b/deep.bin", 4096);
    acquired.hydrated_at = Ok(Some(42));
    let got = evictable_candidates("/sync", &vec![under, acquired]).unwrap();
    assert_eq!(got.len(), 1);
    assert_eq!(got[0].rel, "a/b/deep.bin");
    assert_eq!(got[0].recency, 42);
}

fn cfg() -> EvictionConfig {
    EvictionConfig {
        low_pct: 100,
        low_abs: 100,
        high_pct: 100,
        high_abs: 1_000_000,
        grace_secs: 0,
        sweep_cap: 1_000_000,
        min_interval_secs: 0,
    }
}

#[test]
fn a_sweep_evicts_a_resident_but_skips_an_uploading_file() {
    let candidates = vec![
        Candidate {
            rel: "a.bin".into(),
            reclaimable: 8192,
            recency: 1,
        },
        Candidate {
            rel: "b.bin".into(),
            reclaimable: 8192,
            recency: 2,
        },
    ];
    // available 0 < low 100 -> under pressure; total huge so high = high_abs.
    let mut sweep = Sweep::plan_and_reclaim(&cfg(), 0, 10_000_000, 10_000, candidates);
    let b_id = FileId { fsid: 1, ino: 11 };
    let mut evicted = Vec::new();
    while let Some(rel) = sweep.next() {
        let mut f = synced(&rel, 8192);
        if rel == "b.bin" {
            f.meta = Ok(Meta {
                regular: true,
                id: b_id,
                size: 8192,
                blocks: 16,
            });
        }
        let r = reclaim(&rel, &reserved(), &f, &Table::new(), &only(b_id)).unwrap();
        match r {
            Ok(plan) => {
                let mut store = Store::new();
                let got = settle(&mut store, &plan, true, Some(0));
                evicted.push(rel);
                sweep.settled(&Ok(got));
            }
            Err(why) => sweep.settled(&Ok(Err(why))),
        }
    }
    assert_eq!(evicted, ["a.bin"], "a file being uploaded was evicted");
    assert_eq!(sweep.freed(), 8192);
}

#[test]
fn a_sweep_without_pressure_evicts_nothing() {
    let default = EvictionConfig::default_pressure();
    // With total 1000, low = min(10% = 100, 10 GiB) = 100.
    assert!(!under_pressure(&default, 500, 1000));
    assert!(under_pressure(&default, 99, 1000));
    let sweep = Sweep::plan_and_reclaim(
        &default,
        500,
        1000,
        10_000,
        vec![Candidate {
            rel: "resident.bin".into(),
            reclaimable: 8192,
            recency: 1,
        }],
    );
    assert_eq!(sweep.next(), None);
    assert_eq!(sweep.freed(), 0, "freed bytes without pressure");
    assert!(sweep_interval(&default) > 0);
}

#[test]
fn requests_are_told_apart_by_their_first_word() {
    assert_eq!(
        parse_command("evict some file.txt\n"),
        Command::Evict("some file.txt".into())
    );
    assert_eq!(parse_command("pin a"), Command::Pin("a".into()));
    assert_eq!(parse_command("unpin a/b"), Command::Unpin("a/b".into()));
    assert_eq!(parse_command("pending d"), Command::Pending("d".into()));
    assert_eq!(parse_command("status"), Command::Status);
    assert_eq!(parse_command("watch"), Command::Watch);
    assert_eq!(parse_command("  \n"), Command::Nothing);
    assert_eq!(parse_command("frobnicate x"), Command::Unknown("frobnicate".into()));
}

#[test]
fn replies_are_plain_lines() {
    assert_eq!(
        evict_reply(&Ok(Ok(Reclaimed { bytes: 4096 }))),
        "reclaimed 4096 bytes"
    );
    assert!(evict_reply(&Ok(Err(Refused::NotUploaded))).starts_with("kept: "));
    assert!(evict_reply(&Ok(Err(Refused::Pinned {
        via: "/sync/keep".into()
    })))
    .contains("/sync/keep"));
    assert_eq!(evict_reply(&Err("gone".into())), "error: gone");
    assert_eq!(pin_reply(true, &Ok(Ok(()))), "pinned");
    assert_eq!(pin_reply(false, &Ok(Ok(()))), "unpinned");
    assert_eq!(
        pending_reply(&Ok(Ok(vec!["a".into(), "b c".into()]))),
        "a\nb c"
    );
    assert_eq!(pending_reply(&Ok(Ok(Vec::new()))), "");
    assert_eq!(
        status_reply(3, 0, &Vec::new()),
        "3 unsent\nNo files are excluded from backup.\nno other mount exposes these files"
    );
    assert_eq!(
        status_reply(0, 0, &vec!["/mnt/x".into()]),
        "0 unsent\nNo files are excluded from backup.\nWARNING: 1 other mount(s) bypass hydration: [\"/mnt/x\"]"
    );
    assert!(unknown_reply("frobnicate").contains("frobnicate"));
}

#[test]
fn a_pin_that_was_not_read_is_not_taken_for_none() {
    let mut facts = synced("deep/report.pdf", 8192);
    assert_eq!(facts.pins.len(), 3);
    facts.pins.pop();
    let r = reclaim("deep/report.pdf", &reserved(), &facts, &Table::new(), &Table::new());
    assert_eq!(r, Err(UNREAD_PIN.to_string()));
    facts.pins[0] = Ok(true);
    assert_eq!(
        run("deep/report.pdf", &facts),
        Err(Refused::Pinned {
            via: "/sync/deep/report.pdf".into()
        })
    );
}
