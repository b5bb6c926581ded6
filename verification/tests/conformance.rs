use hydration_client::cloud::{
    dehydrated_count, notice_changes, Cloud, Noticed, Settle, Stat, SETTLE_ROUNDS,
};
use hydration_client::conformance::{CloudOp, FetchBehaviour, Outcome};
use hydration_client::invariants::{
    atomic_save_keeps_its_name, delete_beats_inflight_upload, fsync_does_not_lie,
    hydration_mismatch_fails_closed, identity_is_stable, libc_eio, mode_survives_dehydration,
    run_all, size_is_local_truth, worker_death_fails_closed, DeleteSeen, FsyncSeen, IdentitySeen,
    MismatchSeen, ModeSeen, ReadError, SaveSeen, Seen, SizeSeen, WorkerSeen,
};
use hydration_client::serve::Span;
use hydration_client::table::FileId;

fn good() -> Seen {
    Seen {
        identity: IdentitySeen {
            ino_before: 7,
            ino_after: 7,
            content: b"scaffolded by npm init\n".to_vec(),
        },
        size: SizeSeen {
            len: 23,
            content: b"scaffolded by npm init\n".to_vec(),
        },
        mode: ModeSeen {
            size_before: 21,
            mode_evicted: 0o100755,
            size_evicted: 21,
            content: b"#!/bin/sh\necho hello\n".to_vec(),
            mode_after: 0o100755,
        },
        save: SaveSeen {
            started: true,
            target_exists: true,
            target: b"edited\n".to_vec(),
            temp_exists: false,
            remote: Some(b"edited\n".to_vec()),
            remote_temp: false,
        },
        delete: DeleteSeen {
            started: true,
            in_cloud: false,
            exists: false,
            ops: Vec::new(),
        },
        fsync: FsyncSeen {
            content: b"must survive\n".to_vec(),
            len: 13,
            pending: 1,
        },
        mismatch: MismatchSeen {
            blocks_before: 0,
            error: Some(eio()),
            blocks_after: 0,
            read_len: 4096,
            len: 4096,
        },
        worker: None,
    }
}

fn eio() -> ReadError {
    ReadError {
        errno: Some(5),
        data_error: false,
        shown: "EIO".into(),
    }
}

#[test]
fn a_run_in_which_all_is_well_passes() {
    let out = run_all(&good()).unwrap();
    let labels: Vec<&str> = out.iter().map(|(l, _)| *l).collect();
    assert_eq!(
        labels,
        [
            "5.1 identity is stable",
            "5.2 size is local truth",
            "5.3 mode survives dehydration",
            "5.4 atomic save keeps its name",
            "5.5 delete beats in-flight upload",
            "5.6 fsync does not lie",
            "5.7 hydration mismatch fails closed",
            "6a worker death fails closed",
        ]
    );
    assert!(out[..7].iter().all(|(_, o)| o.is_pass()));
    assert!(!out[7].1.is_pass(), "a skip must not read as a pass");
    assert!(matches!(&out[7].1, Outcome::NotApplicable(why) if why.contains("no separable")));
}

#[test]
fn the_first_thing_that_is_wrong_is_the_report() {
    let mut seen = good();
    seen.fsync.pending = 0;
    seen.identity.ino_after = 8;
    assert_eq!(
        run_all(&seen).unwrap_err(),
        "inode changed when the cloud id was adopted: 7 -> 8. A reader holding this file saw it become a different file."
    );
}

#[test]
fn each_failure_is_named() {
    let mut s = good();
    s.identity.content = Vec::new();
    assert_eq!(
        identity_is_stable(&s.identity).unwrap_err(),
        "content changed across id adoption"
    );
    s.size.len = 0;
    assert_eq!(
        size_is_local_truth(&s.size).unwrap_err(),
        "stat reported 0 bytes for a file that was just given 23"
    );
    s.mode.mode_evicted = 0o100644;
    assert_eq!(
        mode_survives_dehydration(&s.mode).unwrap_err(),
        "mode lost while the file was dehydrated"
    );
    s.mode.mode_evicted = 0o755;
    s.mode.size_evicted = 0;
    assert!(mode_survives_dehydration(&s.mode)
        .unwrap_err()
        .starts_with("size lost"));
    s.save.remote = Some(b"original\n".to_vec());
    assert_eq!(
        atomic_save_keeps_its_name(&s.save).unwrap_err(),
        "the cloud holds stale content"
    );
    s.save.remote = None;
    assert_eq!(
        atomic_save_keeps_its_name(&s.save).unwrap_err(),
        "the cloud does not hold the file under its real name"
    );
    s.save.started = false;
    assert!(atomic_save_keeps_its_name(&s.save).is_err());
    s.fsync.len = 0;
    assert!(fsync_does_not_lie(&s.fsync).is_err());
    assert_eq!(libc_eio(), 5);
}

#[test]
fn an_upload_that_was_overtaken_has_to_be_cleaned_up() {
    let mut d = good().delete;
    d.ops = vec![CloudOp::Put {
        name: "scratch.txt".into(),
        content: b"transient\n".to_vec(),
    }];
    assert_eq!(
        delete_beats_inflight_upload(&d).unwrap_err(),
        "the upload created the remote object and nothing deleted it"
    );
    d.ops.push(CloudOp::Delete {
        id: "cloud-1".into(),
    });
    assert_eq!(delete_beats_inflight_upload(&d), Ok(Outcome::Pass));
    d.in_cloud = true;
    assert!(delete_beats_inflight_upload(&d).is_err());
}

#[test]
fn a_short_hydration_has_to_fail() {
    let mut m = good().mismatch;
    m.error = None;
    assert_eq!(
        hydration_mismatch_fails_closed(&m).unwrap_err(),
        "a short hydration must not succeed"
    );
    m.error = Some(ReadError {
        errno: Some(2),
        data_error: false,
        shown: "ENOENT".into(),
    });
    assert!(hydration_mismatch_fails_closed(&m)
        .unwrap_err()
        .ends_with("got ENOENT"));
    m.error = Some(ReadError {
        errno: None,
        data_error: true,
        shown: "bad".into(),
    });
    assert_eq!(hydration_mismatch_fails_closed(&m), Ok(Outcome::Pass));
    m.blocks_after = 8;
    assert!(hydration_mismatch_fails_closed(&m).is_err());
}

#[test]
fn a_dead_worker_must_not_serve_zeros() {
    let zeros = Some(WorkerSeen {
        blocks_before: 0,
        read: Ok(vec![0; 4096]),
        blocks_after: 0,
    });
    assert_eq!(
        worker_death_fails_closed(&zeros).unwrap_err(),
        "read succeeded with the hydration worker dead, returning 4096 bytes (all zero: true). This is silent data corruption."
    );
    let refused = Some(WorkerSeen {
        blocks_before: 0,
        read: Err(eio()),
        blocks_after: 0,
    });
    assert_eq!(worker_death_fails_closed(&refused), Ok(Outcome::Pass));
}

fn span(offset: u64, len: u64) -> Span {
    Span { offset, len }
}

#[test]
fn the_newest_object_with_a_name_is_found() {
    let mut c = Cloud::new();
    assert_eq!(c.seed("a", &b"one".to_vec(), "e1"), "cloud-1");
    for _ in 0..9 {
        c.seed("filler", &Vec::new(), "e");
    }
    assert_eq!(c.seed("a", &b"two".to_vec(), "e2"), "cloud-11");
    let o = c.by_name("a").unwrap();
    assert_eq!(o.id, "cloud-11");
    assert_eq!(o.content, b"two");
    assert_eq!(c.by_name("b"), None);
}

#[test]
fn a_download_delivers_the_part_that_was_asked_for() {
    let mut c = Cloud::new();
    let id = c.seed("a", &b"0123456789".to_vec(), "e1");
    assert_eq!(c.fetch(&id, span(2, 3)), Some(b"234".to_vec()));
    assert_eq!(c.fetch(&id, span(8, 5)), Some(b"89".to_vec()));
    assert_eq!(c.fetch(&id, span(20, 5)), Some(Vec::new()));
    c.set_behaviour("a", FetchBehaviour::Short { bytes: 2 });
    assert_eq!(c.fetch(&id, span(0, 5)), Some(b"xx".to_vec()));
    assert_eq!(c.fetch(&id, span(0, 1)), Some(b"x".to_vec()));
    c.set_behaviour("a", FetchBehaviour::Stale { etag: "e9".into() });
    assert_eq!(c.fetch(&id, span(0, 3)), Some(b"!!!".to_vec()));
    c.set_behaviour("a", FetchBehaviour::Honest);
    assert_eq!(c.fetch(&id, span(0, 2)), Some(b"01".to_vec()));
    assert_eq!(c.fetch("nobody", span(0, 1)), None);
    assert_eq!(c.ops().len(), 8);
}

#[test]
fn an_upload_goes_over_the_object_it_came_from() {
    let mut c = Cloud::new();
    let id = c.seed("a", &b"one".to_vec(), "e1");
    let u = c.upload("a", &b"two".to_vec(), Some(&id));
    assert_eq!(u.cloud_id, id);
    assert_eq!(u.etag.as_deref(), Some("etag-1"));
    let u = c.upload("b", &b"new".to_vec(), Some("gone"));
    assert_eq!(u.cloud_id, "cloud-2");
    assert_eq!(u.etag.as_deref(), Some("etag-2"));
    c.remove("cloud-2");
    assert_eq!(c.by_name("b"), None);
    assert_eq!(
        c.ops()[2],
        CloudOp::Delete {
            id: "cloud-2".into()
        }
    );
}

#[test]
fn uploads_can_be_held() {
    let mut c = Cloud::new();
    c.enter();
    assert!(c.upload_started());
    c.hold();
    assert!(!c.upload_started());
    assert!(c.holding());
    c.enter();
    c.release();
    assert!(!c.holding());
    assert!(c.upload_started());
}

#[test]
fn only_what_the_cloud_does_not_have_is_sent() {
    let mut c = Cloud::new();
    let id = c.seed("a", &b"same".to_vec(), "e");
    let file = |ino: u64, content: &[u8], cloud_id: Option<&str>| Noticed {
        id: FileId { fsid: 1, ino },
        dehydrated: false,
        content: content.to_vec(),
        cloud_id: cloud_id.map(str::to_string),
    };
    let mut empty = file(4, b"", Some(&id));
    empty.dehydrated = true;
    let got = notice_changes(
        &vec![
            file(1, b"same", Some(&id)),
            file(2, b"edited", Some(&id)),
            file(3, b"new", None),
            empty,
        ],
        &c,
    );
    let inos: Vec<u64> = got.iter().map(|f| f.ino).collect();
    assert_eq!(inos, [2, 3]);
}

#[test]
fn settling_looks_twice_before_it_ends() {
    let s = Settle::begin();
    assert_eq!(
        s,
        Settle::Round {
            left: SETTLE_ROUNDS
        }
    );
    let s = s.next(0);
    assert!(matches!(s, Settle::Confirm { .. }));
    assert_eq!(s.next(0), Settle::Done);
    let again = s.next(1);
    assert_eq!(
        again,
        Settle::Round {
            left: SETTLE_ROUNDS - 1
        }
    );
    let mut s = Settle::begin();
    let mut n = 0;
    while s != Settle::Done {
        s = s.next(1);
        n += 1;
    }
    assert_eq!(n, SETTLE_ROUNDS);
}

#[test]
fn files_without_content_are_counted() {
    let stat = |is_file: bool, blocks: u64| Stat { is_file, blocks };
    assert_eq!(
        dehydrated_count(&vec![stat(true, 0), stat(false, 0), stat(true, 8)]),
        1
    );
}
