//! The invariants: what has to be seen of an implementation for it to conform.
//!
//! Each takes what was observed in the order in which it was arranged, and gives
//! the first thing that was wrong.

use crate::conformance;
use crate::conformance::{CloudOp, OpModel, Outcome, OutcomeModel};
use crate::number;
use crate::text;
use vstd::prelude::*;
use vstd::string::*;

verus! {

/// What is written into a new file.
pub const SCAFFOLD: &'static str = "scaffolded by npm init\n";

/// A script that has to stay executable.
pub const SCRIPT: &'static str = "#!/bin/sh\necho hello\n";

/// What an atomic save saves.
pub const EDITED: &'static str = "edited\n";

/// What `fsync` was asked to keep.
pub const DURABLE: &'static str = "must survive\n";

/// The file whose upload is overtaken by a delete.
pub const SCRATCH: &'static str = "scratch.txt";

/// How long an upload is waited for, in milliseconds.
pub const UPLOAD_WINDOW: u64 = 10_000;

/// The permission bits of a mode.
pub const PERMISSIONS: u32 = 0o777;

/// The permissions that the script is given.
pub const EXECUTABLE: u32 = 0o755;

/// The verdict for what went wrong first, if anything did.
pub open spec fn verdict(failure: Option<Seq<char>>) -> Result<OutcomeModel, Seq<char>> {
    match failure {
        None => Ok(OutcomeModel::Pass),
        Some(why) => Err(why),
    }
}

/// A verdict over texts.
pub open spec fn shown(r: Result<Outcome, String>) -> Result<OutcomeModel, Seq<char>> {
    match r {
        Ok(o) => Ok(o@),
        Err(why) => Err(why@),
    }
}

fn fail(why: &str) -> (r: Result<Outcome, String>)
    ensures
        shown(r) == verdict(Some(why@)),
{
    Err(why.to_owned())
}

/// A file that was created and uploaded.
#[derive(Debug, PartialEq, Eq)]
pub struct IdentitySeen {
    pub ino_before: u64,
    pub ino_after: u64,
    pub content: Vec<u8>,
}

/// What is wrong with a file's identity.
pub open spec fn identity_failure(before: u64, after: u64, content: Seq<u8>) -> Option<Seq<char>> {
    if before != after {
        Some(
            "inode changed when the cloud id was adopted: "@ + number::digits(before as nat)
                + " -> "@ + number::digits(after as nat)
                + ". A reader holding this file saw it become a different file."@,
        )
    } else if content != text::bytes(SCAFFOLD@) {
        Some("content changed across id adoption"@)
    } else {
        None
    }
}

/// A locally created file keeps one identity for its whole life.
pub fn identity_is_stable(seen: &IdentitySeen) -> (r: Result<Outcome, String>)
    ensures
        shown(r) == verdict(identity_failure(seen.ino_before, seen.ino_after, seen.content@)),
{
    if seen.ino_before != seen.ino_after {
        let mut why: String = "inode changed when the cloud id was adopted: ".to_owned();
        why.append(number::decimal(seen.ino_before).as_str());
        why.append(" -> ");
        why.append(number::decimal(seen.ino_after).as_str());
        why.append(". A reader holding this file saw it become a different file.");
        return Err(why);
    }
    if !text::same_bytes(&seen.content, SCAFFOLD) {
        return fail("content changed across id adoption");
    }
    Ok(Outcome::Pass)
}

/// A file right after it was written.
#[derive(Debug, PartialEq, Eq)]
pub struct SizeSeen {
    pub len: u64,
    pub content: Vec<u8>,
}

/// What is wrong with what is said of a file right after it was written.
pub open spec fn size_failure(len: u64, content: Seq<u8>) -> Option<Seq<char>> {
    if len != text::bytes(SCAFFOLD@).len() {
        Some(
            "stat reported "@ + number::digits(len as nat)
                + " bytes for a file that was just given "@ + number::digits(
                text::bytes(SCAFFOLD@).len(),
            ),
        )
    } else if content != text::bytes(SCAFFOLD@) {
        Some("file read back as something else"@)
    } else {
        None
    }
}

/// Size and content are those of the local copy, at once.
pub fn size_is_local_truth(seen: &SizeSeen) -> (r: Result<Outcome, String>)
    ensures
        shown(r) == verdict(size_failure(seen.len, seen.content@)),
{
    let given = SCAFFOLD.as_bytes().len() as u64;
    if seen.len != given {
        let mut why: String = "stat reported ".to_owned();
        why.append(number::decimal(seen.len).as_str());
        why.append(" bytes for a file that was just given ");
        why.append(number::decimal(given).as_str());
        return Err(why);
    }
    if !text::same_bytes(&seen.content, SCAFFOLD) {
        return fail("file read back as something else");
    }
    Ok(Outcome::Pass)
}

/// A script that was evicted and read again.
#[derive(Debug, PartialEq, Eq)]
pub struct ModeSeen {
    pub size_before: u64,
    pub mode_evicted: u32,
    pub size_evicted: u64,
    pub content: Vec<u8>,
    pub mode_after: u32,
}

/// What is wrong with a script that was evicted and read again.
pub open spec fn mode_failure(seen: ModeSeen) -> Option<Seq<char>> {
    if seen.mode_evicted & PERMISSIONS != EXECUTABLE {
        Some("mode lost while the file was dehydrated"@)
    } else if seen.size_evicted != seen.size_before {
        Some("size lost while dehydrated: a placeholder must keep the real size"@)
    } else if seen.content@ != text::bytes(SCRIPT@) {
        Some("a dehydrated file did not rehydrate: the read produced something else"@)
    } else if seen.mode_after & PERMISSIONS != EXECUTABLE {
        Some("mode lost across the rehydration round trip"@)
    } else {
        None
    }
}

/// The mode survives, the bit that makes a program runnable included.
pub fn mode_survives_dehydration(seen: &ModeSeen) -> (r: Result<Outcome, String>)
    ensures
        shown(r) == verdict(mode_failure(*seen)),
{
    if seen.mode_evicted & PERMISSIONS != EXECUTABLE {
        return fail("mode lost while the file was dehydrated");
    }
    if seen.size_evicted != seen.size_before {
        return fail("size lost while dehydrated: a placeholder must keep the real size");
    }
    if !text::same_bytes(&seen.content, SCRIPT) {
        return fail("a dehydrated file did not rehydrate: the read produced something else");
    }
    if seen.mode_after & PERMISSIONS != EXECUTABLE {
        return fail("mode lost across the rehydration round trip");
    }
    Ok(Outcome::Pass)
}

/// A file that was saved through another name while that one was on its way up.
#[derive(Debug, PartialEq, Eq)]
pub struct SaveSeen {
    /// Whether the upload could be caught on its way.
    pub started: bool,
    pub target_exists: bool,
    pub target: Vec<u8>,
    pub temp_exists: bool,
    /// What the cloud holds under the file's own name.
    pub remote: Option<Vec<u8>>,
    /// Whether the cloud holds anything under the other one.
    pub remote_temp: bool,
}

/// What is wrong with a file that was saved through another name.
pub open spec fn save_failure(seen: SaveSeen) -> Option<Seq<char>> {
    if !seen.started {
        Some("no upload started for the temp file; the race cannot be arranged"@)
    } else if !seen.target_exists {
        Some("the target file disappeared after an atomic save"@)
    } else if seen.target@ != text::bytes(EDITED@) {
        Some("the target does not hold the saved content"@)
    } else if seen.temp_exists {
        Some("the temp name survived the rename"@)
    } else {
        match seen.remote {
            None => Some("the cloud does not hold the file under its real name"@),
            Some(content) => if content@ != text::bytes(EDITED@) {
                Some("the cloud holds stale content"@)
            } else if seen.remote_temp {
                Some("the cloud is holding the file under the temp name"@)
            } else {
                None
            },
        }
    }
}

/// An atomically saved file stays under the name it was saved as.
pub fn atomic_save_keeps_its_name(seen: &SaveSeen) -> (r: Result<Outcome, String>)
    ensures
        shown(r) == verdict(save_failure(*seen)),
{
    if !seen.started {
        return fail("no upload started for the temp file; the race cannot be arranged");
    }
    if !seen.target_exists {
        return fail("the target file disappeared after an atomic save");
    }
    if !text::same_bytes(&seen.target, EDITED) {
        return fail("the target does not hold the saved content");
    }
    if seen.temp_exists {
        return fail("the temp name survived the rename");
    }
    match &seen.remote {
        None => fail("the cloud does not hold the file under its real name"),
        Some(content) => {
            if !text::same_bytes(content, EDITED) {
                return fail("the cloud holds stale content");
            }
            if seen.remote_temp {
                return fail("the cloud is holding the file under the temp name");
            }
            Ok(Outcome::Pass)
        },
    }
}

/// A file that was deleted while it was on its way up.
#[derive(Debug, PartialEq, Eq)]
pub struct DeleteSeen {
    /// Whether the upload could be caught on its way.
    pub started: bool,
    pub in_cloud: bool,
    pub exists: bool,
    pub ops: Vec<CloudOp>,
}

/// Whether a request sent the file up.
pub open spec fn sent_scratch(op: OpModel) -> bool {
    op matches OpModel::Put { name, content } && name == SCRATCH@
}

/// What is wrong with a delete that overtook an upload.
pub open spec fn delete_failure(seen: DeleteSeen) -> Option<Seq<char>> {
    let ops = conformance::op_models(seen.ops@);
    let sent = exists|i: int| 0 <= i < ops.len() && sent_scratch(#[trigger] ops[i]);
    let deleted = exists|i: int| 0 <= i < ops.len() && #[trigger] ops[i] is Delete;
    if !seen.started {
        Some("no upload started; the delete-during-upload race cannot be arranged"@)
    } else if seen.in_cloud {
        Some("the file came back in the cloud after being deleted locally"@)
    } else if seen.exists {
        Some("the file came back locally"@)
    } else if sent && !deleted {
        Some("the upload created the remote object and nothing deleted it"@)
    } else {
        None
    }
}

/// A delete during an upload sticks.
pub fn delete_beats_inflight_upload(seen: &DeleteSeen) -> (r: Result<Outcome, String>)
    ensures
        shown(r) == verdict(delete_failure(*seen)),
{
    if !seen.started {
        return fail("no upload started; the delete-during-upload race cannot be arranged");
    }
    if seen.in_cloud {
        return fail("the file came back in the cloud after being deleted locally");
    }
    if seen.exists {
        return fail("the file came back locally");
    }
    let ghost ops = conformance::op_models(seen.ops@);
    let mut sent: bool = false;
    let mut deleted: bool = false;
    let mut i: usize = 0;
    while i < seen.ops.len()
        invariant
            i <= seen.ops@.len(),
            ops == conformance::op_models(seen.ops@),
            sent == (exists|j: int| 0 <= j < i && sent_scratch(#[trigger] ops[j])),
            deleted == (exists|j: int| 0 <= j < i && #[trigger] ops[j] is Delete),
        decreases seen.ops@.len() - i,
    {
        assert(ops[i as int] == seen.ops@[i as int]@);
        match &seen.ops[i] {
            CloudOp::Put { name, content: _ } => {
                if text::same(name.as_str(), SCRATCH) {
                    assert(sent_scratch(ops[i as int]));
                    sent = true;
                }
            },
            CloudOp::Delete { id: _ } => {
                assert(ops[i as int] is Delete);
                deleted = true;
            },
            _ => {},
        }
        i = i + 1;
    }
    if sent && !deleted {
        return fail("the upload created the remote object and nothing deleted it");
    }
    Ok(Outcome::Pass)
}

/// A file right after `fsync` succeeded on it.
#[derive(Debug, PartialEq, Eq)]
pub struct FsyncSeen {
    pub content: Vec<u8>,
    pub len: u64,
    pub pending: usize,
}

/// What is wrong with a file right after `fsync` succeeded on it.
pub open spec fn fsync_failure(seen: FsyncSeen) -> Option<Seq<char>> {
    if seen.content@ != text::bytes(DURABLE@) {
        Some("fsync returned success over data the filesystem could not produce"@)
    } else if seen.len != text::bytes(DURABLE@).len() {
        Some("fsync returned success while stat disagreed about the size"@)
    } else if seen.pending == 0 {
        Some("an unsent change is not counted as pending; status would claim synced"@)
    } else {
        None
    }
}

/// `fsync` claims no durability that it did not deliver.
pub fn fsync_does_not_lie(seen: &FsyncSeen) -> (r: Result<Outcome, String>)
    ensures
        shown(r) == verdict(fsync_failure(*seen)),
{
    if !text::same_bytes(&seen.content, DURABLE) {
        return fail("fsync returned success over data the filesystem could not produce");
    }
    if seen.len != DURABLE.as_bytes().len() as u64 {
        return fail("fsync returned success while stat disagreed about the size");
    }
    if seen.pending == 0 {
        return fail("an unsent change is not counted as pending; status would claim synced");
    }
    Ok(Outcome::Pass)
}

/// How a read failed.
#[derive(Debug, PartialEq, Eq)]
pub struct ReadError {
    /// The number that the system gave it, if it did.
    pub errno: Option<i32>,
    /// Whether it is of a kind that stands for wrong data.
    pub data_error: bool,
    /// How it is shown.
    pub shown: String,
}

/// A placeholder whose object had become shorter.
#[derive(Debug, PartialEq, Eq)]
pub struct MismatchSeen {
    pub blocks_before: u64,
    /// What the first read came to: nothing where it succeeded.
    pub error: Option<ReadError>,
    pub blocks_after: u64,
    /// How much a read gives once the metadata is in step again.
    pub read_len: u64,
    pub len: u64,
}

/// The number for a failed read.
pub fn libc_eio() -> (n: i32)
    ensures
        n == 5,
{
    5
}

/// What is wrong with a placeholder whose object had become shorter.
pub open spec fn mismatch_failure(seen: MismatchSeen) -> Option<Seq<char>> {
    if seen.blocks_before != 0 {
        Some("a freshly seeded placeholder already has content"@)
    } else {
        match seen.error {
            None => Some("a short hydration must not succeed"@),
            Some(e) => if !e.data_error && e.errno != Some(5i32) {
                Some(
                    "expected EIO for a hydration that disagrees with the placeholder, got "@
                        + e.shown@,
                )
            } else if seen.blocks_after != 0 {
                Some(
                    "a partially filled placeholder survived the failed hydration; it now looks hydrated and is not"@,
                )
            } else if seen.read_len != seen.len {
                Some("content length still disagrees with st_size after resync"@)
            } else {
                None
            },
        }
    }
}

/// Hydration that disagrees with the placeholder fails, and never gives partial
/// or wrong content.
pub fn hydration_mismatch_fails_closed(seen: &MismatchSeen) -> (r: Result<Outcome, String>)
    ensures
        shown(r) == verdict(mismatch_failure(*seen)),
{
    if seen.blocks_before != 0 {
        return fail("a freshly seeded placeholder already has content");
    }
    match &seen.error {
        None => fail("a short hydration must not succeed"),
        Some(e) => {
            let told = match e.errno {
                Some(n) => n == libc_eio(),
                None => false,
            };
            if !e.data_error && !told {
                let mut why: String =
                    "expected EIO for a hydration that disagrees with the placeholder, got ".to_owned();
                why.append(e.shown.as_str());
                return Err(why);
            }
            if seen.blocks_after != 0 {
                return fail(
                    "a partially filled placeholder survived the failed hydration; it now looks hydrated and is not",
                );
            }
            if seen.read_len != seen.len {
                return fail("content length still disagrees with st_size after resync");
            }
            Ok(Outcome::Pass)
        },
    }
}

/// A placeholder that was read with the worker gone.
#[derive(Debug, PartialEq, Eq)]
pub struct WorkerSeen {
    pub blocks_before: u64,
    pub read: Result<Vec<u8>, ReadError>,
    pub blocks_after: u64,
}

/// Whether some bytes are all zero.
pub open spec fn all_zero(v: Seq<u8>) -> bool {
    forall|i: int| 0 <= i < v.len() ==> v[i] == 0
}

/// A yes or no, as it is shown.
pub open spec fn truth(b: bool) -> Seq<char> {
    if b {
        "true"@
    } else {
        "false"@
    }
}

/// What is wrong with a placeholder that was read with the worker gone.
pub open spec fn worker_failure(seen: WorkerSeen) -> Option<Seq<char>> {
    if seen.blocks_before != 0 {
        Some("seeded file is not a placeholder"@)
    } else {
        match seen.read {
            Ok(bytes) => Some(
                "read succeeded with the hydration worker dead, returning "@ + number::digits(
                    bytes@.len(),
                ) + " bytes (all zero: "@ + truth(all_zero(bytes@))
                    + "). This is silent data corruption."@,
            ),
            Err(e) => if e.errno is None {
                Some("expected an OS error with the worker dead, got "@ + e.shown@)
            } else if seen.blocks_after != 0 {
                Some("the file gained content while the worker was dead"@)
            } else {
                None
            },
        }
    }
}

/// Why the last invariant does not apply.
pub const NO_WORKER: &'static str =
    "implementation has no separable hydration worker; fail-closed is a property of its transport instead";

/// The verdict on losing the worker. Where there is none to lose, nothing was
/// seen.
pub open spec fn worker_verdict(seen: Option<WorkerSeen>) -> Result<OutcomeModel, Seq<char>> {
    match seen {
        None => Ok(OutcomeModel::NotApplicable(NO_WORKER@)),
        Some(seen) => verdict(worker_failure(seen)),
    }
}

/// Losing the hydration worker fails closed.
pub fn worker_death_fails_closed(seen: &Option<WorkerSeen>) -> (r: Result<Outcome, String>)
    ensures
        shown(r) == worker_verdict(*seen),
{
    let seen = match seen {
        None => {
            return Ok(Outcome::NotApplicable(NO_WORKER.to_owned()));
        },
        Some(seen) => seen,
    };
    if seen.blocks_before != 0 {
        return fail("seeded file is not a placeholder");
    }
    match &seen.read {
        Ok(bytes) => {
            let mut zero: bool = true;
            let mut i: usize = 0;
            while i < bytes.len()
                invariant
                    i <= bytes@.len(),
                    zero == (forall|j: int| 0 <= j < i ==> bytes@[j] == 0),
                decreases bytes@.len() - i,
            {
                if bytes[i] != 0 {
                    zero = false;
                }
                i = i + 1;
            }
            let mut why: String =
                "read succeeded with the hydration worker dead, returning ".to_owned();
            why.append(number::decimal(bytes.len() as u64).as_str());
            why.append(" bytes (all zero: ");
            why.append(
                if zero {
                    "true"
                } else {
                    "false"
                },
            );
            why.append("). This is silent data corruption.");
            Err(why)
        },
        Err(e) => {
            if e.errno.is_none() {
                let mut why: String = "expected an OS error with the worker dead, got ".to_owned();
                why.append(e.shown.as_str());
                return Err(why);
            }
            if seen.blocks_after != 0 {
                return fail("the file gained content while the worker was dead");
            }
            Ok(Outcome::Pass)
        },
    }
}

/// What was seen of a whole run.
#[derive(Debug, PartialEq, Eq)]
pub struct Seen {
    pub identity: IdentitySeen,
    pub size: SizeSeen,
    pub mode: ModeSeen,
    pub save: SaveSeen,
    pub delete: DeleteSeen,
    pub fsync: FsyncSeen,
    pub mismatch: MismatchSeen,
    /// Nothing where there is no separable worker.
    pub worker: Option<WorkerSeen>,
}

/// The verdicts on a whole run, in the order of the contract.
pub open spec fn verdicts(seen: Seen) -> Seq<(Seq<char>, Result<OutcomeModel, Seq<char>>)> {
    seq![
        (
            "5.1 identity is stable"@,
            verdict(
                identity_failure(
                    seen.identity.ino_before,
                    seen.identity.ino_after,
                    seen.identity.content@,
                ),
            ),
        ),
        (
            "5.2 size is local truth"@,
            verdict(size_failure(seen.size.len, seen.size.content@)),
        ),
        ("5.3 mode survives dehydration"@, verdict(mode_failure(seen.mode))),
        ("5.4 atomic save keeps its name"@, verdict(save_failure(seen.save))),
        ("5.5 delete beats in-flight upload"@, verdict(delete_failure(seen.delete))),
        ("5.6 fsync does not lie"@, verdict(fsync_failure(seen.fsync))),
        ("5.7 hydration mismatch fails closed"@, verdict(mismatch_failure(seen.mismatch))),
        ("6a worker death fails closed"@, worker_verdict(seen.worker)),
    ]
}

/// The first failure among some verdicts.
pub open spec fn first_failure(
    all: Seq<(Seq<char>, Result<OutcomeModel, Seq<char>>)>,
    i: int,
) -> Option<Seq<char>>
    decreases all.len() - i,
{
    if i < 0 || i >= all.len() {
        None
    } else {
        match all[i].1 {
            Err(why) => Some(why),
            Ok(_) => first_failure(all, i + 1),
        }
    }
}

/// Outcomes over texts.
pub open spec fn outcome_models(v: Seq<(&'static str, Outcome)>) -> Seq<(Seq<char>, OutcomeModel)> {
    v.map_values(|e: (&'static str, Outcome)| (e.0@, e.1@))
}

/// Every invariant, in the order of the contract. The first that does not hold is
/// the report.
pub fn run_all(seen: &Seen) -> (r: Result<Vec<(&'static str, Outcome)>, String>)
    ensures
        match r {
            Err(why) => first_failure(verdicts(*seen), 0) == Some(why@),
            Ok(out) => {
                &&& first_failure(verdicts(*seen), 0) is None
                &&& out@.len() == verdicts(*seen).len()
                &&& forall|i: int|
                    0 <= i < out@.len() ==> {
                        &&& (#[trigger] outcome_models(out@)[i]).0 == verdicts(*seen)[i].0
                        &&& verdicts(*seen)[i].1 == Ok::<OutcomeModel, Seq<char>>(
                            outcome_models(out@)[i].1,
                        )
                    }
            },
        },
{
    proof {
        reveal_with_fuel(first_failure, 9);
    }
    let mut out: Vec<(&'static str, Outcome)> = Vec::new();
    match identity_is_stable(&seen.identity) {
        Ok(o) => out.push(("5.1 identity is stable", o)),
        Err(why) => {
            return Err(why);
        },
    }
    match size_is_local_truth(&seen.size) {
        Ok(o) => out.push(("5.2 size is local truth", o)),
        Err(why) => {
            return Err(why);
        },
    }
    match mode_survives_dehydration(&seen.mode) {
        Ok(o) => out.push(("5.3 mode survives dehydration", o)),
        Err(why) => {
            return Err(why);
        },
    }
    match atomic_save_keeps_its_name(&seen.save) {
        Ok(o) => out.push(("5.4 atomic save keeps its name", o)),
        Err(why) => {
            return Err(why);
        },
    }
    match delete_beats_inflight_upload(&seen.delete) {
        Ok(o) => out.push(("5.5 delete beats in-flight upload", o)),
        Err(why) => {
            return Err(why);
        },
    }
    match fsync_does_not_lie(&seen.fsync) {
        Ok(o) => out.push(("5.6 fsync does not lie", o)),
        Err(why) => {
            return Err(why);
        },
    }
    match hydration_mismatch_fails_closed(&seen.mismatch) {
        Ok(o) => out.push(("5.7 hydration mismatch fails closed", o)),
        Err(why) => {
            return Err(why);
        },
    }
    match worker_death_fails_closed(&seen.worker) {
        Ok(o) => out.push(("6a worker death fails closed", o)),
        Err(why) => {
            return Err(why);
        },
    }
    Ok(out)
}

/// When each check passes: exactly when what was seen is what the check is for.
pub proof fn law_a_check_passes_when_its_promise_held(
    before: u64,
    after: u64,
    content: Seq<u8>,
    len: u64,
    mode: ModeSeen,
    fsync: FsyncSeen,
)
    ensures
        identity_failure(before, after, content) is None <==> before == after && content
            == text::bytes(SCAFFOLD@),
        size_failure(len, content) is None <==> len == content.len() && content == text::bytes(
            SCAFFOLD@,
        ),
        mode_failure(mode) is None <==> mode.mode_evicted & 0o777 == 0o755 && mode.mode_after
            & 0o777 == 0o755 && mode.size_evicted == mode.size_before && mode.content@
            == text::bytes(SCRIPT@),
        fsync_failure(fsync) is None <==> fsync.content@ == text::bytes(DURABLE@) && fsync.len
            == fsync.content@.len() && fsync.pending > 0,
{
}

/// A save is kept when its upload was under way, the target is there with what was
/// saved, locally and in the cloud, and nothing is left under the temporary name.
pub proof fn law_a_save_is_kept_when_it_stands_under_its_name(seen: SaveSeen)
    ensures
        save_failure(seen) is None <==> {
            &&& seen.started
            &&& seen.target_exists
            &&& seen.target@ == text::bytes(EDITED@)
            &&& !seen.temp_exists
            &&& seen.remote matches Some(content) && content@ == text::bytes(EDITED@)
            &&& !seen.remote_temp
        },
{
}

/// A delete wins when its upload was under way, the file is neither in the cloud nor
/// here, and an object that was made for it was taken away again.
pub proof fn law_a_delete_wins_when_nothing_came_back(seen: DeleteSeen)
    ensures
        delete_failure(seen) is None <==> {
            let ops = conformance::op_models(seen.ops@);
            &&& seen.started
            &&& !seen.in_cloud
            &&& !seen.exists
            &&& (exists|i: int| 0 <= i < ops.len() && #[trigger] ops[i] is Delete) || forall|i: int|
                0 <= i < ops.len() ==> !(#[trigger] ops[i] matches OpModel::Put { name, .. } && name
                    == SCRATCH@)
        },
{
    let ops = conformance::op_models(seen.ops@);
    if exists|i: int| 0 <= i < ops.len() && sent_scratch(#[trigger] ops[i]) {
        let i = choose|i: int| 0 <= i < ops.len() && sent_scratch(#[trigger] ops[i]);
        assert(ops[i] matches OpModel::Put { name, .. } && name == SCRATCH@);
    }
    if !(forall|i: int|
        0 <= i < ops.len() ==> !(#[trigger] ops[i] matches OpModel::Put { name, .. } && name
            == SCRATCH@)) {
        let i = choose|i: int|
            0 <= i < ops.len() && (#[trigger] ops[i] matches OpModel::Put { name, .. } && name
                == SCRATCH@);
        assert(sent_scratch(ops[i]));
    }
}

/// A download that does not fit fails closed when reading the placeholder gave the
/// error that it should, nothing was left in it, and it reads at its length later.
pub proof fn law_a_mismatch_fails_closed_when_nothing_is_left(seen: MismatchSeen)
    ensures
        mismatch_failure(seen) is None <==> {
            &&& seen.blocks_before == 0
            &&& seen.error matches Some(e) && (e.data_error || e.errno == Some(5i32))
            &&& seen.blocks_after == 0
            &&& seen.read_len == seen.len
        },
{
}

/// A dead worker fails closed when a read of a placeholder gives an error of the
/// system and no content appears; without a worker there is nothing to check.
pub proof fn law_a_dead_worker_fails_closed_when_reads_fail(seen: WorkerSeen)
    ensures
        worker_failure(seen) is None <==> {
            &&& seen.blocks_before == 0
            &&& seen.read matches Err(e) && e.errno is Some
            &&& seen.blocks_after == 0
        },
        worker_verdict(Some(seen)) is Ok <==> worker_failure(seen) is None,
        worker_verdict(None) is Ok,
        !(worker_verdict(None) matches Ok(OutcomeModel::Pass)),
{
}

/// A run reports the first check that failed, and none where all passed.
pub proof fn law_the_first_failure_is_reported(
    all: Seq<(Seq<char>, Result<OutcomeModel, Seq<char>>)>,
    i: int,
    k: int,
)
    requires
        0 <= i <= k < all.len(),
        forall|j: int| i <= j < k ==> (#[trigger] all[j]).1 is Ok,
    ensures
        all[k].1 matches Err(why) ==> first_failure(all, i) == Some(why),
        (forall|j: int| i <= j < all.len() ==> (#[trigger] all[j]).1 is Ok) <==> first_failure(
            all,
            i,
        ) is None,
    decreases all.len() - i,
{
    lemma_no_failure(all, i);
    if i < k {
        assert(all[i].1 is Ok);
        law_the_first_failure_is_reported(all, i + 1, k);
    }
}

proof fn lemma_no_failure(all: Seq<(Seq<char>, Result<OutcomeModel, Seq<char>>)>, i: int)
    requires
        0 <= i <= all.len(),
    ensures
        (forall|j: int| i <= j < all.len() ==> (#[trigger] all[j]).1 is Ok) <==> first_failure(
            all,
            i,
        ) is None,
    decreases all.len() - i,
{
    if i < all.len() {
        lemma_no_failure(all, i + 1);
        if all[i].1 is Ok {
            if forall|j: int| i + 1 <= j < all.len() ==> (#[trigger] all[j]).1 is Ok {
                assert forall|j: int| i <= j < all.len() implies (#[trigger] all[j]).1 is Ok by {}
            }
        }
    }
}

} // verus!
