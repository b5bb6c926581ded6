//! Getting local changes back to the cloud, without the races.
//!
//! Four rules:
//!
//! 1. Upload when the file goes quiet, not when it closes.
//! 2. An upload is addressed by inode, never by a captured name.
//! 3. A missing local file is a positive statement: the delete is the newer
//!    intention and wins.
//! 4. The pending count includes edits still waiting out the quiet period.

use crate::table::{self, FileId, Key, Table};
use crate::text::{self, copy_maybe};
use std::sync::atomic::{AtomicU64, Ordering};
use std::sync::Arc;
use vstd::prelude::*;

verus! {

/// The longest time that can be told, in nanoseconds.
pub const MAX_NANOS: u128 = 18_446_744_073_709_551_615_999_999_999;

/// Time in nanoseconds from some fixed start, so the races can be tested
/// without sleeping through them.
pub trait Clock {
    /// Whether this clock can show a time.
    spec fn shows(&self, t: u128) -> bool;

    fn now(&self) -> (t: u128)
        ensures
            t <= MAX_NANOS,
            self.shows(t),
    ;
}

/// `std::time::Instant`, carried and not looked into.
#[verifier::external_type_specification]
#[verifier::external_body]
pub struct ExInstant(std::time::Instant);

/// `Instant::elapsed`: the time since the instant. What it returns depends on
/// the machine's clock; all that is claimed is the range of a `Duration`.
#[verifier::external_body]
fn elapsed_nanos(since: &std::time::Instant) -> (t: u128)
    ensures
        t <= MAX_NANOS,
{
    since.elapsed().as_nanos()
}

/// `Instant::now`: the present instant, of which nothing is claimed.
#[verifier::external_body]
fn present() -> (t: std::time::Instant) {
    std::time::Instant::now()
}

/// A clock measured from its own creation.
pub struct SystemClock(std::time::Instant);

impl Default for SystemClock {
    fn default() -> (c: Self) {
        SystemClock(present())
    }
}

impl Clock for SystemClock {
    /// Any length of time: it depends on the machine.
    open spec fn shows(&self, t: u128) -> bool {
        t <= MAX_NANOS
    }

    fn now(&self) -> (t: u128) {
        elapsed_nanos(&self.0)
    }
}

/// The milliseconds in a number of nanoseconds, as far as 64 bits hold them.
pub open spec fn whole_millis(nanos: u128) -> u64 {
    ((nanos / 1_000_000) % 0x1_0000_0000_0000_0000) as u64
}

fn millis(nanos: u128) -> (n: u64)
    ensures
        n == whole_millis(nanos),
{
    ((nanos / 1_000_000) % 0x1_0000_0000_0000_0000) as u64
}

/// The nanoseconds in a number of milliseconds.
pub open spec fn nanos_of(millis: u64) -> u128 {
    (millis * 1_000_000) as u128
}

fn nanos(millis: u64) -> (n: u128)
    ensures
        n == nanos_of(millis),
        n <= MAX_NANOS,
{
    millis as u128 * 1_000_000
}

/// A clock moved by hand, in milliseconds. Clones share one time, so whoever
/// holds one moves it for all.
#[derive(Debug)]
pub struct TestClock(Arc<AtomicU64>);

/// `Arc::clone`: another handle on the same value.
#[verifier::external_body]
fn another(shared: &Arc<AtomicU64>) -> (r: Arc<AtomicU64>)
    ensures
        r == *shared,
{
    Arc::clone(shared)
}

impl Default for TestClock {
    fn default() -> (c: Self) {
        TestClock(Arc::new(AtomicU64::new(0)))
    }
}

impl Clone for TestClock {
    /// The same clock once more.
    fn clone(&self) -> (c: Self)
        ensures
            c == *self,
    {
        TestClock(another(&self.0))
    }
}

impl TestClock {
    /// Move the clock forward by a number of nanoseconds, in whole
    /// milliseconds. The counter is shared, so what it shows afterwards depends
    /// on everyone who holds the clock.
    pub fn advance(&self, by: u128) {
        self.0.fetch_add(millis(by), Ordering::SeqCst);
    }
}

impl Clock for TestClock {
    /// Any number of whole milliseconds.
    open spec fn shows(&self, t: u128) -> bool {
        exists|n: u64| t == #[trigger] nanos_of(n)
    }

    fn now(&self) -> (t: u128) {
        nanos(self.0.load(Ordering::SeqCst))
    }
}

/// What the cloud gave back for an upload.
#[derive(Debug, PartialEq, Eq)]
pub struct Uploaded {
    pub cloud_id: String,
    pub etag: Option<String>,
}

/// What the cloud gave back, over texts.
#[verifier::ext_equal]
pub struct UploadedModel {
    pub cloud_id: Seq<char>,
    pub etag: Option<Seq<char>>,
}

impl View for Uploaded {
    type V = UploadedModel;

    open spec fn view(&self) -> UploadedModel {
        UploadedModel { cloud_id: self.cloud_id@, etag: text::maybe(self.etag) }
    }
}

impl Clone for Uploaded {
    fn clone(&self) -> (r: Self)
        ensures
            r == *self,
    {
        Uploaded { cloud_id: self.cloud_id.clone(), etag: copy_maybe(&self.etag) }
    }
}

/// What is already known about the object a local file came from: which
/// object, and which version of it an edit is based on.
#[derive(Debug, Clone, Copy, PartialEq, Eq)]
pub struct Known<'a> {
    pub cloud_id: &'a str,
    /// The tag recorded for the version this edit is based on, if any.
    pub tag: Option<&'a str>,
}

/// Uploading and deleting, the half only the client knows how to do. An
/// operation that a provider does not have is refused with a message.
pub trait Sink: Sized {
    /// Send this file's current content. `existing` is what is known about the
    /// object already, so the client can make the write conditional.
    fn upload(&mut self, path: &str, existing: Option<Known<'_>>) -> Result<Uploaded, String>;

    /// Move or rename an existing cloud object to match its local path.
    fn move_item(&mut self, _from: &str, _to: &str, _existing: Known<'_>) -> (r: Result<
        Uploaded,
        String,
    >)
        default_ensures
            r is Err,
            r->Err_0@ == "this cloud provider cannot move or rename objects"@,
    {
        Err("this cloud provider cannot move or rename objects".to_owned())
    }

    /// Create a cloud folder for a directory created locally.
    fn create_folder(&mut self, _path: &str) -> (r: Result<Uploaded, String>)
        default_ensures
            r is Err,
            r->Err_0@ == "this cloud provider cannot create folders"@,
    {
        Err("this cloud provider cannot create folders".to_owned())
    }

    /// Remove a folder after the provider has proved that doing so is not an
    /// implicit recursive delete.
    fn remove_folder(&mut self, _existing: Known<'_>) -> (r: Result<(), String>)
        default_ensures
            r is Err,
            r->Err_0@ == "this cloud provider cannot safely remove folders"@,
    {
        Err("this cloud provider cannot safely remove folders".to_owned())
    }

    /// Remove an object whose identity and base version are both known. A
    /// provider without conditional deletion removes it by its identity.
    fn remove_known(&mut self, existing: Known<'_>) -> (r: Result<(), String>)
        default_ensures
            exists|p: &mut Self|
                *p == *old(self) && *final(p) == *final(self) && #[trigger] call_ensures(
                    Self::remove,
                    (p, existing.cloud_id),
                    r,
                ),
    {
        self.remove(existing.cloud_id)
    }

    fn remove(&mut self, cloud_id: &str) -> Result<(), String>;
}

/// A sink that keeps a client's provider and its upload side together. Whatever
/// it is asked is asked of the provider in the same words: a result is one that
/// the provider's own method gives, and the provider is left as that method
/// leaves it.
pub struct ProviderSink<P>(pub P);

impl<P: Sink> Sink for ProviderSink<P> {
    fn upload(&mut self, path: &str, existing: Option<Known<'_>>) -> (r: Result<Uploaded, String>)
        ensures
            exists|p: &mut P|
                *p == old(self).0 && *final(p) == final(self).0 && #[trigger] call_ensures(
                    P::upload,
                    (p, path, existing),
                    r,
                ),
    {
        self.0.upload(path, existing)
    }

    fn move_item(&mut self, from: &str, to: &str, existing: Known<'_>) -> (r: Result<Uploaded, String>)
        ensures
            exists|p: &mut P|
                *p == old(self).0 && *final(p) == final(self).0 && #[trigger] call_ensures(
                    P::move_item,
                    (p, from, to, existing),
                    r,
                ),
    {
        self.0.move_item(from, to, existing)
    }

    fn create_folder(&mut self, path: &str) -> (r: Result<Uploaded, String>)
        ensures
            exists|p: &mut P|
                *p == old(self).0 && *final(p) == final(self).0 && #[trigger] call_ensures(
                    P::create_folder,
                    (p, path),
                    r,
                ),
    {
        self.0.create_folder(path)
    }

    fn remove_folder(&mut self, existing: Known<'_>) -> (r: Result<(), String>)
        ensures
            exists|p: &mut P|
                *p == old(self).0 && *final(p) == final(self).0 && #[trigger] call_ensures(
                    P::remove_folder,
                    (p, existing),
                    r,
                ),
    {
        self.0.remove_folder(existing)
    }

    fn remove_known(&mut self, existing: Known<'_>) -> (r: Result<(), String>)
        ensures
            exists|p: &mut P|
                *p == old(self).0 && *final(p) == final(self).0 && #[trigger] call_ensures(
                    P::remove_known,
                    (p, existing),
                    r,
                ),
    {
        self.0.remove_known(existing)
    }

    fn remove(&mut self, cloud_id: &str) -> (r: Result<(), String>)
        ensures
            exists|p: &mut P|
                *p == old(self).0 && *final(p) == final(self).0 && #[trigger] call_ensures(
                    P::remove,
                    (p, cloud_id),
                    r,
                ),
    {
        self.0.remove(cloud_id)
    }
}

/// What happened to one upload.
#[derive(Debug, PartialEq, Eq)]
pub enum Outcome {
    Sent { cloud_id: String },
    /// The file was gone by the time the bytes were sent. The delete is the
    /// newer intention, so the remote copy was removed.
    DeletedInstead,
    /// The file was gone before anything was sent.
    NothingToDo,
    Failed(String),
}

/// What happened to one upload, over texts.
#[verifier::ext_equal]
pub enum OutcomeModel {
    Sent { cloud_id: Seq<char> },
    DeletedInstead,
    NothingToDo,
    Failed(Seq<char>),
}

impl View for Outcome {
    type V = OutcomeModel;

    open spec fn view(&self) -> OutcomeModel {
        match *self {
            Outcome::Sent { cloud_id } => OutcomeModel::Sent { cloud_id: cloud_id@ },
            Outcome::DeletedInstead => OutcomeModel::DeletedInstead,
            Outcome::NothingToDo => OutcomeModel::NothingToDo,
            Outcome::Failed(e) => OutcomeModel::Failed(e@),
        }
    }
}

/// How many times a repeated failure doubles its wait before the cap takes
/// over.
pub const RETRY_DOUBLINGS: u32 = 8;

/// The longest a failing upload waits between attempts: a quarter of an hour.
pub const RETRY_CEILING: u128 = 900_000_000_000;

/// How long a file must go untouched before it is sent: ten seconds.
pub const QUIET_PERIOD: u128 = 10_000_000_000;

/// What the queue holds: when each waiting file falls due, which files are
/// being sent, and how often in a row each has failed.
#[verifier::ext_equal]
pub struct QueueModel {
    pub waiting: Map<FileId, u128>,
    pub sending: Set<FileId>,
    pub failures: Map<FileId, u32>,
    pub debounce: u128,
}

/// Two to the power of `n`, up to the number of doublings.
pub open spec fn doubling(n: u32) -> nat {
    vstd::arithmetic::power2::pow2(if n < RETRY_DOUBLINGS {
        n as nat
    } else {
        RETRY_DOUBLINGS as nat
    })
}

/// How long to wait after this many failures in a row: twice as long each
/// time, up to the ceiling.
pub open spec fn backoff(debounce: u128, failures: u32) -> int {
    let wait = debounce * doubling(failures);
    if wait < RETRY_CEILING {
        wait
    } else {
        RETRY_CEILING as int
    }
}

impl QueueModel {
    /// Failures in a row, counting one more.
    pub open spec fn next_failure(self, file: FileId) -> u32 {
        if !self.failures.dom().contains(file) {
            1
        } else if self.failures[file] == u32::MAX {
            u32::MAX
        } else {
            (self.failures[file] + 1) as u32
        }
    }

    /// The file changed at `now`. Rewriting pushes the deadline out rather
    /// than queueing a second upload, and forgets what the old bytes could not
    /// do.
    pub open spec fn touched(self, file: FileId, now: u128) -> QueueModel {
        QueueModel {
            waiting: self.waiting.insert(file, (now + self.debounce) as u128),
            failures: self.failures.remove(file),
            ..self
        }
    }

    /// Sending failed at `now`. Come back later, and later again if it keeps
    /// failing.
    pub open spec fn failed(self, file: FileId, now: u128) -> QueueModel {
        let n = self.next_failure(file);
        QueueModel {
            waiting: self.waiting.insert(file, (now + backoff(self.debounce, n)) as u128),
            failures: self.failures.insert(file, n),
            ..self
        }
    }

    pub open spec fn sent(self, file: FileId) -> QueueModel {
        QueueModel { failures: self.failures.remove(file), ..self }
    }

    pub open spec fn cancelled(self, file: FileId) -> QueueModel {
        QueueModel {
            waiting: self.waiting.remove(file),
            failures: self.failures.remove(file),
            ..self
        }
    }

    /// Every deadline brought forward to `now`.
    pub open spec fn flushed(self, now: u128) -> QueueModel {
        QueueModel { waiting: self.waiting.map_values(|due: u128| now), ..self }
    }

    pub open spec fn begun(self, file: FileId) -> QueueModel {
        QueueModel {
            waiting: self.waiting.remove(file),
            sending: self.sending.insert(file),
            ..self
        }
    }

    pub open spec fn finished(self, file: FileId) -> QueueModel {
        QueueModel { sending: self.sending.remove(file), ..self }
    }

    /// The files whose quiet period has run out at `now`.
    pub open spec fn due(self, now: u128) -> Set<FileId> {
        Set::new(|f: FileId| self.waiting.dom().contains(f) && self.waiting[f] <= now)
    }

    /// Everything not yet in the cloud: waiting and being sent.
    pub open spec fn pending(self) -> nat {
        self.waiting.dom().len() + self.sending.len()
    }
}

struct Waiting {
    /// When the quiet period runs out. Pushed out by every further write.
    due: u128,
}

/// The queue of local edits that have not been sent.
pub struct Queue<C: Clock> {
    waiting: Table<FileId, Waiting>,
    in_flight: Table<FileId, ()>,
    debounce: u128,
    failures: Table<FileId, u32>,
    clock: C,
}

impl<C: Clock> View for Queue<C> {
    type V = QueueModel;

    closed spec fn view(&self) -> QueueModel {
        QueueModel {
            waiting: self.waiting@.map_values(|w: Waiting| w.due),
            sending: self.in_flight@.dom(),
            failures: self.failures@,
            debounce: self.debounce,
        }
    }
}

fn doubled(n: u32) -> (k: u128)
    ensures
        k == doubling(n),
        k <= 256,
{
    proof {
        vstd::arithmetic::power2::lemma2_to64();
    }
    match n {
        0 => 1,
        1 => 2,
        2 => 4,
        3 => 8,
        4 => 16,
        5 => 32,
        6 => 64,
        7 => 128,
        _ => 256,
    }
}

impl<C: Clock> Queue<C> {
    pub open spec fn wf(self) -> bool {
        self@.debounce <= MAX_NANOS
    }

    /// The clock that the queue goes by.
    pub closed spec fn timer(self) -> C {
        self.clock
    }

    pub fn new(debounce: u128, clock: C) -> (q: Self)
        requires
            debounce <= MAX_NANOS,
        ensures
            q.wf(),
            q@ == (QueueModel {
                waiting: Map::empty(),
                sending: Set::empty(),
                failures: Map::empty(),
                debounce,
            }),
            q.timer() == clock,
    {
        let q = Queue {
            waiting: Table::new(),
            failures: Table::new(),
            in_flight: Table::new(),
            debounce,
            clock,
        };
        proof {
            assert(q@.waiting =~= Map::empty());
            assert(q@.sending =~= Set::empty());
        }
        q
    }

    /// The queue's own clock.
    pub fn now(&self) -> (t: u128)
        ensures
            t <= MAX_NANOS,
            self.timer().shows(t),
    {
        self.clock.now()
    }

    /// The file changed. Start or extend its quiet period.
    pub fn touch(&mut self, file: FileId)
        requires
            old(self).wf(),
        ensures
            final(self).wf(),
            final(self).timer() == old(self).timer(),
            exists|now: u128| #[trigger]
                old(self).timer().shows(now) && now <= MAX_NANOS && final(self)@
                    == old(self)@.touched(file, now),
    {
        let now = self.now();
        self.touch_at(file, now);
    }

    /// The file changed at `now`.
    pub fn touch_at(&mut self, file: FileId, now: u128)
        requires
            old(self).wf(),
            now <= MAX_NANOS,
        ensures
            final(self).wf(),
            final(self).timer() == old(self).timer(),
            final(self)@ == old(self)@.touched(file, now),
    {
        let ghost m = self@;
        let due: u128 = now + self.debounce;
        self.failures.remove(&file);
        self.waiting.insert(file, Waiting { due });
        assert(self@.waiting =~= m.waiting.insert(file, due));
    }

    /// Sending failed. Come back later, and later again if it keeps failing.
    pub fn failed(&mut self, file: FileId)
        requires
            old(self).wf(),
        ensures
            final(self).wf(),
            final(self).timer() == old(self).timer(),
            exists|now: u128| #[trigger]
                old(self).timer().shows(now) && now <= MAX_NANOS && final(self)@
                    == old(self)@.failed(file, now),
    {
        let now = self.now();
        self.failed_at(file, now);
    }

    /// Sending failed at `now`.
    pub fn failed_at(&mut self, file: FileId, now: u128)
        requires
            old(self).wf(),
            now <= MAX_NANOS,
        ensures
            final(self).wf(),
            final(self).timer() == old(self).timer(),
            final(self)@ == old(self)@.failed(file, now),
    {
        let ghost m = self@;
        let failures: u32 = match self.failures.get(&file) {
            Some(n) => n.saturating_add(1),
            None => 1,
        };
        self.failures.insert(file, failures);
        let factor = doubled(failures);
        assert(self.debounce * factor <= MAX_NANOS * 256) by (nonlinear_arith)
            requires
                self.debounce <= MAX_NANOS,
                factor <= 256,
        ;
        let grown: u128 = self.debounce * factor;
        let wait: u128 = if grown < RETRY_CEILING {
            grown
        } else {
            RETRY_CEILING
        };
        let due: u128 = now + wait;
        self.waiting.insert(file, Waiting { due });
        assert(self@.waiting =~= m.waiting.insert(file, due));
    }

    /// The file went out. Forget what the old bytes could not do.
    pub fn sent(&mut self, file: FileId)
        requires
            old(self).wf(),
        ensures
            final(self).wf(),
            final(self).timer() == old(self).timer(),
            final(self)@ == old(self)@.sent(file),
    {
        self.failures.remove(&file);
    }

    /// The file was deleted. Drop any waiting edit rather than racing it, and
    /// say whether there was one.
    pub fn cancel(&mut self, file: &FileId) -> (was: bool)
        requires
            old(self).wf(),
        ensures
            final(self).wf(),
            final(self).timer() == old(self).timer(),
            final(self)@ == old(self)@.cancelled(*file),
            was == old(self)@.waiting.dom().contains(*file),
    {
        let ghost m = self@;
        self.failures.remove(file);
        let was = self.waiting.remove(file).is_some();
        assert(self@.waiting =~= m.waiting.remove(*file));
        was
    }

    /// Bring every deadline forward. Used at shutdown: an edit lives only on
    /// this machine until it uploads.
    pub fn flush_now(&mut self)
        requires
            old(self).wf(),
        ensures
            final(self).wf(),
            final(self).timer() == old(self).timer(),
            exists|now: u128| #[trigger]
                old(self).timer().shows(now) && now <= MAX_NANOS && final(self)@
                    == old(self)@.flushed(now),
    {
        let now = self.now();
        self.flush_at(now);
    }

    /// Bring every deadline forward to `now`.
    pub fn flush_at(&mut self, now: u128)
        requires
            old(self).wf(),
        ensures
            final(self).wf(),
            final(self).timer() == old(self).timer(),
            final(self)@ == old(self)@.flushed(now),
    {
        let ghost m = self@;
        let n = self.waiting.len();
        let ghost rows = self.waiting.rows();
        let mut fresh: Table<FileId, Waiting> = Table::new();
        let mut i: usize = 0;
        while i < n
            invariant
                i <= n,
                n == rows.len(),
                rows == self.waiting.rows(),
                self@ == m,
                m.debounce <= MAX_NANOS,
                forall|f: FileId| #[trigger]
                    fresh@.dom().contains(f) <==> exists|k: int|
                        0 <= k < i && #[trigger] rows[k].0 == f,
                forall|f: FileId| #[trigger] fresh@.dom().contains(f) ==> fresh@[f].due == now,
            decreases n - i,
        {
            let file = *self.waiting.key_at(i);
            let ghost had = fresh@;
            fresh.insert(file, Waiting { due: now });
            proof {
                assert forall|f: FileId| #[trigger] fresh@.dom().contains(f) <==> exists|k: int|
                    0 <= k < i + 1 && #[trigger] rows[k].0 == f by {
                    if had.dom().contains(f) {
                        let k = choose|k: int| 0 <= k < i && #[trigger] rows[k].0 == f;
                        assert(rows[k].0 == f);
                    }
                    assert(rows[i as int].0 == file);
                    if exists|k: int| 0 <= k < i + 1 && #[trigger] rows[k].0 == f {
                        let k = choose|k: int| 0 <= k < i + 1 && #[trigger] rows[k].0 == f;
                        if k < i {
                            assert(had.dom().contains(f));
                        }
                    }
                }
            }
            i = i + 1;
        }
        self.waiting = fresh;
        proof {
            assert forall|f: FileId| self@.waiting.dom().contains(f) == m.waiting.dom().contains(
                f,
            ) by {
                assert(table::map_of(rows).dom().contains(f) == m.waiting.dom().contains(f));
            }
            assert(self@.waiting.dom() =~= m.waiting.dom());
            assert(self@.waiting =~= m.flushed(now).waiting);
        }
    }

    /// Files whose quiet period has run out, in order.
    pub fn due(&self) -> (r: Vec<FileId>)
        ensures
            exists|now: u128| #[trigger]
                self.timer().shows(now) && now <= MAX_NANOS && r@ == table::in_key_order::<FileId>(
                    self@.due(now),
                ),
    {
        let now = self.now();
        self.due_at(now)
    }

    /// Files whose quiet period has run out at `now`, in order.
    pub fn due_at(&self, now: u128) -> (r: Vec<FileId>)
        ensures
            r@ == table::in_key_order::<FileId>(self@.due(now)),
    {
        let n = self.waiting.len();
        let ghost rows = self.waiting.rows();
        let mut out: Vec<FileId> = Vec::new();
        let mut i: usize = 0;
        while i < n
            invariant
                i <= n,
                n == rows.len(),
                rows == self.waiting.rows(),
                table::ascending::<FileId, Waiting>(rows),
                table::ascending_keys::<FileId>(out@),
                forall|k: int| 0 <= k < out@.len() && i < n ==> FileId::below(
                    #[trigger] out@[k],
                    rows[i as int].0,
                ),
                forall|f: FileId| #[trigger]
                    out@.contains(f) <==> exists|k: int|
                        0 <= k < i && (#[trigger] rows[k]).0 == f && rows[k].1.due <= now,
            decreases n - i,
        {
            let file = *self.waiting.key_at(i);
            let w = self.waiting.value_at(i);
            let ghost had = out@;
            if w.due <= now {
                out.push(file);
            }
            proof {
                assert(rows[i as int].0 == file);
                assert forall|f: FileId| #[trigger] out@.contains(f) <==> exists|k: int|
                    0 <= k < i + 1 && (#[trigger] rows[k]).0 == f && rows[k].1.due <= now by {
                    if out@.contains(f) {
                        let k = choose|k: int| 0 <= k < out@.len() && out@[k] == f;
                        if k < had.len() {
                            assert(had[k] == f);
                            assert(had.contains(f));
                        }
                    }
                    if exists|k: int|
                        0 <= k < i + 1 && (#[trigger] rows[k]).0 == f && rows[k].1.due <= now {
                        let k = choose|k: int|
                            0 <= k < i + 1 && (#[trigger] rows[k]).0 == f && rows[k].1.due <= now;
                        if k < i {
                            assert(had.contains(f));
                            let j = choose|j: int| 0 <= j < had.len() && had[j] == f;
                            assert(out@[j] == f);
                        } else {
                            assert(out@[had.len() as int] == f);
                        }
                    }
                }
                if i + 1 < n {
                    assert(FileId::below(rows[i as int].0, rows[i + 1].0));
                }
            }
            i = i + 1;
        }
        proof {
            let set = self@.due(now);
            assert forall|f: FileId| out@.contains(f) <==> #[trigger] set.contains(f) by {
                if out@.contains(f) {
                    let k = choose|k: int|
                        0 <= k < rows.len() && (#[trigger] rows[k]).0 == f && rows[k].1.due <= now;
                    table::lemma_row::<FileId, Waiting>(rows, k);
                }
                if set.contains(f) {
                    assert(self.waiting@.dom().contains(f));
                    let k = choose|k: int| 0 <= k < rows.len() && #[trigger] rows[k].0 == f;
                    table::lemma_row::<FileId, Waiting>(rows, k);
                }
            }
            table::lemma_key_order_unique::<FileId>(out@, set);
        }
        out
    }

    /// Everything not yet in the cloud: waiting and in flight.
    pub fn pending(&self) -> (n: usize)
        requires
            self@.pending() <= usize::MAX,
        ensures
            n == self@.pending(),
    {
        let waiting = self.waiting.len();
        let sending = self.in_flight.len();
        assert(self@.waiting.dom() =~= self.waiting@.dom());
        waiting + sending
    }

    /// Whether this file has an edit that has not been sent.
    pub fn is_waiting(&self, file: &FileId) -> (b: bool)
        ensures
            b == self@.waiting.dom().contains(*file),
    {
        self.waiting.contains(file)
    }

    pub fn waiting(&self) -> (n: usize)
        ensures
            n == self@.waiting.dom().len(),
    {
        let n = self.waiting.len();
        assert(self@.waiting.dom() =~= self.waiting@.dom());
        n
    }

    /// The files with an edit waiting, as of now.
    pub fn waiting_set(&self) -> (r: Table<FileId, ()>)
        ensures
            r@.dom() == self@.waiting.dom(),
    {
        let r = key_set(&self.waiting);
        assert(self@.waiting.dom() =~= self.waiting@.dom());
        r
    }

    /// The files that are being sent right now.
    pub fn sending_set(&self) -> (r: Table<FileId, ()>)
        ensures
            r@.dom() == self@.sending,
    {
        key_set(&self.in_flight)
    }

    /// Claim a due file for upload.
    pub fn begin(&mut self, file: FileId)
        requires
            old(self).wf(),
        ensures
            final(self).wf(),
            final(self).timer() == old(self).timer(),
            final(self)@ == old(self)@.begun(file),
    {
        let ghost m = self@;
        self.waiting.remove(&file);
        self.in_flight.insert(file, ());
        proof {
            assert(self@.waiting =~= m.waiting.remove(file));
            assert(self@.sending =~= m.sending.insert(file));
        }
    }

    /// Release a claim taken by `begin`.
    pub fn finish(&mut self, file: FileId)
        requires
            old(self).wf(),
        ensures
            final(self).wf(),
            final(self).timer() == old(self).timer(),
            final(self)@ == old(self)@.finished(file),
    {
        let ghost m = self@;
        self.in_flight.remove(&file);
        assert(self@.sending =~= m.sending.remove(file));
    }
}

/// The keys of a table, as a set of their own.
fn key_set<V>(t: &Table<FileId, V>) -> (r: Table<FileId, ()>)
    ensures
        r@.dom() == t@.dom(),
{
    let n = t.len();
    let ghost rows = t.rows();
    let mut r: Table<FileId, ()> = Table::new();
    let mut i: usize = 0;
    while i < n
        invariant
            i <= n,
            n == rows.len(),
            rows == t.rows(),
            forall|f: FileId| #[trigger]
                r@.dom().contains(f) <==> exists|k: int|
                    0 <= k < i && #[trigger] rows[k].0 == f,
        decreases n - i,
    {
        let file = *t.key_at(i);
        let ghost had = r@;
        r.insert(file, ());
        proof {
            assert(rows[i as int].0 == file);
            assert forall|f: FileId| #[trigger] r@.dom().contains(f) <==> exists|k: int|
                0 <= k < i + 1 && #[trigger] rows[k].0 == f by {
                if had.dom().contains(f) {
                    let k = choose|k: int| 0 <= k < i && #[trigger] rows[k].0 == f;
                    assert(rows[k].0 == f);
                }
                if exists|k: int| 0 <= k < i + 1 && #[trigger] rows[k].0 == f {
                    let k = choose|k: int| 0 <= k < i + 1 && #[trigger] rows[k].0 == f;
                    if k < i {
                        assert(had.dom().contains(f));
                    }
                }
            }
        }
        i = i + 1;
    }
    proof {
        assert forall|f: FileId| r@.dom().contains(f) == t@.dom().contains(f) by {
            assert(table::map_of(rows).dom().contains(f) == t@.dom().contains(f));
        }
        assert(r@.dom() =~= t@.dom());
    }
    r
}

/// Ten saves become one upload: a later edit replaces the deadline of an
/// earlier one, and the file is queued once.
pub proof fn law_edits_coalesce(q: QueueModel, file: FileId, first: u128, second: u128)
    requires
        q.waiting.dom().finite(),
        q.sending.finite(),
    ensures
        q.touched(file, first).touched(file, second) == q.touched(file, second),
        q.touched(file, first).touched(file, second).pending() <= q.pending() + 1,
{
    assert(q.touched(file, first).touched(file, second).waiting =~= q.touched(
        file,
        second,
    ).waiting);
    assert(q.touched(file, first).touched(file, second).failures =~= q.touched(
        file,
        second,
    ).failures);
    assert(q.touched(file, second).waiting.dom() =~= q.waiting.dom().insert(file));
}

/// A file is not sent before it has been quiet for the whole period.
pub proof fn law_a_touched_file_waits(q: QueueModel, file: FileId, touched: u128, now: u128)
    requires
        touched <= MAX_NANOS,
        q.debounce <= MAX_NANOS,
    ensures
        q.touched(file, touched).due(now).contains(file) <==> touched + q.debounce <= now,
{
}

/// An edit is counted as unsent from when it is noticed until its upload has
/// finished.
pub proof fn law_an_unsent_edit_is_counted(q: QueueModel, file: FileId, now: u128)
    requires
        q.waiting.dom().finite(),
        q.sending.finite(),
    ensures
        q.touched(file, now).pending() > 0,
        q.touched(file, now).begun(file).pending() > 0,
        q.touched(file, now).begun(file).pending() <= q.touched(file, now).pending(),
{
    let t = q.touched(file, now);
    let b = t.begun(file);
    assert(t.waiting.dom() =~= q.waiting.dom().insert(file));
    assert(b.waiting.dom() =~= t.waiting.dom().remove(file));
    assert(t.waiting.dom().contains(file));
    assert(b.sending.contains(file));
    vstd::set_lib::lemma_len_subset(set![file], t.waiting.dom());
    vstd::set_lib::lemma_len_subset(set![file], b.sending);
}

/// A claim and its release leave the queue without the file, and with nothing
/// else changed.
pub proof fn law_a_finished_claim_leaves_no_trace(q: QueueModel, file: FileId)
    requires
        !q.sending.contains(file),
    ensures
        q.begun(file).finished(file).sending == q.sending,
        q.begun(file).finished(file).waiting == q.waiting.remove(file),
        q.begun(file).finished(file).failures == q.failures,
{
    assert(q.begun(file).finished(file).sending =~= q.sending);
}

/// A file that keeps failing waits longer and longer, up to the ceiling, and
/// never less than the quiet period or the ceiling.
pub proof fn law_backoff_grows_to_the_ceiling(debounce: u128, n: u32)
    requires
        n < u32::MAX,
    ensures
        backoff(debounce, n) <= backoff(debounce, (n + 1) as u32) <= RETRY_CEILING,
        debounce <= backoff(debounce, n) || backoff(debounce, n) == RETRY_CEILING,
        n >= RETRY_DOUBLINGS ==> backoff(debounce, n) == backoff(debounce, RETRY_DOUBLINGS),
{
    vstd::arithmetic::power2::lemma2_to64();
    let a = doubling(n);
    let b = doubling((n + 1) as u32);
    if n < RETRY_DOUBLINGS {
        vstd::arithmetic::power2::lemma_pow2_unfold((n + 1) as nat);
    }
    vstd::arithmetic::power2::lemma_pow2_pos(n as nat);
    assert(1 <= a <= b);
    assert(debounce * a <= debounce * b) by (nonlinear_arith)
        requires
            1 <= a <= b,
    ;
    assert(debounce <= debounce * a) by (nonlinear_arith)
        requires
            1 <= a,
    ;
}

/// A real edit clears the failure history: the next failure counts as the
/// first.
pub proof fn law_an_edit_forgives(q: QueueModel, file: FileId, now: u128)
    ensures
        q.touched(file, now).next_failure(file) == 1,
        q.sent(file).next_failure(file) == 1,
{
}

/// Everything that waits is due once the queue has been flushed.
pub proof fn law_flushing_makes_all_due(q: QueueModel, now: u128)
    ensures
        q.flushed(now).due(now) == q.waiting.dom(),
{
    assert(q.flushed(now).due(now) =~= q.waiting.dom());
}

/// The wait after a failure is the quiet period doubled once for each failure in a
/// row, eight times at most, and a quarter of an hour at most.
pub proof fn law_backoff_doubles(debounce: u128, n: u32)
    ensures
        backoff(debounce, 0) == if debounce < 900_000_000_000 {
            debounce as int
        } else {
            900_000_000_000int
        },
        n < 8 ==> backoff(debounce, (n + 1) as u32) == if 2 * backoff(debounce, n)
            < 900_000_000_000 {
            2 * backoff(debounce, n)
        } else {
            900_000_000_000int
        },
        n >= 8 ==> backoff(debounce, n) == backoff(debounce, 8),
{
    vstd::arithmetic::power2::lemma2_to64();
    if n < 8 {
        vstd::arithmetic::power2::lemma_pow2_unfold((n + 1) as nat);
        assert(debounce * (2 * doubling(n)) == 2 * (debounce * doubling(n))) by (nonlinear_arith);
    }
    assert(debounce * 1 == debounce);
}

/// A failure is counted, and the file is tried again once the wait for that many
/// failures is over and not before. No other file is touched.
pub proof fn law_a_failed_file_is_tried_again(
    q: QueueModel,
    file: FileId,
    other: FileId,
    now: u128,
    later: u128,
)
    requires
        now <= MAX_NANOS,
        other != file,
    ensures
        ({
            let after = q.failed(file, now);
            let n = after.failures[file];
            &&& after.failures.dom().contains(file)
            &&& !q.failures.dom().contains(file) ==> n == 1
            &&& q.failures.dom().contains(file) && q.failures[file] < u32::MAX ==> n
                == q.failures[file] + 1
            &&& q.failures.dom().contains(file) && q.failures[file] == u32::MAX ==> n == u32::MAX
            &&& after.due(later).contains(file) <==> now + backoff(q.debounce, n) <= later
            &&& after.due(later).contains(other) <==> q.due(later).contains(other)
            &&& after.waiting.dom().contains(file)
            &&& after.waiting.dom().contains(other) <==> q.waiting.dom().contains(other)
            &&& after.failures.dom().contains(other) <==> q.failures.dom().contains(other)
            &&& after.failures[other] == q.failures[other]
            &&& after.sending == q.sending
            &&& after.debounce == q.debounce
        }),
{
    law_backoff_grows_to_the_ceiling(q.debounce, 0);
    assert(backoff(q.debounce, q.next_failure(file)) <= RETRY_CEILING);
    assert(0 <= backoff(q.debounce, q.next_failure(file))) by {
        assert(0 <= q.debounce * doubling(q.next_failure(file))) by (nonlinear_arith)
            requires
                0 <= q.debounce,
                0 <= doubling(q.next_failure(file)),
        ;
    }
}

/// Failures in a row make longer waits, and a file that is touched or sent starts
/// over.
pub proof fn law_failures_add_up(q: QueueModel, file: FileId, first: u128, second: u128)
    requires
        q.next_failure(file) < u32::MAX,
    ensures
        q.failed(file, first).failed(file, second).failures[file] == q.failed(
            file,
            first,
        ).failures[file] + 1,
        q.touched(file, first).failed(file, second).failures[file] == 1,
        q.sent(file).failed(file, second).failures[file] == 1,
        q.cancelled(file).failed(file, second).failures[file] == 1,
        q.begun(file).failed(file, second).failures == q.failed(file, second).failures,
        q.begun(file).finished(file).failed(file, second).failures == q.failed(
            file,
            second,
        ).failures,
{
}

/// Touching a file lets every other file stand as it was, and makes this one wait
/// out the quiet period from now, whatever it waited for before.
pub proof fn law_a_touch_is_about_one_file(
    q: QueueModel,
    file: FileId,
    other: FileId,
    now: u128,
    later: u128,
)
    requires
        now <= MAX_NANOS,
        q.debounce <= MAX_NANOS,
        other != file,
    ensures
        q.touched(file, now).waiting.dom().contains(file),
        q.touched(file, now).due(later).contains(file) <==> now + q.debounce <= later,
        q.touched(file, now).due(later).contains(other) <==> q.due(later).contains(other),
        q.touched(file, now).waiting.dom().contains(other) <==> q.waiting.dom().contains(other),
        q.touched(file, now).failures.dom().contains(other) <==> q.failures.dom().contains(other),
        !q.touched(file, now).failures.dom().contains(file),
        q.touched(file, now).sending == q.sending,
        q.touched(file, now).debounce == q.debounce,
{
}

/// A file is due exactly when it waits and its time has come.
pub proof fn law_a_file_is_due_when_its_time_has_come(q: QueueModel, file: FileId, now: u128)
    ensures
        q.due(now).contains(file) <==> q.waiting.dom().contains(file) && q.waiting[file] <= now,
        forall|later: u128| now <= later && q.due(now).contains(file) ==> #[trigger] q.due(
            later,
        ).contains(file),
{
}

/// A file that is taken up no longer waits and is counted as being sent; a file
/// that is finished is no longer counted; and a file that was cancelled neither
/// waits nor has failures against it. Nothing of this touches another file.
pub proof fn law_a_file_is_in_one_place(q: QueueModel, file: FileId, other: FileId)
    requires
        other != file,
    ensures
        !q.begun(file).waiting.dom().contains(file),
        q.begun(file).sending.contains(file),
        q.begun(file).failures == q.failures,
        q.begun(file).waiting.dom().contains(other) <==> q.waiting.dom().contains(other),
        q.begun(file).waiting[other] == q.waiting[other],
        q.begun(file).sending.contains(other) <==> q.sending.contains(other),
        !q.finished(file).sending.contains(file),
        q.finished(file).sending.contains(other) <==> q.sending.contains(other),
        q.finished(file).waiting == q.waiting,
        q.finished(file).failures == q.failures,
        !q.cancelled(file).waiting.dom().contains(file),
        !q.cancelled(file).failures.dom().contains(file),
        q.cancelled(file).waiting.dom().contains(other) <==> q.waiting.dom().contains(other),
        q.cancelled(file).waiting[other] == q.waiting[other],
        q.cancelled(file).failures.dom().contains(other) <==> q.failures.dom().contains(other),
        q.cancelled(file).sending == q.sending,
        q.sent(file).waiting == q.waiting,
        q.sent(file).sending == q.sending,
        !q.sent(file).failures.dom().contains(file),
        q.sent(file).failures.dom().contains(other) <==> q.failures.dom().contains(other),
{
}

/// What is pending counts the edits that wait and those on their way.
pub proof fn law_pending_counts_both(q: QueueModel, file: FileId, now: u128)
    requires
        q.waiting.dom().finite(),
        q.sending.finite(),
    ensures
        q.waiting.dom().is_empty() && q.sending.is_empty() <==> q.pending() == 0,
        !q.waiting.dom().contains(file) ==> q.touched(file, now).pending() == q.pending() + 1,
        q.waiting.dom().contains(file) ==> q.touched(file, now).pending() == q.pending(),
        q.waiting.dom().contains(file) && !q.sending.contains(file) ==> q.begun(file).pending()
            == q.pending(),
        q.sending.contains(file) ==> q.finished(file).pending() == q.pending() - 1,
        q.waiting.dom().contains(file) ==> q.cancelled(file).pending() == q.pending() - 1,
        q.flushed(now).pending() == q.pending(),
{
    assert(q.touched(file, now).waiting.dom() =~= q.waiting.dom().insert(file));
    assert(q.begun(file).waiting.dom() =~= q.waiting.dom().remove(file));
    assert(q.cancelled(file).waiting.dom() =~= q.waiting.dom().remove(file));
    assert(q.flushed(now).waiting.dom() =~= q.waiting.dom());
    if q.pending() == 0 {
        assert(q.waiting.dom() =~= Set::empty());
        assert(q.sending =~= Set::empty());
    }
    if q.waiting.dom().is_empty() {
        assert(q.waiting.dom() =~= Set::empty());
    }
    if q.sending.is_empty() {
        assert(q.sending =~= Set::empty());
    }
}

/// Flushing makes each file that waits due from now on and not before, and touches
/// nothing else: failures stay counted, and what is being sent is.
pub proof fn law_flushing_only_shortens_the_wait(
    q: QueueModel,
    file: FileId,
    now: u128,
    then: u128,
)
    ensures
        q.flushed(now).waiting.dom() == q.waiting.dom(),
        q.flushed(now).due(then).contains(file) <==> q.waiting.dom().contains(file) && now <= then,
        q.flushed(now).failures == q.failures,
        q.flushed(now).sending == q.sending,
        q.flushed(now).debounce == q.debounce,
{
    assert(q.flushed(now).waiting.dom() =~= q.waiting.dom());
}

} // verus!
