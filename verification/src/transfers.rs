//! Observations of payload traffic: what is under way, how much of it is done,
//! and how fast it goes. Never a queue of work.

use crate::table;
use crate::table::Table;
use crate::upload::{Clock, SystemClock};
use vstd::prelude::*;
use vstd::string::*;

verus! {

/// Which way a transfer goes.
#[derive(Debug, Clone, Copy, PartialEq, Eq, Structural)]
pub enum Direction {
    Upload,
    Download,
}

/// One transfer: what it is of, and how far it has come.
#[derive(Debug, PartialEq, Eq)]
pub struct Transfer {
    path: String,
    direction: Direction,
    total: u64,
    offset: u64,
    object_size: u64,
    bytes: u64,
    position: u64,
    confirmed: u64,
}

/// A transfer over texts.
#[verifier::ext_equal]
pub struct TransferModel {
    pub path: Seq<char>,
    pub direction: Direction,
    /// How much is to be transferred.
    pub total: u64,
    /// Where in the object that begins.
    pub offset: u64,
    pub object_size: u64,
    /// Traffic so far. What is sent again counts again.
    pub bytes: u64,
    pub position: u64,
    /// What the other side has confirmed.
    pub confirmed: u64,
}

impl View for Transfer {
    type V = TransferModel;

    closed spec fn view(&self) -> TransferModel {
        TransferModel {
            path: self.path@,
            direction: self.direction,
            total: self.total,
            offset: self.offset,
            object_size: self.object_size,
            bytes: self.bytes,
            position: self.position,
            confirmed: self.confirmed,
        }
    }
}

/// The smaller of two numbers.
pub open spec fn least(a: u64, b: u64) -> u64 {
    if a < b {
        a
    } else {
        b
    }
}

fn smaller(a: u64, b: u64) -> (r: u64)
    ensures
        r == least(a, b),
{
    if a < b {
        a
    } else {
        b
    }
}

/// A sum of counters, which start over when they run full.
pub open spec fn counted(a: u64, b: usize) -> u64 {
    ((a + b) % 0x1_0000_0000_0000_0000) as u64
}

fn count(a: u64, b: usize) -> (r: u64)
    ensures
        r == counted(a, b),
{
    let sum: u128 = a as u128 + b as u128;
    (sum % 0x1_0000_0000_0000_0000) as u64
}

impl Transfer {
    /// Note where the transfer stands now, which may be further back: it is
    /// never past its end.
    pub fn position(&mut self, offset: u64)
        ensures
            final(self)@ == (TransferModel {
                position: least(offset, old(self)@.total),
                ..old(self)@
            }),
    {
        self.position = smaller(offset, self.total);
    }

    /// Note how much the other side has confirmed.
    pub fn confirm(&mut self, offset: u64)
        ensures
            final(self)@ == (TransferModel {
                confirmed: least(offset, old(self)@.total),
                ..old(self)@
            }),
    {
        self.confirmed = smaller(offset, self.total);
    }

    fn advance(&mut self, bytes: usize)
        ensures
            final(self)@ == (TransferModel {
                bytes: counted(old(self)@.bytes, bytes),
                position: counted(old(self)@.position, bytes),
                ..old(self)@
            }),
    {
        self.bytes = count(self.bytes, bytes);
        self.position = count(self.position, bytes);
    }
}

/// A transfer under way. Ending it takes its row away, however it went.
#[derive(Debug, PartialEq, Eq)]
pub struct Running {
    pub id: u64,
    pub direction: Direction,
}

/// How much had gone each way at a moment.
#[derive(Debug, Clone, Copy, PartialEq, Eq, Structural)]
pub struct Sample {
    pub millis: u64,
    pub uploaded: u64,
    pub downloaded: u64,
}

/// One row of a report.
#[derive(Debug, PartialEq, Eq)]
pub struct Row {
    pub id: u64,
    pub path: String,
    pub direction: Direction,
    pub total: u64,
    pub offset: u64,
    pub object_size: u64,
    pub bytes: u64,
    pub position: u64,
    pub confirmed: u64,
}

/// A row over texts.
#[verifier::ext_equal]
pub struct RowModel {
    pub id: u64,
    pub transfer: TransferModel,
}

impl View for Row {
    type V = RowModel;

    open spec fn view(&self) -> RowModel {
        RowModel {
            id: self.id,
            transfer: TransferModel {
                path: self.path@,
                direction: self.direction,
                total: self.total,
                offset: self.offset,
                object_size: self.object_size,
                bytes: self.bytes,
                position: self.position,
                confirmed: self.confirmed,
            },
        }
    }
}

/// A report on all transfers.
#[derive(Debug, PartialEq, Eq)]
pub struct Snapshot {
    /// The first transfers that began, no more than [`MAX_ROWS`].
    pub active: Vec<Row>,
    pub count: usize,
    pub uploaded: u64,
    pub downloaded: u64,
    /// Bytes in a second.
    pub upload_rate: u64,
    pub download_rate: u64,
}

/// A report over texts.
#[verifier::ext_equal]
pub struct SnapshotModel {
    pub active: Seq<RowModel>,
    pub count: nat,
    pub uploaded: u64,
    pub downloaded: u64,
    pub upload_rate: u64,
    pub download_rate: u64,
}

/// Rows over texts.
pub open spec fn row_models(v: Seq<Row>) -> Seq<RowModel> {
    v.map_values(|r: Row| r@)
}

impl View for Snapshot {
    type V = SnapshotModel;

    open spec fn view(&self) -> SnapshotModel {
        SnapshotModel {
            active: row_models(self.active@),
            count: self.count as nat,
            uploaded: self.uploaded,
            downloaded: self.downloaded,
            upload_rate: self.upload_rate,
            download_rate: self.download_rate,
        }
    }
}

/// How many rows a report has at most.
pub const MAX_ROWS: usize = 64;

/// How many names are remembered at most.
pub const MAX_NAMES: usize = 512;

/// Samples lie at least this far apart, in milliseconds.
pub const SAMPLE_EVERY: u64 = 100;

/// Rates are over about this long, in milliseconds.
pub const WINDOW: u64 = 5000;

/// A shorter time than this, in milliseconds, gives no rate.
pub const SHORTEST: u64 = 250;

/// A difference that does not go below zero.
pub open spec fn less(a: u64, b: u64) -> u64 {
    if a > b {
        (a - b) as u64
    } else {
        0
    }
}

/// The samples that matter, without those from before the window but one.
pub open spec fn recent(samples: Seq<Sample>, millis: u64) -> Seq<Sample>
    decreases samples.len(),
{
    if samples.len() > 2 && samples[1].millis < less(millis, WINDOW) {
        recent(samples.drop_first(), millis)
    } else {
        samples
    }
}

/// The samples once a report has been made.
pub open spec fn sampled(samples: Seq<Sample>, now: Sample) -> Seq<Sample> {
    let more = if samples.len() == 0 || less(now.millis, samples.last().millis) >= SAMPLE_EVERY {
        samples.push(now)
    } else {
        samples
    };
    recent(more, now.millis)
}

/// Bytes in a second, for so many bytes in so many milliseconds.
pub open spec fn rate_of(bytes: u64, elapsed: u64) -> u64 {
    if elapsed >= SHORTEST {
        ((if bytes * 1000 > u64::MAX {
            u64::MAX as int
        } else {
            bytes * 1000
        }) / elapsed as int) as u64
    } else {
        0
    }
}

/// A transfer as a report shows it: never past its end.
pub open spec fn shown(id: u64, t: TransferModel) -> RowModel {
    RowModel {
        id,
        transfer: TransferModel {
            position: least(t.position, t.total),
            confirmed: least(t.confirmed, t.total),
            ..t
        },
    }
}

/// All transfers.
pub struct Transfers {
    next: u64,
    uploaded: u64,
    downloaded: u64,
    active: Table<u64, Transfer>,
    names: Table<String, String>,
    samples: Vec<Sample>,
    clock: SystemClock,
}

/// All transfers, over texts.
#[verifier::ext_equal]
pub struct TransfersModel {
    pub next: u64,
    pub uploaded: u64,
    pub downloaded: u64,
    pub active: Map<u64, TransferModel>,
    pub names: Map<Seq<char>, Seq<char>>,
    pub samples: Seq<Sample>,
}

/// Transfers by number, over texts.
pub open spec fn transfer_map(m: Map<u64, Transfer>) -> Map<u64, TransferModel> {
    m.map_values(|t: Transfer| t@)
}

/// Names by object, over texts.
pub open spec fn name_map(m: Map<Seq<char>, String>) -> Map<Seq<char>, Seq<char>> {
    m.map_values(|s: String| s@)
}

impl View for Transfers {
    type V = TransfersModel;

    closed spec fn view(&self) -> TransfersModel {
        TransfersModel {
            next: self.next,
            uploaded: self.uploaded,
            downloaded: self.downloaded,
            active: transfer_map(self.active@),
            names: name_map(self.names@),
            samples: self.samples@,
        }
    }
}

/// Something that is done to the transfers, over texts.
pub enum Act {
    Name { id: Seq<char>, path: Seq<char> },
    Begin { path: Seq<char>, direction: Direction, total: u64, offset: u64, object_size: u64 },
    Traffic { running: Running, bytes: usize },
    Move { id: u64, offset: u64 },
    Confirm { id: u64, offset: u64 },
    End { id: u64 },
    Report { millis: u64 },
}

impl TransfersModel {
    /// What holds until the numbers run full: every row has a number that was
    /// given out, and the numbers from the next one on were not.
    pub open spec fn wf(self) -> bool {
        &&& self.active.dom().finite()
        &&& forall|id: u64| #[trigger] self.active.dom().contains(id) ==> self.is_given(id)
    }

    /// Whether a number was given to a transfer.
    pub open spec fn is_given(self, id: u64) -> bool {
        id < self.next
    }

    /// The transfers once an object has got a name.
    pub open spec fn after_name(self, id: Seq<char>, path: Seq<char>) -> TransfersModel {
        TransfersModel {
            names: (if self.names.dom().len() >= MAX_NAMES {
                Map::empty()
            } else {
                self.names
            }).insert(id, path),
            ..self
        }
    }

    /// The transfers once another one has begun.
    pub open spec fn after_begin(
        self,
        path: Seq<char>,
        direction: Direction,
        total: u64,
        offset: u64,
        object_size: u64,
    ) -> TransfersModel {
        TransfersModel {
            next: counted(self.next, 1),
            active: self.active.insert(
                self.next,
                TransferModel {
                    path,
                    direction,
                    total,
                    offset,
                    object_size,
                    bytes: 0,
                    position: 0,
                    confirmed: 0,
                },
            ),
            ..self
        }
    }

    /// The transfers once one is known to stand at a place.
    pub open spec fn after_move(self, id: u64, offset: u64) -> TransfersModel {
        if self.active.dom().contains(id) {
            let t = self.active[id];
            TransfersModel {
                active: self.active.insert(
                    id,
                    TransferModel { position: least(offset, t.total), ..t },
                ),
                ..self
            }
        } else {
            self
        }
    }

    /// The transfers once a part of one has been confirmed.
    pub open spec fn after_confirm(self, id: u64, offset: u64) -> TransfersModel {
        if self.active.dom().contains(id) {
            let t = self.active[id];
            TransfersModel {
                active: self.active.insert(
                    id,
                    TransferModel { confirmed: least(offset, t.total), ..t },
                ),
                ..self
            }
        } else {
            self
        }
    }

    /// The transfers once one has ended.
    pub open spec fn after_end(self, id: u64) -> TransfersModel {
        TransfersModel { active: self.active.remove(id), ..self }
    }

    /// The transfers once something has been done.
    pub open spec fn after(self, act: Act) -> TransfersModel {
        match act {
            Act::Name { id, path } => self.after_name(id, path),
            Act::Begin { path, direction, total, offset, object_size } => self.after_begin(
                path,
                direction,
                total,
                offset,
                object_size,
            ),
            Act::Traffic { running, bytes } => self.after_traffic(running, bytes),
            Act::Move { id, offset } => self.after_move(id, offset),
            Act::Confirm { id, offset } => self.after_confirm(id, offset),
            Act::End { id } => self.after_end(id),
            Act::Report { millis } => self.after_report(millis),
        }
    }

    /// The transfers once a number of things have been done.
    pub open spec fn after_all(self, acts: Seq<Act>) -> TransfersModel
        decreases acts.len(),
    {
        if acts.len() == 0 {
            self
        } else {
            self.after_all(acts.drop_last()).after(acts.last())
        }
    }

    /// What a report at a moment says.
    pub open spec fn report(self, millis: u64) -> SnapshotModel {
        let keys = table::in_key_order::<u64>(self.active.dom());
        let rows = keys.map_values(|id: u64| shown(id, self.active[id]));
        let first = self.after_report(millis).samples[0];
        let elapsed = less(millis, first.millis);
        SnapshotModel {
            active: rows.take(
                if rows.len() < MAX_ROWS {
                    rows.len() as int
                } else {
                    MAX_ROWS as int
                },
            ),
            count: keys.len(),
            uploaded: self.uploaded,
            downloaded: self.downloaded,
            upload_rate: rate_of(less(self.uploaded, first.uploaded), elapsed),
            download_rate: rate_of(less(self.downloaded, first.downloaded), elapsed),
        }
    }

    /// The transfers once a report has been made.
    pub open spec fn after_report(self, millis: u64) -> TransfersModel {
        TransfersModel {
            samples: sampled(
                self.samples,
                Sample { millis, uploaded: self.uploaded, downloaded: self.downloaded },
            ),
            ..self
        }
    }

    /// The transfers once some bytes of one have gone by.
    pub open spec fn after_traffic(self, running: Running, bytes: usize) -> TransfersModel {
        TransfersModel {
            uploaded: if running.direction == Direction::Upload {
                counted(self.uploaded, bytes)
            } else {
                self.uploaded
            },
            downloaded: if running.direction == Direction::Download {
                counted(self.downloaded, bytes)
            } else {
                self.downloaded
            },
            active: if self.active.dom().contains(running.id) {
                let t = self.active[running.id];
                self.active.insert(
                    running.id,
                    TransferModel {
                        bytes: counted(t.bytes, bytes),
                        position: counted(t.position, bytes),
                        ..t
                    },
                )
            } else {
                self.active
            },
            ..self
        }
    }
}

proof fn lemma_recent(samples: Seq<Sample>, millis: u64)
    requires
        samples.len() > 0,
    ensures
        recent(samples, millis).len() > 0,
    decreases samples.len(),
{
    if samples.len() > 2 && samples[1].millis < less(millis, WINDOW) {
        lemma_recent(samples.drop_first(), millis);
    }
}

fn rate(bytes: u64, elapsed: u64) -> (r: u64)
    ensures
        r == rate_of(bytes, elapsed),
{
    if elapsed < SHORTEST {
        return 0;
    }
    let scaled: u128 = bytes as u128 * 1000;
    let capped: u128 = if scaled > 0xffff_ffff_ffff_ffff {
        0xffff_ffff_ffff_ffff
    } else {
        scaled
    };
    let q: u128 = capped / elapsed as u128;
    proof {
        assert(q <= capped) by (nonlinear_arith)
            requires
                q == capped / elapsed as u128,
                elapsed >= 1,
        ;
    }
    q as u64
}

impl Transfers {
    pub fn new() -> (t: Transfers)
        ensures
            t@.wf(),
            t@ == (TransfersModel {
                next: 0,
                uploaded: 0,
                downloaded: 0,
                active: Map::empty(),
                names: Map::empty(),
                samples: Seq::empty(),
            }),
    {
        let t = Transfers {
            next: 0,
            uploaded: 0,
            downloaded: 0,
            active: Table::new(),
            names: Table::new(),
            samples: Vec::new(),
            clock: SystemClock::default(),
        };
        proof {
            assert(t@.active =~= Map::empty());
            assert(t@.names =~= Map::empty());
        }
        t
    }

    /// Remember which path an object is at. When there are too many names, all
    /// go.
    pub fn name(&mut self, id: &str, path: &str)
        ensures
            final(self)@ == old(self)@.after_name(id@, path@),
            old(self)@.wf() ==> final(self)@.wf(),
    {
        let ghost was = self@.names;
        let n = self.names.len();
        assert(was.dom() =~= self.names@.dom());
        if n >= MAX_NAMES {
            self.names.clear();
        }
        let ghost kept = name_map(self.names@);
        self.names.insert(id.to_owned(), path.to_owned());
        proof {
            if n >= MAX_NAMES {
                assert(kept =~= Map::empty());
            }
            assert(self@.names =~= kept.insert(id@, path@));
        }
    }

    /// Which path an object is at; nothing where that is not known.
    pub fn path(&self, id: &str) -> (s: String)
        ensures
            s@ == if self@.names.dom().contains(id@) {
                self@.names[id@]
            } else {
                Seq::empty()
            },
    {
        let key = id.to_owned();
        match self.names.get(&key) {
            Some(p) => p.as_str().to_owned(),
            None => String::new(),
        }
    }

    /// Begin a transfer.
    pub fn begin(
        &mut self,
        path: &str,
        direction: Direction,
        total: u64,
        offset: u64,
        object_size: u64,
    ) -> (r: Running)
        ensures
            r == (Running { id: old(self)@.next, direction }),
            final(self)@ == old(self)@.after_begin(path@, direction, total, offset, object_size),
            old(self)@.wf() ==> !old(self)@.is_given(r.id) && !old(self)@.active.dom().contains(
                r.id,
            ),
            old(self)@.wf() && old(self)@.next < u64::MAX ==> final(self)@.wf()
                && final(self)@.is_given(r.id),
    {
        let ghost was = self@;
        let id = self.next;
        self.next = count(self.next, 1);
        let t = Transfer {
            path: path.to_owned(),
            direction,
            total,
            offset,
            object_size,
            bytes: 0,
            position: 0,
            confirmed: 0,
        };
        let ghost m = t@;
        self.active.insert(id, t);
        assert(self@.active =~= was.active.insert(id, m));
        Running { id, direction }
    }

    /// Count some bytes that went by.
    pub fn add(&mut self, running: &Running, bytes: usize)
        ensures
            final(self)@ == old(self)@.after_traffic(*running, bytes),
            old(self)@.wf() ==> final(self)@.wf(),
    {
        let ghost was = self@;
        assert(was.active.dom() =~= self.active@.dom());
        if let Some(t) = self.active.remove(&running.id) {
            let mut t = t;
            t.advance(bytes);
            let ghost m = t@;
            self.active.insert(running.id, t);
            assert(transfer_map(self.active@) =~= was.active.insert(running.id, m));
        } else {
            assert(transfer_map(self.active@) =~= was.active);
        }
        match running.direction {
            Direction::Upload => {
                self.uploaded = count(self.uploaded, bytes);
            },
            Direction::Download => {
                self.downloaded = count(self.downloaded, bytes);
            },
        }
    }

    /// Note where a transfer stands now.
    pub fn move_to(&mut self, running: &Running, offset: u64)
        ensures
            final(self)@ == old(self)@.after_move(running.id, offset),
            old(self)@.wf() ==> final(self)@.wf(),
    {
        let ghost was = self@;
        assert(was.active.dom() =~= self.active@.dom());
        if let Some(t) = self.active.remove(&running.id) {
            let mut t = t;
            t.position(offset);
            let ghost m = t@;
            self.active.insert(running.id, t);
            assert(self@.active =~= was.active.insert(running.id, m));
        } else {
            assert(self@.active =~= was.active);
        }
    }

    /// Note how much of a transfer the other side has confirmed.
    pub fn confirm_to(&mut self, running: &Running, offset: u64)
        ensures
            final(self)@ == old(self)@.after_confirm(running.id, offset),
            old(self)@.wf() ==> final(self)@.wf(),
    {
        let ghost was = self@;
        assert(was.active.dom() =~= self.active@.dom());
        if let Some(t) = self.active.remove(&running.id) {
            let mut t = t;
            t.confirm(offset);
            let ghost m = t@;
            self.active.insert(running.id, t);
            assert(self@.active =~= was.active.insert(running.id, m));
        } else {
            assert(self@.active =~= was.active);
        }
    }

    /// End a transfer, however it went.
    pub fn end(&mut self, running: Running)
        ensures
            final(self)@ == old(self)@.after_end(running.id),
            old(self)@.wf() ==> final(self)@.wf(),
    {
        let ghost was = self@;
        self.active.remove(&running.id);
        assert(self@.active =~= was.active.remove(running.id));
    }

    fn rows(&self) -> (out: Vec<Row>)
        ensures
            ({
                let keys = table::in_key_order::<u64>(self@.active.dom());
                let rows = keys.map_values(|id: u64| shown(id, self@.active[id]));
                row_models(out@) == rows.take(
                    if rows.len() < MAX_ROWS {
                        rows.len() as int
                    } else {
                        MAX_ROWS as int
                    },
                )
            }),
    {
        let n = self.active.len();
        let ghost keys = table::in_key_order::<u64>(self@.active.dom());
        let ghost want = keys.map_values(|id: u64| shown(id, self@.active[id]));
        assert(self@.active.dom() =~= self.active@.dom());
        let mut out: Vec<Row> = Vec::new();
        let mut i: usize = 0;
        assert(row_models(out@) =~= want.take(0));
        while i < n && i < MAX_ROWS
            invariant
                i <= n,
                i <= MAX_ROWS,
                n == self.active.rows().len(),
                keys == table::keys_of(self.active.rows()),
                want == keys.map_values(|id: u64| shown(id, self@.active[id])),
                row_models(out@) == want.take(i as int),
            decreases n - i,
        {
            let id = self.active.key_at(i);
            let t = self.active.value_at(i);
            let ghost had = row_models(out@);
            assert(keys[i as int] == *id);
            assert(self@.active[*id] == t@);
            let row = Row {
                id: *id,
                path: t.path.as_str().to_owned(),
                direction: t.direction,
                total: t.total,
                offset: t.offset,
                object_size: t.object_size,
                bytes: t.bytes,
                position: smaller(t.position, t.total),
                confirmed: smaller(t.confirmed, t.total),
            };
            let ghost m = row@;
            out.push(row);
            proof {
                assert(want[i as int] == m);
                assert(row_models(out@) =~= had.push(m));
                assert(want.take(i + 1) =~= want.take(i as int).push(m));
            }
            i = i + 1;
        }
        out
    }

    /// Report at a moment, in milliseconds since the beginning.
    pub fn snapshot_at(&mut self, millis: u64) -> (r: Snapshot)
        ensures
            r@ == old(self)@.report(millis),
            final(self)@ == old(self)@.after_report(millis),
            old(self)@.wf() ==> final(self)@.wf(),
    {
        let ghost was = self@;
        let now = Sample { millis, uploaded: self.uploaded, downloaded: self.downloaded };
        let due = if self.samples.len() == 0 {
            true
        } else {
            let last = self.samples[self.samples.len() - 1];
            millis.saturating_sub(last.millis) >= SAMPLE_EVERY
        };
        if due {
            self.samples.push(now);
        }
        let ghost more = self.samples@;
        let floor: u64 = millis.saturating_sub(WINDOW);
        while self.samples.len() > 2 && self.samples[1].millis < floor
            invariant
                floor == less(millis, WINDOW),
                self.samples@.len() > 0,
                recent(self.samples@, millis) == recent(more, millis),
                transfer_map(self.active@) == was.active,
                name_map(self.names@) == was.names,
                self.next == was.next,
                self.uploaded == was.uploaded,
                self.downloaded == was.downloaded,
            decreases self.samples@.len(),
        {
            let ghost some = self.samples@;
            self.samples.remove(0);
            assert(self.samples@ =~= some.drop_first());
        }
        proof {
            lemma_recent(more, millis);
        }
        let first = self.samples[0];
        let elapsed: u64 = millis.saturating_sub(first.millis);
        let count = self.active.len();
        assert(self@.active.dom() =~= self.active@.dom());
        let active = self.rows();
        Snapshot {
            active,
            count,
            uploaded: self.uploaded,
            downloaded: self.downloaded,
            upload_rate: rate(self.uploaded.saturating_sub(first.uploaded), elapsed),
            download_rate: rate(self.downloaded.saturating_sub(first.downloaded), elapsed),
        }
    }

    /// Report as of now.
    pub fn snapshot(&mut self) -> (r: Snapshot)
        ensures
            exists|millis: u64|
                r@ == #[trigger] old(self)@.report(millis) && final(self)@
                    == old(self)@.after_report(millis),
            old(self)@.wf() ==> final(self)@.wf(),
    {
        let nanos: u128 = self.clock.now();
        let millis: u64 = (nanos / 1_000_000 % 0x1_0000_0000_0000_0000) as u64;
        let ghost was = self@;
        let r = self.snapshot_at(millis);
        assert(r@ == was.report(millis));
        r
    }
}

/// Counts what a reader actually read for a transfer, if it reads for one.
pub struct Reader {
    pub transfer: Option<Running>,
}

impl Reader {
    /// Count what one read brought.
    pub fn read(&self, monitor: &mut Transfers, count: usize)
        ensures
            final(monitor)@ == match self.transfer {
                Some(running) => old(monitor)@.after_traffic(running, count),
                None => old(monitor)@,
            },
            old(monitor)@.wf() ==> final(monitor)@.wf(),
    {
        if let Some(running) = &self.transfer {
            monitor.add(running, count);
        }
    }
}

/// Traffic is counted and confirms nothing: what the other side has confirmed
/// changes only when it says so.
pub proof fn law_traffic_confirms_nothing(t: TransfersModel, running: Running, bytes: usize)
    ensures
        forall|id: u64| #[trigger]
            t.active.dom().contains(id) ==> t.after_traffic(
                running,
                bytes,
            ).active.dom().contains(id) && t.after_traffic(running, bytes).active[id].confirmed
                == t.active[id].confirmed,
{
}

/// No row shows a transfer past its end.
pub proof fn law_a_row_never_passes_its_end(id: u64, t: TransferModel)
    ensures
        shown(id, t).transfer.position <= t.total,
        shown(id, t).transfer.confirmed <= t.total,
{
}

/// Traffic of one transfer leaves every other one as it was.
pub proof fn law_transfers_are_kept_apart(
    t: TransfersModel,
    running: Running,
    bytes: usize,
    other: u64,
)
    requires
        other != running.id,
        t.active.dom().contains(other),
    ensures
        t.after_traffic(running, bytes).active.dom().contains(other),
        t.after_traffic(running, bytes).active[other] == t.active[other],
{
}

/// How many transfers begin among some things that are done.
pub open spec fn begins(acts: Seq<Act>) -> nat
    decreases acts.len(),
{
    if acts.len() == 0 {
        0
    } else {
        begins(acts.drop_last()) + if acts.last() is Begin {
            1nat
        } else {
            0
        }
    }
}

proof fn lemma_after_all(t: TransfersModel, acts: Seq<Act>)
    requires
        t.wf(),
        t.next + begins(acts) <= u64::MAX,
    ensures
        t.after_all(acts).wf(),
        t.after_all(acts).next == t.next + begins(acts),
    decreases acts.len(),
{
    if acts.len() > 0 {
        lemma_after_all(t, acts.drop_last());
        let u = t.after_all(acts.drop_last());
        let v = u.after(acts.last());
        assert forall|id: u64| #[trigger] v.active.dom().contains(id) implies v.is_given(id) by {
            if u.active.dom().contains(id) {
                assert(u.is_given(id));
            }
        }
    }
}

proof fn lemma_begins_grow(acts: Seq<Act>, i: int, j: int)
    requires
        0 <= i <= j <= acts.len(),
    ensures
        begins(acts.take(i)) <= begins(acts.take(j)),
        i < j && acts[i] is Begin ==> begins(acts.take(i)) < begins(acts.take(j)),
    decreases j - i,
{
    if i < j {
        let part = acts.take(j);
        assert(part.drop_last() =~= acts.take(j - 1));
        assert(part.last() == acts[j - 1]);
        lemma_begins_grow(acts, i, j - 1);
    }
}

/// No two transfers are ever given the same number, whatever is done between
/// their beginnings, and a number in use is never given, until the numbers run
/// full.
pub proof fn law_a_number_is_given_once(t: TransfersModel, acts: Seq<Act>, i: int, j: int)
    requires
        t.wf(),
        t.next + begins(acts) <= u64::MAX,
        0 <= i < j < acts.len(),
        acts[i] is Begin,
        acts[j] is Begin,
    ensures
        t.after_all(acts.take(i)).next != t.after_all(acts.take(j)).next,
        !t.after_all(acts.take(j)).active.dom().contains(t.after_all(acts.take(j)).next),
        !t.is_given(t.after_all(acts.take(j)).next),
        t.after_all(acts).wf(),
{
    assert(acts.take(acts.len() as int) =~= acts);
    lemma_begins_grow(acts, i, j);
    lemma_begins_grow(acts, j, acts.len() as int);
    lemma_after_all(t, acts.take(i));
    lemma_after_all(t, acts.take(j));
    lemma_after_all(t, acts);
    let u = t.after_all(acts.take(j));
    if u.active.dom().contains(u.next) {
        assert(u.is_given(u.next));
    }
}

/// Ending a transfer that has just begun leaves the rows and the byte counts as
/// they were before.
pub proof fn law_ending_undoes_beginning(
    t: TransfersModel,
    path: Seq<char>,
    direction: Direction,
    total: u64,
    offset: u64,
    object_size: u64,
)
    requires
        t.wf(),
    ensures
        t.after_begin(path, direction, total, offset, object_size).after_end(t.next)
            == (TransfersModel { next: counted(t.next, 1), ..t }),
{
    if t.active.dom().contains(t.next) {
        assert(t.is_given(t.next));
    }
    let u = t.after_begin(path, direction, total, offset, object_size).after_end(t.next);
    assert(u.active =~= t.active);
}

/// A path that was named is found by its identity, and as long as there are fewer
/// names than the limit every other name stays.
pub proof fn law_a_named_path_is_found(
    t: TransfersModel,
    id: Seq<char>,
    path: Seq<char>,
    other: Seq<char>,
)
    requires
        other != id,
    ensures
        t.after_name(id, path).names.dom().contains(id),
        t.after_name(id, path).names[id] == path,
        t.names.dom().len() < 512 ==> (t.after_name(id, path).names.dom().contains(other)
            <==> t.names.dom().contains(other)) && t.after_name(id, path).names[other]
            == t.names[other],
        t.names.dom().len() >= 512 ==> !t.after_name(id, path).names.dom().contains(other),
        t.after_name(id, path).active == t.active,
{
}

/// A transfer begins with nothing moved and nothing confirmed, as what it was begun
/// as, beside those that run.
pub proof fn law_a_transfer_begins_at_nothing(
    t: TransfersModel,
    path: Seq<char>,
    direction: Direction,
    total: u64,
    offset: u64,
    object_size: u64,
    other: u64,
)
    requires
        other != t.next,
    ensures
        ({
            let after = t.after_begin(path, direction, total, offset, object_size);
            let x = after.active[t.next];
            &&& after.active.dom().contains(t.next)
            &&& x.path == path && x.direction == direction && x.total == total && x.offset == offset
                && x.object_size == object_size
            &&& x.bytes == 0 && x.position == 0 && x.confirmed == 0
            &&& after.active.dom().contains(other) <==> t.active.dom().contains(other)
            &&& after.active[other] == t.active[other]
            &&& t.next < u64::MAX ==> after.next == t.next + 1
            &&& after.uploaded == t.uploaded && after.downloaded == t.downloaded
        }),
{
}

/// Traffic is counted for its transfer and for its direction, and for nothing else.
pub proof fn law_traffic_is_counted(t: TransfersModel, running: Running, bytes: usize)
    requires
        t.uploaded + bytes <= u64::MAX,
        t.downloaded + bytes <= u64::MAX,
    ensures
        ({
            let after = t.after_traffic(running, bytes);
            &&& running.direction == Direction::Upload ==> after.uploaded == t.uploaded + bytes
                && after.downloaded == t.downloaded
            &&& running.direction == Direction::Download ==> after.downloaded == t.downloaded
                + bytes && after.uploaded == t.uploaded
            &&& after.active.dom() == t.active.dom()
            &&& t.active.dom().contains(running.id) && t.active[running.id].bytes + bytes
                <= u64::MAX ==> after.active[running.id].bytes == t.active[running.id].bytes + bytes
            &&& t.active.dom().contains(running.id) && t.active[running.id].position + bytes
                <= u64::MAX ==> after.active[running.id].position == t.active[running.id].position
                + bytes
            &&& after.names == t.names && after.next == t.next && after.samples == t.samples
        }),
{
    assert(t.after_traffic(running, bytes).active.dom() =~= t.active.dom());
}

/// Where a transfer stands and what is confirmed of it are set to what is said, up
/// to its end, and each leaves the other as it was.
pub proof fn law_a_position_is_set(t: TransfersModel, id: u64, offset: u64)
    requires
        t.active.dom().contains(id),
    ensures
        ({
            let moved = t.after_move(id, offset).active[id];
            let sure = t.after_confirm(id, offset).active[id];
            let was = t.active[id];
            let end = if offset <= was.total {
                offset
            } else {
                was.total
            };
            &&& moved == (TransferModel { position: end, ..was })
            &&& sure == (TransferModel { confirmed: end, ..was })
            &&& t.after_move(id, offset).uploaded == t.uploaded
            &&& t.after_confirm(id, offset).downloaded == t.downloaded
        }),
{
}

/// A transfer that ended is no longer there, and the others are.
pub proof fn law_an_ended_transfer_is_gone(t: TransfersModel, id: u64, other: u64)
    requires
        other != id,
    ensures
        !t.after_end(id).active.dom().contains(id),
        t.after_end(id).active.dom().contains(other) <==> t.active.dom().contains(other),
        t.after_end(id).active[other] == t.active[other],
        t.after_end(id).uploaded == t.uploaded,
        t.after_end(id).downloaded == t.downloaded,
{
}

/// The rate is the bytes of a second, rounded down, over the time that passed. Over
/// less than a quarter of a second none is told.
pub proof fn law_a_rate_is_bytes_per_second(bytes: u64, elapsed: u64)
    requires
        bytes * 1000 <= u64::MAX,
    ensures
        elapsed < 250 ==> rate_of(bytes, elapsed) == 0,
        elapsed >= 250 ==> rate_of(bytes, elapsed) * elapsed <= 1000 * bytes < (rate_of(
            bytes,
            elapsed,
        ) + 1) * elapsed,
{
    if elapsed >= 250 {
        let total = bytes * 1000;
        let e = elapsed as int;
        vstd::arithmetic::div_mod::lemma_fundamental_div_mod(total, e);
        vstd::arithmetic::div_mod::lemma_mod_bound(total, e);
        let q = total / e;
        assert(q * e == e * q) by (nonlinear_arith);
        assert((q + 1) * e == q * e + e) by (nonlinear_arith);
        assert(0 <= q <= total) by {
            vstd::arithmetic::div_mod::lemma_div_pos_is_pos(total, e);
            vstd::arithmetic::div_mod::lemma_div_is_ordered_by_denominator(total, 1, e);
        }
    }
}

/// The samples that are kept are the last ones: the oldest of them reaches back past
/// the window if there is one that does, and no further than it has to.
pub proof fn law_samples_reach_back_one_window(samples: Seq<Sample>, millis: u64)
    requires
        samples.len() > 0,
    ensures
        ({
            let kept = recent(samples, millis);
            let k = samples.len() - kept.len();
            &&& 0 <= k
            &&& kept == samples.skip(k)
            &&& 0 < kept.len()
            &&& kept.len() > 2 ==> kept[1].millis + 5000 >= millis
            &&& k > 0 ==> samples[k].millis + 5000 < millis && kept.len() >= 2
        }),
    decreases samples.len(),
{
    if samples.len() > 2 && samples[1].millis < less(millis, WINDOW) {
        let rest = samples.drop_first();
        law_samples_reach_back_one_window(rest, millis);
        let kept = recent(rest, millis);
        let k = rest.len() - kept.len();
        assert(rest.skip(k) =~= samples.skip(k + 1));
        assert(rest[k] == samples[k + 1]);
    } else {
        assert(samples.skip(0) =~= samples);
    }
}

/// A sample is taken when there is none yet or the last one is a tenth of a second
/// old.
pub proof fn law_samples_are_taken_ten_times_a_second(samples: Seq<Sample>, now: Sample)
    ensures
        ({
            let due = samples.len() == 0 || samples.last().millis + 100 <= now.millis;
            &&& due ==> sampled(samples, now).last() == now
            &&& !due ==> sampled(samples, now).last() == samples.last()
            &&& sampled(samples, now).len() > 0
        }),
{
    let more = if samples.len() == 0 || less(now.millis, samples.last().millis) >= SAMPLE_EVERY {
        samples.push(now)
    } else {
        samples
    };
    law_samples_reach_back_one_window(more, now.millis);
}

/// A report counts every transfer and shows the first of them by number, each as it
/// stands but no further than its end. The rates are those since the oldest sample
/// that is kept.
pub proof fn law_a_report_shows_each_transfer(t: TransfersModel, millis: u64, id: u64)
    requires
        t.wf(),
        t.active.dom().contains(id),
    ensures
        ({
            let r = t.report(millis);
            let x = t.active[id];
            let oldest = t.after_report(millis).samples[0];
            &&& r.count == t.active.dom().len()
            &&& r.uploaded == t.uploaded && r.downloaded == t.downloaded
            &&& r.count <= 64 ==> r.active.len() == r.count && r.active.contains(
                RowModel {
                    id,
                    transfer: TransferModel {
                        position: if x.position <= x.total {
                            x.position
                        } else {
                            x.total
                        },
                        confirmed: if x.confirmed <= x.total {
                            x.confirmed
                        } else {
                            x.total
                        },
                        ..x
                    },
                },
            )
            &&& r.count > 64 ==> r.active.len() == 64
            &&& oldest.millis <= millis && oldest.uploaded <= t.uploaded ==> r.upload_rate
                == rate_of(
                (t.uploaded - oldest.uploaded) as u64,
                (millis - oldest.millis) as u64,
            )
            &&& oldest.millis <= millis && oldest.downloaded <= t.downloaded ==> r.download_rate
                == rate_of(
                (t.downloaded - oldest.downloaded) as u64,
                (millis - oldest.millis) as u64,
            )
        }),
{
    let keys = table::in_key_order::<u64>(t.active.dom());
    table::lemma_in_key_order::<u64>(t.active.dom());
    table::law_each_key_comes_once::<u64>(t.active.dom());
    let rows = keys.map_values(|k: u64| shown(k, t.active[k]));
    assert(keys.contains(id));
    let k = choose|k: int| 0 <= k < keys.len() && keys[k] == id;
    assert(rows[k] == shown(id, t.active[id]));
    if keys.len() <= 64 {
        assert(t.report(millis).active =~= rows);
    }
}

/// The rows of a report stand in the order of their numbers.
pub proof fn law_rows_stand_in_order(t: TransfersModel, millis: u64, i: int, j: int)
    requires
        t.wf(),
        0 <= i < j < t.report(millis).active.len(),
    ensures
        t.report(millis).active[i].id < t.report(millis).active[j].id,
        t.active.dom().contains(t.report(millis).active[i].id),
{
    let keys = table::in_key_order::<u64>(t.active.dom());
    table::lemma_in_key_order::<u64>(t.active.dom());
    assert(keys.contains(keys[i]));
}

/// Each thing that is done leaves alone what it is not about: names, samples, the
/// next number and the totals.
pub proof fn law_acts_leave_the_rest_alone(
    t: TransfersModel,
    id: u64,
    offset: u64,
    name: Seq<char>,
    path: Seq<char>,
    millis: u64,
)
    ensures
        t.after_move(id, offset) == (TransfersModel {
            active: t.after_move(id, offset).active,
            ..t
        }),
        t.after_confirm(id, offset) == (TransfersModel {
            active: t.after_confirm(id, offset).active,
            ..t
        }),
        t.after_end(id) == (TransfersModel { active: t.after_end(id).active, ..t }),
        t.after_name(name, path) == (TransfersModel { names: t.after_name(name, path).names, ..t }),
        t.after_report(millis) == (TransfersModel {
            samples: t.after_report(millis).samples,
            ..t
        }),
        !t.active.dom().contains(id) ==> t.after_move(id, offset) == t && t.after_confirm(
            id,
            offset,
        ) == t,
{
}

} // verus!
