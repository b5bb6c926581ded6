//! The decisions of the daemon's threads.
//!
//! Three threads share nothing but the upload queue and a few flags: one sends
//! local changes, one brings remote ones down, and one gives the disk back. Each
//! asks here what to do next, does it, and says what came of it.

use crate::delta::{Applied, AppliedModel, Cursor};
use crate::evict_policy;
use crate::evict_policy::{Candidate, EvictionConfig};
use crate::local_changes::{FolderGone, FolderGoneModel};
use crate::offline;
use crate::reclaim;
use crate::reclaim::{Reclaimed, Refused};
use crate::removals;
use crate::removals::{Renamed, RenamedModel};
use crate::sort;
use crate::table;
use crate::table::Table;
use crate::text;
use crate::upload::{Outcome, OutcomeModel};
use vstd::prelude::*;
use vstd::string::*;

verus! {

/// What the daemon needs to know that is not about any particular cloud.
#[derive(Debug, PartialEq, Eq)]
pub struct Config {
    /// The sync directory.
    pub mount: String,
    /// Where the privileged helper connects in.
    pub socket: String,
    /// How long a file must sit still before it is sent, in nanoseconds.
    pub debounce: u128,
    /// When to give the disk back, or `None` never to.
    pub eviction: Option<EvictionConfig>,
}

/// Why a daemon does not start on a sync root, if it does not.
pub open spec fn root_refusal(mount: Seq<char>, answer: Result<bool, Seq<char>>) -> Option<
    Seq<char>,
> {
    match answer {
        Ok(true) => None,
        Ok(false) => Some(
            mount
                + " is not a mount point; a sync root has to be its own mount or nothing can hydrate what is written into it, and every placeholder would read back as zeros"@,
        ),
        Err(e) => Some(
            "could not tell whether "@ + mount + " is a mount point ("@ + e
                + "); refusing rather than materialising into a directory that may not be one"@,
        ),
    }
}

/// Decide whether to start on a sync root, given whether it is a mount of its
/// own: one that is not can never be protected.
pub fn check_root(mount: &str, answer: &Result<bool, String>) -> (r: Result<(), String>)
    ensures
        match r {
            Ok(_) => root_refusal(mount@, reclaim::said(*answer)) is None,
            Err(why) => root_refusal(mount@, reclaim::said(*answer)) == Some(why@),
        },
{
    match answer {
        Ok(is_mount) => {
            if *is_mount {
                return Ok(());
            }
            let mut why: String = mount.to_owned();
            why.append(
                " is not a mount point; a sync root has to be its own mount or nothing can hydrate what is written into it, and every placeholder would read back as zeros",
            );
            Err(why)
        },
        Err(e) => {
            let mut why: String = "could not tell whether ".to_owned();
            why.append(mount);
            why.append(" is a mount point (");
            why.append(e.as_str());
            why.append(
                "); refusing rather than materialising into a directory that may not be one",
            );
            Err(why)
        },
    }
}

/// Where the thread that brings changes down stands.
pub struct Rounds {
    cursor: Cursor,
    unfinished: bool,
    open: bool,
}

/// Where the rounds stand, over texts.
#[verifier::ext_equal]
pub struct RoundsModel {
    /// Where the next round resumes.
    pub cursor: Option<Seq<char>>,
    /// Whether a pass left something for a later one.
    pub unfinished: bool,
    /// Whether a mount is there to write into.
    pub open: bool,
}

impl RoundsModel {
    /// Where the rounds stand after a pass over some changes; `None` where it
    /// failed as a whole.
    pub open spec fn after_pass(self, next: Option<Seq<char>>, applied: Option<AppliedModel>) -> RoundsModel {
        match applied {
            None => RoundsModel { unfinished: true, ..self },
            Some(a) => RoundsModel {
                cursor: if a.retryable {
                    self.cursor
                } else {
                    next
                },
                unfinished: a.retryable,
                open: self.open && a.stopped is None,
            },
        }
    }

    /// Where the rounds stand after one that brought nothing.
    pub open spec fn after_quiet(self, next: Option<Seq<char>>) -> RoundsModel {
        RoundsModel {
            cursor: if self.unfinished {
                self.cursor
            } else {
                next
            },
            ..self
        }
    }
}

impl View for Rounds {
    type V = RoundsModel;

    closed spec fn view(&self) -> RoundsModel {
        RoundsModel {
            cursor: text::maybe(self.cursor.0),
            unfinished: self.unfinished,
            open: self.open,
        }
    }
}

impl Rounds {
    pub fn new() -> (r: Rounds)
        ensures
            r@ == (RoundsModel { cursor: None, unfinished: false, open: false }),
    {
        Rounds { cursor: Cursor(None), unfinished: false, open: false }
    }

    /// Where the next round resumes.
    pub fn cursor(&self) -> (c: &Cursor)
        ensures
            text::maybe(c.0) == self@.cursor,
    {
        &self.cursor
    }

    /// Whether a mount has to be found before anything is applied.
    pub fn needs_mount(&self) -> (b: bool)
        ensures
            b == !self@.open,
    {
        !self.open
    }

    /// Note whether a mount was found and opened.
    pub fn opened(&mut self, found: bool)
        ensures
            final(self)@ == (RoundsModel { open: old(self)@.open || found, ..old(self)@ }),
    {
        if found {
            self.open = true;
        }
    }

    /// Note what a pass over some changes came to; `None` where it failed as a
    /// whole. The cursor moves only past a pass that finished: a service does
    /// not replay a change that was consumed. A pass that stopped because the
    /// mount went away has to find one again.
    pub fn applied(&mut self, next: Cursor, applied: &Option<Applied>)
        ensures
            final(self)@ == old(self)@.after_pass(
                text::maybe(next.0),
                match *applied {
                    Some(a) => Some(a@),
                    None => None,
                },
            ),
    {
        match applied {
            None => {
                self.unfinished = true;
            },
            Some(a) => {
                if a.retryable {
                    self.unfinished = true;
                } else {
                    self.unfinished = false;
                    self.cursor = next;
                }
                if a.stopped.is_some() {
                    self.open = false;
                }
            },
        }
    }

    /// Note a round that brought nothing. Silence is no permission to move past
    /// work that was put off.
    pub fn quiet(&mut self, next: Cursor)
        ensures
            final(self)@ == old(self)@.after_quiet(text::maybe(next.0)),
    {
        if !self.unfinished {
            self.cursor = next;
        }
    }
}

/// How many objects that were just sent are remembered for removals.
pub const RECENT_SENDS: usize = 4096;

/// How long to wait before trying to watch again, in nanoseconds.
pub const WATCH_RETRY: u128 = 5_000_000_000;

/// How often the cloud is asked whether anything changed, in seconds.
pub const POLL_EVERY: u64 = 30;

/// How often the sync root is walked when the cloud reports nothing, in
/// seconds.
pub const WALK_EVERY: u64 = 300;

/// Whether a walk is due, so many seconds after the last one.
pub open spec fn is_walk_due(since: Option<u64>) -> bool {
    match since {
        Some(secs) => secs >= WALK_EVERY,
        None => true,
    }
}

/// Whether the sync root is to be walked, so many seconds after it last was. A
/// root that was never walked is.
pub fn walk_due(since: Option<u64>) -> (b: bool)
    ensures
        b == is_walk_due(since),
{
    match since {
        Some(secs) => secs >= WALK_EVERY,
        None => true,
    }
}

/// The shortest wait before folders are tried again, in nanoseconds.
pub const FOLDER_RETRY: u128 = 1_000_000_000;

/// The wait before folders are tried again, for a quiet period.
pub open spec fn retry_wait(debounce: u128) -> u128 {
    if debounce > FOLDER_RETRY {
        debounce
    } else {
        FOLDER_RETRY
    }
}

/// How long to wait before folders that could not be created are tried again,
/// in nanoseconds: the quiet period, but a second at least.
pub fn folder_wait(debounce: u128) -> (wait: u128)
    ensures
        wait == retry_wait(debounce),
{
    if debounce > FOLDER_RETRY {
        debounce
    } else {
        FOLDER_RETRY
    }
}

/// Whether an upload is to be tried again: only one that failed is, for without
/// that it would be forgotten until the next walk.
pub fn to_be_retried(outcome: &Outcome) -> (b: bool)
    ensures
        b == (outcome@ is Failed),
{
    matches!(outcome, Outcome::Failed(_))
}

/// How many ticks of a second lie between two manifests.
pub const TICKS_PER_MANIFEST: u32 = 300;

/// The tick after this one. A manifest is due on tick zero.
pub fn next_tick(tick: u32) -> (t: u32)
    requires
        tick < TICKS_PER_MANIFEST,
    ensures
        t == (tick + 1) % (TICKS_PER_MANIFEST as int),
        t < TICKS_PER_MANIFEST,
{
    if tick + 1 < TICKS_PER_MANIFEST {
        tick + 1
    } else {
        0
    }
}

/// Where the thread that sends local changes stands.
pub struct Driver {
    folders_pending: Table<String, ()>,
    renames: Vec<Renamed>,
    folders_gone: Vec<FolderGone>,
    seeded: bool,
    next_folder_try: u128,
    watched: u64,
    next_watch_try: u128,
    recent: Table<String, String>,
}

/// Where the driver stands, over texts.
#[verifier::ext_equal]
pub struct DriverModel {
    /// Folders that may have no cloud object yet.
    pub folders_pending: Set<Seq<char>>,
    pub renames: Seq<RenamedModel>,
    pub folders_gone: Seq<FolderGoneModel>,
    /// Whether the tree has been searched for such folders since the start.
    pub seeded: bool,
    pub next_folder_try: u128,
    /// Which connection of the helper's the tree is watched for.
    pub watched: u64,
    pub next_watch_try: u128,
    /// What was just sent: path and object.
    pub recent: Map<Seq<char>, Seq<char>>,
}

impl DriverModel {
    /// Whether to search the tree for folders without an object.
    pub open spec fn wants_seed(self, busy: bool, rooted: bool) -> bool {
        !self.seeded && !busy && rooted
    }

    /// Once what one look at the tree's events brought is added.
    pub open spec fn collected(
        self,
        created: Set<Seq<char>>,
        renamed: Seq<RenamedModel>,
        gone: Seq<FolderGoneModel>,
    ) -> DriverModel {
        DriverModel {
            folders_pending: self.folders_pending.union(created),
            renames: self.renames + renamed,
            folders_gone: self.folders_gone + gone,
            ..self
        }
    }

    /// Whether to watch the tree anew.
    pub open spec fn wants_watch(self, connected: u64, now: u128) -> bool {
        connected != self.watched && now >= self.next_watch_try
    }

    /// Once watching was tried.
    pub open spec fn after_watch(self, connected: u64, now: u128, ok: bool) -> DriverModel {
        if ok {
            DriverModel { watched: connected, ..self }
        } else {
            DriverModel { next_watch_try: (now + WATCH_RETRY) as u128, ..self }
        }
    }

    /// The renames that are handed out, and what stays.
    pub open spec fn renames_out(self, busy: bool) -> (Seq<RenamedModel>, DriverModel) {
        if busy {
            (Seq::empty(), self)
        } else {
            (self.renames, DriverModel { renames: Seq::empty(), ..self })
        }
    }

    /// The folders that went away and are handed out, and what stays.
    pub open spec fn folders_out(self, busy: bool) -> (Seq<FolderGoneModel>, DriverModel) {
        if busy {
            (Seq::empty(), self)
        } else {
            (self.folders_gone, DriverModel { folders_gone: Seq::empty(), ..self })
        }
    }

    /// Whether to create folders.
    pub open spec fn wants_creates(self, busy: bool, now: u128) -> bool {
        !busy && self.folders_pending != Set::<Seq<char>>::empty() && now >= self.next_folder_try
    }

    /// Once creating was tried, with the folders that are left.
    pub open spec fn after_creates(
        self,
        left: Set<Seq<char>>,
        now: u128,
        wait: u128,
    ) -> DriverModel {
        DriverModel {
            folders_pending: left,
            next_folder_try: (now + wait) as u128,
            ..self
        }
    }
}

impl View for Driver {
    type V = DriverModel;

    closed spec fn view(&self) -> DriverModel {
        DriverModel {
            folders_pending: self.folders_pending@.dom(),
            renames: removals::renamed_models(self.renames@),
            folders_gone: sort::models(self.folders_gone@),
            seeded: self.seeded,
            next_folder_try: self.next_folder_try,
            watched: self.watched,
            next_watch_try: self.next_watch_try,
            recent: offline::text_map(self.recent@),
        }
    }
}

/// What was just sent, once one more file was. The oldest are not worth
/// picking out: when there are too many, all go.
pub open spec fn noted(
    recent: Map<Seq<char>, Seq<char>>,
    path: Option<Seq<char>>,
    outcome: OutcomeModel,
) -> Map<Seq<char>, Seq<char>> {
    match (outcome, path) {
        (OutcomeModel::Sent { cloud_id }, Some(rel)) => if recent.dom().len() >= RECENT_SENDS {
            Map::empty().insert(rel, cloud_id)
        } else {
            recent.insert(rel, cloud_id)
        },
        _ => recent,
    }
}

fn add_all(to: &mut Table<String, ()>, from: &Table<String, ()>)
    ensures
        final(to)@.dom() == old(to)@.dom().union(from@.dom()),
{
    let ghost was = to@.dom();
    let n = from.len();
    let ghost keys = table::keys_of(from.rows());
    let mut i: usize = 0;
    while i < n
        invariant
            i <= n,
            n == from.rows().len(),
            keys == table::keys_of(from.rows()),
            keys == table::in_key_order::<String>(from@.dom()),
            forall|p: Seq<char>| #[trigger]
                to@.dom().contains(p) ==> was.contains(p) || from@.dom().contains(p),
            forall|p: Seq<char>| was.contains(p) ==> #[trigger] to@.dom().contains(p),
            forall|j: int| 0 <= j < i ==> to@.dom().contains(#[trigger] keys[j]),
        decreases n - i,
    {
        let p = from.key_at(i);
        assert(keys[i as int] == p@);
        to.insert(p.as_str().to_owned(), ());
        i = i + 1;
    }
    proof {
        table::lemma_in_key_order::<String>(from@.dom());
        assert forall|p: Seq<char>| from@.dom().contains(p) implies to@.dom().contains(p) by {
            assert(keys.contains(p));
            let j = choose|j: int| 0 <= j < keys.len() && keys[j] == p;
            assert(to@.dom().contains(keys[j]));
        }
        assert(to@.dom() =~= was.union(from@.dom()));
    }
}

impl Driver {
    /// Begin at a moment, with the tree watched for a connection of the
    /// helper's.
    pub fn new(now: u128, watched: u64) -> (d: Driver)
        ensures
            d@ == (DriverModel {
                folders_pending: Set::empty(),
                renames: Seq::empty(),
                folders_gone: Seq::empty(),
                seeded: false,
                next_folder_try: now,
                watched,
                next_watch_try: now,
                recent: Map::empty(),
            }),
    {
        let d = Driver {
            folders_pending: Table::new(),
            renames: Vec::new(),
            folders_gone: Vec::new(),
            seeded: false,
            next_folder_try: now,
            watched,
            next_watch_try: now,
            recent: Table::new(),
        };
        proof {
            assert(d@.folders_pending =~= Set::empty());
            assert(d@.renames =~= Seq::empty());
            assert(d@.folders_gone =~= Seq::empty());
            assert(d@.recent =~= Map::empty());
        }
        d
    }

    /// Whether to search the tree for folders without an object, once a delta
    /// pass is out of the way and the root itself has one.
    pub fn wants_seed(&self, busy: bool, rooted: bool) -> (b: bool)
        ensures
            b == self@.wants_seed(busy, rooted),
    {
        !self.seeded && !busy && rooted
    }

    /// Add folders that a search found without an object.
    pub fn found_folders(&mut self, found: &Table<String, ()>)
        ensures
            final(self)@ == (DriverModel {
                folders_pending: old(self)@.folders_pending.union(found@.dom()),
                ..old(self)@
            }),
    {
        add_all(&mut self.folders_pending, found);
    }

    /// Note that the search since the start is done.
    pub fn seed(&mut self, found: &Table<String, ()>)
        ensures
            final(self)@ == (DriverModel {
                folders_pending: old(self)@.folders_pending.union(found@.dom()),
                seeded: true,
                ..old(self)@
            }),
    {
        add_all(&mut self.folders_pending, found);
        self.seeded = true;
    }

    /// Note what became of an upload from a path: an object that was just
    /// created can be withdrawn before any walk has written it down.
    pub fn note_sent(&mut self, path: &Option<String>, outcome: &Outcome)
        ensures
            final(self)@ == (DriverModel {
                recent: noted(old(self)@.recent, text::maybe(*path), outcome@),
                ..old(self)@
            }),
    {
        let ghost was = self@.recent;
        if let (Outcome::Sent { cloud_id }, Some(rel)) = (outcome, path) {
            let n = self.recent.len();
            proof {
                assert(was.dom() =~= self.recent@.dom());
            }
            if n >= RECENT_SENDS {
                self.recent.clear();
            }
            let ghost kept = offline::text_map(self.recent@);
            let id = cloud_id.as_str().to_owned();
            let ghost m = id@;
            self.recent.insert(rel.as_str().to_owned(), id);
            proof {
                if n >= RECENT_SENDS {
                    assert(kept =~= Map::empty());
                }
                assert(self@.recent =~= kept.insert(rel@, m));
            }
        }
    }

    /// What was just sent.
    pub fn recent(&self) -> (r: &Table<String, String>)
        ensures
            offline::text_map(r@) == self@.recent,
    {
        &self.recent
    }

    /// Add what one look at the tree's events brought.
    pub fn collect(
        &mut self,
        created: &Table<String, ()>,
        renamed: Vec<Renamed>,
        folders_gone: Vec<FolderGone>,
    )
        ensures
            final(self)@ == old(self)@.collected(
                created@.dom(),
                removals::renamed_models(renamed@),
                sort::models(folders_gone@),
            ),
    {
        let ghost was = self@;
        let ghost more = renamed@;
        let ghost gone = folders_gone@;
        add_all(&mut self.folders_pending, created);
        let mut renamed = renamed;
        self.renames.append(&mut renamed);
        let mut folders_gone = folders_gone;
        self.folders_gone.append(&mut folders_gone);
        proof {
            assert(self@.renames =~= was.renames + removals::renamed_models(more));
            assert(self@.folders_gone =~= was.folders_gone + sort::models(gone));
        }
    }

    /// Whether to watch the tree anew: the helper connected again, so the mount
    /// may be another one, and the watches would be on a tree that nobody sees.
    pub fn wants_watch(&self, connected: u64, now: u128) -> (b: bool)
        ensures
            b == self@.wants_watch(connected, now),
    {
        connected != self.watched && now >= self.next_watch_try
    }

    /// Note whether the tree is watched for this connection now. A failure is
    /// tried again later.
    pub fn watch_tried(&mut self, connected: u64, now: u128, ok: bool)
        requires
            now + WATCH_RETRY <= u128::MAX,
        ensures
            final(self)@ == old(self)@.after_watch(connected, now, ok),
    {
        if ok {
            self.watched = connected;
        } else {
            self.next_watch_try = now + WATCH_RETRY;
        }
    }

    /// The renames to carry to the cloud. While a delta pass is applied nothing
    /// is carried: its own renames look the same.
    pub fn take_renames(&mut self, busy: bool) -> (out: Vec<Renamed>)
        ensures
            (removals::renamed_models(out@), final(self)@) == old(self)@.renames_out(busy),
    {
        let mut out: Vec<Renamed> = Vec::new();
        assert(removals::renamed_models(out@) =~= Seq::empty());
        if !busy {
            std::mem::swap(&mut out, &mut self.renames);
        }
        assert(busy ==> removals::renamed_models(out@) =~= Seq::empty());
        out
    }

    /// The folders that went away and are to be withdrawn.
    pub fn take_folders_gone(&mut self, busy: bool) -> (out: Vec<FolderGone>)
        ensures
            (sort::models(out@), final(self)@) == old(self)@.folders_out(busy),
    {
        let mut out: Vec<FolderGone> = Vec::new();
        assert(sort::models(out@) =~= Seq::empty());
        if !busy {
            std::mem::swap(&mut out, &mut self.folders_gone);
        }
        out
    }

    /// Whether to create folders now.
    pub fn wants_creates(&self, busy: bool, now: u128) -> (b: bool)
        ensures
            b == self@.wants_creates(busy, now),
    {
        proof {
            if self@.folders_pending =~= Set::empty() {
                assert(self.folders_pending@ =~= Map::empty());
            }
        }
        !busy && !self.folders_pending.is_empty() && now >= self.next_folder_try
    }

    /// Hand out the folders to create.
    pub fn take_folders(&mut self) -> (t: Table<String, ()>)
        ensures
            t@.dom() == old(self)@.folders_pending,
            final(self)@ == (DriverModel { folders_pending: Set::empty(), ..old(self)@ }),
    {
        let mut t: Table<String, ()> = Table::new();
        std::mem::swap(&mut t, &mut self.folders_pending);
        assert(self@.folders_pending =~= Set::empty());
        t
    }

    /// Take back the folders that could not be created yet; they are tried
    /// again after a while.
    pub fn creates_tried(&mut self, left: Table<String, ()>, now: u128, wait: u128)
        requires
            now + wait <= u128::MAX,
        ensures
            final(self)@ == old(self)@.after_creates(left@.dom(), now, wait),
    {
        self.folders_pending = left;
        self.next_folder_try = now + wait;
    }
}

/// How long the thread that gives the disk back sleeps between looks, in
/// seconds: at least one.
pub fn sweep_interval(cfg: &EvictionConfig) -> (secs: u64)
    ensures
        secs == if cfg.min_interval_secs > 1 {
            cfg.min_interval_secs
        } else {
            1
        },
{
    if cfg.min_interval_secs > 1 {
        cfg.min_interval_secs
    } else {
        1
    }
}

/// Whether there is too little free space.
pub fn under_pressure(cfg: &EvictionConfig, available: u64, total: u64) -> (b: bool)
    requires
        evict_policy::marks_fit(*cfg, total),
    ensures
        b == (available < evict_policy::mark(total, cfg.low_pct, cfg.low_abs)),
{
    let (low, _high) = cfg.marks(total);
    available < low
}

/// One sweep of evictions: which files are left to evict, and what has come
/// free.
pub struct Sweep {
    plan: Vec<String>,
    at: usize,
    freed: u64,
}

/// A sweep over texts.
#[verifier::ext_equal]
pub struct SweepModel {
    pub plan: Seq<Seq<char>>,
    pub at: nat,
    pub freed: u64,
}

impl View for Sweep {
    type V = SweepModel;

    closed spec fn view(&self) -> SweepModel {
        SweepModel { plan: text::texts(self.plan@), at: self.at as nat, freed: self.freed }
    }
}

impl Sweep {
    /// Plan a sweep under the current pressure. Without pressure there is
    /// nothing to evict.
    pub fn plan_and_reclaim(
        cfg: &EvictionConfig,
        available: u64,
        total: u64,
        now: u64,
        candidates: Vec<Candidate>,
    ) -> (s: Sweep)
        requires
            evict_policy::marks_fit(*cfg, total),
        ensures
            s@ == (SweepModel {
                plan: evict_policy::rels(
                    evict_policy::chosen(sort::models(candidates@), available, total, *cfg, now),
                ),
                at: 0,
                freed: 0,
            }),
    {
        Sweep {
            plan: evict_policy::plan(candidates, available, total, cfg, now),
            at: 0,
            freed: 0,
        }
    }

    /// The file to evict next.
    pub fn next(&self) -> (r: Option<String>)
        ensures
            text::maybe(r) == if self@.at < self@.plan.len() {
                Some(self@.plan[self@.at as int])
            } else {
                None
            },
    {
        if self.at < self.plan.len() {
            Some(self.plan[self.at].as_str().to_owned())
        } else {
            None
        }
    }

    /// Note what came of evicting a file. One that was refused after all, or
    /// that could not be looked at, frees nothing and stops nothing.
    pub fn settled(&mut self, r: &Result<Result<Reclaimed, Refused>, String>)
        requires
            old(self)@.at < old(self)@.plan.len(),
        ensures
            final(self)@ == (SweepModel {
                at: old(self)@.at + 1,
                freed: match *r {
                    Ok(Ok(got)) => evict_policy::capped_sum(old(self)@.freed, got.bytes),
                    _ => old(self)@.freed,
                },
                ..old(self)@
            }),
    {
        let total = self.plan.len();
        self.at = self.at + 1;
        if let Ok(Ok(got)) = r {
            self.freed = self.freed.saturating_add(got.bytes);
        }
    }

    /// How many bytes have come free.
    pub fn freed(&self) -> (n: u64)
        ensures
            n == self@.freed,
    {
        self.freed
    }
}

/// A cursor never moves past a pass that left something for later, neither by
/// the pass itself nor by any number of rounds that bring nothing.
pub proof fn law_silence_consumes_no_deferred_work(
    r: RoundsModel,
    next: Option<Seq<char>>,
    applied: Option<AppliedModel>,
    quiet: Seq<Option<Seq<char>>>,
)
    requires
        applied is None || applied->0.retryable,
    ensures
        after_quiets(r.after_pass(next, applied), quiet).cursor == r.cursor,
        after_quiets(r.after_pass(next, applied), quiet).unfinished,
    decreases quiet.len(),
{
    if quiet.len() > 0 {
        law_silence_consumes_no_deferred_work(r, next, applied, quiet.drop_last());
    }
}

/// Where the rounds stand after several that brought nothing.
pub open spec fn after_quiets(r: RoundsModel, quiet: Seq<Option<Seq<char>>>) -> RoundsModel
    decreases quiet.len(),
{
    if quiet.len() == 0 {
        r
    } else {
        after_quiets(r, quiet.drop_last()).after_quiet(quiet.last())
    }
}

/// A pass that finished moves the cursor on, and frees the rounds after it to
/// move it too.
pub proof fn law_a_finished_pass_moves_on(
    r: RoundsModel,
    next: Option<Seq<char>>,
    applied: AppliedModel,
)
    requires
        !applied.retryable,
    ensures
        r.after_pass(next, Some(applied)).cursor == next,
        !r.after_pass(next, Some(applied)).unfinished,
{
}

/// What was just sent never grows past its limit.
pub proof fn law_recent_sends_are_bounded(
    recent: Map<Seq<char>, Seq<char>>,
    path: Option<Seq<char>>,
    outcome: OutcomeModel,
)
    requires
        recent.dom().finite(),
        recent.dom().len() <= RECENT_SENDS,
    ensures
        noted(recent, path, outcome).dom().finite(),
        noted(recent, path, outcome).dom().len() <= RECENT_SENDS,
{
    let next = noted(recent, path, outcome);
    if let (OutcomeModel::Sent { cloud_id }, Some(rel)) = (outcome, path) {
        if recent.dom().len() >= RECENT_SENDS {
            assert(next.dom() =~= Set::empty().insert(rel));
        } else {
            assert(next.dom() =~= recent.dom().insert(rel));
        }
    }
}

/// Only a directory that is known to be a mount point is accepted.
pub proof fn law_only_a_mount_point_is_accepted(
    mount: Seq<char>,
    answer: Result<bool, Seq<char>>,
)
    ensures
        root_refusal(mount, answer) is None <==> answer == Ok::<bool, Seq<char>>(true),
{
}

/// What a pass leaves behind: one that broke off, and one that is to be tried
/// again, leave the cursor where it was and something to do. Any other leaves the
/// cursor where the listing ended. The mount is given up where the pass was
/// stopped, and only there.
pub proof fn law_what_a_pass_leaves(
    r: RoundsModel,
    next: Option<Seq<char>>,
    applied: Option<AppliedModel>,
)
    ensures
        ({
            let after = r.after_pass(next, applied);
            let again = applied is None || applied->0.retryable;
            &&& again ==> after.cursor == r.cursor && after.unfinished
            &&& !again ==> after.cursor == next && !after.unfinished
            &&& after.open <==> r.open && !(applied is Some && applied->0.stopped is Some)
        }),
{
}

/// A listing without changes moves the cursor on, unless something is still to do.
pub proof fn law_silence_moves_on_when_nothing_is_owed(r: RoundsModel, next: Option<Seq<char>>)
    ensures
        !r.unfinished ==> r.after_quiet(next).cursor == next,
        r.unfinished ==> r.after_quiet(next).cursor == r.cursor,
        r.after_quiet(next).unfinished == r.unfinished,
        r.after_quiet(next).open == r.open,
{
}

/// What was just sent is known by its path, as the object that it became, and what
/// was sent before stays known as long as it is not too much. Nothing else makes a
/// path known.
pub proof fn law_what_was_sent_is_known(
    recent: Map<Seq<char>, Seq<char>>,
    path: Seq<char>,
    cloud_id: Seq<char>,
    other: Seq<char>,
    outcome: OutcomeModel,
)
    requires
        other != path,
    ensures
        ({
            let now = noted(recent, Some(path), OutcomeModel::Sent { cloud_id });
            &&& now.dom().contains(path) && now[path] == cloud_id
            &&& recent.dom().len() < 4096 ==> (now.dom().contains(other) <==> recent.dom().contains(
                other,
            )) && now[other] == recent[other]
            &&& recent.dom().len() >= 4096 ==> !now.dom().contains(other)
            &&& !(outcome is Sent) ==> noted(recent, Some(path), outcome) == recent
            &&& noted(recent, None, outcome) == recent
        }),
{
}

/// What is collected is added to what is there, and comes out once, in the order in
/// which it came in, when no pass is under way; while one is, nothing comes out and
/// nothing is lost.
pub proof fn law_what_is_collected_comes_out_once(
    d: DriverModel,
    created: Set<Seq<char>>,
    renamed: Seq<RenamedModel>,
    gone: Seq<FolderGoneModel>,
    path: Seq<char>,
)
    ensures
        ({
            let c = d.collected(created, renamed, gone);
            &&& c.folders_pending.contains(path) <==> d.folders_pending.contains(path)
                || created.contains(path)
            &&& c.renames_out(false).0 == d.renames + renamed
            &&& c.renames_out(false).1.renames.len() == 0
            &&& c.renames_out(false).1.folders_gone == c.folders_gone
            &&& c.renames_out(true).0.len() == 0
            &&& c.renames_out(true).1 == c
            &&& c.folders_out(false).0 == d.folders_gone + gone
            &&& c.folders_out(false).1.folders_gone.len() == 0
            &&& c.folders_out(false).1.renames == c.renames
            &&& c.folders_out(true).0.len() == 0
            &&& c.folders_out(true).1 == c
            &&& c.recent == d.recent
        }),
{
}

/// The tree is searched once, as soon as no pass is under way and its root is an
/// object.
pub proof fn law_the_tree_is_searched_once(d: DriverModel, busy: bool, rooted: bool)
    ensures
        d.wants_seed(busy, rooted) <==> !d.seeded && !busy && rooted,
        !(DriverModel { seeded: true, ..d }).wants_seed(busy, rooted),
{
}

/// A connection that the tree is not watched for yet is wanted, at once or five
/// seconds after a try that failed; a try that succeeded ends that.
pub proof fn law_a_failed_watch_is_tried_again(
    d: DriverModel,
    connected: u64,
    now: u128,
    later: u128,
)
    requires
        now + 5_000_000_000 <= u128::MAX,
    ensures
        !d.after_watch(connected, now, true).wants_watch(connected, later),
        connected != d.watched ==> (d.after_watch(connected, now, false).wants_watch(
            connected,
            later,
        ) <==> now + 5_000_000_000 <= later),
        d.wants_watch(connected, now) <==> d.watched != connected && d.next_watch_try <= now,
{
}

/// Folders are created when there are some, no pass is under way and their time has
/// come; what is left of them is tried again after the wait.
pub proof fn law_folders_left_are_tried_again(
    d: DriverModel,
    left: Set<Seq<char>>,
    path: Seq<char>,
    now: u128,
    wait: u128,
    later: u128,
)
    requires
        now + wait <= u128::MAX,
        left.contains(path),
    ensures
        d.after_creates(left, now, wait).wants_creates(false, later) <==> now + wait <= later,
        !d.after_creates(left, now, wait).wants_creates(true, later),
        !d.after_creates(Set::empty(), now, wait).wants_creates(false, later),
        d.after_creates(left, now, wait).folders_pending == left,
{
    assert(left != Set::<Seq<char>>::empty()) by {
        assert(!Set::<Seq<char>>::empty().contains(path));
    }
}

/// The wait for folders is the quiet period, and a second at least; a walk is due
/// five minutes after the last, and at once where there was none.
pub proof fn law_how_long_things_wait(debounce: u128, secs: u64)
    ensures
        retry_wait(debounce) >= debounce,
        retry_wait(debounce) >= 1_000_000_000,
        retry_wait(debounce) == debounce || retry_wait(debounce) == 1_000_000_000,
        is_walk_due(None),
        is_walk_due(Some(secs)) <==> secs >= 300,
{
}

} // verus!
