//! Seeing a name go away, rather than noticing it is gone.
//!
//! A file is absent for many reasons, and only one of them is that the user
//! deleted it. The kernel tells a deletion from an atomic save and from a
//! rename, and nothing else does: so its events are read here, and nothing is
//! concluded from absence.

use crate::table::{self, Key, Table};
use crate::text;
use vstd::prelude::*;
use vstd::string::*;

verus! {

pub const IN_DELETE: u32 = 0x0000_0200;

pub const IN_MOVED_FROM: u32 = 0x0000_0040;

pub const IN_MOVED_TO: u32 = 0x0000_0080;

pub const IN_CREATE: u32 = 0x0000_0100;

pub const IN_ISDIR: u32 = 0x4000_0000;

pub const IN_IGNORED: u32 = 0x0000_8000;

pub const IN_Q_OVERFLOW: u32 = 0x0000_4000;

pub const IN_EXCL_UNLINK: u32 = 0x0400_0000;

/// What every watch asks for.
pub const WATCH_MASK: u32 = IN_DELETE | IN_MOVED_FROM | IN_MOVED_TO | IN_CREATE | IN_EXCL_UNLINK;

/// The order in which a machine stores the bytes of a word.
#[derive(Debug, Clone, Copy, PartialEq, Eq, Structural)]
pub enum ByteOrder {
    Little,
    Big,
}

/// One event, as the kernel reports it.
#[derive(Debug, PartialEq, Eq)]
pub struct RawEvent {
    pub wd: i32,
    pub mask: u32,
    pub cookie: u32,
    /// The name inside the watched directory, or nothing for an event that
    /// carries none or one that is not UTF-8.
    pub name: String,
}

/// One event, over texts.
#[verifier::ext_equal]
pub struct EventModel {
    pub wd: i32,
    pub mask: u32,
    pub cookie: u32,
    pub name: Seq<char>,
}

impl View for RawEvent {
    type V = EventModel;

    open spec fn view(&self) -> EventModel {
        EventModel { wd: self.wd, mask: self.mask, cookie: self.cookie, name: self.name@ }
    }
}

/// The word that four bytes stand for.
pub open spec fn word(b: Seq<u8>, at: int, order: ByteOrder) -> u32 {
    (match order {
        ByteOrder::Little => b[at] + 0x100 * b[at + 1] + 0x1_0000 * b[at + 2] + 0x100_0000 * b[at
            + 3],
        ByteOrder::Big => b[at + 3] + 0x100 * b[at + 2] + 0x1_0000 * b[at + 1] + 0x100_0000
            * b[at],
    }) as u32
}

/// A word read as a signed number in two's complement.
pub open spec fn signed(w: u32) -> i32 {
    (if w < 0x8000_0000 {
        w as int
    } else {
        w - 0x1_0000_0000
    }) as i32
}

/// The bytes before the first one that is zero.
pub open spec fn until_zero(b: Seq<u8>) -> Seq<u8>
    decreases b.len(),
{
    if b.len() == 0 || b[0] == 0 {
        Seq::empty()
    } else {
        seq![b[0]] + until_zero(b.drop_first())
    }
}

/// The name that some bytes hold: what stands before the first zero, if that
/// is UTF-8.
pub open spec fn name_in(b: Seq<u8>) -> Seq<char> {
    if vstd::utf8::valid_utf8(until_zero(b)) {
        vstd::utf8::decode_utf8(until_zero(b))
    } else {
        Seq::empty()
    }
}

pub open spec fn at_most(a: int, b: int) -> int {
    if a < b {
        a
    } else {
        b
    }
}

/// The event whose record begins at `at`: four words, the last of them the
/// room that the name takes up behind them.
pub open spec fn event_at(b: Seq<u8>, at: int, order: ByteOrder) -> EventModel {
    EventModel {
        wd: signed(word(b, at, order)),
        mask: word(b, at + 4, order),
        cookie: word(b, at + 8, order),
        name: name_in(
            b.subrange(at + 16, at_most(at + 16 + word(b, at + 12, order), b.len() as int)),
        ),
    }
}

/// The events whose records begin in the first `n` bytes, from `at` on.
pub open spec fn events_from(b: Seq<u8>, n: int, at: int, order: ByteOrder) -> Seq<EventModel>
    decreases
            if at < n {
                n - at
            } else {
                0
            },
{
    if at < 0 || at + 16 > n {
        Seq::empty()
    } else {
        seq![event_at(b, at, order)] + events_from(
            b,
            n,
            at + 16 + word(b, at + 12, order),
            order,
        )
    }
}

/// The events that a list holds, over texts.
pub open spec fn event_models(v: Seq<RawEvent>) -> Seq<EventModel> {
    v.map_values(|e: RawEvent| e@)
}

fn word_at(b: &Vec<u8>, at: usize, order: ByteOrder) -> (w: u32)
    requires
        at + 4 <= b@.len(),
    ensures
        w == word(b@, at as int, order),
{
    let total = b.len();
    assert(at + 4 <= total);
    match order {
        ByteOrder::Little => b[at] as u32 + 0x100 * b[at + 1] as u32 + 0x1_0000 * b[at + 2] as u32
            + 0x100_0000 * b[at + 3] as u32,
        ByteOrder::Big => b[at + 3] as u32 + 0x100 * b[at + 2] as u32 + 0x1_0000 * b[at + 1] as u32
            + 0x100_0000 * b[at] as u32,
    }
}

fn name_between(b: &Vec<u8>, from: usize, to: usize) -> (s: String)
    requires
        from <= to <= b@.len(),
    ensures
        s@ == name_in(b@.subrange(from as int, to as int)),
{
    let ghost room = b@.subrange(from as int, to as int);
    let mut name: Vec<u8> = Vec::new();
    let mut i: usize = from;
    assert(room.skip(0) =~= room);
    assert(name@ + until_zero(room) =~= until_zero(room));
    while i < to && b[i] != 0
        invariant
            from <= i <= to <= b@.len(),
            room == b@.subrange(from as int, to as int),
            until_zero(room) == name@ + until_zero(room.skip(i - from)),
        decreases to - i,
    {
        let ghost rest = room.skip(i - from);
        let ghost had = name@;
        name.push(b[i]);
        proof {
            assert(rest[0] == b@[i as int]);
            assert(rest.drop_first() =~= room.skip(i + 1 - from));
            assert(had + (seq![rest[0]] + until_zero(rest.drop_first())) =~= name@ + until_zero(
                rest.drop_first(),
            ));
        }
        i = i + 1;
    }
    proof {
        let rest = room.skip(i - from);
        if i < to {
            assert(rest[0] == b@[i as int]);
        }
        assert(until_zero(rest) =~= Seq::empty());
        assert(name@ + Seq::empty() =~= name@);
    }
    match text::from_bytes(name) {
        Some(s) => s,
        None => String::new(),
    }
}

/// Read the events that the first `n` bytes of a buffer hold.
pub fn read_events(b: &Vec<u8>, n: usize, order: ByteOrder) -> (out: Vec<RawEvent>)
    requires
        n <= b@.len(),
    ensures
        event_models(out@) == events_from(b@, n as int, 0, order),
{
    let total = b.len();
    let mut out: Vec<RawEvent> = Vec::new();
    let mut at: u128 = 0;
    assert(event_models(out@) + events_from(b@, n as int, 0, order) =~= events_from(
        b@,
        n as int,
        0,
        order,
    ));
    while at + 16 <= n as u128
        invariant
            n <= b@.len(),
            b@.len() == total,
            at <= usize::MAX as u128 + 0x1_0000_0010,
            event_models(out@) + events_from(b@, n as int, at as int, order) == events_from(
                b@,
                n as int,
                0,
                order,
            ),
        decreases
                (if at < n as u128 {
                    n as u128 - at
                } else {
                    0int
                }),
    {
        let base: usize = at as usize;
        let wd = word_at(b, base, order);
        let mask = word_at(b, base + 4, order);
        let cookie = word_at(b, base + 8, order);
        let len = word_at(b, base + 12, order);
        let end: u128 = at + 16 + len as u128;
        let to: usize = if end < b.len() as u128 {
            end as usize
        } else {
            b.len()
        };
        let name = name_between(b, base + 16, to);
        let ghost had = event_models(out@);
        let e = RawEvent { wd: as_signed(wd), mask, cookie, name };
        let ghost m = e@;
        out.push(e);
        proof {
            assert(m == event_at(b@, at as int, order));
            assert(event_models(out@) =~= had.push(m));
            let rest = events_from(b@, n as int, end as int, order);
            assert(had + (seq![m] + rest) =~= had.push(m) + rest);
        }
        at = end;
    }
    assert(event_models(out@) + Seq::empty() =~= event_models(out@));
    out
}

fn as_signed(w: u32) -> (i: i32)
    ensures
        i == signed(w),
{
    if w < 0x8000_0000 {
        w as i32
    } else {
        (w as i64 - 0x1_0000_0000) as i32
    }
}

/// A name that went away, and how.
#[derive(Debug, PartialEq, Eq)]
pub struct Gone {
    /// Relative to the sync root, `/`-separated.
    pub path: String,
    /// True when the name was moved rather than unlinked, and the destination
    /// was not somewhere else inside the sync root.
    pub moved_out: bool,
}

/// One object whose name changed while it stayed inside the sync root.
#[derive(Debug, PartialEq, Eq)]
pub struct Renamed {
    pub from: String,
    pub to: String,
    pub is_dir: bool,
}

/// Local namespace changes observed in one drain.
#[derive(Debug, Default, PartialEq, Eq)]
pub struct Batch {
    pub gone: Vec<Gone>,
    pub renamed: Vec<Renamed>,
    /// Directories moved out are deliberately not folded into `gone`: deleting
    /// a cloud folder can delete a whole subtree.
    pub folders_moved_out: Vec<String>,
}

/// One half of a rename.
#[derive(Debug, PartialEq, Eq)]
pub struct MoveHalf {
    pub path: String,
    pub is_dir: bool,
}

/// A name that went away, over texts.
#[verifier::ext_equal]
pub struct GoneModel {
    pub path: Seq<char>,
    pub moved_out: bool,
}

/// A rename, over texts.
#[verifier::ext_equal]
pub struct RenamedModel {
    pub from: Seq<char>,
    pub to: Seq<char>,
    pub is_dir: bool,
}

/// Half a rename, over texts.
#[verifier::ext_equal]
pub struct HalfModel {
    pub path: Seq<char>,
    pub is_dir: bool,
}

impl View for Gone {
    type V = GoneModel;

    open spec fn view(&self) -> GoneModel {
        GoneModel { path: self.path@, moved_out: self.moved_out }
    }
}

impl View for Renamed {
    type V = RenamedModel;

    open spec fn view(&self) -> RenamedModel {
        RenamedModel { from: self.from@, to: self.to@, is_dir: self.is_dir }
    }
}

impl View for MoveHalf {
    type V = HalfModel;

    open spec fn view(&self) -> HalfModel {
        HalfModel { path: self.path@, is_dir: self.is_dir }
    }
}

pub open spec fn gone_models(v: Seq<Gone>) -> Seq<GoneModel> {
    v.map_values(|g: Gone| g@)
}

pub open spec fn renamed_models(v: Seq<Renamed>) -> Seq<RenamedModel> {
    v.map_values(|r: Renamed| r@)
}

pub open spec fn half_models(v: Seq<MoveHalf>) -> Seq<HalfModel> {
    v.map_values(|h: MoveHalf| h@)
}

pub open spec fn halves(m: Map<u32, MoveHalf>) -> Map<u32, HalfModel> {
    m.map_values(|h: MoveHalf| h@)
}

/// The first half that goes with a cookie: one left over from the drain
/// before, or else one of this drain.
pub open spec fn first_half(
    previous: Map<u32, HalfModel>,
    current: Map<u32, HalfModel>,
    cookie: u32,
) -> Option<HalfModel> {
    if previous.dom().contains(cookie) {
        Some(previous[cookie])
    } else if current.dom().contains(cookie) {
        Some(current[cookie])
    } else {
        None
    }
}

/// The renames whose two halves share a cookie, for some cookies of the
/// second halves.
pub open spec fn pairs(
    cookies: Seq<u32>,
    previous: Map<u32, HalfModel>,
    current: Map<u32, HalfModel>,
    destinations: Map<u32, HalfModel>,
) -> Seq<RenamedModel>
    decreases cookies.len(),
{
    if cookies.len() == 0 {
        Seq::empty()
    } else {
        let before = pairs(cookies.drop_last(), previous, current, destinations);
        let c = cookies.last();
        match first_half(previous, current, c) {
            Some(from) => before.push(
                RenamedModel {
                    from: from.path,
                    to: destinations[c].path,
                    is_dir: from.is_dir || destinations[c].is_dir,
                },
            ),
            None => before,
        }
    }
}

/// The halves left over from the drain before that this drain did not match.
pub open spec fn expired(
    cookies: Seq<u32>,
    previous: Map<u32, HalfModel>,
    destinations: Map<u32, HalfModel>,
) -> Seq<HalfModel>
    decreases cookies.len(),
{
    if cookies.len() == 0 {
        Seq::empty()
    } else {
        let before = expired(cookies.drop_last(), previous, destinations);
        let c = cookies.last();
        if destinations.dom().contains(c) {
            before
        } else {
            before.push(previous[c])
        }
    }
}

/// The halves of this drain that are still without their second half.
pub open spec fn unmatched(
    previous: Map<u32, HalfModel>,
    current: Map<u32, HalfModel>,
    destinations: Map<u32, HalfModel>,
) -> Map<u32, HalfModel> {
    current.remove_keys(
        Set::new(|c: u32| destinations.dom().contains(c) && !previous.dom().contains(c)),
    )
}

/// Pair rename halves without assuming that one drain receives both.
///
/// New unmatched sources are kept. Sources kept by the drain before expire
/// only after this drain also failed to produce their destination. A loss of
/// events drops every conclusion: the missing event may have been precisely
/// the destination that would have cancelled a removal.
pub fn settle_moves(
    previous: Table<u32, MoveHalf>,
    current: Table<u32, MoveHalf>,
    destinations: Table<u32, MoveHalf>,
    lost: bool,
) -> (r: (Vec<MoveHalf>, Table<u32, MoveHalf>, Vec<Renamed>))
    ensures
        lost ==> r.0@.len() == 0 && r.1@ == Map::<u32, MoveHalf>::empty() && r.2@.len() == 0,
        !lost ==> half_models(r.0@) == expired(
            table::in_key_order::<u32>(previous@.dom()),
            halves(previous@),
            halves(destinations@),
        ),
        !lost ==> halves(r.1@) == unmatched(
            halves(previous@),
            halves(current@),
            halves(destinations@),
        ),
        !lost ==> renamed_models(r.2@) == pairs(
            table::in_key_order::<u32>(destinations@.dom()),
            halves(previous@),
            halves(current@),
            halves(destinations@),
        ),
{
    if lost {
        return (Vec::new(), Table::new(), Vec::new());
    }
    let ghost prev = halves(previous@);
    let ghost cur = halves(current@);
    let ghost dest = halves(destinations@);
    let mut waiting = current;
    let mut renamed: Vec<Renamed> = Vec::new();
    let n = destinations.len();
    let ghost keys = table::in_key_order::<u32>(destinations@.dom());
    let ghost rows = destinations.rows();
    let mut i: usize = 0;
    proof {
        assert(keys == table::keys_of(rows));
        assert(renamed_models(renamed@) =~= pairs(keys.take(0), prev, cur, dest));
        assert(halves(waiting@) =~= cur);
    }
    while i < n
        invariant
            i <= n,
            n == rows.len(),
            rows == destinations.rows(),
            keys == table::keys_of(rows),
            table::ascending::<u32, MoveHalf>(rows),
            prev == halves(previous@),
            dest == halves(destinations@),
            renamed_models(renamed@) == pairs(keys.take(i as int), prev, cur, dest),
            forall|c: u32| #[trigger]
                waiting@.dom().contains(c) <==> cur.dom().contains(c) && !(keys.take(
                    i as int,
                ).contains(c) && !prev.dom().contains(c)),
            forall|c: u32| #[trigger] waiting@.dom().contains(c) ==> waiting@[c]@ == cur[c],
        decreases n - i,
    {
        let cookie = *destinations.key_at(i);
        let to = destinations.value_at(i);
        let ghost next = keys.take(i + 1);
        let ghost had = waiting@;
        proof {
            assert(next.drop_last() =~= keys.take(i as int));
            assert(next.last() == cookie);
            assert(dest[cookie] == to@);
            assert(!keys.take(i as int).contains(cookie)) by {
                if keys.take(i as int).contains(cookie) {
                    let k = choose|k: int|
                        0 <= k < keys.take(i as int).len() && keys.take(i as int)[k] == cookie;
                    assert(u32::below(rows[k].0, rows[i as int].0));
                }
            }
            assert forall|c: u32| #[trigger] next.contains(c) <==> keys.take(i as int).contains(c)
                || c == cookie by {
                if next.contains(c) {
                    let k = choose|k: int| 0 <= k < next.len() && next[k] == c;
                    if k < i {
                        assert(keys.take(i as int)[k] == c);
                    }
                }
                if keys.take(i as int).contains(c) {
                    let k = choose|k: int|
                        0 <= k < keys.take(i as int).len() && keys.take(i as int)[k] == c;
                    assert(next[k] == c);
                }
                assert(next[i as int] == cookie);
            }
        }
        let ghost sofar = renamed_models(renamed@);
        match previous.get(&cookie) {
            Some(from) => {
                assert(prev.dom().contains(cookie) && prev[cookie] == from@);
                let r = Renamed {
                    from: from.path.clone(),
                    to: to.path.clone(),
                    is_dir: from.is_dir || to.is_dir,
                };
                let ghost m = r@;
                renamed.push(r);
                assert(renamed_models(renamed@) =~= sofar.push(m));
            },
            None => {
                assert(!prev.dom().contains(cookie));
                if let Some(from) = waiting.remove(&cookie) {
                    assert(cur.dom().contains(cookie) && cur[cookie] == from@);
                    let r = Renamed {
                        from: from.path,
                        to: to.path.clone(),
                        is_dir: from.is_dir || to.is_dir,
                    };
                    let ghost m = r@;
                    renamed.push(r);
                    assert(renamed_models(renamed@) =~= sofar.push(m));
                } else {
                    assert(!had.dom().contains(cookie));
                }
            },
        }
        i = i + 1;
    }
    proof {
        assert(keys.take(i as int) =~= keys);
        table::lemma_in_key_order::<u32>(destinations@.dom());
        assert forall|c: u32| keys.contains(c) <==> dest.dom().contains(c) by {
        }
        assert(halves(waiting@) =~= unmatched(prev, cur, dest));
    }
    let mut out: Vec<MoveHalf> = Vec::new();
    let m = previous.len();
    let ghost pkeys = table::in_key_order::<u32>(previous@.dom());
    let ghost prows = previous.rows();
    let mut i: usize = 0;
    assert(half_models(out@) =~= expired(pkeys.take(0), prev, dest));
    while i < m
        invariant
            i <= m,
            m == prows.len(),
            prows == previous.rows(),
            pkeys == table::keys_of(prows),
            prev == halves(previous@),
            dest == halves(destinations@),
            half_models(out@) == expired(pkeys.take(i as int), prev, dest),
        decreases m - i,
    {
        let cookie = *previous.key_at(i);
        let from = previous.value_at(i);
        let ghost next = pkeys.take(i + 1);
        proof {
            assert(next.drop_last() =~= pkeys.take(i as int));
            assert(next.last() == cookie);
            assert(prev[cookie] == from@);
        }
        let ghost sofar = half_models(out@);
        if !destinations.contains(&cookie) {
            let h = MoveHalf { path: from.path.clone(), is_dir: from.is_dir };
            let ghost hm = h@;
            out.push(h);
            assert(half_models(out@) =~= sofar.push(hm));
        }
        i = i + 1;
    }
    assert(pkeys.take(i as int) =~= pkeys);
    (out, waiting, renamed)
}

/// What one drain has seen so far.
pub struct Drain {
    gone: Vec<Gone>,
    moved_from: Table<u32, MoveHalf>,
    moved_to: Table<u32, MoveHalf>,
}

/// What one drain has seen so far, over texts.
#[verifier::ext_equal]
pub struct DrainModel {
    pub gone: Seq<GoneModel>,
    pub moved_from: Map<u32, HalfModel>,
    pub moved_to: Map<u32, HalfModel>,
}

impl View for Drain {
    type V = DrainModel;

    closed spec fn view(&self) -> DrainModel {
        DrainModel {
            gone: gone_models(self.gone@),
            moved_from: halves(self.moved_from@),
            moved_to: halves(self.moved_to@),
        }
    }
}

/// What is being watched.
#[verifier::ext_equal]
pub struct WatchModel {
    /// The directory that each watch descriptor watches, relative to the root.
    pub dirs: Map<i32, Seq<char>>,
    /// Whether the kernel dropped events in the last drain.
    pub lost: bool,
    /// Rename halves that ended the last drain without their destination.
    pub pending: Map<u32, HalfModel>,
}

/// The path of a name inside a directory, both relative to the root.
pub open spec fn path_in(dir: Seq<char>, name: Seq<char>) -> Seq<char> {
    if dir.len() == 0 {
        name
    } else {
        dir + seq!['/'] + name
    }
}

pub open spec fn is_dir(mask: u32) -> bool {
    mask & IN_ISDIR != 0
}

/// What is watched, what the drain has seen, and which new directory has to
/// be watched with all that is in it, once an event has been taken in.
pub open spec fn noted(w: WatchModel, d: DrainModel, e: EventModel) -> (
    WatchModel,
    DrainModel,
    Option<Seq<char>>,
) {
    if e.mask & IN_Q_OVERFLOW != 0 {
        (WatchModel { lost: true, ..w }, d, None)
    } else if e.mask & IN_IGNORED != 0 {
        (WatchModel { dirs: w.dirs.remove(e.wd), ..w }, d, None)
    } else if !w.dirs.dom().contains(e.wd) || e.name.len() == 0 {
        (w, d, None)
    } else {
        let path = path_in(w.dirs[e.wd], e.name);
        let half = HalfModel { path, is_dir: is_dir(e.mask) };
        let tree = if is_dir(e.mask) {
            Some(path)
        } else {
            None
        };
        if e.mask & IN_CREATE != 0 {
            (w, d, tree)
        } else if e.mask & IN_MOVED_TO != 0 {
            (w, DrainModel { moved_to: d.moved_to.insert(e.cookie, half), ..d }, tree)
        } else if e.mask & IN_MOVED_FROM != 0 {
            (w, DrainModel { moved_from: d.moved_from.insert(e.cookie, half), ..d }, None)
        } else if e.mask & IN_DELETE != 0 && !is_dir(e.mask) {
            (
                w,
                DrainModel { gone: d.gone.push(GoneModel { path, moved_out: false }), ..d },
                None,
            )
        } else {
            (w, d, None)
        }
    }
}

/// The files among some halves, as names moved out.
pub open spec fn files_out(v: Seq<HalfModel>) -> Seq<GoneModel>
    decreases v.len(),
{
    if v.len() == 0 {
        Seq::empty()
    } else if v.last().is_dir {
        files_out(v.drop_last())
    } else {
        files_out(v.drop_last()).push(GoneModel { path: v.last().path, moved_out: true })
    }
}

/// The directories among some halves.
pub open spec fn folders_out(v: Seq<HalfModel>) -> Seq<Seq<char>>
    decreases v.len(),
{
    if v.len() == 0 {
        Seq::empty()
    } else if v.last().is_dir {
        folders_out(v.drop_last()).push(v.last().path)
    } else {
        folders_out(v.drop_last())
    }
}

/// What a drain concludes, over texts.
#[verifier::ext_equal]
pub struct BatchModel {
    pub gone: Seq<GoneModel>,
    pub renamed: Seq<RenamedModel>,
    pub folders_moved_out: Seq<Seq<char>>,
}

impl View for Batch {
    type V = BatchModel;

    open spec fn view(&self) -> BatchModel {
        BatchModel {
            gone: gone_models(self.gone@),
            renamed: renamed_models(self.renamed@),
            folders_moved_out: text::texts(self.folders_moved_out@),
        }
    }
}

/// The halves that a drain concludes have left the tree.
pub open spec fn left_the_tree(w: WatchModel, d: DrainModel) -> Seq<HalfModel> {
    if w.lost {
        Seq::empty()
    } else {
        expired(table::in_key_order::<u32>(w.pending.dom()), w.pending, d.moved_to)
    }
}

/// What a drain concludes.
pub open spec fn concluded(w: WatchModel, d: DrainModel) -> BatchModel {
    BatchModel {
        gone: d.gone + files_out(left_the_tree(w, d)),
        renamed: if w.lost {
            Seq::empty()
        } else {
            pairs(
                table::in_key_order::<u32>(d.moved_to.dom()),
                w.pending,
                d.moved_from,
                d.moved_to,
            )
        },
        folders_moved_out: folders_out(left_the_tree(w, d)),
    }
}

/// What is watched once a drain has been concluded.
pub open spec fn after_drain(w: WatchModel, d: DrainModel) -> WatchModel {
    WatchModel {
        pending: if w.lost {
            Map::empty()
        } else {
            unmatched(w.pending, d.moved_from, d.moved_to)
        },
        ..w
    }
}

/// Watches the sync root for names that go away.
pub struct Removals {
    dirs: Table<i32, String>,
    lost: bool,
    pending_moves: Table<u32, MoveHalf>,
}

impl View for Removals {
    type V = WatchModel;

    closed spec fn view(&self) -> WatchModel {
        WatchModel {
            dirs: self.dirs@.map_values(|s: String| s@),
            lost: self.lost,
            pending: halves(self.pending_moves@),
        }
    }
}

impl Removals {
    /// Nothing watched yet.
    pub fn new() -> (r: Self)
        ensures
            r@ == (WatchModel { dirs: Map::empty(), lost: false, pending: Map::empty() }),
    {
        let r = Removals { dirs: Table::new(), lost: false, pending_moves: Table::new() };
        proof {
            assert(r@.dirs =~= Map::empty());
            assert(r@.pending =~= Map::empty());
        }
        r
    }

    /// A watch was placed on a directory, given relative to the root.
    pub fn watch(&mut self, wd: i32, dir: &str)
        ensures
            final(self)@ == (WatchModel { dirs: old(self)@.dirs.insert(wd, dir@), ..old(self)@ }),
    {
        let ghost had = self@.dirs;
        self.dirs.insert(wd, dir.to_owned());
        assert(self@.dirs =~= had.insert(wd, dir@));
    }

    /// How many directories are being watched.
    pub fn watched(&self) -> (n: usize)
        ensures
            n == self@.dirs.dom().len(),
    {
        let n = self.dirs.len();
        assert(self@.dirs.dom() =~= self.dirs@.dom());
        n
    }

    /// Whether the kernel dropped events in the last drain.
    pub fn lost_events(&self) -> (b: bool)
        ensures
            b == self@.lost,
    {
        self.lost
    }

    /// Begin a drain.
    pub fn begin(&mut self) -> (d: Drain)
        ensures
            final(self)@ == (WatchModel { lost: false, ..old(self)@ }),
            d@ == (DrainModel {
                gone: Seq::empty(),
                moved_from: Map::empty(),
                moved_to: Map::empty(),
            }),
    {
        self.lost = false;
        let d = Drain { gone: Vec::new(), moved_from: Table::new(), moved_to: Table::new() };
        proof {
            assert(d@.gone =~= Seq::empty());
            assert(d@.moved_from =~= Map::empty());
            assert(d@.moved_to =~= Map::empty());
        }
        d
    }

    /// Take in one event. Returns the path of a directory that has appeared
    /// and has to be watched, with everything that is already in it.
    pub fn note(&mut self, d: &mut Drain, e: &RawEvent) -> (tree: Option<String>)
        ensures
            (final(self)@, final(d)@, text::maybe(tree)) == noted(old(self)@, old(d)@, e@),
    {
        let ghost w0 = self@;
        let ghost d0 = d@;
        if e.mask & IN_Q_OVERFLOW != 0 {
            self.lost = true;
            return None;
        }
        if e.mask & IN_IGNORED != 0 {
            self.dirs.remove(&e.wd);
            assert(self@.dirs =~= w0.dirs.remove(e.wd));
            return None;
        }
        let dir = match self.dirs.get(&e.wd) {
            Some(dir) => dir.clone(),
            None => {
                return None;
            },
        };
        if e.name.as_str().is_empty() {
            return None;
        }
        let path = if dir.as_str().is_empty() {
            e.name.clone()
        } else {
            let mut p = dir.clone();
            p.push('/');
            p.append(e.name.as_str());
            assert(p@ =~= dir@ + seq!['/'] + e.name@);
            p
        };
        assert(path@ == path_in(w0.dirs[e.wd], e.name@));
        let folder = e.mask & IN_ISDIR != 0;
        let tree = if folder {
            Some(path.clone())
        } else {
            None
        };
        let half = MoveHalf { path: path.clone(), is_dir: folder };
        let ghost hm = half@;
        if e.mask & IN_CREATE != 0 {
            return tree;
        }
        if e.mask & IN_MOVED_TO != 0 {
            d.moved_to.insert(e.cookie, half);
            assert(d@.moved_to =~= d0.moved_to.insert(e.cookie, hm));
            return tree;
        }
        if e.mask & IN_MOVED_FROM != 0 {
            d.moved_from.insert(e.cookie, half);
            assert(d@.moved_from =~= d0.moved_from.insert(e.cookie, hm));
            return None;
        }
        if e.mask & IN_DELETE != 0 && !folder {
            let g = Gone { path, moved_out: false };
            let ghost gm = g@;
            d.gone.push(g);
            assert(d@.gone =~= d0.gone.push(gm));
        }
        None
    }

    /// End a drain: everything that went away since the last one.
    pub fn take(&mut self, d: Drain) -> (batch: Batch)
        ensures
            final(self)@ == after_drain(old(self)@, d@),
            batch@ == concluded(old(self)@, d@),
    {
        let ghost w0 = self@;
        let ghost d0 = d@;
        let Drain { gone, moved_from, moved_to } = d;
        let mut gone = gone;
        let mut previous: Table<u32, MoveHalf> = Table::new();
        std::mem::swap(&mut previous, &mut self.pending_moves);
        proof {
            assert(halves(previous@).dom() =~= previous@.dom());
            assert(halves(moved_to@).dom() =~= moved_to@.dom());
        }
        let (out, pending, renamed) = settle_moves(previous, moved_from, moved_to, self.lost);
        self.pending_moves = pending;
        let ghost left = half_models(out@);
        proof {
            if w0.lost {
                assert(self@.pending =~= Map::empty());
                assert(left =~= Seq::empty());
                assert(renamed_models(renamed@) =~= Seq::empty());
            }
            assert(left == left_the_tree(w0, d0));
        }
        let mut folders: Vec<String> = Vec::new();
        let mut i: usize = 0;
        proof {
            assert(d0.gone + files_out(left.take(0)) =~= d0.gone);
            assert(text::texts(folders@) =~= folders_out(left.take(0)));
        }
        while i < out.len()
            invariant
                i <= out@.len(),
                left == half_models(out@),
                gone_models(gone@) == d0.gone + files_out(left.take(i as int)),
                text::texts(folders@) == folders_out(left.take(i as int)),
            decreases out@.len() - i,
        {
            let ghost next = left.take(i + 1);
            assert(next.drop_last() =~= left.take(i as int));
            assert(next.last() == out@[i as int]@);
            let ghost g0 = gone_models(gone@);
            let ghost f0 = text::texts(folders@);
            if out[i].is_dir {
                folders.push(out[i].path.clone());
                assert(text::texts(folders@) =~= f0.push(next.last().path));
            } else {
                let g = Gone { path: out[i].path.clone(), moved_out: true };
                let ghost gm = g@;
                gone.push(g);
                proof {
                    assert(gone_models(gone@) =~= g0.push(gm));
                    assert(gone_models(gone@) =~= d0.gone + files_out(next));
                }
            }
            i = i + 1;
        }
        assert(left.take(i as int) =~= left);
        Batch { gone, renamed, folders_moved_out: folders }
    }
}

/// A loss of events drops every conclusion that a move has taken a name away,
/// and every half that waits.
pub proof fn law_a_loss_concludes_nothing(w: WatchModel, d: DrainModel)
    requires
        w.lost,
    ensures
        concluded(w, d).gone == d.gone,
        concluded(w, d).renamed.len() == 0,
        concluded(w, d).folders_moved_out.len() == 0,
        after_drain(w, d).pending == Map::<u32, HalfModel>::empty(),
{
    assert(d.gone + files_out(Seq::empty()) =~= d.gone);
}

proof fn lemma_expired(
    cookies: Seq<u32>,
    previous: Map<u32, HalfModel>,
    destinations: Map<u32, HalfModel>,
    h: HalfModel,
)
    ensures
        expired(cookies, previous, destinations).contains(h) <==> exists|c: u32|
            cookies.contains(c) && !destinations.dom().contains(c) && #[trigger] previous[c] == h,
    decreases cookies.len(),
{
    if cookies.len() > 0 {
        let front = cookies.drop_last();
        let c = cookies.last();
        lemma_expired(front, previous, destinations, h);
        let e = expired(cookies, previous, destinations);
        let q = expired(front, previous, destinations);
        if e.contains(h) {
            let k = choose|k: int| 0 <= k < e.len() && e[k] == h;
            if k < q.len() {
                assert(q[k] == h);
                let x = choose|x: u32|
                    front.contains(x) && !destinations.dom().contains(x) && #[trigger] previous[x]
                        == h;
                let i = choose|i: int| 0 <= i < front.len() && front[i] == x;
                assert(cookies[i] == x);
                assert(cookies.contains(x) && previous[x] == h);
            } else {
                assert(cookies[cookies.len() - 1] == c);
                assert(cookies.contains(c) && previous[c] == h);
            }
        }
        if exists|x: u32|
            cookies.contains(x) && !destinations.dom().contains(x) && #[trigger] previous[x] == h {
            let x = choose|x: u32|
                cookies.contains(x) && !destinations.dom().contains(x) && #[trigger] previous[x]
                    == h;
            let i = choose|i: int| 0 <= i < cookies.len() && cookies[i] == x;
            if i < front.len() {
                assert(front[i] == x);
                assert(front.contains(x) && previous[x] == h);
                let k = choose|k: int| 0 <= k < q.len() && q[k] == h;
                assert(e[k] == h);
            } else {
                assert(e[q.len() as int] == h);
            }
        }
    }
}

/// A rename inside the tree is not a removal: a half that has met its
/// destination leads to no conclusion that its name has left the tree, unless
/// another half under the same path does.
pub proof fn law_a_rename_is_not_a_removal(w: WatchModel, d: DrainModel, h: HalfModel)
    requires
        w.pending.dom().finite(),
        left_the_tree(w, d).contains(h),
    ensures
        exists|c: u32|
            w.pending.dom().contains(c) && !d.moved_to.dom().contains(c) && #[trigger] w.pending[c]
                == h,
{
    let keys = table::in_key_order::<u32>(w.pending.dom());
    table::lemma_in_key_order::<u32>(w.pending.dom());
    lemma_expired(keys, w.pending, d.moved_to, h);
    let c = choose|c: u32|
        keys.contains(c) && !d.moved_to.dom().contains(c) && #[trigger] w.pending[c] == h;
    assert(w.pending.dom().contains(c) && w.pending[c] == h);
}

/// A half without its destination waits through one more drain: it is kept
/// now, and has left the tree only when the next drain did not bring the
/// destination either.
pub proof fn law_an_unmatched_half_waits_one_drain(
    w: WatchModel,
    d: DrainModel,
    later: DrainModel,
    cookie: u32,
)
    requires
        !w.lost,
        d.moved_from.dom().contains(cookie),
        !d.moved_to.dom().contains(cookie),
        !later.moved_to.dom().contains(cookie),
        d.moved_from.dom().finite(),
    ensures
        after_drain(w, d).pending.dom().contains(cookie),
        after_drain(w, d).pending[cookie] == d.moved_from[cookie],
        left_the_tree(after_drain(w, d), later).contains(d.moved_from[cookie]),
{
    let v = after_drain(w, d);
    assert(v.pending.dom().subset_of(d.moved_from.dom()));
    vstd::set_lib::lemma_set_subset_finite(d.moved_from.dom(), v.pending.dom());
    let keys = table::in_key_order::<u32>(v.pending.dom());
    table::lemma_in_key_order::<u32>(v.pending.dom());
    lemma_expired(keys, v.pending, later.moved_to, d.moved_from[cookie]);
    assert(keys.contains(cookie) && v.pending[cookie] == d.moved_from[cookie]);
}

/// A folder that leaves the tree never enters the list of files that are
/// gone.
pub proof fn law_a_folder_is_never_a_file_removal(w: WatchModel, d: DrainModel, i: int)
    requires
        d.gone.len() <= i < concluded(w, d).gone.len(),
    ensures
        concluded(w, d).gone[i].moved_out,
        exists|h: HalfModel| #[trigger]
            left_the_tree(w, d).contains(h) && !h.is_dir && h.path == concluded(w, d).gone[i].path,
{
    lemma_files_out(left_the_tree(w, d), i - d.gone.len());
}

proof fn lemma_files_out(v: Seq<HalfModel>, i: int)
    requires
        0 <= i < files_out(v).len(),
    ensures
        files_out(v)[i].moved_out,
        exists|h: HalfModel| #[trigger]
            v.contains(h) && !h.is_dir && h.path == files_out(v)[i].path,
    decreases v.len(),
{
    let front = v.drop_last();
    if i < files_out(front).len() {
        lemma_files_out(front, i);
        let h = choose|h: HalfModel| #[trigger]
            front.contains(h) && !h.is_dir && h.path == files_out(front)[i].path;
        let k = choose|k: int| 0 <= k < front.len() && front[k] == h;
        assert(v[k] == h);
        assert(v.contains(h));
    } else {
        assert(v[v.len() - 1] == v.last());
        assert(v.contains(v.last()));
    }
}

/// What an event means. A queue that overflowed lost something; a watch that the
/// system dropped is forgotten; an event of an unknown directory, or without a
/// name, says nothing. A file that was deleted is gone from its path. What moved
/// away, or moved in, is noted as half of a move. A directory that came to be or
/// moved in has to be watched. Nothing else changes.
pub proof fn law_each_event_is_noted(w: WatchModel, d: DrainModel, e: EventModel)
    ensures
        ({
            let (v, n, tree) = noted(w, d, e);
            let lost = e.mask & 0x0000_4000u32 != 0;
            let dropped = e.mask & 0x0000_8000u32 != 0;
            let dir = e.mask & 0x4000_0000u32 != 0;
            let made = e.mask & 0x0000_0100u32 != 0;
            let came = e.mask & 0x0000_0080u32 != 0;
            let went = e.mask & 0x0000_0040u32 != 0;
            let deleted = e.mask & 0x0000_0200u32 != 0;
            let known = w.dirs.dom().contains(e.wd) && e.name.len() > 0;
            let path = if w.dirs[e.wd].len() == 0 {
                e.name
            } else {
                w.dirs[e.wd] + seq!['/'] + e.name
            };
            let half = HalfModel { path, is_dir: dir };
            &&& v.pending == w.pending
            &&& lost ==> v.lost && v.dirs == w.dirs && n == d && tree is None
            &&& !lost && dropped ==> v == (WatchModel { dirs: w.dirs.remove(e.wd), ..w }) && n == d
                && tree is None
            &&& !lost && !dropped ==> v == w
            &&& !lost && !dropped && !known ==> n == d && tree is None
            &&& !lost && !dropped && known ==> {
                &&& tree == (if dir && (made || came) {
                    Some(path)
                } else {
                    None
                })
                &&& made ==> n == d
                &&& !made && came ==> n == (DrainModel {
                    moved_to: d.moved_to.insert(e.cookie, half),
                    ..d
                })
                &&& !made && !came && went ==> n == (DrainModel {
                    moved_from: d.moved_from.insert(e.cookie, half),
                    ..d
                })
                &&& !made && !came && !went && deleted && !dir ==> n == (DrainModel {
                    gone: d.gone.push(GoneModel { path, moved_out: false }),
                    ..d
                })
                &&& !made && !came && !went && (!deleted || dir) ==> n == d
            }
        }),
{
}

/// Halves of moves are settled one by one, in the order of their cookies: a batch
/// of cookies in two parts gives what the first gives and then what the second
/// gives. One whose other half came is a rename of a folder where either half says
/// so, and one whose other half never came has left the tree.
pub proof fn law_each_half_is_settled_by_itself(
    first: Seq<u32>,
    second: Seq<u32>,
    c: u32,
    previous: Map<u32, HalfModel>,
    current: Map<u32, HalfModel>,
    destinations: Map<u32, HalfModel>,
)
    ensures
        pairs(first + second, previous, current, destinations) == pairs(
            first,
            previous,
            current,
            destinations,
        ) + pairs(second, previous, current, destinations),
        expired(first + second, previous, destinations) == expired(first, previous, destinations)
            + expired(second, previous, destinations),
        destinations.dom().contains(c) ==> expired(seq![c], previous, destinations).len() == 0,
        !destinations.dom().contains(c) ==> expired(seq![c], previous, destinations)
            == seq![previous[c]],
        !previous.dom().contains(c) && !current.dom().contains(c) ==> pairs(
            seq![c],
            previous,
            current,
            destinations,
        ).len() == 0,
        previous.dom().contains(c) || current.dom().contains(c) ==> ({
            let from = if previous.dom().contains(c) {
                previous[c]
            } else {
                current[c]
            };
            pairs(seq![c], previous, current, destinations) == seq![
                RenamedModel {
                    from: from.path,
                    to: destinations[c].path,
                    is_dir: from.is_dir || destinations[c].is_dir,
                },
            ]
        }),
    decreases second.len(),
{
    let one = seq![c];
    assert(one.drop_last() =~= Seq::empty());
    assert(pairs(one.drop_last(), previous, current, destinations) =~= Seq::empty());
    assert(expired(one.drop_last(), previous, destinations) =~= Seq::empty());
    assert(Seq::<HalfModel>::empty().push(previous[c]) =~= seq![previous[c]]);
    if previous.dom().contains(c) || current.dom().contains(c) {
        let from = if previous.dom().contains(c) {
            previous[c]
        } else {
            current[c]
        };
        let r = RenamedModel {
            from: from.path,
            to: destinations[c].path,
            is_dir: from.is_dir || destinations[c].is_dir,
        };
        assert(Seq::<RenamedModel>::empty().push(r) =~= seq![r]);
    }
    let both = first + second;
    if second.len() == 0 {
        assert(both =~= first);
        assert(pairs(both, previous, current, destinations) =~= pairs(
            first,
            previous,
            current,
            destinations,
        ) + pairs(second, previous, current, destinations));
        assert(expired(both, previous, destinations) =~= expired(first, previous, destinations)
            + expired(second, previous, destinations));
    } else {
        let less = second.drop_last();
        law_each_half_is_settled_by_itself(first, less, c, previous, current, destinations);
        assert(both.drop_last() =~= first + less);
        assert(both.last() == second.last());
        assert(pairs(both, previous, current, destinations) =~= pairs(
            first,
            previous,
            current,
            destinations,
        ) + pairs(second, previous, current, destinations));
        assert(expired(both, previous, destinations) =~= expired(first, previous, destinations)
            + expired(second, previous, destinations));
    }
}

/// What left the tree is told of as files and folders, in order: a folder by its
/// path alone, and a file as moved out.
pub proof fn law_what_left_the_tree_is_told(
    first: Seq<HalfModel>,
    second: Seq<HalfModel>,
    h: HalfModel,
)
    ensures
        files_out(first + second) == files_out(first) + files_out(second),
        folders_out(first + second) == folders_out(first) + folders_out(second),
        h.is_dir ==> files_out(seq![h]).len() == 0 && folders_out(seq![h]) == seq![h.path],
        !h.is_dir ==> folders_out(seq![h]).len() == 0 && files_out(seq![h]) == seq![
            GoneModel { path: h.path, moved_out: true },
        ],
    decreases second.len(),
{
    let one = seq![h];
    assert(one.drop_last() =~= Seq::empty());
    assert(files_out(one.drop_last()) =~= Seq::empty());
    assert(folders_out(one.drop_last()) =~= Seq::empty());
    let g = GoneModel { path: h.path, moved_out: true };
    assert(Seq::<GoneModel>::empty().push(g) =~= seq![g]);
    assert(Seq::<Seq<char>>::empty().push(h.path) =~= seq![h.path]);
    let both = first + second;
    if second.len() == 0 {
        assert(both =~= first);
        assert(files_out(both) =~= files_out(first) + files_out(second));
        assert(folders_out(both) =~= folders_out(first) + folders_out(second));
    } else {
        let less = second.drop_last();
        law_what_left_the_tree_is_told(first, less, h);
        assert(both.drop_last() =~= first + less);
        assert(both.last() == second.last());
        assert(files_out(both) =~= files_out(first) + files_out(second));
        assert(folders_out(both) =~= folders_out(first) + folders_out(second));
    }
}

/// A half that was carried over from the drain before and whose other half did not
/// come either is concluded: a file as gone, moved out, and a folder as moved out.
/// What was deleted is concluded as it was noted, before that.
pub proof fn law_every_half_left_over_is_concluded(w: WatchModel, d: DrainModel, c: u32)
    requires
        !w.lost,
        w.pending.dom().finite(),
        w.pending.dom().contains(c),
        !d.moved_to.dom().contains(c),
    ensures
        d.gone.is_prefix_of(concluded(w, d).gone),
        !w.pending[c].is_dir ==> concluded(w, d).gone.contains(
            GoneModel { path: w.pending[c].path, moved_out: true },
        ),
        w.pending[c].is_dir ==> concluded(w, d).folders_moved_out.contains(w.pending[c].path),
{
    let keys = table::in_key_order::<u32>(w.pending.dom());
    table::lemma_in_key_order::<u32>(w.pending.dom());
    assert(keys.contains(c));
    let k = choose|k: int| 0 <= k < keys.len() && keys[k] == c;
    let a = keys.take(k);
    let b = keys.skip(k + 1);
    assert(keys =~= a + (seq![c] + b));
    let none = Map::<u32, HalfModel>::empty();
    law_each_half_is_settled_by_itself(a, seq![c] + b, c, w.pending, none, d.moved_to);
    law_each_half_is_settled_by_itself(seq![c], b, c, w.pending, none, d.moved_to);
    let h = w.pending[c];
    let x = expired(a, w.pending, d.moved_to);
    let y = expired(b, w.pending, d.moved_to);
    let all = left_the_tree(w, d);
    assert(all =~= x + (seq![h] + y));
    law_what_left_the_tree_is_told(x, seq![h] + y, h);
    law_what_left_the_tree_is_told(seq![h], y, h);
    if h.is_dir {
        let at = folders_out(x).len() as int;
        assert(concluded(w, d).folders_moved_out[at] == h.path);
    } else {
        let at = (d.gone.len() + files_out(x).len()) as int;
        assert(concluded(w, d).gone[at] == (GoneModel { path: h.path, moved_out: true }));
    }
    assert(d.gone.is_prefix_of(concluded(w, d).gone));
}

/// A move both of whose halves came, in this drain or the first of them in the one
/// before, is concluded as a rename from where it was to where it is.
pub proof fn law_every_whole_move_is_a_rename(w: WatchModel, d: DrainModel, c: u32)
    requires
        !w.lost,
        d.moved_to.dom().finite(),
        d.moved_to.dom().contains(c),
        w.pending.dom().contains(c) || d.moved_from.dom().contains(c),
    ensures
        ({
            let from = if w.pending.dom().contains(c) {
                w.pending[c]
            } else {
                d.moved_from[c]
            };
            concluded(w, d).renamed.contains(
                RenamedModel {
                    from: from.path,
                    to: d.moved_to[c].path,
                    is_dir: from.is_dir || d.moved_to[c].is_dir,
                },
            )
        }),
{
    let keys = table::in_key_order::<u32>(d.moved_to.dom());
    table::lemma_in_key_order::<u32>(d.moved_to.dom());
    assert(keys.contains(c));
    let k = choose|k: int| 0 <= k < keys.len() && keys[k] == c;
    let a = keys.take(k);
    let b = keys.skip(k + 1);
    assert(keys =~= a + (seq![c] + b));
    law_each_half_is_settled_by_itself(a, seq![c] + b, c, w.pending, d.moved_from, d.moved_to);
    law_each_half_is_settled_by_itself(seq![c], b, c, w.pending, d.moved_from, d.moved_to);
    let at = pairs(a, w.pending, d.moved_from, d.moved_to).len() as int;
    let r = concluded(w, d).renamed[at];
    assert(concluded(w, d).renamed.contains(r));
}

/// What is carried over to the next drain: the halves that moved away in this one,
/// but for those whose other half came and was matched with them. What was carried
/// over before is not carried over again.
pub proof fn law_only_new_halves_are_carried_over(w: WatchModel, d: DrainModel, c: u32)
    requires
        !w.lost,
    ensures
        after_drain(w, d).pending.dom().contains(c) <==> d.moved_from.dom().contains(c) && !(
        d.moved_to.dom().contains(c) && !w.pending.dom().contains(c)),
        after_drain(w, d).pending.dom().contains(c) ==> after_drain(w, d).pending[c]
            == d.moved_from[c],
        after_drain(w, d).dirs == w.dirs,
        after_drain(w, d).lost == w.lost,
{
}

/// Four bytes make a number, the first one the least or the most by the machine's
/// order, and a number past the middle is negative.
pub proof fn law_four_bytes_make_a_number(a: u8, b: u8, c: u8, d: u8, w: u32)
    ensures
        word(seq![a, b, c, d], 0, ByteOrder::Little) == a + 256 * b + 65536 * c + 16777216 * d,
        word(seq![d, c, b, a], 0, ByteOrder::Big) == word(
            seq![a, b, c, d],
            0,
            ByteOrder::Little,
        ),
        w < 0x8000_0000 ==> signed(w) == w,
        w >= 0x8000_0000 ==> signed(w) + 0x1_0000_0000 == w,
{
}

/// A name ends at its first zero byte, and takes all that there is where none comes.
pub proof fn law_a_name_ends_at_the_first_zero(a: Seq<u8>, rest: Seq<u8>)
    requires
        !a.contains(0),
    ensures
        until_zero(a) == a,
        until_zero(a + seq![0u8] + rest) == a,
    decreases a.len(),
{
    let s = a + seq![0u8] + rest;
    if a.len() == 0 {
        assert(s[0] == 0);
        assert(until_zero(s) =~= a);
        assert(until_zero(a) =~= a);
    } else {
        let t = a.drop_first();
        assert(!t.contains(0)) by {
            if t.contains(0) {
                let i = choose|i: int| 0 <= i < t.len() && t[i] == 0;
                assert(a[i + 1] == 0);
                assert(a.contains(0));
            }
        }
        assert(a.contains(a[0]));
        law_a_name_ends_at_the_first_zero(t, rest);
        assert(s.drop_first() =~= t + seq![0u8] + rest);
        assert(s[0] == a[0]);
        assert(until_zero(s) =~= a);
        assert(until_zero(a) =~= a);
    }
}

proof fn lemma_word_shift(pre: Seq<u8>, b: Seq<u8>, at: int, order: ByteOrder)
    requires
        0 <= at,
        at + 4 <= b.len(),
    ensures
        word(pre + b, pre.len() + at, order) == word(b, at, order),
{
    let s = pre + b;
    let k = pre.len() as int;
    assert(s[k + at] == b[at]);
    assert(s[k + at + 1] == b[at + 1]);
    assert(s[k + at + 2] == b[at + 2]);
    assert(s[k + at + 3] == b[at + 3]);
}

proof fn lemma_event_shift(pre: Seq<u8>, b: Seq<u8>, at: int, order: ByteOrder)
    requires
        0 <= at,
        at + 16 <= b.len(),
    ensures
        event_at(pre + b, pre.len() + at, order) == event_at(b, at, order),
        word(pre + b, pre.len() + at + 12, order) == word(b, at + 12, order),
{
    let s = pre + b;
    let k = pre.len() as int;
    lemma_word_shift(pre, b, at, order);
    lemma_word_shift(pre, b, at + 4, order);
    lemma_word_shift(pre, b, at + 8, order);
    lemma_word_shift(pre, b, at + 12, order);
    let len = word(b, at + 12, order) as int;
    assert(s.subrange(k + at + 16, at_most(k + at + 16 + len, s.len() as int)) =~= b.subrange(
        at + 16,
        at_most(at + 16 + len, b.len() as int),
    ));
}

proof fn lemma_events_shift(pre: Seq<u8>, b: Seq<u8>, at: int, order: ByteOrder)
    requires
        0 <= at,
    ensures
        events_from(pre + b, (pre.len() + b.len()) as int, pre.len() + at, order) == events_from(
            b,
            b.len() as int,
            at,
            order,
        ),
    decreases
            if at < b.len() {
                b.len() - at
            } else {
                0
            },
{
    if at + 16 <= b.len() {
        lemma_event_shift(pre, b, at, order);
        lemma_events_shift(pre, b, at + 16 + word(b, at + 12, order), order);
    }
}

/// A buffer is read record by record: a whole record gives one event, of the watch,
/// the mask and the cookie that its first words hold and the name behind them, and
/// what follows it is read as if it stood alone.
pub proof fn law_a_buffer_is_read_record_by_record(
    r: Seq<u8>,
    rest: Seq<u8>,
    order: ByteOrder,
)
    requires
        r.len() >= 16,
        r.len() == 16 + word(r, 12, order),
    ensures
        ({
            let all = events_from(r + rest, (r.len() + rest.len()) as int, 0, order);
            let e = all[0];
            &&& all.len() == 1 + events_from(rest, rest.len() as int, 0, order).len()
            &&& e.wd == signed(word(r, 0, order))
            &&& e.mask == word(r, 4, order)
            &&& e.cookie == word(r, 8, order)
            &&& e.name == name_in(r.skip(16))
            &&& all.skip(1) == events_from(rest, rest.len() as int, 0, order)
        }),
{
    let s = r + rest;
    assert forall|i: int| 0 <= i < r.len() implies s[i] == r[i] by {}
    assert(word(s, 12, order) == word(r, 12, order));
    assert(word(s, 0, order) == word(r, 0, order));
    assert(word(s, 4, order) == word(r, 4, order));
    assert(word(s, 8, order) == word(r, 8, order));
    assert(s.subrange(16, at_most(16 + word(s, 12, order), s.len() as int)) =~= r.skip(16));
    lemma_events_shift(r, rest, 0, order);
    let all = events_from(s, (r.len() + rest.len()) as int, 0, order);
    assert(all =~= seq![event_at(s, 0, order)] + events_from(rest, rest.len() as int, 0, order));
    assert(all.skip(1) =~= events_from(rest, rest.len() as int, 0, order));
}

} // verus!
