//! What watchers are told.
//!
//! A watcher gets one state line at once and another every time the state
//! changes, and nothing else.

use crate::number;
use crate::sort;
use crate::table;
use crate::table::{FileId, Table};
use crate::text;
use crate::wire;
use vstd::prelude::*;
use vstd::string::*;

verus! {

/// One line's worth of state. A line goes out when this differs from the last
/// one written, so equality here is what "nothing changed" means.
#[derive(Debug, PartialEq, Eq)]
pub struct WatchState {
    /// Edits waiting and in flight.
    pub unsent: u64,
    /// How many files a backup would miss.
    pub excluded: u64,
    /// How many other mounts expose the sync files.
    pub exposures: u64,
    /// How many fetches are in flight.
    pub downloading: u64,
    /// Whether a delta pass is being applied.
    pub scanning: bool,
    /// The relative paths of the uploads in flight.
    pub uploading: Vec<String>,
}

/// A state over texts.
#[verifier::ext_equal]
pub struct WatchModel {
    pub unsent: u64,
    pub excluded: u64,
    pub exposures: u64,
    pub downloading: u64,
    pub scanning: bool,
    pub uploading: Seq<Seq<char>>,
}

impl View for WatchState {
    type V = WatchModel;

    open spec fn view(&self) -> WatchModel {
        WatchModel {
            unsent: self.unsent,
            excluded: self.excluded,
            exposures: self.exposures,
            downloading: self.downloading,
            scanning: self.scanning,
            uploading: text::texts(self.uploading@),
        }
    }
}

/// The paths of a state as they stand on the line.
pub open spec fn upload_list(uploading: Seq<Seq<char>>) -> Seq<char> {
    text::join(uploading.map_values(|p: Seq<char>| wire::encoded(p)), seq![' '])
}

/// The line for a state: keys in a fixed order, each with its value. Only new
/// keys at the end may ever be added.
pub open spec fn line_of(s: WatchModel) -> Seq<char> {
    "unsent="@ + number::digits(s.unsent as nat) + " excluded="@ + number::digits(
        s.excluded as nat,
    ) + " exposures="@ + number::digits(s.exposures as nat) + " downloading="@ + number::digits(
        s.downloading as nat,
    ) + " scanning="@ + (if s.scanning {
        seq!['1']
    } else {
        seq!['0']
    }) + " uploading="@ + upload_list(s.uploading)
}

fn encode_all(paths: &Vec<String>) -> (out: Vec<String>)
    ensures
        text::texts(out@) == text::texts(paths@).map_values(|p: Seq<char>| wire::encoded(p)),
{
    let mut out: Vec<String> = Vec::new();
    let ghost want = text::texts(paths@).map_values(|p: Seq<char>| wire::encoded(p));
    let mut i: usize = 0;
    assert(text::texts(out@) =~= want.take(0));
    while i < paths.len()
        invariant
            i <= paths@.len(),
            want == text::texts(paths@).map_values(|p: Seq<char>| wire::encoded(p)),
            text::texts(out@) == want.take(i as int),
        decreases paths@.len() - i,
    {
        let ghost had = text::texts(out@);
        let e = wire::encode_path(paths[i].as_str());
        let ghost m = e@;
        out.push(e);
        assert(want[i as int] == m);
        assert(text::texts(out@) =~= had.push(m));
        assert(want.take(i + 1) =~= want.take(i as int).push(m));
        i = i + 1;
    }
    assert(want.take(i as int) =~= want);
    out
}

impl WatchState {
    /// The line for this state, without its line break.
    pub fn line(&self) -> (out: String)
        ensures
            out@ == line_of(self@),
    {
        let mut out: String = "unsent=".to_owned();
        out.append(number::decimal(self.unsent).as_str());
        out.append(" excluded=");
        out.append(number::decimal(self.excluded).as_str());
        out.append(" exposures=");
        out.append(number::decimal(self.exposures).as_str());
        out.append(" downloading=");
        out.append(number::decimal(self.downloading).as_str());
        out.append(" scanning=");
        let ghost so_far = out@;
        if self.scanning {
            out.push('1');
        } else {
            out.push('0');
        }
        assert(out@ =~= so_far + if self.scanning {
            seq!['1']
        } else {
            seq!['0']
        });
        out.append(" uploading=");
        let encoded = encode_all(&self.uploading);
        proof {
            reveal_strlit(" ");
            assert(" "@ =~= seq![' ']);
        }
        out.append(text::join_with(&encoded, " ").as_str());
        out
    }

    /// Whether nothing changed.
    pub fn same(&self, other: &WatchState) -> (b: bool)
        ensures
            b == (self@ == other@),
    {
        if self.unsent != other.unsent || self.excluded != other.excluded || self.exposures
            != other.exposures || self.downloading != other.downloading || self.scanning
            != other.scanning || self.uploading.len() != other.uploading.len() {
            assert(self@.uploading.len() == self.uploading@.len());
            assert(other@.uploading.len() == other.uploading@.len());
            return false;
        }
        let mut i: usize = 0;
        while i < self.uploading.len()
            invariant
                i <= self.uploading@.len(),
                self.uploading@.len() == other.uploading@.len(),
                forall|j: int| 0 <= j < i ==> self@.uploading[j] == other@.uploading[j],
            decreases self.uploading@.len() - i,
        {
            assert(self@.uploading[i as int] == self.uploading@[i as int]@);
            assert(other@.uploading[i as int] == other.uploading@[i as int]@);
            if !text::same(self.uploading[i].as_str(), other.uploading[i].as_str()) {
                return false;
            }
            i = i + 1;
        }
        assert(self@.uploading =~= other@.uploading);
        true
    }

    /// A state with the same contents.
    pub fn copy(&self) -> (r: WatchState)
        ensures
            r@ == self@,
    {
        let mut uploading: Vec<String> = Vec::new();
        let mut i: usize = 0;
        assert(text::texts(uploading@) =~= self@.uploading.take(0));
        while i < self.uploading.len()
            invariant
                i <= self.uploading@.len(),
                text::texts(uploading@) == self@.uploading.take(i as int),
            decreases self.uploading@.len() - i,
        {
            let ghost had = text::texts(uploading@);
            uploading.push(self.uploading[i].as_str().to_owned());
            assert(text::texts(uploading@) =~= had.push(self@.uploading[i as int]));
            assert(self@.uploading.take(i + 1) =~= self@.uploading.take(i as int).push(
                self@.uploading[i as int],
            ));
            i = i + 1;
        }
        assert(self@.uploading.take(i as int) =~= self@.uploading);
        WatchState {
            unsent: self.unsent,
            excluded: self.excluded,
            exposures: self.exposures,
            downloading: self.downloading,
            scanning: self.scanning,
            uploading,
        }
    }
}

/// The paths of the uploads in flight, in the order of the files' identities.
pub open spec fn active_paths(active: Map<FileId, String>) -> Seq<Seq<char>> {
    table::in_key_order::<FileId>(active.dom()).map_values(|id: FileId| active[id]@)
}

/// The state as of this moment. The paths are sorted, so that a set of uploads
/// that has not changed gives the line it gave before.
pub fn watch_state(
    unsent: u64,
    excluded: u64,
    exposures: u64,
    downloading: u64,
    scanning: bool,
    active: &Table<FileId, String>,
) -> (s: WatchState)
    ensures
        s@ == (WatchModel {
            unsent,
            excluded,
            exposures,
            downloading,
            scanning,
            uploading: sort::arranged::<String>(active_paths(active@)),
        }),
{
    let n = active.len();
    let ghost keys = table::keys_of(active.rows());
    let ghost want = active_paths(active@);
    let mut paths: Vec<String> = Vec::new();
    let mut i: usize = 0;
    assert(sort::models(paths@) =~= want.take(0));
    while i < n
        invariant
            i <= n,
            n == active.rows().len(),
            keys == table::keys_of(active.rows()),
            keys == table::in_key_order::<FileId>(active@.dom()),
            want == active_paths(active@),
            sort::models(paths@) == want.take(i as int),
        decreases n - i,
    {
        let id = active.key_at(i);
        let p = active.value_at(i);
        let ghost had = sort::models(paths@);
        assert(keys[i as int] == *id);
        assert(want[i as int] == p@);
        paths.push(p.as_str().to_owned());
        assert(sort::models(paths@) =~= had.push(p@));
        assert(want.take(i + 1) =~= want.take(i as int).push(p@));
        i = i + 1;
    }
    assert(want.take(i as int) =~= want);
    let uploading = sort::arrange(paths);
    assert(sort::models(uploading@) =~= text::texts(uploading@));
    WatchState { unsent, excluded, exposures, downloading, scanning, uploading }
}

/// More watchers than this, and new ones are turned away.
pub const MAX_WATCHERS: usize = 32;

/// Those of some items whose flag is down.
pub open spec fn kept<T>(items: Seq<T>, gone: Seq<bool>) -> Seq<T>
    decreases items.len(),
{
    if items.len() == 0 {
        Seq::empty()
    } else if gone[items.len() - 1] {
        kept(items.drop_last(), gone)
    } else {
        kept(items.drop_last(), gone).push(items.last())
    }
}

/// Every watcher's last state, in the order in which they came. The caller
/// keeps the connections in the same order.
pub struct Watchers {
    last: Vec<WatchState>,
}

/// What each watcher was last told.
pub open spec fn states(v: Seq<WatchState>) -> Seq<WatchModel> {
    v.map_values(|s: WatchState| s@)
}

impl View for Watchers {
    type V = Seq<WatchModel>;

    closed spec fn view(&self) -> Seq<WatchModel> {
        states(self.last@)
    }
}

impl Watchers {
    pub fn new() -> (w: Watchers)
        ensures
            w@ == Seq::<WatchModel>::empty(),
    {
        let w = Watchers { last: Vec::new() };
        assert(w@ =~= Seq::empty());
        w
    }

    /// How many watchers there are.
    pub fn live(&self) -> (n: usize)
        ensures
            n == self@.len(),
    {
        self.last.len()
    }

    /// Drop the watchers that are gone.
    pub fn cull(&mut self, gone: &Vec<bool>)
        requires
            gone@.len() == old(self)@.len(),
        ensures
            final(self)@ == kept(old(self)@, gone@),
    {
        let ghost was = self@;
        let mut rest: Vec<WatchState> = Vec::new();
        let mut i: usize = 0;
        assert(was.take(0) =~= Seq::empty());
        assert(states(rest@) =~= Seq::empty());
        while i < self.last.len()
            invariant
                i <= self.last@.len(),
                was == states(self.last@),
                gone@.len() == self.last@.len(),
                states(rest@) == kept(was.take(i as int), gone@),
            decreases self.last@.len() - i,
        {
            let ghost had = states(rest@);
            proof {
                assert(was.take(i + 1).drop_last() =~= was.take(i as int));
                assert(was.take(i + 1).last() == self.last@[i as int]@);
            }
            if !gone[i] {
                let s = self.last[i].copy();
                let ghost m = s@;
                rest.push(s);
                assert(states(rest@) =~= had.push(m));
            }
            i = i + 1;
        }
        assert(was.take(i as int) =~= was);
        self.last = rest;
    }

    /// Drop the watchers that are gone, and tell whether there is room for
    /// another: the limit counts live ones.
    pub fn has_room(&mut self, gone: &Vec<bool>) -> (b: bool)
        requires
            gone@.len() == old(self)@.len(),
        ensures
            final(self)@ == kept(old(self)@, gone@),
            b == (kept(old(self)@, gone@).len() < MAX_WATCHERS),
    {
        self.cull(gone);
        self.last.len() < MAX_WATCHERS
    }

    /// Take in a watcher that has been told its first state.
    pub fn adopt(&mut self, state: WatchState)
        ensures
            final(self)@ == old(self)@.push(state@),
    {
        let ghost was = self@;
        let ghost m = state@;
        self.last.push(state);
        assert(self@ =~= was.push(m));
    }

    /// Which watchers are to be told a state: those who were last told another
    /// one and are still there.
    pub fn broadcast(&self, gone: &Vec<bool>, state: &WatchState) -> (tell: Vec<bool>)
        requires
            gone@.len() == self@.len(),
        ensures
            tell@.len() == self@.len(),
            forall|i: int|
                0 <= i < tell@.len() ==> #[trigger] tell@[i] == (!gone@[i] && self@[i] != state@),
    {
        let mut tell: Vec<bool> = Vec::new();
        let mut i: usize = 0;
        while i < self.last.len()
            invariant
                i <= self.last@.len(),
                gone@.len() == self@.len(),
                tell@.len() == i,
                forall|j: int|
                    0 <= j < i ==> #[trigger] tell@[j] == (!gone@[j] && self@[j] != state@),
            decreases self.last@.len() - i,
        {
            assert(self@[i as int] == self.last@[i as int]@);
            tell.push(!gone[i] && !self.last[i].same(state));
            i = i + 1;
        }
        tell
    }

    /// Note what became of a broadcast: a watcher that is gone, or that could
    /// not be told, is dropped; every other one now knows the state.
    pub fn told(&mut self, dropped: &Vec<bool>, state: &WatchState)
        requires
            dropped@.len() == old(self)@.len(),
        ensures
            final(self)@ == Seq::new(
                kept(old(self)@, dropped@).len(),
                |i: int| state@,
            ),
    {
        self.cull(dropped);
        let total = self.last.len();
        let mut fresh: Vec<WatchState> = Vec::new();
        let mut i: usize = 0;
        while i < total
            invariant
                i <= total,
                fresh@.len() == i,
                forall|j: int| 0 <= j < i ==> (#[trigger] fresh@[j])@ == state@,
            decreases total - i,
        {
            fresh.push(state.copy());
            i = i + 1;
        }
        self.last = fresh;
        assert(self@ =~= Seq::new(total as nat, |i: int| state@));
    }
}

proof fn lemma_no_break_join(parts: Seq<Seq<char>>)
    requires
        forall|i: int| 0 <= i < parts.len() ==> !(#[trigger] parts[i]).contains('\n'),
    ensures
        !text::join(parts, seq![' ']).contains('\n'),
    decreases parts.len(),
{
    let s = text::join(parts, seq![' ']);
    if parts.len() == 1 {
        assert(!parts[0].contains('\n'));
    } else if parts.len() > 1 {
        let front = parts.drop_last();
        assert forall|i: int| 0 <= i < front.len() implies !(#[trigger] front[i]).contains(
            '\n',
        ) by {
            assert(front[i] == parts[i]);
        }
        lemma_no_break_join(front);
        let a = text::join(front, seq![' ']);
        let b = parts.last();
        assert(!parts[parts.len() - 1].contains('\n'));
        assert(s == a + seq![' '] + b);
        assert forall|i: int| 0 <= i < s.len() implies s[i] != '\n' by {
            if i < a.len() {
                assert(a.contains(s[i]));
            } else if i > a.len() {
                assert(s[i] == b[i - a.len() - 1]);
                assert(b.contains(s[i]));
            }
        }
    }
}

proof fn lemma_no_break_cat(a: Seq<char>, b: Seq<char>)
    requires
        !a.contains('\n'),
        !b.contains('\n'),
    ensures
        !(a + b).contains('\n'),
{
    let s = a + b;
    assert forall|i: int| 0 <= i < s.len() implies s[i] != '\n' by {
        if i < a.len() {
            assert(a.contains(s[i]));
        } else {
            assert(b.contains(b[i - a.len()]));
        }
    }
}

proof fn lemma_no_break_digits(n: nat)
    ensures
        !number::digits(n).contains('\n'),
{
    number::lemma_digits(n);
    let d = number::digits(n);
    assert forall|i: int| 0 <= i < d.len() implies d[i] != '\n' by {
        assert('0' <= d[i]);
    }
}

/// A state is one line, whatever the paths hold.
pub proof fn law_a_state_is_one_line(s: WatchModel)
    ensures
        !line_of(s).contains('\n'),
{
    let list = s.uploading.map_values(|p: Seq<char>| wire::encoded(p));
    assert forall|i: int| 0 <= i < list.len() implies !(#[trigger] list[i]).contains('\n') by {
        wire::law_an_encoded_path_is_one_token(s.uploading[i]);
    }
    lemma_no_break_join(list);
    lemma_no_break_digits(s.unsent as nat);
    lemma_no_break_digits(s.excluded as nat);
    lemma_no_break_digits(s.exposures as nat);
    lemma_no_break_digits(s.downloading as nat);
    reveal_strlit("unsent=");
    reveal_strlit(" excluded=");
    reveal_strlit(" exposures=");
    reveal_strlit(" downloading=");
    reveal_strlit(" scanning=");
    reveal_strlit(" uploading=");
    let bit = if s.scanning {
        seq!['1']
    } else {
        seq!['0']
    };
    let l0 = "unsent="@ + number::digits(s.unsent as nat);
    lemma_no_break_cat("unsent="@, number::digits(s.unsent as nat));
    let l1 = l0 + " excluded="@;
    lemma_no_break_cat(l0, " excluded="@);
    let l2 = l1 + number::digits(s.excluded as nat);
    lemma_no_break_cat(l1, number::digits(s.excluded as nat));
    let l3 = l2 + " exposures="@;
    lemma_no_break_cat(l2, " exposures="@);
    let l4 = l3 + number::digits(s.exposures as nat);
    lemma_no_break_cat(l3, number::digits(s.exposures as nat));
    let l5 = l4 + " downloading="@;
    lemma_no_break_cat(l4, " downloading="@);
    let l6 = l5 + number::digits(s.downloading as nat);
    lemma_no_break_cat(l5, number::digits(s.downloading as nat));
    let l7 = l6 + " scanning="@;
    lemma_no_break_cat(l6, " scanning="@);
    let l8 = l7 + bit;
    lemma_no_break_cat(l7, bit);
    let l9 = l8 + " uploading="@;
    lemma_no_break_cat(l8, " uploading="@);
    lemma_no_break_cat(l9, upload_list(s.uploading));
}

/// The paths can be read back off the line: cut the list at its spaces and
/// decode each piece.
pub proof fn law_the_paths_read_back(uploading: Seq<Seq<char>>)
    requires
        uploading.len() > 0,
    ensures
        text::split(upload_list(uploading), ' ').map_values(|t: Seq<char>| wire::decoded(t))
            == uploading,
{
    let list = uploading.map_values(|p: Seq<char>| wire::encoded(p));
    assert forall|i: int| 0 <= i < list.len() implies !(#[trigger] list[i]).contains(' ') by {
        wire::law_an_encoded_path_is_one_token(uploading[i]);
    }
    text::lemma_join_split(list, ' ');
    assert forall|i: int| 0 <= i < list.len() implies wire::decoded(list[i]) == uploading[i] by {
        wire::law_paths_round_trip(uploading[i]);
    }
    assert(list.map_values(|t: Seq<char>| wire::decoded(t)) =~= uploading);
}

/// Watchers that are gone are dropped and the others stay, in their order.
pub proof fn law_watchers_that_are_not_gone_stay<T>(
    first: Seq<T>,
    second: Seq<T>,
    gone: Seq<bool>,
    more: Seq<bool>,
)
    requires
        first.len() == gone.len(),
        second.len() == more.len(),
    ensures
        kept(first + second, gone + more) == kept(first, gone) + kept(second, more),
        (forall|i: int| 0 <= i < gone.len() ==> !#[trigger] gone[i]) ==> kept(first, gone) == first,
        (forall|i: int| 0 <= i < gone.len() ==> #[trigger] gone[i]) ==> kept(first, gone).len()
            == 0,
    decreases second.len(),
{
    lemma_kept_ends(first, gone);
    let both = first + second;
    let all = gone + more;
    if second.len() == 0 {
        assert(both =~= first);
        assert(all =~= gone);
        assert(kept(both, all) =~= kept(first, gone) + kept(second, more));
    } else {
        let less = second.drop_last();
        let fewer = more.drop_last();
        law_watchers_that_are_not_gone_stay(first, less, gone, fewer);
        assert(both.drop_last() =~= first + less);
        assert(both.last() == second.last());
        assert(all[both.len() - 1] == more[second.len() - 1]);
        lemma_kept_prefix(first + less, all, gone + fewer);
        lemma_kept_prefix(less, more, fewer);
        assert(kept(both, all) =~= kept(first, gone) + kept(second, more));
    }
}

proof fn lemma_kept_ends<T>(items: Seq<T>, gone: Seq<bool>)
    requires
        items.len() == gone.len(),
    ensures
        (forall|i: int| 0 <= i < gone.len() ==> !#[trigger] gone[i]) ==> kept(items, gone) == items,
        (forall|i: int| 0 <= i < gone.len() ==> #[trigger] gone[i]) ==> kept(items, gone).len()
            == 0,
    decreases items.len(),
{
    if items.len() > 0 {
        let less = items.drop_last();
        let fewer = gone.drop_last();
        lemma_kept_ends(less, fewer);
        lemma_kept_prefix(less, gone, fewer);
        if forall|i: int| 0 <= i < gone.len() ==> !#[trigger] gone[i] {
            assert forall|i: int| 0 <= i < fewer.len() implies !#[trigger] fewer[i] by {
                assert(fewer[i] == gone[i]);
            }
            assert(!gone[items.len() - 1]);
            assert(less.push(items.last()) =~= items);
        }
        if forall|i: int| 0 <= i < gone.len() ==> #[trigger] gone[i] {
            assert forall|i: int| 0 <= i < fewer.len() implies #[trigger] fewer[i] by {
                assert(fewer[i] == gone[i]);
            }
            assert(gone[items.len() - 1]);
        }
    } else {
        assert(kept(items, gone) =~= items);
    }
}

/// Only as many flags count as there are items.
proof fn lemma_kept_prefix<T>(items: Seq<T>, a: Seq<bool>, b: Seq<bool>)
    requires
        items.len() <= a.len(),
        items.len() <= b.len(),
        forall|i: int| 0 <= i < items.len() ==> a[i] == b[i],
    ensures
        kept(items, a) == kept(items, b),
    decreases items.len(),
{
    if items.len() > 0 {
        lemma_kept_prefix(items.drop_last(), a, b);
    }
}

/// The line of a state is told by its spaces: five fields, each of them a name, an
/// equals sign and a number, and behind them what is on its way up.
pub proof fn law_a_line_has_its_fields_in_order(s: WatchModel)
    ensures
        ({
            let f = text::split(line_of(s), ' ');
            &&& f.len() >= 6
            &&& f[0] == "unsent="@ + number::digits(s.unsent as nat)
            &&& f[1] == "excluded="@ + number::digits(s.excluded as nat)
            &&& f[2] == "exposures="@ + number::digits(s.exposures as nat)
            &&& f[3] == "downloading="@ + number::digits(s.downloading as nat)
            &&& f[4] == "scanning="@ + seq![
                if s.scanning {
                    '1'
                } else {
                    '0'
                },
            ]
            &&& f.skip(5) == text::split("uploading="@ + upload_list(s.uploading), ' ')
        }),
{
    reveal_strlit("unsent=");
    reveal_strlit(" excluded=");
    reveal_strlit(" exposures=");
    reveal_strlit(" downloading=");
    reveal_strlit(" scanning=");
    reveal_strlit(" uploading=");
    reveal_strlit("excluded=");
    reveal_strlit("exposures=");
    reveal_strlit("downloading=");
    reveal_strlit("scanning=");
    reveal_strlit("uploading=");
    let sp = seq![' '];
    assert(" excluded="@ =~= sp + "excluded="@);
    assert(" exposures="@ =~= sp + "exposures="@);
    assert(" downloading="@ =~= sp + "downloading="@);
    assert(" scanning="@ =~= sp + "scanning="@);
    assert(" uploading="@ =~= sp + "uploading="@);
    let flag = seq![
        if s.scanning {
            '1'
        } else {
            '0'
        },
    ];
    let a = "unsent="@ + number::digits(s.unsent as nat);
    let b = "excluded="@ + number::digits(s.excluded as nat);
    let c = "exposures="@ + number::digits(s.exposures as nat);
    let d = "downloading="@ + number::digits(s.downloading as nat);
    let e = "scanning="@ + flag;
    let g = "uploading="@ + upload_list(s.uploading);
    lemma_no_space("unsent="@, number::digits(s.unsent as nat), s.unsent as nat);
    lemma_no_space("excluded="@, number::digits(s.excluded as nat), s.excluded as nat);
    lemma_no_space("exposures="@, number::digits(s.exposures as nat), s.exposures as nat);
    lemma_no_space("downloading="@, number::digits(s.downloading as nat), s.downloading as nat);
    assert(!e.contains(' '));
    assert(line_of(s) =~= a + sp + (b + sp + (c + sp + (d + sp + (e + sp + g)))));
    text::lemma_split_cons(a, ' ', b + sp + (c + sp + (d + sp + (e + sp + g))));
    text::lemma_split_cons(b, ' ', c + sp + (d + sp + (e + sp + g)));
    text::lemma_split_cons(c, ' ', d + sp + (e + sp + g));
    text::lemma_split_cons(d, ' ', e + sp + g);
    text::lemma_split_cons(e, ' ', g);
    text::lemma_split_join(g, ' ');
    let f = text::split(line_of(s), ' ');
    assert(f =~= seq![a, b, c, d, e] + text::split(g, ' '));
    assert(f.skip(5) =~= text::split(g, ' '));
}

proof fn lemma_no_space(name: Seq<char>, d: Seq<char>, n: nat)
    requires
        d == number::digits(n),
        !name.contains(' '),
    ensures
        !(name + d).contains(' '),
{
    number::lemma_digits(n);
    let s = name + d;
    assert forall|i: int| 0 <= i < s.len() implies s[i] != ' ' by {
        if i < name.len() {
            assert(s[i] == name[i]);
            assert(name.contains(name[i]));
        } else {
            assert(s[i] == d[i - name.len()]);
        }
    }
}

} // verus!
