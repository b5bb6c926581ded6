//! What the desktop is shown: recent events, standing issues, what is queued, and
//! whether background work is paused. All of it is bounded, and none of it is
//! work: the upload queue remains the owner of that.

use crate::delta;
use crate::delta::{Applied, AppliedModel, Change, ChangeModel, Failed, Kept};
use crate::reclaim::Stamp;
use crate::selection;
use crate::selection::Problem;
use crate::table;
use crate::table::{FileId, Table};
use crate::text;
use crate::upload::{Outcome, OutcomeModel};
use vstd::prelude::*;
use vstd::string::*;

verus! {

/// Something that happened, with the second it happened in.
#[derive(Debug, PartialEq, Eq)]
pub struct Event {
    pub time: u64,
    pub path: String,
    pub status: String,
    pub detail: String,
}

/// An event over texts.
#[verifier::ext_equal]
pub struct EventModel {
    pub time: u64,
    pub path: Seq<char>,
    pub status: Seq<char>,
    pub detail: Seq<char>,
}

impl View for Event {
    type V = EventModel;

    open spec fn view(&self) -> EventModel {
        EventModel {
            time: self.time,
            path: self.path@,
            status: self.status@,
            detail: self.detail@,
        }
    }
}

impl Event {
    fn copy(&self) -> (r: Event)
        ensures
            r@ == self@,
    {
        Event {
            time: self.time,
            path: self.path.as_str().to_owned(),
            status: self.status.as_str().to_owned(),
            detail: self.detail.as_str().to_owned(),
        }
    }
}

/// Something that stands in the way of a path until it is resolved.
#[derive(Debug, PartialEq, Eq)]
pub struct Issue {
    pub path: String,
    pub kind: String,
    pub detail: String,
}

/// An issue over texts.
#[verifier::ext_equal]
pub struct IssueModel {
    pub path: Seq<char>,
    pub kind: Seq<char>,
    pub detail: Seq<char>,
}

impl View for Issue {
    type V = IssueModel;

    open spec fn view(&self) -> IssueModel {
        IssueModel { path: self.path@, kind: self.kind@, detail: self.detail@ }
    }
}

impl Issue {
    fn copy(&self) -> (r: Issue)
        ensures
            r@ == self@,
    {
        Issue {
            path: self.path.as_str().to_owned(),
            kind: self.kind.as_str().to_owned(),
            detail: self.detail.as_str().to_owned(),
        }
    }
}

/// Events over texts.
pub open spec fn event_models(v: Seq<Event>) -> Seq<EventModel> {
    v.map_values(|e: Event| e@)
}

/// Issues over texts.
pub open spec fn issue_models(v: Seq<Issue>) -> Seq<IssueModel> {
    v.map_values(|i: Issue| i@)
}

/// Explicit choices of the user's about conflicts, apart from any policy of
/// retrying.
pub trait ConflictControl {
    fn inspect(&self, relative: &str) -> Result<String, String>;

    fn start(&self, token: &str, choice: &str) -> Result<String, String>;
}

/// How many events and how many issues are kept.
pub const MAX_KEPT: usize = 100;

/// How large a stored history may be to be read, in bytes.
pub const MAX_STORED: u64 = 524288;

/// How long a detail may be, in characters.
pub const MAX_DETAIL: usize = 2048;

/// How many queued files are shown.
pub const MAX_QUEUED: usize = 500;

/// The longest pause, in seconds.
pub const LONGEST_PAUSE: u64 = 86400;

/// How long background work is held while folders are chosen, in seconds.
pub const CHOICE_HOLD: u64 = 60;

/// A time that does not run over.
pub open spec fn later(now: u64, by: u64) -> u64 {
    if now + by > u64::MAX {
        u64::MAX
    } else {
        (now + by) as u64
    }
}

/// The first items of a list.
pub open spec fn first<T>(s: Seq<T>, n: nat) -> Seq<T> {
    if s.len() > n {
        s.take(n as int)
    } else {
        s
    }
}

/// Whether two events say the same, but for the time.
pub open spec fn same_event(a: EventModel, b: EventModel) -> bool {
    a.path == b.path && a.status == b.status && a.detail == b.detail
}

/// Events that say something else.
pub open spec fn other_events(s: Seq<EventModel>, e: EventModel) -> Seq<EventModel>
    decreases s.len(),
{
    if s.len() == 0 {
        Seq::empty()
    } else if same_event(s.last(), e) {
        other_events(s.drop_last(), e)
    } else {
        other_events(s.drop_last(), e).push(s.last())
    }
}

/// The events once one more has happened: newest first, each said once.
pub open spec fn with_event(s: Seq<EventModel>, e: EventModel) -> Seq<EventModel> {
    first(seq![e] + other_events(s, e), MAX_KEPT as nat)
}

/// The paths of the issues about the availability of a file's bytes.
pub open spec fn unavailable(s: Seq<IssueModel>) -> Seq<Seq<char>>
    decreases s.len(),
{
    if s.len() == 0 {
        Seq::empty()
    } else if s.last().kind == availability() {
        unavailable(s.drop_last()).push(s.last().path)
    } else {
        unavailable(s.drop_last())
    }
}

/// The issues of other paths.
pub open spec fn other_issues(s: Seq<IssueModel>, path: Seq<char>) -> Seq<IssueModel>
    decreases s.len(),
{
    if s.len() == 0 {
        Seq::empty()
    } else if s.last().path == path {
        other_issues(s.drop_last(), path)
    } else {
        other_issues(s.drop_last(), path).push(s.last())
    }
}

/// The kind of an issue about bytes whose standing is not known.
pub open spec fn availability() -> Seq<char> {
    "availability"@
}

/// Whether an issue tells nothing new: it stands already, or the path has one
/// about the availability of its bytes, which is the stronger explanation.
pub open spec fn is_covered(s: Seq<IssueModel>, i: IssueModel) -> bool {
    s.contains(i) || (i.kind != availability() && exists|k: int|
        0 <= k < s.len() && (#[trigger] s[k]).path == i.path && s[k].kind == availability())
}

/// The issues once one more has been raised: newest first, one for a path.
pub open spec fn with_issue(s: Seq<IssueModel>, i: IssueModel) -> Seq<IssueModel> {
    if is_covered(s, i) {
        s
    } else {
        first(seq![i] + other_issues(s, i.path), MAX_KEPT as nat)
    }
}

/// Whether a change is about a path.
pub open spec fn is_about(c: ChangeModel, path: Seq<char>) -> bool {
    match c {
        ChangeModel::Upserted { path: p, .. } => p == path,
        ChangeModel::FolderUpserted { path: p, .. } => p == path,
        ChangeModel::FolderRemoved { path: p, .. } => p == path,
        ChangeModel::Removed { .. } => false,
    }
}

/// Whether an issue stands after a pass: it is about the availability of bytes,
/// or the pass refused or failed the path again, or had nothing to say of it.
pub open spec fn still_stands(
    i: IssueModel,
    changes: Seq<ChangeModel>,
    applied: AppliedModel,
) -> bool {
    ||| i.kind == availability()
    ||| exists|k: int|
        0 <= k < applied.kept_local.len() && (#[trigger] applied.kept_local[k]).path == i.path
    ||| exists|k: int|
        0 <= k < applied.failed.len() && (#[trigger] applied.failed[k]).path == i.path
    ||| !exists|k: int| 0 <= k < changes.len() && is_about(#[trigger] changes[k], i.path)
}

/// The issues that stand after a pass.
pub open spec fn standing(
    s: Seq<IssueModel>,
    changes: Seq<ChangeModel>,
    applied: AppliedModel,
) -> Seq<IssueModel>
    decreases s.len(),
{
    if s.len() == 0 {
        Seq::empty()
    } else if still_stands(s.last(), changes, applied) {
        standing(s.drop_last(), changes, applied).push(s.last())
    } else {
        standing(s.drop_last(), changes, applied)
    }
}

/// The desktop's state.
pub struct Desktop {
    until: u64,
    passes: u64,
    resolving: bool,
    paths: Table<FileId, String>,
    errors: Table<FileId, String>,
    events: Vec<Event>,
    issues: Vec<Issue>,
}

/// The desktop's state over texts.
#[verifier::ext_equal]
pub struct DesktopModel {
    /// The second until which background work is paused.
    pub until: u64,
    /// How many passes are under way.
    pub passes: u64,
    /// Whether a conflict is being resolved.
    pub resolving: bool,
    /// Where the queued files are.
    pub paths: Map<FileId, Seq<char>>,
    /// What went wrong with them.
    pub errors: Map<FileId, Seq<char>>,
    pub events: Seq<EventModel>,
    pub issues: Seq<IssueModel>,
}

/// Texts by file.
pub open spec fn by_file(m: Map<FileId, String>) -> Map<FileId, Seq<char>> {
    m.map_values(|s: String| s@)
}

impl View for Desktop {
    type V = DesktopModel;

    closed spec fn view(&self) -> DesktopModel {
        DesktopModel {
            until: self.until,
            passes: self.passes,
            resolving: self.resolving,
            paths: by_file(self.paths@),
            errors: by_file(self.errors@),
            events: event_models(self.events@),
            issues: issue_models(self.issues@),
        }
    }
}

/// What an upload's outcome is reported as: a status and a detail. Nothing is
/// reported of an upload that had nothing to do.
pub open spec fn reported(outcome: OutcomeModel) -> Option<(Seq<char>, Seq<char>)> {
    match outcome {
        OutcomeModel::Sent { .. } => Some(("uploaded"@, "Upload confirmed"@)),
        OutcomeModel::Failed(e) => Some(("error"@, first(e, MAX_DETAIL as nat))),
        OutcomeModel::DeletedInstead => Some(("deleted"@, "Cloud deletion confirmed"@)),
        OutcomeModel::NothingToDo => None,
    }
}

/// The events once several paths were brought up to date from the cloud.
pub open spec fn with_updates(
    s: Seq<EventModel>,
    updates: Seq<(Seq<char>, Seq<char>)>,
    now: u64,
) -> Seq<EventModel>
    decreases updates.len(),
{
    if updates.len() == 0 {
        s
    } else {
        with_event(
            with_updates(s, updates.drop_last(), now),
            EventModel {
                time: now,
                path: updates.last().0,
                status: updates.last().1,
                detail: "Namespace update from cloud"@,
            },
        )
    }
}

impl DesktopModel {
    /// Once background work is paused for some seconds, or, for none, resumed.
    pub open spec fn paused_for(self, seconds: u64, now: u64) -> DesktopModel {
        DesktopModel {
            until: if seconds == 0 {
                0
            } else {
                later(
                    now,
                    if seconds < LONGEST_PAUSE {
                        seconds
                    } else {
                        LONGEST_PAUSE
                    },
                )
            },
            ..self
        }
    }

    /// Whether a pass may begin.
    pub open spec fn may_begin(self, now: u64) -> bool {
        !(self.is_paused(now) || self.resolving)
    }

    /// Once a pass began, where it may.
    pub open spec fn begun(self, now: u64) -> DesktopModel {
        if self.may_begin(now) {
            DesktopModel { passes: (self.passes + 1) as u64, ..self }
        } else {
            self
        }
    }

    /// Whether the passes that run are over, or waited for too long.
    pub open spec fn wait(self, late: bool) -> Wait {
        if self.passes == 0 {
            Wait::Ready
        } else if late {
            Wait::Late
        } else {
            Wait::Again
        }
    }

    /// Once the paths of the queued files are brought up to date.
    pub open spec fn indexed(self, queued: Seq<FileId>, found: Map<FileId, Seq<char>>) -> DesktopModel {
        DesktopModel {
            paths: Map::new(
                |id: FileId|
                    queued.contains(id) && (found.dom().contains(id) || self.paths.dom().contains(
                        id,
                    )),
                |id: FileId|
                    if found.dom().contains(id) {
                        found[id]
                    } else {
                        self.paths[id]
                    },
            ),
            ..self
        }
    }

    /// Once a pass over some changes is over.
    pub open spec fn after_pass(
        self,
        changes: Seq<ChangeModel>,
        applied: AppliedModel,
        updates: Seq<(Seq<char>, Seq<char>)>,
        now: u64,
    ) -> DesktopModel {
        if applied.stopped is Some {
            self
        } else {
            DesktopModel {
                issues: standing(self.issues, changes, applied),
                events: with_updates(self.events, updates, now),
                ..self
            }
        }
    }

    /// Once a file that was said not to be available was looked at.
    pub open spec fn after_look(self, path: Seq<char>, stamp: Option<Stamp>) -> DesktopModel {
        if stamp == Some(Stamp::Clean) {
            DesktopModel { issues: other_issues(self.issues, path), ..self }
        } else {
            self
        }
    }

    pub open spec fn is_paused(self, now: u64) -> bool {
        self.until > now
    }

    /// The state once an event has happened.
    pub open spec fn pushed(self, e: EventModel) -> DesktopModel {
        DesktopModel { events: with_event(self.events, e), ..self }
    }

    /// The state once an upload came to something.
    pub open spec fn noted(
        self,
        file: FileId,
        path: Option<Seq<char>>,
        outcome: OutcomeModel,
        now: u64,
    ) -> DesktopModel {
        match reported(outcome) {
            None => self,
            Some((status, detail)) => {
                let e = EventModel {
                    time: now,
                    path: match path {
                        Some(p) => p,
                        None => Seq::empty(),
                    },
                    status,
                    detail,
                };
                if outcome is Failed {
                    DesktopModel { errors: self.errors.insert(file, detail), ..self }.pushed(e)
                } else {
                    DesktopModel {
                        errors: self.errors.remove(file),
                        issues: match path {
                            Some(p) => other_issues(self.issues, p),
                            None => self.issues,
                        },
                        ..self
                    }.pushed(e)
                }
            },
        }
    }
}

fn shorten(s: &str) -> (out: String)
    ensures
        out@ == first(s@, MAX_DETAIL as nat),
{
    let mut chars = text::chars_of(s);
    if chars.len() > MAX_DETAIL {
        chars.truncate(MAX_DETAIL);
        assert(chars@ =~= s@.take(MAX_DETAIL as int));
    }
    text::text_of(&chars)
}

fn drop_event(events: &Vec<Event>, e: &Event) -> (out: Vec<Event>)
    ensures
        event_models(out@) == other_events(event_models(events@), e@),
{
    let ghost all = event_models(events@);
    let mut out: Vec<Event> = Vec::new();
    let mut i: usize = 0;
    assert(all.take(0) =~= Seq::empty());
    assert(event_models(out@) =~= Seq::empty());
    while i < events.len()
        invariant
            i <= events@.len(),
            all == event_models(events@),
            event_models(out@) == other_events(all.take(i as int), e@),
        decreases events@.len() - i,
    {
        let x = &events[i];
        let ghost had = event_models(out@);
        proof {
            assert(all.take(i + 1).drop_last() =~= all.take(i as int));
            assert(all.take(i + 1).last() == x@);
        }
        if !(text::same(x.path.as_str(), e.path.as_str()) && text::same(
            x.status.as_str(),
            e.status.as_str(),
        ) && text::same(x.detail.as_str(), e.detail.as_str())) {
            out.push(x.copy());
            assert(event_models(out@) =~= had.push(x@));
        }
        i = i + 1;
    }
    assert(all.take(i as int) =~= all);
    out
}

fn drop_issues(issues: &Vec<Issue>, path: &str) -> (out: Vec<Issue>)
    ensures
        issue_models(out@) == other_issues(issue_models(issues@), path@),
        out@.len() <= issues@.len(),
{
    let ghost all = issue_models(issues@);
    let mut out: Vec<Issue> = Vec::new();
    let mut i: usize = 0;
    assert(all.take(0) =~= Seq::empty());
    assert(issue_models(out@) =~= Seq::empty());
    while i < issues.len()
        invariant
            i <= issues@.len(),
            all == issue_models(issues@),
            out@.len() <= i,
            issue_models(out@) == other_issues(all.take(i as int), path@),
        decreases issues@.len() - i,
    {
        let x = &issues[i];
        let ghost had = issue_models(out@);
        proof {
            assert(all.take(i + 1).drop_last() =~= all.take(i as int));
            assert(all.take(i + 1).last() == x@);
        }
        if !text::same(x.path.as_str(), path) {
            out.push(x.copy());
            assert(issue_models(out@) =~= had.push(x@));
        }
        i = i + 1;
    }
    assert(all.take(i as int) =~= all);
    out
}

fn covered(issues: &Vec<Issue>, i: &Issue) -> (b: bool)
    ensures
        b == is_covered(issue_models(issues@), i@),
{
    let ghost all = issue_models(issues@);
    let weaker = !text::same(i.kind.as_str(), "availability");
    let mut k: usize = 0;
    while k < issues.len()
        invariant
            k <= issues@.len(),
            all == issue_models(issues@),
            weaker == (i@.kind != availability()),
            forall|j: int| 0 <= j < k ==> #[trigger] all[j] != i@,
            weaker ==> forall|j: int|
                0 <= j < k ==> !((#[trigger] all[j]).path == i@.path && all[j].kind
                    == availability()),
        decreases issues@.len() - k,
    {
        let x = &issues[k];
        assert(all[k as int] == x@);
        let here = text::same(x.path.as_str(), i.path.as_str());
        if here && text::same(x.kind.as_str(), i.kind.as_str()) && text::same(
            x.detail.as_str(),
            i.detail.as_str(),
        ) {
            assert(all[k as int] == i@);
            return true;
        }
        if weaker && here && text::same(x.kind.as_str(), "availability") {
            return true;
        }
        k = k + 1;
    }
    false
}

fn mentions(change: &Change, path: &str) -> (b: bool)
    ensures
        b == is_about(change@, path@),
{
    match change {
        Change::Upserted { path: p, .. } => text::same(p.as_str(), path),
        Change::FolderUpserted { path: p, .. } => text::same(p.as_str(), path),
        Change::FolderRemoved { path: p, .. } => text::same(p.as_str(), path),
        Change::Removed { .. } => false,
    }
}

fn kept_here(kept: &Vec<Kept>, path: &str) -> (b: bool)
    ensures
        b == exists|k: int| 0 <= k < kept@.len() && (#[trigger] kept@[k]).path@ == path@,
{
    let mut k: usize = 0;
    while k < kept.len()
        invariant
            k <= kept@.len(),
            forall|j: int| 0 <= j < k ==> (#[trigger] kept@[j]).path@ != path@,
        decreases kept@.len() - k,
    {
        if text::same(kept[k].path.as_str(), path) {
            return true;
        }
        k = k + 1;
    }
    false
}

fn failed_here(failed: &Vec<Failed>, path: &str) -> (b: bool)
    ensures
        b == exists|k: int| 0 <= k < failed@.len() && (#[trigger] failed@[k]).path@ == path@,
{
    let mut k: usize = 0;
    while k < failed.len()
        invariant
            k <= failed@.len(),
            forall|j: int| 0 <= j < k ==> (#[trigger] failed@[j]).path@ != path@,
        decreases failed@.len() - k,
    {
        if text::same(failed[k].path.as_str(), path) {
            return true;
        }
        k = k + 1;
    }
    false
}

fn changed_here(changes: &Vec<Change>, path: &str) -> (b: bool)
    ensures
        b == exists|k: int| 0 <= k < changes@.len() && is_about((#[trigger] changes@[k])@, path@),
{
    let mut k: usize = 0;
    while k < changes.len()
        invariant
            k <= changes@.len(),
            forall|j: int| 0 <= j < k ==> !is_about((#[trigger] changes@[j])@, path@),
        decreases changes@.len() - k,
    {
        if mentions(&changes[k], path) {
            return true;
        }
        k = k + 1;
    }
    false
}

fn stands(issue: &Issue, changes: &Vec<Change>, applied: &Applied) -> (b: bool)
    ensures
        b == still_stands(issue@, delta::changes(changes@), applied@),
{
    let path = issue.path.as_str();
    let a = text::same(issue.kind.as_str(), "availability");
    let k = kept_here(&applied.kept_local, path);
    let f = failed_here(&applied.failed, path);
    let c = changed_here(changes, path);
    proof {
        let kept = applied@.kept_local;
        let failed = applied@.failed;
        let all = delta::changes(changes@);
        if k {
            let j = choose|j: int|
                0 <= j < applied.kept_local@.len() && (#[trigger] applied.kept_local@[j]).path@
                    == path@;
            assert(kept[j].path == issue@.path);
        }
        if exists|j: int| 0 <= j < kept.len() && (#[trigger] kept[j]).path == issue@.path {
            let j = choose|j: int| 0 <= j < kept.len() && (#[trigger] kept[j]).path == issue@.path;
            assert(applied.kept_local@[j].path@ == path@);
        }
        if f {
            let j = choose|j: int|
                0 <= j < applied.failed@.len() && (#[trigger] applied.failed@[j]).path@ == path@;
            assert(failed[j].path == issue@.path);
        }
        if exists|j: int| 0 <= j < failed.len() && (#[trigger] failed[j]).path == issue@.path {
            let j = choose|j: int|
                0 <= j < failed.len() && (#[trigger] failed[j]).path == issue@.path;
            assert(applied.failed@[j].path@ == path@);
        }
        if c {
            let j = choose|j: int|
                0 <= j < changes@.len() && is_about((#[trigger] changes@[j])@, path@);
            assert(is_about(all[j], issue@.path));
        }
        if exists|j: int| 0 <= j < all.len() && is_about(#[trigger] all[j], issue@.path) {
            let j = choose|j: int| 0 <= j < all.len() && is_about(#[trigger] all[j], issue@.path);
            assert(is_about(changes@[j]@, path@));
        }
    }
    a || k || f || !c
}

/// One queued file as it is shown.
#[derive(Debug, PartialEq, Eq)]
pub struct QueueRow {
    pub path: Option<String>,
    pub status: String,
    pub detail: Option<String>,
    pub retry_after: u64,
}

/// One queued file as it is shown, over texts.
#[verifier::ext_equal]
pub struct QueueRowModel {
    pub path: Option<Seq<char>>,
    pub status: Seq<char>,
    pub detail: Option<Seq<char>>,
    pub retry_after: u64,
}

impl View for QueueRow {
    type V = QueueRowModel;

    open spec fn view(&self) -> QueueRowModel {
        QueueRowModel {
            path: text::maybe(self.path),
            status: self.status@,
            detail: text::maybe(self.detail),
            retry_after: self.retry_after,
        }
    }
}

/// A queued file: whether it is being sent, and how long it still waits.
#[derive(Debug, Clone, Copy, PartialEq, Eq, Structural)]
pub struct Queued {
    pub id: FileId,
    pub sending: bool,
    pub retry_after: u64,
}

/// What a map has for a file.
pub open spec fn for_file(m: Map<FileId, Seq<char>>, id: FileId) -> Option<Seq<char>> {
    if m.dom().contains(id) {
        Some(m[id])
    } else {
        None
    }
}

/// How a queued file is shown.
pub open spec fn queue_row(d: DesktopModel, q: Queued) -> QueueRowModel {
    QueueRowModel {
        path: for_file(d.paths, q.id),
        status: if q.sending {
            "uploading"@
        } else if d.errors.dom().contains(q.id) {
            "retry"@
        } else {
            "waiting"@
        },
        detail: for_file(d.errors, q.id),
        retry_after: q.retry_after,
    }
}

/// Rows over texts.
pub open spec fn queue_rows(v: Seq<QueueRow>) -> Seq<QueueRowModel> {
    v.map_values(|r: QueueRow| r@)
}

/// How waiting for passes to end goes.
#[derive(Debug, Clone, Copy, PartialEq, Eq, Structural)]
pub enum Wait {
    Ready,
    Late,
    Again,
}

fn get_text(t: &Table<FileId, String>, id: &FileId) -> (r: Option<String>)
    ensures
        text::maybe(r) == for_file(by_file(t@), *id),
{
    match t.get(id) {
        Some(s) => Some(s.as_str().to_owned()),
        None => None,
    }
}

impl Desktop {
    /// Whether a stored history of this size is read.
    pub fn is_readable(size: u64) -> (b: bool)
        ensures
            b == (size <= MAX_STORED),
    {
        size <= MAX_STORED
    }

    /// Begin with the events and issues of an earlier run.
    pub fn load(events: Vec<Event>, issues: Vec<Issue>) -> (d: Desktop)
        ensures
            d@ == (DesktopModel {
                until: 0,
                passes: 0,
                resolving: false,
                paths: Map::empty(),
                errors: Map::empty(),
                events: first(event_models(events@), MAX_KEPT as nat),
                issues: first(issue_models(issues@), MAX_KEPT as nat),
            }),
    {
        let ghost all = event_models(events@);
        let ghost each = issue_models(issues@);
        let mut events = events;
        let mut issues = issues;
        if events.len() > MAX_KEPT {
            events.truncate(MAX_KEPT);
        }
        if issues.len() > MAX_KEPT {
            issues.truncate(MAX_KEPT);
        }
        let d = Desktop {
            until: 0,
            passes: 0,
            resolving: false,
            paths: Table::new(),
            errors: Table::new(),
            events,
            issues,
        };
        proof {
            assert(d@.paths =~= Map::empty());
            assert(d@.errors =~= Map::empty());
            assert(d@.events =~= first(all, MAX_KEPT as nat));
            assert(d@.issues =~= first(each, MAX_KEPT as nat));
        }
        d
    }

    /// Pause new background passes for a while, a day at most; no time at all
    /// ends the pause. Work already under way finishes.
    pub fn pause(&mut self, seconds: u64, now: u64)
        ensures
            final(self)@ == old(self)@.paused_for(seconds, now),
    {
        if seconds == 0 {
            self.until = 0;
        } else {
            let by: u64 = if seconds < LONGEST_PAUSE {
                seconds
            } else {
                LONGEST_PAUSE
            };
            self.until = now.saturating_add(by);
        }
    }

    pub fn paused(&self, now: u64) -> (b: bool)
        ensures
            b == self@.is_paused(now),
    {
        self.until > now
    }

    /// The second until which background work is paused.
    pub fn pause_until(&self) -> (t: u64)
        ensures
            t == self@.until,
    {
        self.until
    }

    /// Note whether a conflict is being resolved.
    pub fn set_resolving(&mut self, on: bool)
        ensures
            final(self)@ == (DesktopModel { resolving: on, ..old(self)@ }),
    {
        self.resolving = on;
    }

    /// Begin a pass, unless work is paused or a conflict is being resolved.
    pub fn begin_pass(&mut self, now: u64) -> (b: bool)
        requires
            old(self)@.passes < u64::MAX,
        ensures
            b == old(self)@.may_begin(now),
            final(self)@ == old(self)@.begun(now),
    {
        if self.until > now || self.resolving {
            return false;
        }
        self.passes = self.passes + 1;
        true
    }

    /// End a pass.
    pub fn end_pass(&mut self)
        requires
            old(self)@.passes > 0,
        ensures
            final(self)@ == (DesktopModel {
                passes: (old(self)@.passes - 1) as u64,
                ..old(self)@
            }),
    {
        self.passes = self.passes - 1;
    }

    /// Begin a change of which folders are left out: check it, and hold
    /// background work meanwhile. Gives the choice in its plainest form and how
    /// long work was paused before.
    pub fn select(&mut self, paths: &Vec<String>, now: u64) -> (r: Result<
        (Vec<String>, u64),
        String,
    >)
        ensures
            old(self)@.resolving ==> (r matches Err(e) && e@
                == "Finish the conflict resolution first"@),
            match r {
                Ok((list, until)) => !old(self)@.resolving && selection::validated(
                    text::texts(paths@),
                ) == Ok::<Seq<Seq<char>>, Problem>(text::texts(list@)) && until
                    == old(self)@.until && final(self)@ == (DesktopModel {
                    until: later(now, CHOICE_HOLD),
                    ..old(self)@
                }),
                Err(e) => final(self)@ == old(self)@ && (old(self)@.resolving || (
                selection::validated(text::texts(paths@)) is Err && e@ == selection::problem_text(
                    selection::validated(text::texts(paths@))->Err_0,
                ))),
            },
    {
        if self.resolving {
            return Err("Finish the conflict resolution first".to_owned());
        }
        match selection::validate(paths) {
            Ok(list) => {
                let until = self.until;
                self.until = now.saturating_add(CHOICE_HOLD);
                Ok((list, until))
            },
            Err(why) => Err(why.message()),
        }
    }

    /// End a change of which folders are left out.
    pub fn selected(&mut self, until: u64)
        ensures
            final(self)@ == (DesktopModel { until, ..old(self)@ }),
    {
        self.until = until;
    }

    /// Whether all passes have ended, given whether the time to wait is up.
    pub fn wait_for_passes(&self, late: bool) -> (w: Wait)
        ensures
            w == self@.wait(late),
    {
        if self.passes == 0 {
            Wait::Ready
        } else if late {
            Wait::Late
        } else {
            Wait::Again
        }
    }

    /// Bring the paths of the queued files up to date: `found` has those that
    /// could be found.
    pub fn index(&mut self, queued: &Vec<FileId>, found: &Table<FileId, String>)
        ensures
            final(self)@ == old(self)@.indexed(queued@, by_file(found@)),
    {
        let ghost was = self@.paths;
        let mut next: Table<FileId, String> = Table::new();
        let mut i: usize = 0;
        assert(was.dom() =~= self.paths@.dom());
        while i < queued.len()
            invariant
                i <= queued@.len(),
                was == by_file(self.paths@),
                was.dom() == self.paths@.dom(),
                forall|id: FileId| #[trigger]
                    next@.dom().contains(id) ==> queued@.contains(id) && (
                    if found@.dom().contains(id) {
                        next@[id]@ == found@[id]@
                    } else {
                        was.dom().contains(id) && next@[id]@ == was[id]
                    }),
                forall|j: int|
                    0 <= j < i && (found@.dom().contains(#[trigger] queued@[j])
                        || was.dom().contains(queued@[j])) ==> next@.dom().contains(queued@[j]),
            decreases queued@.len() - i,
        {
            let id = queued[i];
            assert(queued@.contains(id));
            match found.get(&id) {
                Some(p) => {
                    next.insert(id, p.as_str().to_owned());
                },
                None => {
                    if let Some(p) = self.paths.get(&id) {
                        next.insert(id, p.as_str().to_owned());
                    }
                },
            }
            i = i + 1;
        }
        proof {
            let want = Map::new(
                |id: FileId|
                    queued@.contains(id) && (found@.dom().contains(id) || was.dom().contains(id)),
                |id: FileId|
                    if found@.dom().contains(id) {
                        found@[id]@
                    } else {
                        was[id]
                    },
            );
            assert forall|id: FileId| want.dom().contains(id) implies next@.dom().contains(id) by {
                let j = choose|j: int| 0 <= j < queued@.len() && queued@[j] == id;
                assert(next@.dom().contains(queued@[j]));
            }
            assert(by_file(next@) =~= want);
        }
        self.paths = next;
    }

    /// Note something that happened.
    pub fn push_event(&mut self, path: &str, status: &str, detail: &str, now: u64)
        ensures
            final(self)@ == old(self)@.pushed(
                EventModel { time: now, path: path@, status: status@, detail: detail@ },
            ),
    {
        let ghost was = self@.events;
        let e = Event {
            time: now,
            path: path.to_owned(),
            status: status.to_owned(),
            detail: detail.to_owned(),
        };
        let ghost m = e@;
        let mut rest = drop_event(&self.events, &e);
        let mut all: Vec<Event> = Vec::new();
        all.push(e);
        let ghost others = rest@;
        all.append(&mut rest);
        assert(event_models(all@) =~= seq![m] + event_models(others));
        if all.len() > MAX_KEPT {
            let ghost before = event_models(all@);
            all.truncate(MAX_KEPT);
            assert(event_models(all@) =~= before.take(MAX_KEPT as int));
        }
        self.events = all;
        assert(self@.events =~= with_event(was, m));
    }

    /// Note what an upload came to. Gives whether the issues changed.
    pub fn record(&mut self, file: FileId, path: Option<&str>, outcome: &Outcome, now: u64) -> (
        changed: bool)
        ensures
            final(self)@ == old(self)@.noted(
                file,
                match path {
                    Some(p) => Some(p@),
                    None => None,
                },
                outcome@,
                now,
            ),
            changed == (final(self)@.issues != old(self)@.issues),
    {
        let ghost was = self@;
        let (status, detail, wrong): (&str, String, bool) = match outcome {
            Outcome::Sent { .. } => ("uploaded", "Upload confirmed".to_owned(), false),
            Outcome::Failed(e) => ("error", shorten(e.as_str()), true),
            Outcome::DeletedInstead => ("deleted", "Cloud deletion confirmed".to_owned(), false),
            Outcome::NothingToDo => {
                return false;
            },
        };
        let mut changed = false;
        if !wrong {
            if let Some(p) = path {
                changed = self.clear_issue(p);
            }
        }
        if wrong {
            self.errors.insert(file, detail.as_str().to_owned());
            assert(self@.errors =~= was.errors.insert(file, detail@));
        } else {
            self.errors.remove(&file);
            assert(self@.errors =~= was.errors.remove(file));
        }
        match path {
            Some(p) => {
                self.push_event(p, status, detail.as_str(), now);
            },
            None => {
                let none = String::new();
                assert(none@ =~= Seq::empty());
                self.push_event(none.as_str(), status, detail.as_str(), now);
            },
        }
        changed
    }

    /// Raise an issue, which stands until a confirmed operation resolves it.
    /// Gives whether the issues changed.
    pub fn issue(&mut self, path: &str, kind: &str, detail: &str) -> (changed: bool)
        ensures
            final(self)@ == (DesktopModel {
                issues: with_issue(
                    old(self)@.issues,
                    IssueModel {
                        path: path@,
                        kind: kind@,
                        detail: first(detail@, MAX_DETAIL as nat),
                    },
                ),
                ..old(self)@
            }),
            changed == !is_covered(
                old(self)@.issues,
                IssueModel {
                    path: path@,
                    kind: kind@,
                    detail: first(detail@, MAX_DETAIL as nat),
                },
            ),
    {
        let ghost was = self@.issues;
        let i = Issue { path: path.to_owned(), kind: kind.to_owned(), detail: shorten(detail) };
        let ghost m = i@;
        if covered(&self.issues, &i) {
            return false;
        }
        let mut rest = drop_issues(&self.issues, path);
        let mut all: Vec<Issue> = Vec::new();
        all.push(i);
        let ghost others = rest@;
        all.append(&mut rest);
        assert(issue_models(all@) =~= seq![m] + issue_models(others));
        if all.len() > MAX_KEPT {
            let ghost before = issue_models(all@);
            all.truncate(MAX_KEPT);
            assert(issue_models(all@) =~= before.take(MAX_KEPT as int));
        }
        self.issues = all;
        assert(self@.issues =~= with_issue(was, m));
        true
    }

    /// Resolve the issues of a path. Gives whether there were any.
    pub fn clear_issue(&mut self, path: &str) -> (changed: bool)
        ensures
            final(self)@ == (DesktopModel {
                issues: other_issues(old(self)@.issues, path@),
                ..old(self)@
            }),
            changed == (other_issues(old(self)@.issues, path@) != old(self)@.issues),
    {
        let ghost was = self@.issues;
        let rest = drop_issues(&self.issues, path);
        let changed = rest.len() != self.issues.len();
        proof {
            lemma_other_issues(was, path@);
            assert(rest@.len() == issue_models(rest@).len());
            assert(self.issues@.len() == was.len());
        }
        self.issues = rest;
        changed
    }

    /// Drop the issues that a pass which ran to its end has resolved, and note
    /// what it brought up to date. Gives whether the issues changed.
    pub fn reconciled(
        &mut self,
        changes: &Vec<Change>,
        applied: &Applied,
        updates: &Vec<(String, String)>,
        now: u64,
    ) -> (changed: bool)
        ensures
            final(self)@ == old(self)@.after_pass(
                delta::changes(changes@),
                applied@,
                updates@.map_values(|p: (String, String)| (p.0@, p.1@)),
                now,
            ),
            changed == (final(self)@.issues != old(self)@.issues),
    {
        if applied.stopped.is_some() {
            return false;
        }
        let ghost was = self@;
        let ghost all = was.issues;
        let ghost what = delta::changes(changes@);
        let mut rest: Vec<Issue> = Vec::new();
        let mut i: usize = 0;
        assert(all.take(0) =~= Seq::empty());
        assert(issue_models(rest@) =~= Seq::empty());
        while i < self.issues.len()
            invariant
                i <= self.issues@.len(),
                self@ == was,
                all == issue_models(self.issues@),
                what == delta::changes(changes@),
                issue_models(rest@) == standing(all.take(i as int), what, applied@),
            decreases self.issues@.len() - i,
        {
            let x = &self.issues[i];
            let ghost had = issue_models(rest@);
            proof {
                assert(all.take(i + 1).drop_last() =~= all.take(i as int));
                assert(all.take(i + 1).last() == x@);
            }
            if stands(x, changes, applied) {
                rest.push(x.copy());
                assert(issue_models(rest@) =~= had.push(x@));
            }
            i = i + 1;
        }
        assert(all.take(i as int) =~= all);
        let changed = rest.len() != self.issues.len();
        proof {
            lemma_standing(all, what, applied@);
            assert(rest@.len() == issue_models(rest@).len());
            assert(self.issues@.len() == all.len());
        }
        self.issues = rest;
        let ghost done = self@;
        let ghost list = updates@.map_values(|p: (String, String)| (p.0@, p.1@));
        let mut i: usize = 0;
        assert(list.take(0) =~= Seq::empty());
        while i < updates.len()
            invariant
                i <= updates@.len(),
                list == updates@.map_values(|p: (String, String)| (p.0@, p.1@)),
                self@ == (DesktopModel {
                    events: with_updates(was.events, list.take(i as int), now),
                    ..done
                }),
            decreases updates@.len() - i,
        {
            let (path, status) = &updates[i];
            proof {
                assert(list.take(i + 1).drop_last() =~= list.take(i as int));
                assert(list.take(i + 1).last() == (path@, status@));
            }
            self.push_event(path.as_str(), status.as_str(), "Namespace update from cloud", now);
            i = i + 1;
        }
        assert(list.take(i as int) =~= list);
        changed
    }

    /// The paths with an issue about the availability of their bytes, in the
    /// order of the issues.
    pub fn reconcile_availability(&self) -> (out: Vec<String>)
        ensures
            text::texts(out@) == unavailable(self@.issues),
    {
        let ghost all = self@.issues;
        let mut out: Vec<String> = Vec::new();
        let mut i: usize = 0;
        assert(all.take(0) =~= Seq::empty());
        assert(text::texts(out@) =~= Seq::empty());
        while i < self.issues.len()
            invariant
                i <= self.issues@.len(),
                all == issue_models(self.issues@),
                text::texts(out@) == unavailable(all.take(i as int)),
            decreases self.issues@.len() - i,
        {
            let x = &self.issues[i];
            let ghost had = text::texts(out@);
            proof {
                assert(all.take(i + 1).drop_last() =~= all.take(i as int));
                assert(all.take(i + 1).last() == x@);
            }
            if text::same(x.kind.as_str(), "availability") {
                out.push(x.path.as_str().to_owned());
                assert(text::texts(out@) =~= had.push(x@.path));
            }
            i = i + 1;
        }
        assert(all.take(i as int) =~= all);
        out
    }

    /// Resolve an issue about the availability of a file's bytes once the file
    /// turns out clean; `stamp` is how it compares with what was last made
    /// clean, where that could be told. Gives whether the issues changed.
    pub fn settle_availability(&mut self, path: &str, stamp: Option<Stamp>) -> (changed: bool)
        ensures
            final(self)@ == old(self)@.after_look(path@, stamp),
            changed == (final(self)@.issues != old(self)@.issues),
    {
        match stamp {
            Some(Stamp::Clean) => self.clear_issue(path),
            _ => false,
        }
    }

    /// The queued files as they are shown. What went wrong is forgotten for
    /// files that are not failing any more.
    pub fn snapshot(&mut self, queued: &Vec<Queued>, failing: &Table<FileId, ()>) -> (out: Vec<
        QueueRow,
    >)
        ensures
            final(self)@ == (DesktopModel {
                errors: old(self)@.errors.restrict(failing@.dom()),
                ..old(self)@
            }),
            queue_rows(out@) == first(queued@, MAX_QUEUED as nat).map_values(
                |q: Queued| queue_row(final(self)@, q),
            ),
    {
        let ghost was = self@;
        let n = self.errors.len();
        let ghost keys = table::keys_of(self.errors.rows());
        let mut left: Table<FileId, String> = Table::new();
        let mut i: usize = 0;
        assert(was.errors.dom() =~= self.errors@.dom());
        while i < n
            invariant
                i <= n,
                n == self.errors.rows().len(),
                keys == table::keys_of(self.errors.rows()),
                was == self@,
                was.errors.dom() == self.errors@.dom(),
                forall|id: FileId| #[trigger]
                    left@.dom().contains(id) ==> was.errors.dom().contains(id)
                        && failing@.dom().contains(id) && left@[id]@ == was.errors[id],
                forall|j: int|
                    0 <= j < i && failing@.dom().contains(#[trigger] keys[j])
                        ==> left@.dom().contains(keys[j]),
            decreases n - i,
        {
            let id = self.errors.key_at(i);
            let e = self.errors.value_at(i);
            assert(keys[i as int] == *id);
            assert(was.errors[*id] == e@);
            if failing.contains(id) {
                left.insert(*id, e.as_str().to_owned());
            }
            i = i + 1;
        }
        proof {
            table::lemma_in_key_order::<FileId>(self.errors@.dom());
            let want = was.errors.restrict(failing@.dom());
            assert forall|id: FileId| want.dom().contains(id) implies left@.dom().contains(id) by {
                assert(keys.contains(id));
                let j = choose|j: int| 0 <= j < keys.len() && keys[j] == id;
                assert(left@.dom().contains(keys[j]));
            }
            assert(by_file(left@) =~= want);
        }
        self.errors = left;
        let ghost done = self@;
        let ghost shown = first(queued@, MAX_QUEUED as nat);
        let ghost want = shown.map_values(|q: Queued| queue_row(done, q));
        let mut out: Vec<QueueRow> = Vec::new();
        let mut i: usize = 0;
        assert(done.errors.dom() =~= self.errors@.dom());
        assert(queue_rows(out@) =~= want.take(0));
        while i < queued.len() && i < MAX_QUEUED
            invariant
                i <= queued@.len(),
                i <= MAX_QUEUED,
                done == self@,
                done.errors.dom() == self.errors@.dom(),
                shown == first(queued@, MAX_QUEUED as nat),
                want == shown.map_values(|q: Queued| queue_row(done, q)),
                queue_rows(out@) == want.take(i as int),
            decreases queued@.len() - i,
        {
            let q = queued[i];
            let ghost had = queue_rows(out@);
            let detail = get_text(&self.errors, &q.id);
            let status = if q.sending {
                "uploading".to_owned()
            } else if detail.is_some() {
                "retry".to_owned()
            } else {
                "waiting".to_owned()
            };
            let row = QueueRow {
                path: get_text(&self.paths, &q.id),
                status,
                detail,
                retry_after: q.retry_after,
            };
            let ghost m = row@;
            out.push(row);
            proof {
                assert(shown[i as int] == q);
                assert(want[i as int] == m);
                assert(queue_rows(out@) =~= had.push(m));
                assert(want.take(i + 1) =~= want.take(i as int).push(m));
            }
            i = i + 1;
        }
        assert(want.take(i as int) =~= want);
        out
    }

    /// What happened, newest first.
    pub fn events(&self) -> (v: &Vec<Event>)
        ensures
            event_models(v@) == self@.events,
    {
        &self.events
    }

    /// What stands in the way, newest first.
    pub fn issues(&self) -> (v: &Vec<Issue>)
        ensures
            issue_models(v@) == self@.issues,
    {
        &self.issues
    }
}

proof fn lemma_other_issues(s: Seq<IssueModel>, path: Seq<char>)
    ensures
        other_issues(s, path).len() <= s.len(),
        other_issues(s, path).len() == s.len() ==> other_issues(s, path) == s,
        forall|i: int|
            0 <= i < other_issues(s, path).len() ==> (#[trigger] other_issues(s, path)[i]).path
                != path && s.contains(other_issues(s, path)[i]),
    decreases s.len(),
{
    if s.len() > 0 {
        let less = s.drop_last();
        lemma_other_issues(less, path);
        let before = other_issues(less, path);
        let all = other_issues(s, path);
        if s.last().path != path && before.len() == less.len() {
            assert(all =~= s);
        }
        assert forall|i: int| 0 <= i < all.len() implies (#[trigger] all[i]).path != path
            && s.contains(all[i]) by {
            if i < before.len() {
                assert(all[i] == before[i]);
                assert(less.contains(before[i]));
                let k = choose|k: int| 0 <= k < less.len() && less[k] == before[i];
                assert(s[k] == all[i]);
            } else {
                assert(s[s.len() - 1] == all[i]);
            }
        }
    }
}

proof fn lemma_standing(s: Seq<IssueModel>, changes: Seq<ChangeModel>, applied: AppliedModel)
    ensures
        standing(s, changes, applied).len() <= s.len(),
        standing(s, changes, applied).len() == s.len() ==> standing(s, changes, applied) == s,
    decreases s.len(),
{
    if s.len() > 0 {
        let less = s.drop_last();
        lemma_standing(less, changes, applied);
        if still_stands(s.last(), changes, applied) && standing(less, changes, applied).len()
            == less.len() {
            assert(standing(s, changes, applied) =~= s);
        }
    }
}

proof fn lemma_other_events(s: Seq<EventModel>, e: EventModel)
    ensures
        forall|i: int|
            0 <= i < other_events(s, e).len() ==> !same_event(
                #[trigger] other_events(s, e)[i],
                e,
            ),
    decreases s.len(),
{
    if s.len() > 0 {
        lemma_other_events(s.drop_last(), e);
        let before = other_events(s.drop_last(), e);
        let all = other_events(s, e);
        assert forall|i: int| 0 <= i < all.len() implies !same_event(#[trigger] all[i], e) by {
            if i < before.len() {
                assert(all[i] == before[i]);
            }
        }
    }
}

/// The newest event comes first, is said once, and no more than the limit are
/// kept.
pub proof fn law_an_event_is_listed_once(s: Seq<EventModel>, e: EventModel, i: int)
    ensures
        with_event(s, e).len() <= MAX_KEPT,
        with_event(s, e)[0] == e,
        0 < i < with_event(s, e).len() ==> !same_event(with_event(s, e)[i], e),
{
    lemma_other_events(s, e);
    let all = seq![e] + other_events(s, e);
    if 0 < i < with_event(s, e).len() {
        assert(with_event(s, e)[i] == all[i]);
        assert(all[i] == other_events(s, e)[i - 1]);
    }
}

/// An issue about the availability of a path's bytes is not replaced by one of
/// another kind.
pub proof fn law_availability_is_the_stronger_explanation(
    s: Seq<IssueModel>,
    i: IssueModel,
    k: int,
)
    requires
        0 <= k < s.len(),
        s[k].kind == availability(),
        s[k].path == i.path,
        i.kind != availability(),
    ensures
        with_issue(s, i) == s,
{
}

/// A path has at most one issue, if that was so before, and the limit is kept.
pub proof fn law_a_path_has_one_issue(s: Seq<IssueModel>, i: IssueModel)
    requires
        s.len() <= MAX_KEPT,
        one_each(s),
    ensures
        with_issue(s, i).len() <= MAX_KEPT,
        one_each(with_issue(s, i)),
{
    if !is_covered(s, i) {
        let rest = other_issues(s, i.path);
        lemma_other_issues(s, i.path);
        lemma_one_each(s, i.path);
        let all = seq![i] + rest;
        let out = with_issue(s, i);
        assert forall|a: int, b: int|
            0 <= a < b < out.len() implies (#[trigger] out[a]).path != (#[trigger] out[b]).path by {
            assert(out[a] == all[a] && out[b] == all[b]);
            assert(all[b] == rest[b - 1]);
            if a > 0 {
                assert(all[a] == rest[a - 1]);
            }
        }
    }
}

/// No two issues are of one path.
pub open spec fn one_each(s: Seq<IssueModel>) -> bool {
    forall|a: int, b: int|
        0 <= a < b < s.len() ==> (#[trigger] s[a]).path != (#[trigger] s[b]).path
}

proof fn lemma_one_each(s: Seq<IssueModel>, path: Seq<char>)
    requires
        one_each(s),
    ensures
        one_each(other_issues(s, path)),
    decreases s.len(),
{
    if s.len() > 0 {
        let less = s.drop_last();
        assert forall|a: int, b: int| 0 <= a < b < less.len() implies (#[trigger] less[a]).path != (
        #[trigger] less[b]).path by {
            assert(less[a] == s[a] && less[b] == s[b]);
        }
        lemma_one_each(less, path);
        lemma_other_issues(less, path);
        let before = other_issues(less, path);
        let out = other_issues(s, path);
        assert forall|a: int, b: int| 0 <= a < b < out.len() implies (#[trigger] out[a]).path != (
        #[trigger] out[b]).path by {
            if b < before.len() {
                assert(out[a] == before[a] && out[b] == before[b]);
            } else {
                assert(out[a] == before[a]);
                assert(less.contains(before[a]));
                let k = choose|k: int| 0 <= k < less.len() && less[k] == before[a];
                assert(s[k].path != s[s.len() - 1].path);
            }
        }
    }
}

/// A pause ends by itself, after a day at most.
pub proof fn law_a_pause_expires(d: DesktopModel, seconds: u64, now: u64, then: u64)
    requires
        d.until == later(
            now,
            if seconds < LONGEST_PAUSE {
                seconds
            } else {
                LONGEST_PAUSE
            },
        ),
        then >= now + LONGEST_PAUSE,
    ensures
        !d.is_paused(then),
{
}

/// A list is cut at its limit and not before: what is kept are the first of it.
pub proof fn law_only_the_first_are_kept<T>(s: Seq<T>, n: nat)
    ensures
        first(s, n).is_prefix_of(s),
        s.len() <= n ==> first(s, n) == s,
        s.len() > n ==> first(s, n).len() == n,
{
}

/// A time by so much later, as far as times go.
pub proof fn law_a_later_time(now: u64, by: u64)
    ensures
        now + by <= u64::MAX ==> later(now, by) == now + by,
        now + by > u64::MAX ==> later(now, by) == u64::MAX,
{
}

/// What is taken out of the lists is what is asked for, and the rest stays in its
/// order: an event that says the same of the same path, the issues of a path, and
/// the issues that a pass settled. The paths whose content is not available are
/// those that an issue says so of.
pub proof fn law_lists_keep_the_rest_in_order(
    events: Seq<EventModel>,
    e: EventModel,
    issues: Seq<IssueModel>,
    path: Seq<char>,
    changes: Seq<ChangeModel>,
    applied: AppliedModel,
)
    ensures
        other_events(events, e) == events.filter(
            |x: EventModel| x.path != e.path || x.status != e.status || x.detail != e.detail,
        ),
        other_issues(issues, path) == issues.filter(|x: IssueModel| x.path != path),
        standing(issues, changes, applied) == issues.filter(
            |x: IssueModel| still_stands(x, changes, applied),
        ),
        unavailable(issues) == issues.filter(
            |x: IssueModel| x.kind == "availability"@,
        ).map_values(|x: IssueModel| x.path),
    decreases events.len() + issues.len(),
{
    let other = |x: EventModel| x.path != e.path || x.status != e.status || x.detail != e.detail;
    let off = |x: IssueModel| x.path != path;
    let stands = |x: IssueModel| still_stands(x, changes, applied);
    let lacking = |x: IssueModel| x.kind == "availability"@;
    if events.len() > 0 {
        let less = events.drop_last();
        law_lists_keep_the_rest_in_order(less, e, issues, path, changes, applied);
        assert(events =~= less.push(events.last()));
        less.lemma_filter_push(events.last(), other);
    } else {
        assert(events.filter(other) =~= Seq::empty()) by {
            reveal(Seq::filter);
        }
        if issues.len() > 0 {
            let less = issues.drop_last();
            law_lists_keep_the_rest_in_order(events, e, less, path, changes, applied);
            assert(issues =~= less.push(issues.last()));
            less.lemma_filter_push(issues.last(), off);
            less.lemma_filter_push(issues.last(), stands);
            less.lemma_filter_push(issues.last(), lacking);
        } else {
            assert(issues.filter(off) =~= Seq::empty()) by {
                reveal(Seq::filter);
            }
            assert(issues.filter(stands) =~= Seq::empty()) by {
                reveal(Seq::filter);
            }
            assert(issues.filter(lacking) =~= Seq::empty()) by {
                reveal(Seq::filter);
            }
        }
    }
    assert(unavailable(issues) =~= issues.filter(lacking).map_values(|x: IssueModel| x.path));
}

/// A new event comes first, and up to the limit every event that says something
/// else stays behind it.
pub proof fn law_a_new_event_comes_first(s: Seq<EventModel>, e: EventModel)
    ensures
        ({
            let rest = s.filter(
                |x: EventModel| x.path != e.path || x.status != e.status || x.detail != e.detail,
            );
            &&& rest.len() < 100 ==> with_event(s, e) == seq![e] + rest
            &&& rest.len() >= 100 ==> with_event(s, e) == seq![e] + rest.take(99)
        }),
{
    let applied = delta::nothing_applied();
    law_lists_keep_the_rest_in_order(s, e, Seq::empty(), Seq::empty(), Seq::empty(), applied);
    let rest = s.filter(
        |x: EventModel| x.path != e.path || x.status != e.status || x.detail != e.detail,
    );
    if rest.len() >= 100 {
        assert(with_event(s, e) =~= seq![e] + rest.take(99));
    }
}

/// A new issue comes first and takes the place of what was said of its path, up to
/// the limit; one that is already listed, or whose path is already said not to be
/// available, changes nothing.
pub proof fn law_a_new_issue_comes_first(s: Seq<IssueModel>, i: IssueModel)
    ensures
        ({
            let rest = s.filter(|x: IssueModel| x.path != i.path);
            let told = s.contains(i) || (i.kind != "availability"@ && exists|k: int|
                0 <= k < s.len() && (#[trigger] s[k]).path == i.path && s[k].kind
                    == "availability"@);
            &&& is_covered(s, i) <==> told
            &&& told ==> with_issue(s, i) == s
            &&& !told && rest.len() < 100 ==> with_issue(s, i) == seq![i] + rest
            &&& !told && rest.len() >= 100 ==> with_issue(s, i) == seq![i] + rest.take(99)
        }),
{
    let applied = delta::nothing_applied();
    let e = EventModel {
        time: 0,
        path: Seq::empty(),
        status: Seq::empty(),
        detail: Seq::empty(),
    };
    law_lists_keep_the_rest_in_order(Seq::empty(), e, s, i.path, Seq::empty(), applied);
    let rest = s.filter(|x: IssueModel| x.path != i.path);
    if rest.len() >= 100 && !is_covered(s, i) {
        assert(with_issue(s, i) =~= seq![i] + rest.take(99));
    }
}

/// An issue is settled by a pass exactly when the pass had a change at its path and
/// neither left that alone nor failed it. That a file is not available is settled
/// by no pass.
pub proof fn law_a_pass_settles_what_it_dealt_with(
    i: IssueModel,
    changes: Seq<ChangeModel>,
    applied: AppliedModel,
)
    ensures
        !still_stands(i, changes, applied) <==> ({
            &&& i.kind != "availability"@
            &&& forall|k: int|
                0 <= k < applied.kept_local.len() ==> (#[trigger] applied.kept_local[k]).path
                    != i.path
            &&& forall|k: int|
                0 <= k < applied.failed.len() ==> (#[trigger] applied.failed[k]).path != i.path
            &&& exists|k: int|
                0 <= k < changes.len() && match #[trigger] changes[k] {
                    ChangeModel::Upserted { path, .. } => path == i.path,
                    ChangeModel::FolderUpserted { path, .. } => path == i.path,
                    ChangeModel::FolderRemoved { path, .. } => path == i.path,
                    ChangeModel::Removed { .. } => false,
                }
        }),
{
    if exists|k: int| 0 <= k < changes.len() && is_about(#[trigger] changes[k], i.path) {
        let k = choose|k: int| 0 <= k < changes.len() && is_about(#[trigger] changes[k], i.path);
        assert(match changes[k] {
            ChangeModel::Upserted { path, .. } => path == i.path,
            ChangeModel::FolderUpserted { path, .. } => path == i.path,
            ChangeModel::FolderRemoved { path, .. } => path == i.path,
            ChangeModel::Removed { .. } => false,
        });
    }
    if exists|k: int|
        0 <= k < changes.len() && match #[trigger] changes[k] {
            ChangeModel::Upserted { path, .. } => path == i.path,
            ChangeModel::FolderUpserted { path, .. } => path == i.path,
            ChangeModel::FolderRemoved { path, .. } => path == i.path,
            ChangeModel::Removed { .. } => false,
        } {
        let k = choose|k: int|
            0 <= k < changes.len() && match #[trigger] changes[k] {
                ChangeModel::Upserted { path, .. } => path == i.path,
                ChangeModel::FolderUpserted { path, .. } => path == i.path,
                ChangeModel::FolderRemoved { path, .. } => path == i.path,
                ChangeModel::Removed { .. } => false,
            };
        assert(is_about(changes[k], i.path));
    }
}

/// What the outcome of an upload leaves: one that had nothing to do leaves all as
/// it was. A failure is held against the file and told with what failed. Anything
/// else takes the failure back and settles the issues of the path. What was told
/// is the newest event, at the time and path given.
pub proof fn law_an_outcome_is_told(
    d: DesktopModel,
    file: FileId,
    path: Seq<char>,
    outcome: OutcomeModel,
    now: u64,
)
    ensures
        ({
            let n = d.noted(file, Some(path), outcome, now);
            &&& outcome is NothingToDo ==> n == d
            &&& !(outcome is NothingToDo) ==> n.events.len() > 0 && n.events[0].time == now
                && n.events[0].path == path
            &&& outcome matches OutcomeModel::Failed(e) ==> n.errors.dom().contains(file)
                && n.errors[file] == first(e, 2048) && n.issues == d.issues && n.events[0].status
                == "error"@ && n.events[0].detail == n.errors[file]
            &&& outcome is Sent ==> n.events[0].status == "uploaded"@
            &&& outcome is DeletedInstead ==> n.events[0].status == "deleted"@
            &&& outcome is Sent || outcome is DeletedInstead ==> n.errors == d.errors.remove(file)
                && n.issues == d.issues.filter(|x: IssueModel| x.path != path)
            &&& n.paths == d.paths && n.until == d.until && n.passes == d.passes && n.resolving
                == d.resolving
            &&& d.noted(file, None, outcome, now).issues == d.issues
        }),
{
    let applied = delta::nothing_applied();
    let e = EventModel {
        time: 0,
        path: Seq::empty(),
        status: Seq::empty(),
        detail: Seq::empty(),
    };
    law_lists_keep_the_rest_in_order(Seq::empty(), e, d.issues, path, Seq::empty(), applied);
    if let Some((status, detail)) = reported(outcome) {
        law_a_new_event_comes_first(d.events, EventModel { time: now, path, status, detail });
    }
}

/// The updates of a pass are told in turn, so that the last of them is the newest
/// event.
pub proof fn law_the_last_update_is_the_newest(
    s: Seq<EventModel>,
    updates: Seq<(Seq<char>, Seq<char>)>,
    now: u64,
)
    requires
        updates.len() > 0,
    ensures
        with_updates(s, updates, now)[0] == (EventModel {
            time: now,
            path: updates.last().0,
            status: updates.last().1,
            detail: "Namespace update from cloud"@,
        }),
        with_updates(s, updates, now).len() > 0,
        with_updates(s, updates, now).len() <= 100,
{
    let e = EventModel {
        time: now,
        path: updates.last().0,
        status: updates.last().1,
        detail: "Namespace update from cloud"@,
    };
    law_a_new_event_comes_first(with_updates(s, updates.drop_last(), now), e);
}

/// A row of the queue says of its file where it is, what failed last, when it is
/// tried again, and whether it is on its way, waits for another try, or waits.
pub proof fn law_a_row_says_where_its_file_stands(d: DesktopModel, q: Queued)
    ensures
        ({
            let r = queue_row(d, q);
            let failed = d.errors.dom().contains(q.id);
            &&& r.path is Some <==> d.paths.dom().contains(q.id)
            &&& r.path is Some ==> r.path->0 == d.paths[q.id]
            &&& r.detail is Some <==> failed
            &&& r.detail is Some ==> r.detail->0 == d.errors[q.id]
            &&& r.retry_after == q.retry_after
            &&& q.sending ==> r.status == "uploading"@
            &&& !q.sending && failed ==> r.status == "retry"@
            &&& !q.sending && !failed ==> r.status == "waiting"@
        }),
{
}

/// A pause lasts as long as it was asked for, a day at most, and a pause of nothing
/// ends it. Nothing else changes.
pub proof fn law_a_pause_lasts_as_asked(d: DesktopModel, seconds: u64, now: u64, then: u64)
    requires
        now + 86400 <= u64::MAX,
    ensures
        0 < seconds <= 86400 ==> (d.paused_for(seconds, now).is_paused(then) <==> then < now
            + seconds),
        seconds > 86400 ==> (d.paused_for(seconds, now).is_paused(then) <==> then < now + 86400),
        !d.paused_for(0, now).is_paused(then),
        d.paused_for(seconds, now) == (DesktopModel {
            until: d.paused_for(seconds, now).until,
            ..d
        }),
{
}

/// A pass begins unless background work is paused or a conflict is being resolved,
/// and is then counted; waiting is over when none is counted.
pub proof fn law_a_pass_begins_unless_held_back(d: DesktopModel, now: u64, late: bool)
    requires
        d.passes < u64::MAX,
    ensures
        d.may_begin(now) <==> d.until <= now && !d.resolving,
        d.may_begin(now) ==> d.begun(now).passes == d.passes + 1,
        !d.may_begin(now) ==> d.begun(now) == d,
        d.begun(now).until == d.until,
        d.begun(now).issues == d.issues,
        d.wait(late) is Ready <==> d.passes == 0,
        d.wait(late) is Late <==> d.passes > 0 && late,
        d.wait(late) is Again <==> d.passes > 0 && !late,
{
}

/// The path of a queued file is where it was found, or else where it was known to
/// be; files that are not queued have none.
pub proof fn law_queued_files_keep_their_paths(
    d: DesktopModel,
    queued: Seq<FileId>,
    found: Map<FileId, Seq<char>>,
    id: FileId,
)
    ensures
        ({
            let paths = d.indexed(queued, found).paths;
            &&& !queued.contains(id) ==> !paths.dom().contains(id)
            &&& queued.contains(id) && found.dom().contains(id) ==> paths.dom().contains(id)
                && paths[id] == found[id]
            &&& queued.contains(id) && !found.dom().contains(id) ==> (paths.dom().contains(id)
                <==> d.paths.dom().contains(id))
            &&& queued.contains(id) && !found.dom().contains(id) && d.paths.dom().contains(id)
                ==> paths[id] == d.paths[id]
        }),
{
}

/// A pass that was stopped leaves everything as it was. Any other settles the issues
/// that it dealt with and tells of its updates.
pub proof fn law_a_stopped_pass_tells_nothing(
    d: DesktopModel,
    changes: Seq<ChangeModel>,
    applied: AppliedModel,
    updates: Seq<(Seq<char>, Seq<char>)>,
    now: u64,
)
    ensures
        applied.stopped is Some ==> d.after_pass(changes, applied, updates, now) == d,
        applied.stopped is None ==> d.after_pass(changes, applied, updates, now).issues
            == d.issues.filter(|x: IssueModel| still_stands(x, changes, applied)),
        applied.stopped is None ==> d.after_pass(changes, applied, updates, now).events
            == with_updates(d.events, updates, now),
        updates.len() == 0 ==> with_updates(d.events, updates, now) == d.events,
        d.after_pass(changes, applied, updates, now).errors == d.errors,
        d.after_pass(changes, applied, updates, now).paths == d.paths,
{
    let e = EventModel {
        time: 0,
        path: Seq::empty(),
        status: Seq::empty(),
        detail: Seq::empty(),
    };
    law_lists_keep_the_rest_in_order(Seq::empty(), e, d.issues, Seq::empty(), changes, applied);
}

/// A file that is clean again settles the issues of its path; one that is not, or
/// could not be looked at, settles none.
pub proof fn law_a_clean_file_settles_its_issues(
    d: DesktopModel,
    path: Seq<char>,
    stamp: Option<Stamp>,
)
    ensures
        stamp == Some(Stamp::Clean) ==> d.after_look(path, stamp).issues == d.issues.filter(
            |x: IssueModel| x.path != path,
        ),
        stamp != Some(Stamp::Clean) ==> d.after_look(path, stamp) == d,
        d.after_look(path, stamp).events == d.events,
{
    let applied = delta::nothing_applied();
    let e = EventModel {
        time: 0,
        path: Seq::empty(),
        status: Seq::empty(),
        detail: Seq::empty(),
    };
    law_lists_keep_the_rest_in_order(Seq::empty(), e, d.issues, path, Seq::empty(), applied);
}

} // verus!
