//! Bringing changes down from the cloud.
//!
//! The rule that shapes this module: the local copy is the truth. A pass may
//! create, and it may update a file that it has not been asked to leave alone,
//! but it never overwrites local content that has not been sent yet.

use crate::number;
use crate::paths::{self, Part};
use crate::table::Table;
use crate::text::{self, copy_maybe};
use vstd::prelude::*;
use vstd::string::*;

verus! {

/// What the cloud says happened.
#[derive(Debug, PartialEq, Eq)]
pub enum Change {
    /// Present in the cloud with this content, whether new or changed.
    Upserted {
        cloud_id: String,
        /// Relative to the sync root. Directories are implied by the path.
        path: String,
        size: u64,
        etag: Option<String>,
    },
    /// A cloud folder, including an empty one. The root has an empty path.
    FolderUpserted {
        cloud_id: String,
        path: String,
        /// A metadata version suitable for conditional namespace writes.
        etag: Option<String>,
    },
    /// Gone from the cloud.
    Removed { cloud_id: String },
    /// A folder gone from the cloud.
    FolderRemoved { cloud_id: String, path: String },
}

/// What a change says, over texts.
#[verifier::ext_equal]
pub enum ChangeModel {
    Upserted { cloud_id: Seq<char>, path: Seq<char>, size: u64, etag: Option<Seq<char>> },
    FolderUpserted { cloud_id: Seq<char>, path: Seq<char>, etag: Option<Seq<char>> },
    Removed { cloud_id: Seq<char> },
    FolderRemoved { cloud_id: Seq<char>, path: Seq<char> },
}

impl View for Change {
    type V = ChangeModel;

    open spec fn view(&self) -> ChangeModel {
        match *self {
            Change::Upserted { cloud_id, path, size, etag } => ChangeModel::Upserted {
                cloud_id: cloud_id@,
                path: path@,
                size,
                etag: text::maybe(etag),
            },
            Change::FolderUpserted { cloud_id, path, etag } => ChangeModel::FolderUpserted {
                cloud_id: cloud_id@,
                path: path@,
                etag: text::maybe(etag),
            },
            Change::Removed { cloud_id } => ChangeModel::Removed { cloud_id: cloud_id@ },
            Change::FolderRemoved { cloud_id, path } => ChangeModel::FolderRemoved {
                cloud_id: cloud_id@,
                path: path@,
            },
        }
    }
}

impl Clone for Change {
    fn clone(&self) -> (r: Self)
        ensures
            r == *self,
    {
        match self {
            Change::Upserted { cloud_id, path, size, etag } => Change::Upserted {
                cloud_id: cloud_id.clone(),
                path: path.clone(),
                size: *size,
                etag: copy_maybe(etag),
            },
            Change::FolderUpserted { cloud_id, path, etag } => Change::FolderUpserted {
                cloud_id: cloud_id.clone(),
                path: path.clone(),
                etag: copy_maybe(etag),
            },
            Change::Removed { cloud_id } => Change::Removed { cloud_id: cloud_id.clone() },
            Change::FolderRemoved { cloud_id, path } => Change::FolderRemoved {
                cloud_id: cloud_id.clone(),
                path: path.clone(),
            },
        }
    }
}

/// The changes that a list holds, over texts.
pub open spec fn changes(v: Seq<Change>) -> Seq<ChangeModel> {
    v.map_values(|c: Change| c@)
}

/// Where a delta pass left off, so the next one does not start over.
#[derive(Debug, Default, PartialEq, Eq)]
pub struct Cursor(pub Option<String>);

/// Discovering changes is the client's job, because only it knows the service.
pub trait Discover {
    /// Changes since `cursor`, and where to resume. May return the whole world
    /// when `cursor` is empty.
    fn changes(&mut self, cursor: &Cursor) -> Result<(Vec<Change>, Cursor), String>;
}

/// Making a placeholder exist, or a file go away, on the local side.
pub trait Materialise {
    /// Create a placeholder at `path`, or update an existing one's recorded
    /// size and identity.
    fn place(
        &mut self,
        path: &str,
        size: u64,
        cloud_id: &str,
        etag: Option<&str>,
    ) -> Result<(), String>;

    /// Remove a file the cloud no longer has.
    fn remove(&mut self, path: &str) -> Result<(), String>;

    /// Whether the sync root still leads to the filesystem this was opened
    /// against. Always so for an implementation that has no mount to lose.
    fn root_still_current(&self) -> (r: Result<bool, String>)
        default_ensures
            r == Ok::<bool, String>(true),
    {
        Ok(true)
    }
}

/// Why a change was not applied.
#[derive(Debug, Clone, Copy, PartialEq, Eq, Structural)]
pub enum Why {
    /// An edit is queued for upload. It is newer than anything the cloud can
    /// say and exists nowhere else.
    EditWaiting,
    /// Local content with no cloud id: never uploaded, so there is no remote
    /// copy to fall back on.
    NeverUploaded,
    /// The file no longer looks the way it was left, so somebody wrote to it.
    ChangedUnderneath,
}

/// The reason in words.
pub open spec fn why_text(why: Why) -> Seq<char> {
    match why {
        Why::EditWaiting => "an edit is waiting to be uploaded"@,
        Why::NeverUploaded => "it has never been uploaded"@,
        Why::ChangedUnderneath => "it has changed since the framework last wrote it"@,
    }
}

impl Why {
    /// The reason in words.
    pub fn message(&self) -> (m: String)
        ensures
            m@ == why_text(*self),
    {
        match self {
            Why::EditWaiting => "an edit is waiting to be uploaded".to_owned(),
            Why::NeverUploaded => "it has never been uploaded".to_owned(),
            Why::ChangedUnderneath => {
                "it has changed since the framework last wrote it".to_owned()
            },
        }
    }
}

/// A change that was refused, and which of the rules refused it.
#[derive(Debug, PartialEq, Eq)]
pub struct Kept {
    /// As the change named it, or the local path where it named none.
    pub path: String,
    pub why: Why,
}

/// A refused change, over texts.
#[verifier::ext_equal]
pub struct KeptModel {
    pub path: Seq<char>,
    pub why: Why,
}

impl View for Kept {
    type V = KeptModel;

    open spec fn view(&self) -> KeptModel {
        KeptModel { path: self.path@, why: self.why }
    }
}

impl Kept {
    pub fn new(path: &str, why: Why) -> (k: Self)
        ensures
            k@ == (KeptModel { path: path@, why }),
    {
        Kept { path: path.to_owned(), why }
    }
}

/// What stopped a change from being applied. Those that come from the system
/// carry its message.
#[derive(Debug, PartialEq, Eq)]
pub enum Failure {
    /// The path that the change arrived with was refused.
    PathRefused,
    /// The change claims a size past the limit.
    TooLarge { size: u64 },
    /// The object moved, and something else already holds the destination.
    DestinationOccupied,
    /// The local rename that would have followed the object to its new path.
    Rename(String),
    /// Creating a placeholder, or refreshing one.
    Place(String),
    /// Deleting a file the cloud no longer has.
    Remove(String),
}

/// What stopped a change, over texts.
#[verifier::ext_equal]
pub enum FailureModel {
    PathRefused,
    TooLarge { size: u64 },
    DestinationOccupied,
    Rename(Seq<char>),
    Place(Seq<char>),
    Remove(Seq<char>),
}

impl View for Failure {
    type V = FailureModel;

    open spec fn view(&self) -> FailureModel {
        match *self {
            Failure::PathRefused => FailureModel::PathRefused,
            Failure::TooLarge { size } => FailureModel::TooLarge { size },
            Failure::DestinationOccupied => FailureModel::DestinationOccupied,
            Failure::Rename(e) => FailureModel::Rename(e@),
            Failure::Place(e) => FailureModel::Place(e@),
            Failure::Remove(e) => FailureModel::Remove(e@),
        }
    }
}

/// What stopped a change, in words, where `limit` is the largest size that a
/// change may claim.
pub open spec fn failure_text(f: FailureModel, limit: u64) -> Seq<char> {
    match f {
        FailureModel::PathRefused => {
            "the path is empty, escapes the sync root, or claims one of our own names"@
        },
        FailureModel::TooLarge { size } => "it claims "@ + number::digits(size as nat)
            + " bytes, past the "@ + number::digits(limit as nat) + "-byte limit"@,
        FailureModel::DestinationOccupied => "another file is already at that path"@,
        FailureModel::Rename(e) => "renaming the local file failed: "@ + e,
        FailureModel::Place(e) => "writing the placeholder failed: "@ + e,
        FailureModel::Remove(e) => "removing the local file failed: "@ + e,
    }
}

impl Failure {
    /// What stopped the change, in words.
    pub fn message(&self, limit: u64) -> (m: String)
        ensures
            m@ == failure_text(self@, limit),
    {
        match self {
            Failure::PathRefused => {
                "the path is empty, escapes the sync root, or claims one of our own names".to_owned()
            },
            Failure::TooLarge { size } => {
                let mut m = "it claims ".to_owned();
                m.append(number::decimal(*size).as_str());
                m.append(" bytes, past the ");
                m.append(number::decimal(limit).as_str());
                m.append("-byte limit");
                m
            },
            Failure::DestinationOccupied => "another file is already at that path".to_owned(),
            Failure::Rename(e) => {
                "renaming the local file failed: ".to_owned().concat(e.as_str())
            },
            Failure::Place(e) => "writing the placeholder failed: ".to_owned().concat(e.as_str()),
            Failure::Remove(e) => "removing the local file failed: ".to_owned().concat(e.as_str()),
        }
    }
}

/// A change that could not be applied, and what stopped it.
#[derive(Debug, PartialEq, Eq)]
pub struct Failed {
    /// As the change named it, or the local path for a removal.
    pub path: String,
    pub why: Failure,
}

/// A failed change, over texts.
#[verifier::ext_equal]
pub struct FailedModel {
    pub path: Seq<char>,
    pub why: FailureModel,
}

impl View for Failed {
    type V = FailedModel;

    open spec fn view(&self) -> FailedModel {
        FailedModel { path: self.path@, why: self.why@ }
    }
}

impl Failed {
    pub fn new(path: &str, why: Failure) -> (f: Self)
        ensures
            f@ == (FailedModel { path: path@, why: why@ }),
    {
        Failed { path: path.to_owned(), why }
    }
}

/// Why a pass ended before it ran out of changes.
#[derive(Debug, PartialEq, Eq)]
pub enum Stopped {
    /// The sync root now leads somewhere else.
    MountChanged,
    /// Whether it still leads to the same place could not be established, which
    /// is treated as if it did not.
    MountUnverifiable(String),
}

/// Why a pass ended early, over texts.
#[verifier::ext_equal]
pub enum StoppedModel {
    MountChanged,
    MountUnverifiable(Seq<char>),
}

impl View for Stopped {
    type V = StoppedModel;

    open spec fn view(&self) -> StoppedModel {
        match *self {
            Stopped::MountChanged => StoppedModel::MountChanged,
            Stopped::MountUnverifiable(e) => StoppedModel::MountUnverifiable(e@),
        }
    }
}

/// Why a pass ended early, in words.
pub open spec fn stopped_text(s: StoppedModel) -> Seq<char> {
    match s {
        StoppedModel::MountChanged => {
            "the sync root is no longer the mount this pass started against"@
        },
        StoppedModel::MountUnverifiable(e) => {
            "could not confirm the sync root is still the same mount ("@ + e + ")"@
        },
    }
}

impl Stopped {
    /// Why the pass ended early, in words.
    pub fn message(&self) -> (m: String)
        ensures
            m@ == stopped_text(self@),
    {
        match self {
            Stopped::MountChanged => {
                "the sync root is no longer the mount this pass started against".to_owned()
            },
            Stopped::MountUnverifiable(e) => {
                "could not confirm the sync root is still the same mount (".to_owned().concat(
                    e.as_str(),
                ).concat(")")
            },
        }
    }
}

/// What a delta pass did.
#[derive(Debug, PartialEq, Eq)]
pub struct Applied {
    pub created: usize,
    pub updated: usize,
    pub removed: usize,
    /// Objects that arrived under a new path and were renamed locally rather
    /// than duplicated.
    pub moved: usize,
    /// Changes deliberately not applied because local content would have been
    /// lost.
    pub kept_local: Vec<Kept>,
    /// Changes that could not be applied, each with what stopped it.
    pub failed: Vec<Failed>,
    /// At least one failure could succeed on a later pass. The caller must not
    /// move its cursor past a pass with this set.
    pub retryable: bool,
    /// Set when the pass gave up partway because the sync root stopped being
    /// the mount it started against.
    pub stopped: Option<Stopped>,
}

/// What a delta pass did, over texts.
#[verifier::ext_equal]
pub struct AppliedModel {
    pub created: nat,
    pub updated: nat,
    pub removed: nat,
    pub moved: nat,
    pub kept_local: Seq<KeptModel>,
    pub failed: Seq<FailedModel>,
    pub retryable: bool,
    pub stopped: Option<StoppedModel>,
}

impl View for Applied {
    type V = AppliedModel;

    open spec fn view(&self) -> AppliedModel {
        AppliedModel {
            created: self.created as nat,
            updated: self.updated as nat,
            removed: self.removed as nat,
            moved: self.moved as nat,
            kept_local: self.kept_local@.map_values(|k: Kept| k@),
            failed: self.failed@.map_values(|f: Failed| f@),
            retryable: self.retryable,
            stopped: match self.stopped {
                Some(s) => Some(s@),
                None => None,
            },
        }
    }
}

/// Nothing done.
pub open spec fn nothing_applied() -> AppliedModel {
    AppliedModel {
        created: 0,
        updated: 0,
        removed: 0,
        moved: 0,
        kept_local: Seq::empty(),
        failed: Seq::empty(),
        retryable: false,
        stopped: None,
    }
}

impl Default for Applied {
    fn default() -> (a: Self)
        ensures
            a@ == nothing_applied(),
    {
        let a = Applied {
            created: 0,
            updated: 0,
            removed: 0,
            moved: 0,
            kept_local: Vec::new(),
            failed: Vec::new(),
            retryable: false,
            stopped: None,
        };
        proof {
            assert(a@.kept_local =~= Seq::empty());
            assert(a@.failed =~= Seq::empty());
        }
        a
    }
}

/// The object that a change speaks of.
pub open spec fn subject(c: ChangeModel) -> Seq<char> {
    match c {
        ChangeModel::Upserted { cloud_id, .. } => cloud_id,
        ChangeModel::FolderUpserted { cloud_id, .. } => cloud_id,
        ChangeModel::Removed { cloud_id } => cloud_id,
        ChangeModel::FolderRemoved { cloud_id, .. } => cloud_id,
    }
}

/// A later change about an object takes the place of an earlier one, whatever
/// the two say.
pub open spec fn supersedes(later: ChangeModel, c: ChangeModel) -> bool {
    subject(later) == subject(c)
}

/// The changes that no later one supersedes, in their order.
pub open spec fn coalesced(s: Seq<ChangeModel>) -> Seq<ChangeModel>
    decreases s.len(),
{
    if s.len() == 0 {
        s
    } else {
        let rest = s.drop_first();
        if exists|j: int| 0 <= j < rest.len() && supersedes(#[trigger] rest[j], s[0]) {
            coalesced(rest)
        } else {
            seq![s[0]] + coalesced(rest)
        }
    }
}

fn subject_of(c: &Change) -> (id: &String)
    ensures
        id@ == subject(c@),
{
    match c {
        Change::Upserted { cloud_id, .. } => cloud_id,
        Change::FolderUpserted { cloud_id, .. } => cloud_id,
        Change::Removed { cloud_id } => cloud_id,
        Change::FolderRemoved { cloud_id, .. } => cloud_id,
    }
}

/// The objects that some changes speak of.
spec fn subjects(s: Seq<ChangeModel>) -> Set<Seq<char>> {
    Set::new(|id: Seq<char>| exists|j: int| 0 <= j < s.len() && subject(#[trigger] s[j]) == id)
}

proof fn lemma_subjects(s: Seq<ChangeModel>)
    requires
        s.len() > 0,
    ensures
        subjects(s) == subjects(s.drop_first()).insert(subject(s[0])),
{
    let rest = s.drop_first();
    let want = subjects(rest).insert(subject(s[0]));
    assert forall|id: Seq<char>| subjects(s).contains(id) == want.contains(id) by {
        if subjects(s).contains(id) {
            let j = choose|j: int| 0 <= j < s.len() && subject(#[trigger] s[j]) == id;
            if j > 0 {
                assert(rest[j - 1] == s[j]);
                assert(subjects(rest).contains(id));
            }
        }
        if subjects(rest).contains(id) {
            let j = choose|j: int| 0 <= j < rest.len() && subject(#[trigger] rest[j]) == id;
            assert(s[j + 1] == rest[j]);
        }
        if id == subject(s[0]) {
            assert(subject(s[0]) == id);
        }
    }
    assert(subjects(s) =~= want);
}

/// One change per object, the last one winning, the order otherwise kept.
pub fn coalesce(list: &Vec<Change>) -> (out: Vec<Change>)
    ensures
        changes(out@) == coalesced(changes(list@)),
{
    let ghost all = changes(list@);
    let mut seen: Table<String, ()> = Table::new();
    let mut kept: Vec<Change> = Vec::new();
    let mut i: usize = list.len();
    proof {
        let none = all.skip(i as int);
        assert(none =~= Seq::empty());
        assert(seen@.dom() =~= subjects(none));
        assert(changes(kept@).reverse() =~= coalesced(none));
    }
    while i > 0
        invariant
            i <= list@.len(),
            all == changes(list@),
            seen@.dom() == subjects(all.skip(i as int)),
            changes(kept@).reverse() == coalesced(all.skip(i as int)),
        decreases i,
    {
        let c = &list[i - 1];
        let id = subject_of(c);
        let ghost here = all.skip(i - 1);
        let ghost rest = all.skip(i as int);
        let ghost before = seen@.dom();
        proof {
            assert(here.drop_first() =~= rest);
            assert(here[0] == c@);
            lemma_subjects(here);
            assert(subjects(rest).contains(id@) <==> exists|j: int|
                0 <= j < rest.len() && supersedes(#[trigger] rest[j], here[0])) by {
                if subjects(rest).contains(id@) {
                    let j = choose|j: int| 0 <= j < rest.len() && subject(#[trigger] rest[j]) == id@;
                    assert(supersedes(rest[j], here[0]));
                }
            }
        }
        let later = seen.insert(id.clone(), ()).is_some();
        assert(seen@.dom() =~= before.insert(id@));
        if !later {
            let ghost had = changes(kept@);
            kept.push(c.clone());
            proof {
                assert(changes(kept@) =~= had.push(c@));
                assert(had.push(c@).reverse() =~= seq![c@] + had.reverse());
            }
        }
        i = i - 1;
    }
    let ghost all_kept = changes(kept@);
    assert(all.skip(0) =~= all);
    let mut out: Vec<Change> = Vec::new();
    assert(changes(out@) =~= Seq::empty());
    assert(Seq::<ChangeModel>::empty() + all_kept.reverse() =~= all_kept.reverse());
    while kept.len() > 0
        invariant
            changes(out@) + changes(kept@).reverse() == all_kept.reverse(),
        decreases kept@.len(),
    {
        let ghost had = changes(kept@);
        let ghost sofar = changes(out@);
        let c = match kept.pop() {
            Some(c) => c,
            None => {
                return out;
            },
        };
        let ghost m = c@;
        out.push(c);
        proof {
            assert(changes(out@) =~= sofar.push(m));
            assert(changes(kept@) =~= had.drop_last());
            assert(had.last() == m);
            assert(sofar.push(m) + had.drop_last().reverse() =~= sofar + had.reverse());
        }
    }
    assert(changes(kept@) =~= Seq::empty());
    assert(changes(out@) + changes(kept@).reverse() =~= changes(out@));
    out
}

/// Of the changes that speak of one object a pass sees exactly one, and it is
/// the last.
pub proof fn law_the_last_change_wins(s: Seq<ChangeModel>, i: int)
    requires
        0 <= i < s.len(),
    ensures
        (forall|j: int| i < j < s.len() ==> !supersedes(#[trigger] s[j], s[i]))
            ==> coalesced(s).contains(s[i]),
        forall|a: int, b: int|
            0 <= a < b < coalesced(s).len() ==> !supersedes(
                #[trigger] coalesced(s)[b],
                #[trigger] coalesced(s)[a],
            ),
{
    lemma_coalesced(s);
    if forall|j: int| i < j < s.len() ==> !supersedes(#[trigger] s[j], s[i]) {
        lemma_coalesced_keeps(s, i);
    }
}

proof fn lemma_coalesced(s: Seq<ChangeModel>)
    ensures
        forall|a: int, b: int|
            0 <= a < b < coalesced(s).len() ==> !supersedes(
                #[trigger] coalesced(s)[b],
                #[trigger] coalesced(s)[a],
            ),
        forall|a: int|
            0 <= a < coalesced(s).len() ==> s.contains(#[trigger] coalesced(s)[a]),
    decreases s.len(),
{
    if s.len() > 0 {
        let rest = s.drop_first();
        lemma_coalesced(rest);
        let r = coalesced(s);
        let q = coalesced(rest);
        assert forall|a: int| 0 <= a < r.len() implies s.contains(#[trigger] r[a]) by {
            let skipped = r == q;
            let x = r[a];
            if skipped {
                assert(rest.contains(q[a]));
                let k = choose|k: int| 0 <= k < rest.len() && rest[k] == x;
                assert(s[k + 1] == x);
            } else if a > 0 {
                assert(rest.contains(q[a - 1]));
                let k = choose|k: int| 0 <= k < rest.len() && rest[k] == x;
                assert(s[k + 1] == x);
            } else {
                assert(s[0] == x);
            }
        }
        assert forall|a: int, b: int| 0 <= a < b < r.len() implies !supersedes(
            #[trigger] r[b],
            #[trigger] r[a],
        ) by {
            if r == q {
                assert(!supersedes(q[b], q[a]));
            } else {
                assert(r == seq![s[0]] + q);
                assert(r[b] == q[b - 1]);
                if a == 0 {
                    assert(rest.contains(q[b - 1]));
                    let k = choose|k: int| 0 <= k < rest.len() && rest[k] == q[b - 1];
                    assert(!supersedes(rest[k], s[0]));
                } else {
                    assert(r[a] == q[a - 1]);
                }
            }
        }
    }
}

proof fn lemma_coalesced_keeps(s: Seq<ChangeModel>, i: int)
    requires
        0 <= i < s.len(),
        forall|j: int| i < j < s.len() ==> !supersedes(#[trigger] s[j], s[i]),
    ensures
        coalesced(s).contains(s[i]),
    decreases s.len(),
{
    let rest = s.drop_first();
    let r = coalesced(s);
    let q = coalesced(rest);
    if i == 0 {
        assert forall|j: int| 0 <= j < rest.len() implies !supersedes(#[trigger] rest[j], s[0]) by {
            assert(rest[j] == s[j + 1]);
        }
        assert(r[0] == s[0]);
    } else {
        assert(rest[i - 1] == s[i]);
        assert forall|j: int| i - 1 < j < rest.len() implies !supersedes(
            #[trigger] rest[j],
            rest[i - 1],
        ) by {
            assert(rest[j] == s[j + 1]);
        }
        lemma_coalesced_keeps(rest, i - 1);
        let k = choose|k: int| 0 <= k < q.len() && q[k] == s[i];
        if r != q {
            assert(r[k + 1] == s[i]);
        }
    }
}

/// Whether a path from the cloud may be followed: it is not empty, it is made
/// of ordinary names below the root, and it claims none of the names that are
/// reserved.
pub open spec fn is_safe(rel: Seq<char>, reserved: Seq<Seq<char>>) -> bool {
    &&& rel.len() > 0
    &&& !paths::is_absolute(rel)
    &&& paths::is_plain(rel)
    &&& forall|i: int|
        0 <= i < paths::parts(rel).len() ==> !reserved.contains(
            (#[trigger] paths::parts(rel)[i])->Name_0,
        )
}

/// Join a path from the cloud onto the root, refusing anything that would
/// leave it. `reserved` holds those of the path's names that belong to the
/// framework itself.
pub fn safe_join(root: &str, rel: &str, reserved: &Vec<String>) -> (r: Option<String>)
    ensures
        text::maybe(r) == (if is_safe(rel@, text::texts(reserved@)) {
            Some(paths::joined(root@, rel@))
        } else {
            None
        }),
{
    if rel.is_empty() || paths::absolute(rel) {
        return None;
    }
    let parts = paths::parts_of(rel);
    let ghost all = paths::parts(rel@);
    let mut i: usize = 0;
    while i < parts.len()
        invariant
            i <= parts@.len(),
            all == paths::parts(rel@),
            all == paths::part_models(parts@),
            forall|j: int| 0 <= j < i ==> (#[trigger] all[j]) is Name,
            forall|j: int|
                0 <= j < i ==> !text::texts(reserved@).contains((#[trigger] all[j])->Name_0),
        decreases parts@.len() - i,
    {
        assert(all[i as int] == parts@[i as int]@);
        match &parts[i] {
            Part::Name(n) => {
                if text::holds(reserved, n.as_str()) {
                    return None;
                }
            },
            _ => {
                return None;
            },
        }
        i = i + 1;
    }
    Some(paths::join(root, rel))
}

/// Where a folder of the cloud goes: the root itself for an empty path.
pub open spec fn folder_target(
    root: Seq<char>,
    rel: Seq<char>,
    reserved: Seq<Seq<char>>,
) -> Option<Seq<char>> {
    if rel.len() == 0 {
        Some(root)
    } else if is_safe(rel, reserved) {
        Some(paths::joined(root, rel))
    } else {
        None
    }
}

pub fn folder_path(root: &str, rel: &str, reserved: &Vec<String>) -> (r: Option<String>)
    ensures
        text::maybe(r) == folder_target(root@, rel@, text::texts(reserved@)),
{
    if rel.is_empty() {
        Some(root.to_owned())
    } else {
        safe_join(root, rel, reserved)
    }
}

/// Whatever kind of change it is, it is about the object that it names.
pub proof fn law_a_change_is_about_its_object(
    id: Seq<char>,
    path: Seq<char>,
    size: u64,
    etag: Option<Seq<char>>,
    other: ChangeModel,
)
    ensures
        supersedes(ChangeModel::Upserted { cloud_id: id, path, size, etag }, other) <==> subject(
            other,
        ) == id,
        supersedes(ChangeModel::FolderUpserted { cloud_id: id, path, etag }, other) <==> subject(
            other,
        ) == id,
        supersedes(ChangeModel::Removed { cloud_id: id }, other) <==> subject(other) == id,
        supersedes(ChangeModel::FolderRemoved { cloud_id: id, path }, other) <==> subject(other)
            == id,
        subject(ChangeModel::Upserted { cloud_id: id, path, size, etag }) == id,
        subject(ChangeModel::FolderUpserted { cloud_id: id, path, etag }) == id,
        subject(ChangeModel::Removed { cloud_id: id }) == id,
        subject(ChangeModel::FolderRemoved { cloud_id: id, path }) == id,
{
}

/// One more change takes away what came before about the same object, leaves all
/// else as it was and in its order, and comes last.
pub proof fn law_one_more_change(s: Seq<ChangeModel>, c: ChangeModel)
    ensures
        coalesced(Seq::empty()).len() == 0,
        coalesced(s.push(c)) == coalesced(s).filter(
            |x: ChangeModel| subject(x) != subject(c),
        ).push(c),
    decreases s.len(),
{
    let other = |x: ChangeModel| subject(x) != subject(c);
    let all = s.push(c);
    if s.len() == 0 {
        assert(all.drop_first() =~= Seq::empty());
        assert(coalesced(all.drop_first()) =~= Seq::empty());
        reveal(Seq::filter);
        assert(coalesced(s).filter(other) =~= Seq::empty());
        assert(coalesced(all) =~= seq![c]);
        assert(coalesced(s).filter(other).push(c) =~= seq![c]);
    } else {
        let rest = s.drop_first();
        law_one_more_change(rest, c);
        assert(all.drop_first() =~= rest.push(c));
        let more = rest.push(c);
        let x = s[0];
        let before = exists|j: int| 0 <= j < rest.len() && supersedes(#[trigger] rest[j], x);
        let after = exists|j: int| 0 <= j < more.len() && supersedes(#[trigger] more[j], x);
        assert(all[0] == x);
        if before {
            let j = choose|j: int| 0 <= j < rest.len() && supersedes(#[trigger] rest[j], x);
            assert(supersedes(more[j], x));
            assert(coalesced(all) == coalesced(more));
        } else {
            let kept = coalesced(rest);
            assert(coalesced(s) == seq![x] + kept);
            Seq::filter_distributes_over_add(seq![x], kept, other);
            assert(seq![x] =~= Seq::empty().push(x));
            Seq::<ChangeModel>::empty().lemma_filter_push(x, other);
            assert(Seq::<ChangeModel>::empty().filter(other) =~= Seq::empty()) by {
                reveal(Seq::filter);
            }
            if subject(x) == subject(c) {
                assert(supersedes(more[rest.len() as int], x));
                assert((seq![x] + kept).filter(other) =~= kept.filter(other));
            } else {
                if after {
                    let j = choose|j: int| 0 <= j < more.len() && supersedes(#[trigger] more[j], x);
                    if j < rest.len() {
                        assert(supersedes(rest[j], x));
                    }
                }
                assert((seq![x] + kept).filter(other) =~= seq![x] + kept.filter(other));
                assert(coalesced(all) =~= seq![x] + kept.filter(other).push(c));
                assert(seq![x] + kept.filter(other).push(c) =~= (seq![x] + kept.filter(
                    other,
                )).push(c));
            }
        }
    }
}

/// A path is safe when it is neither empty nor absolute, does not start at the
/// current directory, never goes up, and none of its names is reserved.
pub proof fn law_what_a_safe_path_is(rel: Seq<char>, reserved: Seq<Seq<char>>)
    ensures
        is_safe(rel, reserved) <==> ({
            let pieces = text::split(rel, '/');
            &&& rel.len() > 0
            &&& rel[0] != '/'
            &&& pieces[0] != seq!['.']
            &&& forall|i: int|
                0 <= i < pieces.len() ==> #[trigger] pieces[i] != seq!['.', '.'] && (
                pieces[i].len() > 0 && pieces[i] != seq!['.'] ==> !reserved.contains(pieces[i]))
        }),
{
    let pieces = text::split(rel, '/');
    text::lemma_split_join(rel, '/');
    if rel.len() > 0 && rel[0] != '/' {
        paths::law_parts_are_the_pieces_that_count(pieces, true);
        let parts = paths::parts(rel);
        assert(parts == paths::parts_from(pieces, true));
        if is_safe(rel, reserved) {
            assert forall|i: int| 0 <= i < pieces.len() implies #[trigger] pieces[i] != seq![
                '.',
                '.',
            ] && (pieces[i].len() > 0 && pieces[i] != seq!['.'] ==> !reserved.contains(
                pieces[i],
            )) by {
                if paths::part(pieces[i], i == 0) is Some {
                    let p = paths::part(pieces[i], i == 0)->0;
                    assert(parts.contains(p));
                    let k = choose|k: int| 0 <= k < parts.len() && parts[k] == p;
                    assert(parts[k] is Name);
                }
            }
            if pieces[0] == seq!['.'] {
                let p = paths::part(pieces[0], true)->0;
                assert(parts.contains(p));
                let k = choose|k: int| 0 <= k < parts.len() && parts[k] == p;
                assert(parts[k] is Name);
            }
        }
        if pieces[0] != seq!['.'] && forall|i: int|
            0 <= i < pieces.len() ==> #[trigger] pieces[i] != seq!['.', '.'] && (pieces[i].len() > 0
                && pieces[i] != seq!['.'] ==> !reserved.contains(pieces[i])) {
            assert forall|k: int| 0 <= k < parts.len() implies (#[trigger] parts[k]) is Name
                && !reserved.contains(parts[k]->Name_0) by {
                assert(parts.contains(parts[k]));
                let i = choose|i: int|
                    0 <= i < pieces.len() && paths::part(#[trigger] pieces[i], true && i == 0)
                        == Some(parts[k]);
                assert(pieces[i] != seq!['.', '.']);
            }
        }
    }
}

/// A folder's path is the root for an empty one, the path below the root for a safe
/// one, and refused otherwise.
pub proof fn law_where_a_folder_goes(
    root: Seq<char>,
    rel: Seq<char>,
    reserved: Seq<Seq<char>>,
)
    ensures
        folder_target(root, Seq::empty(), reserved) == Some(root),
        rel.len() > 0 && is_safe(rel, reserved) ==> folder_target(root, rel, reserved) == Some(
            paths::joined(root, rel),
        ),
        rel.len() > 0 && !is_safe(rel, reserved) ==> folder_target(root, rel, reserved) is None,
{
}

/// What is said of a failure ends with what failed, and what is said of a size gives
/// the size and the limit.
pub proof fn law_a_message_says_what_failed(e: Seq<char>, size: u64, limit: u64)
    ensures
        text::ends(failure_text(FailureModel::Rename(e), limit), e),
        text::ends(failure_text(FailureModel::Place(e), limit), e),
        text::ends(failure_text(FailureModel::Remove(e), limit), e),
        text::begins(
            failure_text(FailureModel::TooLarge { size }, limit),
            "it claims "@ + number::digits(size as nat),
        ),
        text::ends(
            failure_text(FailureModel::TooLarge { size }, limit),
            number::digits(limit as nat) + "-byte limit"@,
        ),
        text::ends(stopped_text(StoppedModel::MountUnverifiable(e)), e + ")"@),
{
    text::law_fronts_and_backs("renaming the local file failed: "@, e);
    text::law_fronts_and_backs("writing the placeholder failed: "@, e);
    text::law_fronts_and_backs("removing the local file failed: "@, e);
    let a = "it claims "@ + number::digits(size as nat);
    let b = " bytes, past the "@;
    let c = number::digits(limit as nat) + "-byte limit"@;
    let s = failure_text(FailureModel::TooLarge { size }, limit);
    assert(s =~= a + (b + c));
    assert(s =~= (a + b) + c);
    text::law_fronts_and_backs(a, b + c);
    text::law_fronts_and_backs(a + b, c);
    let head = "could not confirm the sync root is still the same mount ("@;
    assert(stopped_text(StoppedModel::MountUnverifiable(e)) =~= head + (e + ")"@));
    text::law_fronts_and_backs(head, e + ")"@);
}

} // verus!
