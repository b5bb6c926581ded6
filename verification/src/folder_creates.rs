//! Creating in the cloud the folders that were made here.
//!
//! A create that has gone through is never repeated: where recording the
//! identity that came back fails, only the recording is tried again. The
//! creation says what it wants next, the caller does it and hands back what
//! came of it.

use crate::local_changes;
use crate::sort;
use crate::sort::Ranked;
use crate::table;
use crate::table::{FileId, Key, Table};
use crate::text;
use crate::upload::{Uploaded, UploadedModel};
use vstd::prelude::*;
use vstd::string::*;

verus! {

/// What is wanted next for the path at hand.
#[derive(Debug, Clone, Copy, PartialEq, Eq, Structural)]
pub enum Want {
    /// Look at the path.
    Look,
    /// Remove the object that was created for another folder at this path.
    Withdraw,
    /// Create the folder in the cloud.
    Create,
    /// Record on the folder the object that was created for it.
    Record,
    /// Nothing is left.
    Over,
}

/// What is at a path.
#[derive(Debug, Clone, Copy, PartialEq, Eq, Structural)]
pub struct Here {
    /// A directory, and not a link to one.
    pub folder: bool,
    pub id: FileId,
}

/// What a look at a path found.
#[derive(Debug, Clone, Copy, PartialEq, Eq, Structural)]
pub struct Look {
    /// Whether the path is never synced.
    pub ignored: bool,
    /// `None` where nothing is at the path.
    pub here: Option<Here>,
    /// Whether the folder is attached to a cloud object.
    pub identified: bool,
    /// Whether the folder above is; `None` where there is none.
    pub parent: Option<bool>,
}

/// What came of a want.
#[derive(Debug, PartialEq, Eq)]
pub enum Reply {
    Saw(Look),
    /// Whether it was done.
    Did(bool),
    /// What the service gave back, where it created the folder.
    Created(Option<Uploaded>),
}

/// What came of a want, over texts.
#[verifier::ext_equal]
pub enum ReplyModel {
    Saw(Look),
    Did(bool),
    Created(Option<UploadedModel>),
}

impl View for Reply {
    type V = ReplyModel;

    open spec fn view(&self) -> ReplyModel {
        match *self {
            Reply::Saw(look) => ReplyModel::Saw(look),
            Reply::Did(ok) => ReplyModel::Did(ok),
            Reply::Created(Some(u)) => ReplyModel::Created(Some(u@)),
            Reply::Created(None) => ReplyModel::Created(None),
        }
    }
}

/// Which replies a want can have.
pub open spec fn fits(want: Want, r: ReplyModel) -> bool {
    match want {
        Want::Look => r is Saw,
        Want::Withdraw | Want::Record => r is Did,
        Want::Create => r is Created,
        Want::Over => false,
    }
}

/// A folder that was created in the cloud and not yet recorded: the object, and
/// the folder it was created for.
#[derive(Debug, PartialEq, Eq)]
pub struct CommittedFolder {
    pub uploaded: Uploaded,
    pub id: FileId,
}

/// A created folder over texts.
#[verifier::ext_equal]
pub struct CommittedModel {
    pub uploaded: UploadedModel,
    pub id: FileId,
}

impl View for CommittedFolder {
    type V = CommittedModel;

    open spec fn view(&self) -> CommittedModel {
        CommittedModel { uploaded: self.uploaded@, id: self.id }
    }
}

/// Created folders by path, over texts.
pub open spec fn committed_map(m: Map<Seq<char>, CommittedFolder>) -> Map<
    Seq<char>,
    CommittedModel,
> {
    m.map_values(|c: CommittedFolder| c@)
}

/// What was recorded, over texts.
pub open spec fn recorded_models(v: Seq<(String, Uploaded)>) -> Seq<(Seq<char>, UploadedModel)> {
    v.map_values(|p: (String, Uploaded)| (p.0@, p.1@))
}

/// A path ranked by how deep it lies.
pub struct ByDepth {
    pub path: String,
}

impl Ranked for ByDepth {
    type M = Seq<char>;

    open spec fn model(&self) -> Seq<char> {
        self.path@
    }

    /// Shallowest first; among equally deep ones, by path.
    open spec fn ahead(a: Seq<char>, b: Seq<char>) -> bool {
        local_changes::depth(a) < local_changes::depth(b) || (local_changes::depth(a)
            == local_changes::depth(b) && text::before(a, b))
    }

    proof fn ahead_transitive(a: Seq<char>, b: Seq<char>, c: Seq<char>) {
        if text::before(a, b) && text::before(b, c) {
            text::lemma_before_transitive(a, b, c);
        }
    }

    proof fn ahead_cotransitive(a: Seq<char>, b: Seq<char>, c: Seq<char>) {
        if !text::before(a, b) && !text::before(b, c) {
            text::lemma_before_cotransitive(a, b, c);
        }
    }

    proof fn ahead_irreflexive(a: Seq<char>) {
        text::lemma_before_irreflexive(a);
    }

    fn is_ahead(&self, other: &ByDepth) -> (b: bool) {
        let mine = text::count_of(self.path.as_str(), '/');
        let theirs = text::count_of(other.path.as_str(), '/');
        mine < theirs || (mine == theirs && text::is_before(
            self.path.as_str(),
            other.path.as_str(),
        ))
    }
}

/// The order in which folders are created: a child only after its parent.
pub open spec fn shallow_first(pending: Set<Seq<char>>) -> Seq<Seq<char>> {
    sort::arranged::<ByDepth>(table::in_key_order::<String>(pending))
}

/// Where the creation of folders stands.
#[verifier::ext_equal]
pub struct CreatesModel {
    /// Folders that have no cloud object yet.
    pub pending: Set<Seq<char>>,
    /// Folders that have one which is not yet recorded.
    pub committed: Map<Seq<char>, CommittedModel>,
    pub order: Seq<Seq<char>>,
    pub at: nat,
    pub want: Want,
    /// The folder that is being created.
    pub id: Option<FileId>,
    /// What was recorded, in order.
    pub recorded: Seq<(Seq<char>, UploadedModel)>,
}

impl CreatesModel {
    /// The path at hand.
    pub open spec fn rel(self) -> Seq<char> {
        self.order[self.at as int]
    }

    pub open spec fn wanting(self, want: Want) -> CreatesModel {
        CreatesModel { want, ..self }
    }

    /// On to the next path.
    pub open spec fn passed(self) -> CreatesModel {
        CreatesModel {
            at: self.at + 1,
            want: if self.at + 1 < self.order.len() {
                Want::Look
            } else {
                Want::Over
            },
            ..self
        }
    }

    /// The path is nobody's business any more.
    pub open spec fn settled(self) -> CreatesModel {
        CreatesModel {
            pending: self.pending.remove(self.rel()),
            committed: self.committed.remove(self.rel()),
            ..self
        }
    }

    /// Where the creation stands after a look at the path.
    pub open spec fn saw(self, look: Look) -> CreatesModel {
        if look.ignored || look.here is None || !look.here->0.folder || look.identified {
            self.settled().passed()
        } else if self.committed.dom().contains(self.rel()) {
            if self.committed[self.rel()].id != look.here->0.id {
                self.wanting(Want::Withdraw)
            } else {
                self.wanting(Want::Record)
            }
        } else {
            match look.parent {
                None => CreatesModel {
                    pending: self.pending.remove(self.rel()),
                    ..self
                }.passed(),
                Some(false) => self.passed(),
                Some(true) => CreatesModel {
                    want: Want::Create,
                    id: Some(look.here->0.id),
                    ..self
                },
            }
        }
    }

    /// Where the creation stands once a want has been met.
    pub open spec fn next(self, r: ReplyModel) -> CreatesModel {
        match (self.want, r) {
            (Want::Look, ReplyModel::Saw(look)) => self.saw(look),
            (Want::Withdraw, ReplyModel::Did(ok)) => if ok {
                CreatesModel { committed: self.committed.remove(self.rel()), ..self }.passed()
            } else {
                self.passed()
            },
            (Want::Record, ReplyModel::Did(ok)) => if ok {
                CreatesModel {
                    recorded: self.recorded.push(
                        (self.rel(), self.committed[self.rel()].uploaded),
                    ),
                    ..self.settled()
                }.passed()
            } else {
                self.passed()
            },
            (Want::Create, ReplyModel::Created(Some(u))) => CreatesModel {
                committed: self.committed.insert(
                    self.rel(),
                    CommittedModel { uploaded: u, id: self.id->0 },
                ),
                want: Want::Record,
                ..self
            },
            (Want::Create, ReplyModel::Created(None)) => self.passed(),
            _ => self,
        }
    }

    /// What every creation keeps.
    pub open spec fn wf(self) -> bool {
        &&& self.want is Over <==> self.at >= self.order.len()
        &&& self.want is Withdraw || self.want is Record ==> self.committed.dom().contains(
            self.rel(),
        )
        &&& self.want is Create ==> self.id is Some
    }

    /// How many replies are left at most.
    pub open spec fn left(self) -> int {
        3 * (self.order.len() - self.at) - match self.want {
            Want::Look | Want::Over => 0,
            Want::Create => 1,
            Want::Withdraw | Want::Record => 2int,
        }
    }
}

/// The creation of folders under way.
pub struct Creates {
    pending: Table<String, ()>,
    committed: Table<String, CommittedFolder>,
    order: Vec<ByDepth>,
    at: usize,
    want: Want,
    id: Option<FileId>,
    recorded: Vec<(String, Uploaded)>,
}

impl View for Creates {
    type V = CreatesModel;

    closed spec fn view(&self) -> CreatesModel {
        CreatesModel {
            pending: self.pending@.dom(),
            committed: committed_map(self.committed@),
            order: sort::models(self.order@),
            at: self.at as nat,
            want: self.want,
            id: self.id,
            recorded: recorded_models(self.recorded@),
        }
    }
}

impl Creates {
    /// Begin with the folders that have no object yet and those whose object is
    /// not yet recorded.
    pub fn begin(pending: Table<String, ()>, committed: Table<String, CommittedFolder>) -> (c:
        Creates)
        ensures
            c@.wf(),
            c@ == (CreatesModel {
                pending: pending@.dom(),
                committed: committed_map(committed@),
                order: shallow_first(pending@.dom()),
                at: 0,
                want: if shallow_first(pending@.dom()).len() > 0 {
                    Want::Look
                } else {
                    Want::Over
                },
                id: None,
                recorded: Seq::empty(),
            }),
    {
        let n = pending.len();
        let ghost keys = table::keys_of(pending.rows());
        let mut paths: Vec<ByDepth> = Vec::new();
        let mut i: usize = 0;
        assert(sort::models(paths@) =~= keys.take(0));
        while i < n
            invariant
                i <= n,
                n == pending.rows().len(),
                keys == table::keys_of(pending.rows()),
                sort::models(paths@) == keys.take(i as int),
            decreases n - i,
        {
            let p = pending.key_at(i);
            let ghost had = sort::models(paths@);
            assert(keys[i as int] == p@);
            let by = ByDepth { path: p.as_str().to_owned() };
            let ghost m = by.model();
            paths.push(by);
            assert(sort::models(paths@) =~= had.push(m));
            assert(keys.take(i + 1) =~= keys.take(i as int).push(p@));
            i = i + 1;
        }
        assert(keys.take(i as int) =~= keys);
        let order = sort::arrange(paths);
        let want = if order.len() > 0 {
            Want::Look
        } else {
            Want::Over
        };
        let c = Creates {
            pending,
            committed,
            order,
            at: 0,
            want,
            id: None,
            recorded: Vec::new(),
        };
        assert(c@.recorded =~= Seq::empty());
        c
    }

    /// What is wanted next.
    pub fn want(&self) -> (w: Want)
        ensures
            w == self@.want,
    {
        self.want
    }

    /// The path at hand, relative to the sync root.
    pub fn path(&self) -> (s: String)
        requires
            self@.wf(),
            !(self@.want is Over),
        ensures
            s@ == self@.rel(),
    {
        self.order[self.at].path.as_str().to_owned()
    }

    /// The object that was created for the path at hand and is to be recorded
    /// or removed.
    pub fn object(&self) -> (r: Option<Uploaded>)
        requires
            self@.wf(),
        ensures
            match r {
                Some(u) => (self@.want is Record || self@.want is Withdraw)
                    && self@.committed[self@.rel()].uploaded == u@,
                None => !(self@.want is Record || self@.want is Withdraw),
            },
    {
        match self.want {
            Want::Record | Want::Withdraw => {
                proof {
                    assert(committed_map(self.committed@).dom() =~= self.committed@.dom());
                }
                match self.committed.get(&self.order[self.at].path) {
                    Some(c) => Some(c.uploaded.clone()),
                    None => None,
                }
            },
            _ => None,
        }
    }

    fn pass(&mut self)
        requires
            old(self)@.at < old(self)@.order.len(),
        ensures
            final(self)@ == old(self)@.passed(),
    {
        let total = self.order.len();
        self.at = self.at + 1;
        self.want = if self.at < total {
            Want::Look
        } else {
            Want::Over
        };
    }

    fn settle(&mut self)
        requires
            old(self)@.at < old(self)@.order.len(),
        ensures
            final(self)@ == old(self)@.settled(),
    {
        let ghost was = self@;
        let rel = self.order[self.at].path.as_str().to_owned();
        self.pending.remove(&rel);
        self.committed.remove(&rel);
        proof {
            assert(self@.pending =~= was.settled().pending);
            assert(self@.committed =~= was.settled().committed);
        }
    }

    fn see(&mut self, look: Look)
        requires
            old(self)@.wf(),
            old(self)@.want is Look,
        ensures
            final(self)@ == old(self)@.saw(look),
    {
        let ghost was = self@;
        let here = match look.here {
            Some(here) => here,
            None => {
                self.settle();
                self.pass();
                return;
            },
        };
        if look.ignored || !here.folder || look.identified {
            self.settle();
            self.pass();
            return;
        }
        proof {
            assert(committed_map(self.committed@).dom() =~= self.committed@.dom());
        }
        let rel = self.order[self.at].path.as_str().to_owned();
        let done: Option<FileId> = match self.committed.get(&rel) {
            Some(c) => Some(c.id),
            None => None,
        };
        match done {
            Some(id) => {
                if id.fsid != here.id.fsid || id.ino != here.id.ino {
                    self.want = Want::Withdraw;
                } else {
                    self.want = Want::Record;
                }
            },
            None => match look.parent {
                None => {
                    self.pending.remove(&rel);
                    assert(self@.pending =~= was.pending.remove(was.rel()));
                    self.pass();
                },
                Some(attached) => {
                    if attached {
                        self.id = Some(here.id);
                        self.want = Want::Create;
                    } else {
                        self.pass();
                    }
                },
            },
        }
    }

    /// Hand back what came of the want.
    pub fn reply(&mut self, r: Reply)
        requires
            old(self)@.wf(),
            fits(old(self)@.want, r@),
        ensures
            final(self)@ == old(self)@.next(r@),
            final(self)@.wf(),
    {
        let ghost was = self@;
        match (self.want, r) {
            (Want::Look, Reply::Saw(look)) => {
                self.see(look);
            },
            (Want::Withdraw, Reply::Did(ok)) => {
                if ok {
                    let rel = self.order[self.at].path.as_str().to_owned();
                    self.committed.remove(&rel);
                    assert(self@.committed =~= was.committed.remove(was.rel()));
                }
                self.pass();
            },
            (Want::Record, Reply::Did(ok)) => {
                if ok {
                    proof {
                        assert(committed_map(self.committed@).dom() =~= self.committed@.dom());
                    }
                    let rel = self.order[self.at].path.as_str().to_owned();
                    let uploaded: Option<Uploaded> = match self.committed.get(&rel) {
                        Some(c) => Some(c.uploaded.clone()),
                        None => None,
                    };
                    if let Some(u) = uploaded {
                        let ghost pair = (rel@, u@);
                        self.recorded.push((rel, u));
                        assert(self@.recorded =~= was.recorded.push(pair));
                    }
                    self.settle();
                }
                self.pass();
            },
            (Want::Create, Reply::Created(Some(u))) => {
                let rel = self.order[self.at].path.as_str().to_owned();
                if let Some(id) = self.id {
                    let c = CommittedFolder { uploaded: u, id };
                    let ghost m = c@;
                    self.committed.insert(rel, c);
                    assert(self@.committed =~= was.committed.insert(was.rel(), m));
                }
                self.want = Want::Record;
            },
            (Want::Create, Reply::Created(None)) => {
                self.pass();
            },
            _ => {},
        }
    }

    /// What is left to do later, and what was recorded.
    pub fn finish(self) -> (r: (
        Table<String, ()>,
        Table<String, CommittedFolder>,
        Vec<(String, Uploaded)>,
    ))
        ensures
            r.0@.dom() == self@.pending,
            committed_map(r.1@) == self@.committed,
            recorded_models(r.2@) == self@.recorded,
    {
        (self.pending, self.committed, self.recorded)
    }
}

/// Every reply brings the creation nearer its end.
pub proof fn law_creating_ends(c: CreatesModel, r: ReplyModel)
    requires
        c.wf(),
        fits(c.want, r),
    ensures
        0 <= c.next(r).left() < c.left(),
        c.next(r).wf(),
{
}

/// A folder whose object was created for it is not created again: it is
/// recorded, or, where another folder has taken its path, removed.
pub proof fn law_a_create_is_never_repeated(c: CreatesModel, look: Look)
    requires
        c.wf(),
        c.want is Look,
        c.committed.dom().contains(c.rel()),
    ensures
        !(c.next(ReplyModel::Saw(look)).want is Create),
{
}

/// Where recording fails, what was created is kept for another try.
pub proof fn law_a_create_outlives_a_failed_record(c: CreatesModel, u: UploadedModel)
    requires
        c.wf(),
        c.want is Create,
    ensures
        ({
            let done = c.next(ReplyModel::Created(Some(u))).next(ReplyModel::Did(false));
            &&& done.committed.dom().contains(c.rel())
            &&& done.committed[c.rel()].uploaded == u
            &&& done.pending == c.pending
        }),
{
}

/// A folder is created only where it is there, is not attached to an object,
/// is synced, and the folder above it is attached to one.
pub proof fn law_a_parent_is_attached_before_its_child(c: CreatesModel, look: Look)
    requires
        c.wf(),
        c.want is Look,
        c.next(ReplyModel::Saw(look)).want is Create,
    ensures
        look.parent == Some(true),
        !look.ignored,
        !look.identified,
        look.here is Some,
        look.here->0.folder,
{
}

/// No folder comes before one that lies less deep.
pub proof fn law_parents_come_first(pending: Set<Seq<char>>, i: int, j: int)
    requires
        0 <= i < j < shallow_first(pending).len(),
    ensures
        local_changes::depth(shallow_first(pending)[i]) <= local_changes::depth(
            shallow_first(pending)[j],
        ),
{
    sort::lemma_arranged::<ByDepth>(table::in_key_order::<String>(pending));
    assert(!ByDepth::ahead(shallow_first(pending)[j], shallow_first(pending)[i]));
}

/// The pass is done with a folder and goes on to the next in order.
pub open spec fn goes_on(c: CreatesModel, d: CreatesModel) -> bool {
    &&& d.at == c.at + 1
    &&& d.want == if c.at + 1 < c.order.len() {
        Want::Look
    } else {
        Want::Over
    }
    &&& d.order == c.order
    &&& d.id == c.id
}

/// What becomes of a folder that was looked at. One that is ignored, gone, no
/// folder, or already an object needs nothing more. One that was created before is
/// recorded, or withdrawn where another folder stands there now. One under a parent
/// that is no object yet waits, one without a parent to go by is given up, and any
/// other is created.
pub proof fn law_a_pending_folder_is_created(c: CreatesModel, look: Look)
    requires
        c.wf(),
        c.want is Look,
    ensures
        ({
            let d = c.next(ReplyModel::Saw(look));
            let rel = c.order[c.at as int];
            let over = look.ignored || look.identified || look.here is None || !look.here->0.folder;
            let made = c.committed.dom().contains(rel);
            &&& over ==> goes_on(c, d) && d.pending == c.pending.remove(rel) && d.committed
                == c.committed.remove(rel) && d.recorded == c.recorded
            &&& !over && made && c.committed[rel].id == look.here->0.id ==> d == (CreatesModel {
                want: Want::Record,
                ..c
            })
            &&& !over && made && c.committed[rel].id != look.here->0.id ==> d == (CreatesModel {
                want: Want::Withdraw,
                ..c
            })
            &&& !over && !made && look.parent == Some(true) ==> d == (CreatesModel {
                want: Want::Create,
                id: Some(look.here->0.id),
                ..c
            })
            &&& !over && !made && look.parent == Some(false) ==> goes_on(c, d) && d.pending
                == c.pending && d.committed == c.committed && d.recorded == c.recorded
            &&& !over && !made && look.parent is None ==> goes_on(c, d) && d.pending
                == c.pending.remove(rel) && d.committed == c.committed && d.recorded == c.recorded
        }),
{
}

/// A folder that was created is remembered as the object that came back, for the
/// folder that was looked at, and is to be recorded next. A create that failed
/// leaves the folder pending.
pub proof fn law_a_created_folder_is_recorded(c: CreatesModel, u: UploadedModel)
    requires
        c.wf(),
        c.want is Create,
    ensures
        ({
            let rel = c.order[c.at as int];
            let made = c.next(ReplyModel::Created(Some(u)));
            let done = made.next(ReplyModel::Did(true));
            let failed = c.next(ReplyModel::Created(None));
            &&& made == (CreatesModel {
                want: Want::Record,
                committed: c.committed.insert(rel, CommittedModel { uploaded: u, id: c.id->0 }),
                ..c
            })
            &&& goes_on(made, done)
            &&& done.recorded == c.recorded.push((rel, u))
            &&& done.pending == c.pending.remove(rel)
            &&& done.committed == c.committed.remove(rel)
            &&& goes_on(c, failed)
            &&& failed.pending == c.pending
            &&& failed.committed == c.committed
            &&& failed.recorded == c.recorded
        }),
{
    let rel = c.order[c.at as int];
    let made = c.next(ReplyModel::Created(Some(u)));
    assert(made.committed.remove(rel) =~= c.committed.remove(rel));
}

/// Recording a folder settles it, and one that could not be recorded stays pending
/// and created. An object of a folder that is no longer there is forgotten once it
/// was withdrawn, and the folder stays pending either way.
pub proof fn law_what_recording_and_withdrawing_leave(c: CreatesModel)
    requires
        c.wf(),
        c.want is Record || c.want is Withdraw,
    ensures
        ({
            let rel = c.order[c.at as int];
            let done = c.next(ReplyModel::Did(true));
            let failed = c.next(ReplyModel::Did(false));
            &&& goes_on(c, done) && goes_on(c, failed)
            &&& failed.pending == c.pending && failed.committed == c.committed && failed.recorded
                == c.recorded
            &&& done.committed == c.committed.remove(rel)
            &&& c.want is Record ==> done.pending == c.pending.remove(rel) && done.recorded
                == c.recorded.push((rel, c.committed[rel].uploaded))
            &&& c.want is Withdraw ==> done.pending == c.pending && done.recorded == c.recorded
        }),
{
}

/// Every pending folder has its turn, once.
pub proof fn law_every_pending_folder_has_its_turn(pending: Set<Seq<char>>, rel: Seq<char>)
    requires
        pending.finite(),
    ensures
        shallow_first(pending).contains(rel) <==> pending.contains(rel),
        shallow_first(pending).len() == pending.len(),
{
    let keys = table::in_key_order::<String>(pending);
    table::lemma_in_key_order::<String>(pending);
    table::law_each_key_comes_once::<String>(pending);
    sort::lemma_arranged::<ByDepth>(keys);
    sort::lemma_arranged_contains::<ByDepth>(keys, rel);
}

} // verus!
