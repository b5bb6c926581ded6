//! A delta pass, one decision at a time.
//!
//! The pass owns the decisions and its caller owns the filesystem: the pass
//! asks one question, the caller looks or acts and hands back the answer, and
//! the pass decides what comes next. It ends by saying that it is finished.

use crate::delta::{
    self, Applied, AppliedModel, Change, ChangeModel, Failed, FailedModel, Failure, FailureModel,
    Kept, KeptModel, Stopped, StoppedModel, Why,
};
use crate::paths;
use crate::table::{FileId, Table};
use crate::text;
use vstd::prelude::*;

verus! {

/// What a pass wants to be looked up or done next, for its current change.
#[derive(Debug, Clone, Copy, PartialEq, Eq, Structural)]
pub enum Ask {
    /// Does the sync root still lead to the filesystem the pass began on?
    Root,
    /// Is there anything at the local path that the object had so far?
    ExistingThere,
    /// Is there anything at the target?
    TargetThere,
    /// Create the directories above the target.
    MakeParents,
    /// Rename the existing folder to the target.
    RenameFolder,
    /// Create the directories above the target if that can be done, rename the
    /// existing file to the target, and look at it there.
    RelocateFile,
    /// What is at the target, where a folder is wanted?
    LookFolder,
    /// Create a folder at the target.
    MakeFolder,
    /// Which cloud identity is recorded at the target?
    ReadId,
    /// Record the change's identity at the target.
    WriteId,
    /// Record the change's version at the target, or that it has none.
    WriteTag,
    /// What is at the target, where a file is wanted?
    LookFile,
    /// Place a placeholder at the target, where nothing is.
    PlaceNew,
    /// Place a placeholder over the file at the target.
    PlaceOver,
    /// What is at the local path of the file that is gone from the cloud?
    LookGone,
    /// Remove that file.
    RemoveFile,
    /// Remove the existing folder if it is empty.
    RemoveFolder,
    /// Take identity and version off the existing folder.
    Detach,
    /// Nothing is left to do.
    Finished,
    /// The pass was given up on an error.
    Aborted,
}

/// What a look at a local file shows.
#[derive(Debug, PartialEq, Eq)]
pub struct FileFacts {
    pub file: FileId,
    pub len: u64,
    /// The recorded identity, if one could be read.
    pub id: Option<Vec<u8>>,
    /// The recorded version, if one could be read.
    pub etag: Option<Vec<u8>>,
    /// Whether the file no longer looks the way it was left.
    pub dirty: bool,
}

/// What a look at a local file shows, over byte sequences.
#[verifier::ext_equal]
pub struct FactsModel {
    pub file: FileId,
    pub len: u64,
    pub id: Option<Seq<u8>>,
    pub etag: Option<Seq<u8>>,
    pub dirty: bool,
}

pub open spec fn maybe_bytes(v: Option<Vec<u8>>) -> Option<Seq<u8>> {
    match v {
        Some(b) => Some(b@),
        None => None,
    }
}

impl View for FileFacts {
    type V = FactsModel;

    open spec fn view(&self) -> FactsModel {
        FactsModel {
            file: self.file,
            len: self.len,
            id: maybe_bytes(self.id),
            etag: maybe_bytes(self.etag),
            dirty: self.dirty,
        }
    }
}

/// What came of a question.
#[derive(Debug, PartialEq, Eq)]
pub enum Answer {
    /// Whether the root is still the one the pass began on.
    Current(bool),
    /// Whether the root is the same could not be established.
    Unverifiable(String),
    /// Whether anything is there.
    There(bool),
    /// It was done.
    Done,
    /// It could not be done.
    Failed(String),
    /// What is there could not be looked at.
    Unreadable(String),
    /// Something is there; whether it is a directory.
    Folder(bool),
    /// Nothing is there.
    Missing,
    /// The folder has local content.
    NotEmpty,
    /// The recorded identity.
    Id(Option<Vec<u8>>),
    /// A file is there.
    File(FileFacts),
}

/// What came of a question, over texts.
#[verifier::ext_equal]
pub enum AnswerModel {
    Current(bool),
    Unverifiable(Seq<char>),
    There(bool),
    Done,
    Failed(Seq<char>),
    Unreadable(Seq<char>),
    Folder(bool),
    Missing,
    NotEmpty,
    Id(Option<Seq<u8>>),
    File(FactsModel),
}

impl View for Answer {
    type V = AnswerModel;

    open spec fn view(&self) -> AnswerModel {
        match *self {
            Answer::Current(b) => AnswerModel::Current(b),
            Answer::Unverifiable(e) => AnswerModel::Unverifiable(e@),
            Answer::There(b) => AnswerModel::There(b),
            Answer::Done => AnswerModel::Done,
            Answer::Failed(e) => AnswerModel::Failed(e@),
            Answer::Unreadable(e) => AnswerModel::Unreadable(e@),
            Answer::Folder(b) => AnswerModel::Folder(b),
            Answer::Missing => AnswerModel::Missing,
            Answer::NotEmpty => AnswerModel::NotEmpty,
            Answer::Id(v) => AnswerModel::Id(maybe_bytes(v)),
            Answer::File(f) => AnswerModel::File(f@),
        }
    }
}

/// Which answers a question can have.
pub open spec fn fits(ask: Ask, a: AnswerModel) -> bool {
    match ask {
        Ask::Root => a is Current || a is Unverifiable,
        Ask::ExistingThere => a is There,
        Ask::TargetThere => a is There,
        Ask::MakeParents => a is Done || a is Failed,
        Ask::RenameFolder => a is Done || a is Failed,
        Ask::RelocateFile => a is Done || a is Failed || a is Unreadable,
        Ask::LookFolder => a is Folder || a is Missing || a is Unreadable,
        Ask::MakeFolder => a is Done || a is Failed,
        Ask::ReadId => a is Id,
        Ask::WriteId => a is Done || a is Failed,
        Ask::WriteTag => a is Done || a is Failed,
        Ask::LookFile => a is Missing || a is File,
        Ask::PlaceNew => a is Done || a is Failed,
        Ask::PlaceOver => a is Done || a is Failed,
        Ask::LookGone => a is Missing || a is File,
        Ask::RemoveFile => a is Done || a is Failed,
        Ask::RemoveFolder => a is Done || a is Missing || a is NotEmpty || a is Failed,
        Ask::Detach => a is Done || a is Failed,
        Ask::Finished => false,
        Ask::Aborted => false,
    }
}

/// Where a pass stands.
#[verifier::ext_equal]
pub struct PassModel {
    pub root: Seq<char>,
    /// The largest size that a change may claim.
    pub limit: u64,
    /// Names of the changes' paths that belong to the framework itself.
    pub reserved: Seq<Seq<char>>,
    /// The files with an edit that has not been sent.
    pub waiting: Set<FileId>,
    /// The local path of each object that is a file.
    pub files: Map<Seq<char>, Seq<char>>,
    /// The local path of each object that is a folder.
    pub folders: Map<Seq<char>, Seq<char>>,
    pub todo: Seq<ChangeModel>,
    pub at: nat,
    pub ask: Ask,
    pub out: AppliedModel,
    pub error: Option<Seq<char>>,
}

impl PassModel {
    pub open spec fn change(self) -> ChangeModel {
        self.todo[self.at as int]
    }

    pub open spec fn subject(self) -> Seq<char> {
        delta::subject(self.change())
    }

    /// The path that the current change names, or none.
    pub open spec fn named(self) -> Seq<char> {
        match self.change() {
            ChangeModel::Upserted { path, .. } => path,
            ChangeModel::FolderUpserted { path, .. } => path,
            ChangeModel::FolderRemoved { path, .. } => path,
            ChangeModel::Removed { .. } => Seq::empty(),
        }
    }

    /// Where the current change goes locally.
    pub open spec fn target(self) -> Seq<char> {
        if self.named().len() == 0 {
            self.root
        } else {
            paths::joined(self.root, self.named())
        }
    }

    /// Where the current change's object is locally, as far as is known.
    pub open spec fn existing(self) -> Option<Seq<char>> {
        match self.change() {
            ChangeModel::Upserted { cloud_id, .. } => if self.files.dom().contains(cloud_id) {
                Some(self.files[cloud_id])
            } else {
                None
            },
            ChangeModel::Removed { cloud_id } => if self.files.dom().contains(cloud_id) {
                Some(self.files[cloud_id])
            } else {
                None
            },
            ChangeModel::FolderUpserted { cloud_id, .. } => if self.folders.dom().contains(
                cloud_id,
            ) {
                Some(self.folders[cloud_id])
            } else {
                None
            },
            ChangeModel::FolderRemoved { cloud_id, .. } => if self.folders.dom().contains(
                cloud_id,
            ) {
                Some(self.folders[cloud_id])
            } else {
                None
            },
        }
    }

    /// Whether the object is known at another path than the target.
    pub open spec fn is_elsewhere(self) -> bool {
        self.existing() is Some && paths::parts(self.existing()->0) != paths::parts(self.target())
    }

    pub open spec fn asking(self, ask: Ask) -> PassModel {
        PassModel { ask, ..self }
    }

    /// The current change is done with.
    pub open spec fn advanced(self) -> PassModel {
        PassModel {
            at: self.at + 1,
            ask: if self.at + 1 < self.todo.len() {
                Ask::Root
            } else {
                Ask::Finished
            },
            ..self
        }
    }

    /// The current change failed.
    pub open spec fn failing(self, path: Seq<char>, why: FailureModel, retry: bool) -> PassModel {
        PassModel {
            out: AppliedModel {
                failed: self.out.failed.push(FailedModel { path, why }),
                retryable: self.out.retryable || retry,
                ..self.out
            },
            ..self
        }.advanced()
    }

    /// The current change was refused, to keep what is there.
    pub open spec fn keeping(self, path: Seq<char>, why: Why) -> PassModel {
        PassModel {
            out: AppliedModel {
                kept_local: self.out.kept_local.push(KeptModel { path, why }),
                ..self.out
            },
            ..self
        }.advanced()
    }

    /// The pass stops where it stands; what is left is for another one.
    pub open spec fn stopping(self, why: StoppedModel) -> PassModel {
        PassModel {
            out: AppliedModel { stopped: Some(why), retryable: true, ..self.out },
            ask: Ask::Finished,
            ..self
        }
    }

    pub open spec fn aborting(self, error: Seq<char>) -> PassModel {
        PassModel { ask: Ask::Aborted, error: Some(error), ..self }
    }

    /// The question that looks at the target.
    pub open spec fn look(self) -> Ask {
        if self.change() is FolderUpserted {
            Ask::LookFolder
        } else {
            Ask::LookFile
        }
    }

    /// The first question about the current change.
    pub open spec fn begun(self) -> PassModel {
        match self.change() {
            ChangeModel::FolderUpserted { path, .. } => {
                if delta::folder_target(self.root, path, self.reserved) is None {
                    self.failing(path, FailureModel::PathRefused, false)
                } else if self.is_elsewhere() {
                    self.asking(Ask::ExistingThere)
                } else {
                    self.asking(Ask::LookFolder)
                }
            },
            ChangeModel::Upserted { path, size, .. } => {
                if !delta::is_safe(path, self.reserved) {
                    self.failing(path, FailureModel::PathRefused, false)
                } else if size > self.limit {
                    self.failing(path, FailureModel::TooLarge { size }, false)
                } else if self.is_elsewhere() {
                    self.asking(Ask::ExistingThere)
                } else {
                    self.asking(Ask::LookFile)
                }
            },
            ChangeModel::Removed { .. } => {
                if self.existing() is None {
                    self.advanced()
                } else {
                    self.asking(Ask::LookGone)
                }
            },
            ChangeModel::FolderRemoved { path, .. } => {
                if self.existing() is None {
                    self.advanced()
                } else if paths::parts(self.existing()->0) == paths::parts(self.root) {
                    self.failing(
                        path,
                        FailureModel::Remove("the sync root cannot be removed"@),
                        false,
                    )
                } else {
                    self.asking(Ask::RemoveFolder)
                }
            },
        }
    }

    pub open spec fn moved(self) -> PassModel {
        PassModel { out: AppliedModel { moved: self.out.moved + 1, ..self.out }, ..self }
    }

    pub open spec fn created(self) -> PassModel {
        PassModel { out: AppliedModel { created: self.out.created + 1, ..self.out }, ..self }
    }

    pub open spec fn updated(self) -> PassModel {
        PassModel { out: AppliedModel { updated: self.out.updated + 1, ..self.out }, ..self }
    }

    pub open spec fn removed(self) -> PassModel {
        PassModel { out: AppliedModel { removed: self.out.removed + 1, ..self.out }, ..self }
    }

    pub open spec fn with_file(self) -> PassModel {
        PassModel { files: self.files.insert(self.subject(), self.target()), ..self }
    }

    pub open spec fn with_folder(self) -> PassModel {
        PassModel { folders: self.folders.insert(self.subject(), self.target()), ..self }
    }

    pub open spec fn without_folder(self) -> PassModel {
        PassModel { folders: self.folders.remove(self.subject()), ..self }
    }

    /// What follows from the state of a file that is where the change wants
    /// one.
    pub open spec fn judged(self, f: FactsModel) -> PassModel {
        match self.change() {
            ChangeModel::Upserted { cloud_id, path, size, etag } => match verdict(
                f,
                cloud_id,
                etag,
                size,
                self.waiting,
            ) {
                Verdict::Current => self.advanced(),
                Verdict::Keep(why) => self.keeping(path, why),
                Verdict::Replace => self.asking(Ask::PlaceOver),
            },
            _ => self,
        }
    }

    /// Where the pass stands once a question has been answered.
    pub open spec fn next(self, a: AnswerModel) -> PassModel {
        match (self.ask, a) {
            (Ask::Root, AnswerModel::Current(b)) => if b {
                self.begun()
            } else {
                self.stopping(StoppedModel::MountChanged)
            },
            (Ask::Root, AnswerModel::Unverifiable(e)) => self.stopping(
                StoppedModel::MountUnverifiable(e),
            ),
            (Ask::ExistingThere, AnswerModel::There(b)) => if b {
                self.asking(Ask::TargetThere)
            } else {
                self.asking(self.look())
            },
            (Ask::TargetThere, AnswerModel::There(b)) => if b {
                self.failing(self.named(), FailureModel::DestinationOccupied, true)
            } else if self.change() is FolderUpserted {
                self.asking(Ask::MakeParents)
            } else {
                self.asking(Ask::RelocateFile)
            },
            (Ask::MakeParents, AnswerModel::Done) => self.asking(Ask::RenameFolder),
            (Ask::MakeParents, AnswerModel::Failed(e)) => self.aborting(e),
            (Ask::RenameFolder, AnswerModel::Done) => self.moved().asking(Ask::LookFolder),
            (Ask::RenameFolder, AnswerModel::Failed(e)) => self.failing(
                self.named(),
                FailureModel::Rename(e),
                true,
            ),
            (Ask::RelocateFile, AnswerModel::Done) => self.moved().with_file().asking(
                Ask::LookFile,
            ),
            (Ask::RelocateFile, AnswerModel::Failed(e)) => self.failing(
                self.named(),
                FailureModel::Rename(e),
                true,
            ),
            (Ask::RelocateFile, AnswerModel::Unreadable(e)) => self.aborting(e),
            (Ask::LookFolder, AnswerModel::Folder(b)) => if b {
                self.asking(Ask::ReadId)
            } else {
                self.failing(self.named(), FailureModel::DestinationOccupied, true)
            },
            (Ask::LookFolder, AnswerModel::Missing) => self.asking(Ask::MakeFolder),
            (Ask::LookFolder, AnswerModel::Unreadable(e)) => self.failing(
                self.named(),
                FailureModel::Place(e),
                true,
            ),
            (Ask::MakeFolder, AnswerModel::Done) => self.created().asking(Ask::ReadId),
            (Ask::MakeFolder, AnswerModel::Failed(e)) => self.failing(
                self.named(),
                FailureModel::Place(e),
                true,
            ),
            (Ask::ReadId, AnswerModel::Id(id)) => if id is Some && id->0 != text::bytes(
                self.subject(),
            ) {
                self.failing(self.named(), FailureModel::DestinationOccupied, true)
            } else {
                self.asking(Ask::WriteId)
            },
            (Ask::WriteId, AnswerModel::Done) => self.asking(Ask::WriteTag),
            (Ask::WriteId, AnswerModel::Failed(e)) => self.failing(
                self.named(),
                FailureModel::Place(e),
                true,
            ),
            (Ask::WriteTag, AnswerModel::Done) => self.with_folder().advanced(),
            (Ask::WriteTag, AnswerModel::Failed(e)) => self.failing(
                self.named(),
                FailureModel::Place(e),
                true,
            ),
            (Ask::LookFile, AnswerModel::Missing) => self.asking(Ask::PlaceNew),
            (Ask::LookFile, AnswerModel::File(f)) => self.judged(f),
            (Ask::PlaceNew, AnswerModel::Done) => self.created().advanced(),
            (Ask::PlaceNew, AnswerModel::Failed(e)) => self.failing(
                self.named(),
                FailureModel::Place(e),
                false,
            ),
            (Ask::PlaceOver, AnswerModel::Done) => self.updated().advanced(),
            (Ask::PlaceOver, AnswerModel::Failed(e)) => self.failing(
                self.named(),
                FailureModel::Place(e),
                false,
            ),
            (Ask::LookGone, AnswerModel::Missing) => self.advanced(),
            (Ask::LookGone, AnswerModel::File(f)) => if self.waiting.contains(f.file) {
                self.keeping(self.existing()->0, Why::EditWaiting)
            } else if f.dirty {
                self.keeping(self.existing()->0, Why::ChangedUnderneath)
            } else {
                self.asking(Ask::RemoveFile)
            },
            (Ask::RemoveFile, AnswerModel::Done) => self.removed().advanced(),
            (Ask::RemoveFile, AnswerModel::Failed(e)) => self.failing(
                self.existing()->0,
                FailureModel::Remove(e),
                false,
            ),
            (Ask::RemoveFolder, AnswerModel::Done) => self.removed().without_folder().advanced(),
            (Ask::RemoveFolder, AnswerModel::Missing) => self.without_folder().advanced(),
            (Ask::RemoveFolder, AnswerModel::NotEmpty) => self.asking(Ask::Detach),
            (Ask::RemoveFolder, AnswerModel::Failed(e)) => self.failing(
                self.named(),
                FailureModel::Remove(e),
                true,
            ),
            (Ask::Detach, AnswerModel::Done) => self.without_folder().advanced(),
            (Ask::Detach, AnswerModel::Failed(e)) => self.failing(
                self.named(),
                FailureModel::Remove(e),
                true,
            ),
            _ => self,
        }
    }

    /// Whether the current change has already been counted as moved.
    pub open spec fn past_move(self) -> bool {
        self.ask is LookFolder || self.ask is MakeFolder || self.ask is ReadId || self.ask is WriteId
            || self.ask is WriteTag || self.ask is LookFile || self.ask is PlaceNew
            || self.ask is PlaceOver
    }

    /// Whether the current change has already been counted as created.
    pub open spec fn past_create(self) -> bool {
        self.ask is ReadId || self.ask is WriteId || self.ask is WriteTag
    }

    /// Which changes a question can be about.
    pub open spec fn is_apt(self) -> bool {
        match self.ask {
            Ask::Root | Ask::Finished | Ask::Aborted => true,
            Ask::ExistingThere | Ask::TargetThere => (self.change() is FolderUpserted
                || self.change() is Upserted) && self.existing() is Some,
            Ask::MakeParents | Ask::RenameFolder => self.change() is FolderUpserted
                && self.existing() is Some,
            Ask::LookFolder | Ask::MakeFolder | Ask::ReadId | Ask::WriteId | Ask::WriteTag => {
                self.change() is FolderUpserted
            },
            Ask::RelocateFile => self.change() is Upserted && self.existing() is Some,
            Ask::LookFile | Ask::PlaceNew | Ask::PlaceOver => self.change() is Upserted,
            Ask::LookGone | Ask::RemoveFile => self.change() is Removed && self.existing() is Some,
            Ask::RemoveFolder | Ask::Detach => self.change() is FolderRemoved
                && self.existing() is Some,
        }
    }

    /// What every pass keeps.
    pub open spec fn wf(self) -> bool {
        &&& self.at <= self.todo.len()
        &&& !(self.ask is Finished || self.ask is Aborted) ==> self.at < self.todo.len()
        &&& self.is_apt()
        &&& self.out.moved <= self.at + if self.past_move() {
            1int
        } else {
            0int
        }
        &&& self.out.created <= self.at + if self.past_create() {
            1int
        } else {
            0int
        }
        &&& self.out.updated <= self.at
        &&& self.out.removed <= self.at
        &&& self.ask is Aborted <==> self.error is Some
    }
}

/// What becomes of a local file that stands where a change wants one.
#[derive(Debug, Clone, Copy, PartialEq, Eq, Structural)]
pub enum Verdict {
    /// It already is what the change describes.
    Current,
    /// It holds work that would be lost.
    Keep(Why),
    /// It may be replaced.
    Replace,
}

/// Whether a local file already is what a change describes: the identity, the
/// size, and the version where the cloud supplies one.
pub open spec fn is_current(
    f: FactsModel,
    cloud_id: Seq<char>,
    etag: Option<Seq<char>>,
    size: u64,
) -> bool {
    &&& f.id == Some(text::bytes(cloud_id))
    &&& f.len == size
    &&& match (etag, f.etag) {
        (None, _) => true,
        (Some(remote), Some(local)) => text::bytes(remote) == local,
        (Some(_), None) => false,
    }
}

pub open spec fn verdict(
    f: FactsModel,
    cloud_id: Seq<char>,
    etag: Option<Seq<char>>,
    size: u64,
    waiting: Set<FileId>,
) -> Verdict {
    if is_current(f, cloud_id, etag, size) {
        Verdict::Current
    } else if waiting.contains(f.file) {
        Verdict::Keep(Why::EditWaiting)
    } else if (f.id is None || f.id->0.len() == 0) && f.len > 0 {
        Verdict::Keep(Why::NeverUploaded)
    } else if f.dirty {
        Verdict::Keep(Why::ChangedUnderneath)
    } else {
        Verdict::Replace
    }
}

/// Judge a local file that stands where a change wants one.
pub fn judge(
    f: &FileFacts,
    cloud_id: &str,
    etag: &Option<String>,
    size: u64,
    waiting: &Table<FileId, ()>,
) -> (v: Verdict)
    ensures
        v == verdict(f@, cloud_id@, text::maybe(*etag), size, waiting@.dom()),
{
    let known = match &f.id {
        Some(id) => text::same_bytes(id, cloud_id),
        None => false,
    };
    let same_version = match (etag, &f.etag) {
        (None, _) => true,
        (Some(remote), Some(local)) => text::same_bytes(local, remote.as_str()),
        (Some(_), None) => false,
    };
    if known && f.len == size && same_version {
        return Verdict::Current;
    }
    if waiting.contains(&f.file) {
        return Verdict::Keep(Why::EditWaiting);
    }
    let nameless = match &f.id {
        Some(id) => id.len() == 0,
        None => true,
    };
    if nameless && f.len > 0 {
        return Verdict::Keep(Why::NeverUploaded);
    }
    if f.dirty {
        return Verdict::Keep(Why::ChangedUnderneath);
    }
    Verdict::Replace
}

/// A delta pass under way.
pub struct Pass {
    root: String,
    limit: u64,
    reserved: Vec<String>,
    waiting: Table<FileId, ()>,
    files: Table<String, String>,
    folders: Table<String, String>,
    todo: Vec<Change>,
    at: usize,
    ask: Ask,
    out: Applied,
    error: Option<String>,
}

/// The texts that a table of strings holds.
pub open spec fn text_map(m: Map<Seq<char>, String>) -> Map<Seq<char>, Seq<char>> {
    m.map_values(|s: String| s@)
}

impl View for Pass {
    type V = PassModel;

    closed spec fn view(&self) -> PassModel {
        PassModel {
            root: self.root@,
            limit: self.limit,
            reserved: text::texts(self.reserved@),
            waiting: self.waiting@.dom(),
            files: text_map(self.files@),
            folders: text_map(self.folders@),
            todo: delta::changes(self.todo@),
            at: self.at as nat,
            ask: self.ask,
            out: self.out@,
            error: text::maybe(self.error),
        }
    }
}

impl Pass {
    /// Begin a pass over some changes. `files` and `folders` say where each
    /// known object is locally, and `waiting` which files have an edit that
    /// has not been sent.
    pub fn begin(
        root: &str,
        limit: u64,
        reserved: Vec<String>,
        changes: &Vec<Change>,
        waiting: Table<FileId, ()>,
        files: Table<String, String>,
        folders: Table<String, String>,
    ) -> (p: Self)
        ensures
            p@.wf(),
            p@ == (PassModel {
                root: root@,
                limit,
                reserved: text::texts(reserved@),
                waiting: waiting@.dom(),
                files: text_map(files@),
                folders: text_map(folders@),
                todo: delta::coalesced(delta::changes(changes@)),
                at: 0,
                ask: if delta::coalesced(delta::changes(changes@)).len() > 0 {
                    Ask::Root
                } else {
                    Ask::Finished
                },
                out: delta::nothing_applied(),
                error: None,
            }),
    {
        let todo = delta::coalesce(changes);
        assert(delta::changes(todo@).len() == todo@.len());
        let ask = if todo.len() > 0 {
            Ask::Root
        } else {
            Ask::Finished
        };
        Pass {
            root: root.to_owned(),
            limit,
            reserved,
            waiting,
            files,
            folders,
            todo,
            at: 0,
            ask,
            out: Applied::default(),
            error: None,
        }
    }

    /// The question that is open.
    pub fn ask(&self) -> (a: Ask)
        ensures
            a == self@.ask,
    {
        self.ask
    }

    /// The change that the question is about.
    pub fn change(&self) -> (c: &Change)
        requires
            self@.at < self@.todo.len(),
        ensures
            c@ == self@.change(),
    {
        &self.todo[self.at]
    }

    /// The path that the current change names.
    fn named(&self) -> (s: String)
        requires
            self@.at < self@.todo.len(),
        ensures
            s@ == self@.named(),
    {
        match self.change() {
            Change::Upserted { path, .. } => path.clone(),
            Change::FolderUpserted { path, .. } => path.clone(),
            Change::FolderRemoved { path, .. } => path.clone(),
            Change::Removed { .. } => String::new(),
        }
    }

    fn subject(&self) -> (s: String)
        requires
            self@.at < self@.todo.len(),
        ensures
            s@ == self@.subject(),
    {
        match self.change() {
            Change::Upserted { cloud_id, .. } => cloud_id.clone(),
            Change::FolderUpserted { cloud_id, .. } => cloud_id.clone(),
            Change::FolderRemoved { cloud_id, .. } => cloud_id.clone(),
            Change::Removed { cloud_id } => cloud_id.clone(),
        }
    }

    /// Where the current change goes locally.
    pub fn target(&self) -> (s: String)
        requires
            self@.at < self@.todo.len(),
        ensures
            s@ == self@.target(),
    {
        let named = self.named();
        if named.as_str().is_empty() {
            self.root.clone()
        } else {
            paths::join(self.root.as_str(), named.as_str())
        }
    }

    /// Where the current change's object is locally, as far as is known.
    pub fn existing(&self) -> (s: Option<String>)
        requires
            self@.at < self@.todo.len(),
        ensures
            text::maybe(s) == self@.existing(),
    {
        let known = match self.change() {
            Change::Upserted { cloud_id, .. } => self.files.get(cloud_id),
            Change::Removed { cloud_id } => self.files.get(cloud_id),
            Change::FolderUpserted { cloud_id, .. } => self.folders.get(cloud_id),
            Change::FolderRemoved { cloud_id, .. } => self.folders.get(cloud_id),
        };
        match known {
            Some(path) => Some(path.clone()),
            None => None,
        }
    }

    fn is_elsewhere(&self) -> (b: bool)
        requires
            self@.at < self@.todo.len(),
        ensures
            b == self@.is_elsewhere(),
    {
        match self.existing() {
            Some(path) => !paths::same_path(path.as_str(), self.target().as_str()),
            None => false,
        }
    }

    fn advance(&mut self)
        requires
            old(self)@.at < old(self)@.todo.len(),
        ensures
            final(self)@ == old(self)@.advanced(),
    {
        let total = self.todo.len();
        self.at = self.at + 1;
        self.ask = if self.at < total {
            Ask::Root
        } else {
            Ask::Finished
        };
    }

    fn fail(&mut self, path: &str, why: Failure, retry: bool)
        requires
            old(self)@.at < old(self)@.todo.len(),
        ensures
            final(self)@ == old(self)@.failing(path@, why@, retry),
    {
        let ghost had = self@.out.failed;
        let ghost m = FailedModel { path: path@, why: why@ };
        self.out.failed.push(Failed::new(path, why));
        assert(self.out@.failed =~= had.push(m));
        if retry {
            self.out.retryable = true;
        }
        self.advance();
    }

    fn keep(&mut self, path: &str, why: Why)
        requires
            old(self)@.at < old(self)@.todo.len(),
        ensures
            final(self)@ == old(self)@.keeping(path@, why),
    {
        let ghost had = self@.out.kept_local;
        self.out.kept_local.push(Kept::new(path, why));
        assert(self.out@.kept_local =~= had.push(KeptModel { path: path@, why }));
        self.advance();
    }

    fn stop(&mut self, why: Stopped)
        ensures
            final(self)@ == old(self)@.stopping(why@),
    {
        self.out.stopped = Some(why);
        self.out.retryable = true;
        self.ask = Ask::Finished;
    }

    fn abort(&mut self, error: String)
        ensures
            final(self)@ == old(self)@.aborting(error@),
    {
        self.ask = Ask::Aborted;
        self.error = Some(error);
    }

    fn drop_folder(&mut self)
        requires
            old(self)@.at < old(self)@.todo.len(),
        ensures
            final(self)@ == old(self)@.without_folder(),
    {
        let ghost had = self@.folders;
        let id = self.subject();
        self.folders.remove(&id);
        assert(self@.folders =~= had.remove(id@));
    }

    fn start(&mut self)
        requires
            old(self)@.wf(),
            old(self)@.ask is Root,
        ensures
            final(self)@ == old(self)@.begun(),
    {
        let named = self.named();
        match self.change() {
            Change::FolderUpserted { .. } => {
                if delta::folder_path(
                    self.root.as_str(),
                    named.as_str(),
                    &self.reserved,
                ).is_none() {
                    self.fail(named.as_str(), Failure::PathRefused, false);
                } else if self.is_elsewhere() {
                    self.ask = Ask::ExistingThere;
                } else {
                    self.ask = Ask::LookFolder;
                }
            },
            Change::Upserted { size, .. } => {
                let size: u64 = *size;
                if delta::safe_join(
                    self.root.as_str(),
                    named.as_str(),
                    &self.reserved,
                ).is_none() {
                    self.fail(named.as_str(), Failure::PathRefused, false);
                } else if size > self.limit {
                    self.fail(named.as_str(), Failure::TooLarge { size }, false);
                } else if self.is_elsewhere() {
                    self.ask = Ask::ExistingThere;
                } else {
                    self.ask = Ask::LookFile;
                }
            },
            Change::Removed { .. } => {
                if self.existing().is_none() {
                    self.advance();
                } else {
                    self.ask = Ask::LookGone;
                }
            },
            Change::FolderRemoved { .. } => {
                match self.existing() {
                    None => {
                        self.advance();
                    },
                    Some(path) => {
                        if paths::same_path(path.as_str(), self.root.as_str()) {
                            self.fail(
                                named.as_str(),
                                Failure::Remove("the sync root cannot be removed".to_owned()),
                                false,
                            );
                        } else {
                            self.ask = Ask::RemoveFolder;
                        }
                    },
                }
            },
        }
    }

    /// Take the answer to the open question, and return the next one.
    pub fn answer(&mut self, a: Answer) -> (ask: Ask)
        requires
            old(self)@.wf(),
            fits(old(self)@.ask, a@),
        ensures
            final(self)@.wf(),
            final(self)@ == old(self)@.next(a@),
            ask == final(self)@.ask,
    {
        proof {
            lemma_next_wf(self@, a@);
        }
        match self.ask {
            Ask::Root => {
                self.answer_root(a);
            },
            Ask::ExistingThere | Ask::TargetThere => {
                self.answer_clash(a);
            },
            Ask::MakeParents
            | Ask::RenameFolder
            | Ask::LookFolder
            | Ask::MakeFolder
            | Ask::ReadId
            | Ask::WriteId
            | Ask::WriteTag => {
                self.answer_folder(a);
            },
            Ask::RelocateFile | Ask::LookFile | Ask::PlaceNew | Ask::PlaceOver => {
                self.answer_file(a);
            },
            Ask::LookGone | Ask::RemoveFile | Ask::RemoveFolder | Ask::Detach => {
                self.answer_gone(a);
            },
            Ask::Finished | Ask::Aborted => {},
        }
        self.ask
    }

    /// The answer to whether the root is still the same.
    fn answer_root(&mut self, a: Answer)
        requires
            old(self)@.wf(),
            fits(old(self)@.ask, a@),
            old(self)@.ask is Root,
        ensures
            final(self)@ == old(self)@.next(a@),
    {
        match (self.ask, a) {
            (Ask::Root, Answer::Current(b)) => {
                if b {
                    self.start();
                } else {
                    self.stop(Stopped::MountChanged);
                }
            },
            (Ask::Root, Answer::Unverifiable(e)) => {
                self.stop(Stopped::MountUnverifiable(e));
            },
            _ => {},
        }
    }

    /// The answers on what stands where an object was and where it goes.
    fn answer_clash(&mut self, a: Answer)
        requires
            old(self)@.wf(),
            fits(old(self)@.ask, a@),
            old(self)@.ask is ExistingThere || old(self)@.ask is TargetThere,
        ensures
            final(self)@ == old(self)@.next(a@),
    {
        let named = self.named();
        match (self.ask, a) {
            (Ask::ExistingThere, Answer::There(b)) => {
                let folder = matches!(self.change(), Change::FolderUpserted { .. });
                self.ask = if b {
                    Ask::TargetThere
                } else if folder {
                    Ask::LookFolder
                } else {
                    Ask::LookFile
                };
            },
            (Ask::TargetThere, Answer::There(b)) => {
                if b {
                    self.fail(named.as_str(), Failure::DestinationOccupied, true);
                } else if matches!(self.change(), Change::FolderUpserted { .. }) {
                    self.ask = Ask::MakeParents;
                } else {
                    self.ask = Ask::RelocateFile;
                }
            },
            _ => {},
        }
    }

    /// The answers while a folder is brought about.
    fn answer_folder(&mut self, a: Answer)
        requires
            old(self)@.wf(),
            fits(old(self)@.ask, a@),
            old(self)@.ask is MakeParents || old(self)@.ask is RenameFolder || old(self)@.ask is LookFolder || old(self)@.ask is MakeFolder || old(self)@.ask is ReadId || old(self)@.ask is WriteId || old(self)@.ask is WriteTag,
        ensures
            final(self)@ == old(self)@.next(a@),
    {
        let total = self.todo.len();
        assert(self@.todo.len() == total);
        let named = self.named();
        match (self.ask, a) {
            (Ask::MakeParents, Answer::Done) => {
                self.ask = Ask::RenameFolder;
            },
            (Ask::MakeParents, Answer::Failed(e)) => {
                self.abort(e);
            },
            (Ask::RenameFolder, Answer::Done) => {
                self.out.moved = self.out.moved + 1;
                self.ask = Ask::LookFolder;
            },
            (Ask::RenameFolder, Answer::Failed(e)) => {
                self.fail(named.as_str(), Failure::Rename(e), true);
            },
            (Ask::LookFolder, Answer::Folder(b)) => {
                if b {
                    self.ask = Ask::ReadId;
                } else {
                    self.fail(named.as_str(), Failure::DestinationOccupied, true);
                }
            },
            (Ask::LookFolder, Answer::Missing) => {
                self.ask = Ask::MakeFolder;
            },
            (Ask::LookFolder, Answer::Unreadable(e)) => {
                self.fail(named.as_str(), Failure::Place(e), true);
            },
            (Ask::MakeFolder, Answer::Done) => {
                self.out.created = self.out.created + 1;
                self.ask = Ask::ReadId;
            },
            (Ask::MakeFolder, Answer::Failed(e)) => {
                self.fail(named.as_str(), Failure::Place(e), true);
            },
            (Ask::ReadId, Answer::Id(id)) => {
                let occupied = match &id {
                    Some(v) => !text::same_bytes(v, self.subject().as_str()),
                    None => false,
                };
                if occupied {
                    self.fail(named.as_str(), Failure::DestinationOccupied, true);
                } else {
                    self.ask = Ask::WriteId;
                }
            },
            (Ask::WriteId, Answer::Done) => {
                self.ask = Ask::WriteTag;
            },
            (Ask::WriteId, Answer::Failed(e)) => {
                self.fail(named.as_str(), Failure::Place(e), true);
            },
            (Ask::WriteTag, Answer::Done) => {
                let id = self.subject();
                let target = self.target();
                let ghost had = self@.folders;
                let ghost (i, t) = (id@, target@);
                self.folders.insert(id, target);
                assert(self@.folders =~= had.insert(i, t));
                self.advance();
            },
            (Ask::WriteTag, Answer::Failed(e)) => {
                self.fail(named.as_str(), Failure::Place(e), true);
            },
            _ => {},
        }
    }

    /// The answers while a file is brought about.
    fn answer_file(&mut self, a: Answer)
        requires
            old(self)@.wf(),
            fits(old(self)@.ask, a@),
            old(self)@.ask is RelocateFile || old(self)@.ask is LookFile || old(self)@.ask is PlaceNew || old(self)@.ask is PlaceOver,
        ensures
            final(self)@ == old(self)@.next(a@),
    {
        let total = self.todo.len();
        assert(self@.todo.len() == total);
        let named = self.named();
        match (self.ask, a) {
            (Ask::RelocateFile, Answer::Done) => {
                self.out.moved = self.out.moved + 1;
                let id = self.subject();
                let target = self.target();
                let ghost had = self@.files;
                let ghost (i, t) = (id@, target@);
                self.files.insert(id, target);
                assert(self@.files =~= had.insert(i, t));
                self.ask = Ask::LookFile;
            },
            (Ask::RelocateFile, Answer::Failed(e)) => {
                self.fail(named.as_str(), Failure::Rename(e), true);
            },
            (Ask::RelocateFile, Answer::Unreadable(e)) => {
                self.abort(e);
            },
            (Ask::LookFile, Answer::Missing) => {
                self.ask = Ask::PlaceNew;
            },
            (Ask::LookFile, Answer::File(f)) => {
                let v = match self.change() {
                    Change::Upserted { cloud_id, size, etag, .. } => judge(
                        &f,
                        cloud_id.as_str(),
                        etag,
                        *size,
                        &self.waiting,
                    ),
                    _ => Verdict::Current,
                };
                match v {
                    Verdict::Current => {
                        self.advance();
                    },
                    Verdict::Keep(why) => {
                        self.keep(named.as_str(), why);
                    },
                    Verdict::Replace => {
                        self.ask = Ask::PlaceOver;
                    },
                }
            },
            (Ask::PlaceNew, Answer::Done) => {
                self.out.created = self.out.created + 1;
                self.advance();
            },
            (Ask::PlaceNew, Answer::Failed(e)) => {
                self.fail(named.as_str(), Failure::Place(e), false);
            },
            (Ask::PlaceOver, Answer::Done) => {
                self.out.updated = self.out.updated + 1;
                self.advance();
            },
            (Ask::PlaceOver, Answer::Failed(e)) => {
                self.fail(named.as_str(), Failure::Place(e), false);
            },
            _ => {},
        }
    }

    /// The answers while something gone from the cloud is removed.
    fn answer_gone(&mut self, a: Answer)
        requires
            old(self)@.wf(),
            fits(old(self)@.ask, a@),
            old(self)@.ask is LookGone || old(self)@.ask is RemoveFile || old(self)@.ask is RemoveFolder || old(self)@.ask is Detach,
        ensures
            final(self)@ == old(self)@.next(a@),
    {
        let total = self.todo.len();
        assert(self@.todo.len() == total);
        let named = self.named();
        match (self.ask, a) {
            (Ask::LookGone, Answer::Missing) => {
                self.advance();
            },
            (Ask::LookGone, Answer::File(f)) => {
                if let Some(path) = self.existing() {
                    if self.waiting.contains(&f.file) {
                        self.keep(path.as_str(), Why::EditWaiting);
                    } else if f.dirty {
                        self.keep(path.as_str(), Why::ChangedUnderneath);
                    } else {
                        self.ask = Ask::RemoveFile;
                    }
                }
            },
            (Ask::RemoveFile, Answer::Done) => {
                self.out.removed = self.out.removed + 1;
                self.advance();
            },
            (Ask::RemoveFile, Answer::Failed(e)) => {
                if let Some(path) = self.existing() {
                    self.fail(path.as_str(), Failure::Remove(e), false);
                }
            },
            (Ask::RemoveFolder, Answer::Done) => {
                self.out.removed = self.out.removed + 1;
                self.drop_folder();
                self.advance();
            },
            (Ask::RemoveFolder, Answer::Missing) => {
                self.drop_folder();
                self.advance();
            },
            (Ask::RemoveFolder, Answer::NotEmpty) => {
                self.ask = Ask::Detach;
            },
            (Ask::RemoveFolder, Answer::Failed(e)) => {
                self.fail(named.as_str(), Failure::Remove(e), true);
            },
            (Ask::Detach, Answer::Done) => {
                self.drop_folder();
                self.advance();
            },
            (Ask::Detach, Answer::Failed(e)) => {
                self.fail(named.as_str(), Failure::Remove(e), true);
            },
            _ => {},
        }
    }

    /// What the pass did, once it has ended.
    pub fn outcome(self) -> (r: Result<Applied, String>)
        requires
            self@.wf(),
            self@.ask is Finished || self@.ask is Aborted,
        ensures
            self@.ask is Finished ==> r is Ok && r->Ok_0@ == self@.out,
            self@.ask is Aborted ==> r is Err && Some(r->Err_0@) == self@.error,
    {
        match self.error {
            None => Ok(self.out),
            Some(e) => Err(e),
        }
    }
}

/// An answer that fits keeps a pass well formed.
pub proof fn lemma_next_wf(p: PassModel, a: AnswerModel)
    requires
        p.wf(),
        fits(p.ask, a),
    ensures
        p.next(a).wf(),
{
}

/// How much is left of a pass.
pub open spec fn steps_left(p: PassModel) -> (int, int) {
    (
        p.todo.len() - p.at,
        match p.ask {
            Ask::Root => 11,
            Ask::ExistingThere => 10,
            Ask::TargetThere => 9,
            Ask::MakeParents => 8,
            Ask::RenameFolder => 7,
            Ask::RelocateFile => 7,
            Ask::LookFolder => 6,
            Ask::MakeFolder => 5,
            Ask::ReadId => 4,
            Ask::WriteId => 3,
            Ask::WriteTag => 2,
            Ask::LookFile => 6,
            Ask::PlaceNew => 5,
            Ask::PlaceOver => 5,
            Ask::LookGone => 6,
            Ask::RemoveFile => 5,
            Ask::RemoveFolder => 6,
            Ask::Detach => 5,
            Ask::Finished => 0,
            Ask::Aborted => 0,
        },
    )
}

/// Every answer brings a pass nearer to its end.
pub proof fn law_a_pass_ends(p: PassModel, a: AnswerModel)
    requires
        p.wf(),
        fits(p.ask, a),
    ensures
        ({
            let (n, k) = steps_left(p);
            let (m, l) = steps_left(p.next(a));
            0 <= m && 0 <= l && (m < n || (m == n && l < k))
        }),
{
}

/// Local work is never overwritten: a placeholder goes over a file only after
/// a look at it that showed no edit waiting to be sent, no content that was
/// never uploaded, and no change underneath.
pub proof fn law_unsent_work_is_never_overwritten(p: PassModel, a: AnswerModel)
    requires
        p.wf(),
        fits(p.ask, a),
        p.next(a).ask is PlaceOver,
    ensures
        p.ask is LookFile,
        a is File,
        !p.waiting.contains(a->File_0.file),
        !a->File_0.dirty,
        a->File_0.len > 0 ==> a->File_0.id is Some && a->File_0.id->0.len() > 0,
{
}

/// A placeholder is placed anew only where a look found nothing.
pub proof fn law_nothing_stands_under_a_new_placeholder(p: PassModel, a: AnswerModel)
    requires
        p.wf(),
        fits(p.ask, a),
        p.next(a).ask is PlaceNew,
    ensures
        p.ask is LookFile,
        a is Missing,
{
}

/// A local edit outlives a remote delete: a file is removed only after a look
/// at it that showed no edit waiting and no change underneath.
pub proof fn law_a_local_edit_outlives_a_remote_delete(p: PassModel, a: AnswerModel)
    requires
        p.wf(),
        fits(p.ask, a),
        p.next(a).ask is RemoveFile,
    ensures
        p.ask is LookGone,
        a is File,
        !p.waiting.contains(a->File_0.file),
        !a->File_0.dirty,
{
}

/// An unchanged object is no work, whatever else is true of the local file.
pub proof fn law_an_echo_is_no_work(p: PassModel, f: FactsModel)
    requires
        p.wf(),
        p.ask is LookFile,
        match p.change() {
            ChangeModel::Upserted { cloud_id, size, etag, .. } => is_current(
                f,
                cloud_id,
                etag,
                size,
            ),
            _ => false,
        },
    ensures
        p.next(AnswerModel::File(f)) == p.advanced(),
        p.next(AnswerModel::File(f)).out == p.out,
{
}

/// A file or folder is renamed only to where nothing was found, so that no two
/// local files claim one object.
pub proof fn law_a_rename_needs_a_free_target(p: PassModel, a: AnswerModel)
    requires
        p.wf(),
        fits(p.ask, a),
        p.next(a).ask is RelocateFile || p.next(a).ask is MakeParents,
    ensures
        p.ask is TargetThere,
        a == AnswerModel::There(false),
        p.is_elsewhere() ==> p.next(a).is_elsewhere(),
{
}

/// A failure that a later pass could mend.
pub open spec fn can_mend(f: FailedModel) -> bool {
    f.why is DestinationOccupied || f.why is Rename
}

/// What a pass owes its caller about retrying: a pass that stopped, or that
/// met a failure a later pass could mend, says so.
pub open spec fn owes_retry(p: PassModel) -> bool {
    &&& p.out.stopped is Some ==> p.out.retryable
    &&& forall|i: int|
        0 <= i < p.out.failed.len() && can_mend(#[trigger] p.out.failed[i]) ==> p.out.retryable
}

/// A pass never hides that it has to be repeated.
pub proof fn law_a_pass_says_when_to_retry(p: PassModel, a: AnswerModel)
    requires
        p.wf(),
        fits(p.ask, a),
        owes_retry(p),
    ensures
        owes_retry(p.next(a)),
        p.out.retryable ==> p.next(a).out.retryable,
{
    let q = p.next(a);
    assert forall|i: int|
        0 <= i < q.out.failed.len() && can_mend(#[trigger] q.out.failed[i]) implies q.out.retryable by {
        if i < p.out.failed.len() {
            assert(p.out.failed[i] == q.out.failed[i]);
        }
    }
}

/// Whatever a pass creates, moves or places for a change lies below the root.
pub proof fn law_a_target_stays_below_the_root(p: PassModel, a: AnswerModel)
    requires
        p.wf(),
        fits(p.ask, a),
        p.ask is Root,
        p.next(a).ask is LookFile || p.next(a).ask is LookFolder || p.next(a).ask is ExistingThere,
    ensures
        paths::starts_with(p.target(), p.root),
        p.next(a).target() == p.target(),
{
    let named = p.named();
    if named.len() > 0 {
        paths::law_a_plain_path_stays_below_its_root(p.root, named);
    } else {
        assert(paths::parts(p.root).subrange(0, paths::parts(p.root).len() as int)
            =~= paths::parts(p.root));
    }
}

} // verus!
