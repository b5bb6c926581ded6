//! What a pass does with each change, step by step and over a whole run: a change
//! that can be carried out is, and none is passed over without a reason.

use crate::delta;
use crate::delta::{
    AppliedModel, ChangeModel, FailedModel, FailureModel, KeptModel, StoppedModel, Why,
};
use crate::pass::{self, AnswerModel, Ask, FactsModel, PassModel, Verdict};
use crate::paths;
use crate::table::FileId;
use crate::text;
use vstd::prelude::*;

verus! {

/// The pass is done with its change and goes on to the next one, whose root has to
/// be confirmed first. What it has counted is as given.
pub open spec fn goes_on(p: PassModel, q: PassModel, out: AppliedModel) -> bool {
    &&& q.at == p.at + 1
    &&& q.ask == if p.at + 1 < p.todo.len() {
        Ask::Root
    } else {
        Ask::Finished
    }
    &&& q.todo == p.todo
    &&& q.root == p.root
    &&& q.limit == p.limit
    &&& q.reserved == p.reserved
    &&& q.waiting == p.waiting
    &&& q.error == p.error
    &&& q.out == out
}

/// The same, and where things stand is as before.
pub open spec fn moves_on(p: PassModel, q: PassModel, out: AppliedModel) -> bool {
    goes_on(p, q, out) && q.files == p.files && q.folders == p.folders
}

/// The local copy was left alone, and that is told.
pub open spec fn left_alone(p: PassModel, q: PassModel, path: Seq<char>, why: Why) -> bool {
    moves_on(
        p,
        q,
        AppliedModel { kept_local: p.out.kept_local.push(KeptModel { path, why }), ..p.out },
    )
}

/// The change failed, and that is told.
pub open spec fn gave_up(
    p: PassModel,
    q: PassModel,
    path: Seq<char>,
    why: FailureModel,
    retry: bool,
) -> bool {
    moves_on(
        p,
        q,
        AppliedModel {
            failed: p.out.failed.push(FailedModel { path, why }),
            retryable: p.out.retryable || retry,
            ..p.out
        },
    )
}

/// The pass stays with its change and wants something done.
pub open spec fn wants(p: PassModel, q: PassModel, ask: Ask) -> bool {
    q == (PassModel { ask, ..p })
}

/// A change is taken up only while the root is the one that the pass started
/// against. Otherwise the pass ends where it is, says why, and is to be tried
/// again.
pub proof fn law_a_lost_root_ends_the_pass(p: PassModel, e: Seq<char>)
    requires
        p.wf(),
        p.ask is Root,
    ensures
        p.next(AnswerModel::Current(false)) == (PassModel {
            ask: Ask::Finished,
            out: AppliedModel {
                stopped: Some(StoppedModel::MountChanged),
                retryable: true,
                ..p.out
            },
            ..p
        }),
        p.next(AnswerModel::Unverifiable(e)) == (PassModel {
            ask: Ask::Finished,
            out: AppliedModel {
                stopped: Some(StoppedModel::MountUnverifiable(e)),
                retryable: true,
                ..p.out
            },
            ..p
        }),
{
}

/// A removed object that is known at a local path is looked for there. A file that
/// is there is removed, unless an edit of it waits or it changed underneath, in
/// which case it is left alone and told of. An object that is known nowhere, and
/// a file that is already gone, need nothing.
pub proof fn law_a_removed_object_is_removed_here(
    p: PassModel,
    cloud_id: Seq<char>,
    f: FactsModel,
    e: Seq<char>,
)
    requires
        p.wf(),
        p.at < p.todo.len(),
        p.todo[p.at as int] == (ChangeModel::Removed { cloud_id }),
    ensures
        p.ask is Root && p.files.dom().contains(cloud_id) ==> wants(
            p,
            p.next(AnswerModel::Current(true)),
            Ask::LookGone,
        ),
        p.ask is Root && !p.files.dom().contains(cloud_id) ==> moves_on(
            p,
            p.next(AnswerModel::Current(true)),
            p.out,
        ),
        p.files.dom().contains(cloud_id) ==> p.existing() == Some(p.files[cloud_id]),
        p.ask is LookGone ==> {
            let q = p.next(AnswerModel::File(f));
            &&& moves_on(p, p.next(AnswerModel::Missing), p.out)
            &&& p.waiting.contains(f.file) ==> left_alone(
                p,
                q,
                p.files[cloud_id],
                Why::EditWaiting,
            )
            &&& !p.waiting.contains(f.file) && f.dirty ==> left_alone(
                p,
                q,
                p.files[cloud_id],
                Why::ChangedUnderneath,
            )
            &&& !p.waiting.contains(f.file) && !f.dirty ==> wants(p, q, Ask::RemoveFile)
        },
        p.ask is RemoveFile ==> {
            &&& moves_on(
                p,
                p.next(AnswerModel::Done),
                AppliedModel { removed: p.out.removed + 1, ..p.out },
            )
            &&& gave_up(
                p,
                p.next(AnswerModel::Failed(e)),
                p.files[cloud_id],
                FailureModel::Remove(e),
                false,
            )
        },
{
}

/// A file that the remote side has is brought to its path below the root, whether
/// it is new, moved or changed. One under a path that is refused, and one past the
/// limit, fail for good. One that stands elsewhere is moved first where it can be.
pub proof fn law_a_remote_file_is_brought_here(
    p: PassModel,
    cloud_id: Seq<char>,
    path: Seq<char>,
    size: u64,
    etag: Option<Seq<char>>,
    e: Seq<char>,
)
    requires
        p.wf(),
        p.at < p.todo.len(),
        p.todo[p.at as int] == (ChangeModel::Upserted { cloud_id, path, size, etag }),
    ensures
        path.len() > 0 ==> p.target() == paths::joined(p.root, path),
        p.existing() == (if p.files.dom().contains(cloud_id) {
            Some(p.files[cloud_id])
        } else {
            None
        }),
        p.ask is Root ==> {
            let q = p.next(AnswerModel::Current(true));
            let safe = delta::is_safe(path, p.reserved);
            let elsewhere = p.files.dom().contains(cloud_id) && paths::parts(p.files[cloud_id])
                != paths::parts(paths::joined(p.root, path));
            &&& !safe ==> gave_up(p, q, path, FailureModel::PathRefused, false)
            &&& safe && size > p.limit ==> gave_up(
                p,
                q,
                path,
                FailureModel::TooLarge { size },
                false,
            )
            &&& safe && size <= p.limit && elsewhere ==> wants(p, q, Ask::ExistingThere)
            &&& safe && size <= p.limit && !elsewhere ==> wants(p, q, Ask::LookFile)
        },
        p.ask is ExistingThere ==> {
            &&& wants(p, p.next(AnswerModel::There(true)), Ask::TargetThere)
            &&& wants(p, p.next(AnswerModel::There(false)), Ask::LookFile)
        },
        p.ask is TargetThere ==> {
            &&& gave_up(
                p,
                p.next(AnswerModel::There(true)),
                path,
                FailureModel::DestinationOccupied,
                true,
            )
            &&& wants(p, p.next(AnswerModel::There(false)), Ask::RelocateFile)
        },
        p.ask is RelocateFile && path.len() > 0 ==> {
            &&& p.next(AnswerModel::Done) == (PassModel {
                ask: Ask::LookFile,
                files: p.files.insert(cloud_id, paths::joined(p.root, path)),
                out: AppliedModel { moved: p.out.moved + 1, ..p.out },
                ..p
            })
            &&& gave_up(p, p.next(AnswerModel::Failed(e)), path, FailureModel::Rename(e), true)
            &&& p.next(AnswerModel::Unreadable(e)) == (PassModel {
                ask: Ask::Aborted,
                error: Some(e),
                ..p
            })
        },
        p.ask is LookFile ==> wants(p, p.next(AnswerModel::Missing), Ask::PlaceNew),
        p.ask is PlaceNew ==> {
            &&& moves_on(
                p,
                p.next(AnswerModel::Done),
                AppliedModel { created: p.out.created + 1, ..p.out },
            )
            &&& gave_up(p, p.next(AnswerModel::Failed(e)), path, FailureModel::Place(e), false)
        },
        p.ask is PlaceOver ==> {
            &&& moves_on(
                p,
                p.next(AnswerModel::Done),
                AppliedModel { updated: p.out.updated + 1, ..p.out },
            )
            &&& gave_up(p, p.next(AnswerModel::Failed(e)), path, FailureModel::Place(e), false)
        },
{
}

/// A file that already stands at the path of a remote one: it needs nothing where
/// it is that object at that size and version, or at that size where the remote
/// side gives no version. Otherwise it is replaced, unless an edit of it waits, it
/// holds content that was never uploaded, or it changed underneath.
pub proof fn law_a_file_in_place_is_compared(
    p: PassModel,
    cloud_id: Seq<char>,
    path: Seq<char>,
    size: u64,
    etag: Option<Seq<char>>,
    f: FactsModel,
)
    requires
        p.wf(),
        p.ask is LookFile,
        p.todo[p.at as int] == (ChangeModel::Upserted { cloud_id, path, size, etag }),
    ensures
        ({
            let q = p.next(AnswerModel::File(f));
            let same = f.id == Some(text::bytes(cloud_id)) && f.len == size && (etag is None
                || f.etag == Some(text::bytes(etag->0)));
            let unknown = match f.id {
                Some(id) => id.len() == 0,
                None => true,
            };
            &&& same ==> moves_on(p, q, p.out)
            &&& !same && p.waiting.contains(f.file) ==> left_alone(p, q, path, Why::EditWaiting)
            &&& !same && !p.waiting.contains(f.file) && unknown && f.len > 0 ==> left_alone(
                p,
                q,
                path,
                Why::NeverUploaded,
            )
            &&& !same && !p.waiting.contains(f.file) && !(unknown && f.len > 0) && f.dirty
                ==> left_alone(p, q, path, Why::ChangedUnderneath)
            &&& !same && !p.waiting.contains(f.file) && !(unknown && f.len > 0) && !f.dirty
                ==> wants(p, q, Ask::PlaceOver)
        }),
{
}

/// When a file in place is current, kept or replaced.
pub proof fn law_what_a_file_in_place_deserves(
    f: FactsModel,
    cloud_id: Seq<char>,
    etag: Option<Seq<char>>,
    size: u64,
    waiting: Set<FileId>,
)
    ensures
        ({
            let v = pass::verdict(f, cloud_id, etag, size, waiting);
            let same = f.id == Some(text::bytes(cloud_id)) && f.len == size && (etag is None
                || f.etag == Some(text::bytes(etag->0)));
            let unsent = f.len > 0 && (f.id is None || f.id->0.len() == 0);
            &&& v is Current <==> same
            &&& v is Replace <==> !same && !waiting.contains(f.file) && !unsent && !f.dirty
            &&& v == Verdict::Keep(Why::EditWaiting) <==> !same && waiting.contains(f.file)
            &&& v == Verdict::Keep(Why::NeverUploaded) <==> !same && !waiting.contains(f.file)
                && unsent
            &&& v == Verdict::Keep(Why::ChangedUnderneath) <==> !same && !waiting.contains(f.file)
                && !unsent && f.dirty
        }),
{
}

/// A folder that the remote side has is brought to its path: it is moved where it
/// stands elsewhere, made where there is none, and marked with its identity and
/// version. One that is another object's is left alone.
pub proof fn law_a_remote_folder_is_brought_here(
    p: PassModel,
    cloud_id: Seq<char>,
    path: Seq<char>,
    etag: Option<Seq<char>>,
    id: Option<Seq<u8>>,
    e: Seq<char>,
)
    requires
        p.wf(),
        p.at < p.todo.len(),
        p.todo[p.at as int] == (ChangeModel::FolderUpserted { cloud_id, path, etag }),
    ensures
        p.target() == (if path.len() == 0 {
            p.root
        } else {
            paths::joined(p.root, path)
        }),
        p.existing() == (if p.folders.dom().contains(cloud_id) {
            Some(p.folders[cloud_id])
        } else {
            None
        }),
        p.ask is Root ==> {
            let q = p.next(AnswerModel::Current(true));
            let allowed = path.len() == 0 || delta::is_safe(path, p.reserved);
            let elsewhere = p.folders.dom().contains(cloud_id) && paths::parts(p.folders[cloud_id])
                != paths::parts(p.target());
            &&& !allowed ==> gave_up(p, q, path, FailureModel::PathRefused, false)
            &&& allowed && elsewhere ==> wants(p, q, Ask::ExistingThere)
            &&& allowed && !elsewhere ==> wants(p, q, Ask::LookFolder)
        },
        p.ask is ExistingThere ==> {
            &&& wants(p, p.next(AnswerModel::There(true)), Ask::TargetThere)
            &&& wants(p, p.next(AnswerModel::There(false)), Ask::LookFolder)
        },
        p.ask is TargetThere ==> {
            &&& gave_up(
                p,
                p.next(AnswerModel::There(true)),
                path,
                FailureModel::DestinationOccupied,
                true,
            )
            &&& wants(p, p.next(AnswerModel::There(false)), Ask::MakeParents)
        },
        p.ask is MakeParents ==> {
            &&& wants(p, p.next(AnswerModel::Done), Ask::RenameFolder)
            &&& p.next(AnswerModel::Failed(e)) == (PassModel {
                ask: Ask::Aborted,
                error: Some(e),
                ..p
            })
        },
        p.ask is RenameFolder ==> {
            &&& p.next(AnswerModel::Done) == (PassModel {
                ask: Ask::LookFolder,
                out: AppliedModel { moved: p.out.moved + 1, ..p.out },
                ..p
            })
            &&& gave_up(p, p.next(AnswerModel::Failed(e)), path, FailureModel::Rename(e), true)
        },
        p.ask is LookFolder ==> {
            &&& wants(p, p.next(AnswerModel::Folder(true)), Ask::ReadId)
            &&& wants(p, p.next(AnswerModel::Missing), Ask::MakeFolder)
            &&& gave_up(
                p,
                p.next(AnswerModel::Folder(false)),
                path,
                FailureModel::DestinationOccupied,
                true,
            )
            &&& gave_up(p, p.next(AnswerModel::Unreadable(e)), path, FailureModel::Place(e), true)
        },
        p.ask is MakeFolder ==> {
            &&& p.next(AnswerModel::Done) == (PassModel {
                ask: Ask::ReadId,
                out: AppliedModel { created: p.out.created + 1, ..p.out },
                ..p
            })
            &&& gave_up(p, p.next(AnswerModel::Failed(e)), path, FailureModel::Place(e), true)
        },
        p.ask is ReadId ==> {
            let q = p.next(AnswerModel::Id(id));
            &&& id is None || id == Some(text::bytes(cloud_id)) ==> wants(p, q, Ask::WriteId)
            &&& id is Some && id != Some(text::bytes(cloud_id)) ==> gave_up(
                p,
                q,
                path,
                FailureModel::DestinationOccupied,
                true,
            )
        },
        p.ask is WriteId ==> {
            &&& wants(p, p.next(AnswerModel::Done), Ask::WriteTag)
            &&& gave_up(p, p.next(AnswerModel::Failed(e)), path, FailureModel::Place(e), true)
        },
        p.ask is WriteTag ==> {
            let q = p.next(AnswerModel::Done);
            &&& goes_on(p, q, p.out)
            &&& q.folders == p.folders.insert(cloud_id, p.target())
            &&& q.files == p.files
            &&& gave_up(p, p.next(AnswerModel::Failed(e)), path, FailureModel::Place(e), true)
        },
{
}

/// A removed folder that is known here is removed and no longer known, unless it
/// is the root. One that still holds something is only parted from its object.
pub proof fn law_a_removed_folder_is_removed_here(
    p: PassModel,
    cloud_id: Seq<char>,
    path: Seq<char>,
    e: Seq<char>,
)
    requires
        p.wf(),
        p.at < p.todo.len(),
        p.todo[p.at as int] == (ChangeModel::FolderRemoved { cloud_id, path }),
    ensures
        p.ask is Root ==> {
            let q = p.next(AnswerModel::Current(true));
            let known = p.folders.dom().contains(cloud_id);
            let root = known && paths::parts(p.folders[cloud_id]) == paths::parts(p.root);
            &&& !known ==> moves_on(p, q, p.out)
            &&& root ==> gave_up(
                p,
                q,
                path,
                FailureModel::Remove("the sync root cannot be removed"@),
                false,
            )
            &&& known && !root ==> wants(p, q, Ask::RemoveFolder)
        },
        p.folders.dom().contains(cloud_id) ==> p.existing() == Some(p.folders[cloud_id]),
        p.ask is RemoveFolder ==> {
            let done = p.next(AnswerModel::Done);
            let missing = p.next(AnswerModel::Missing);
            &&& goes_on(p, done, AppliedModel { removed: p.out.removed + 1, ..p.out })
            &&& done.folders == p.folders.remove(cloud_id) && done.files == p.files
            &&& goes_on(p, missing, p.out)
            &&& missing.folders == p.folders.remove(cloud_id) && missing.files == p.files
            &&& wants(p, p.next(AnswerModel::NotEmpty), Ask::Detach)
            &&& gave_up(p, p.next(AnswerModel::Failed(e)), path, FailureModel::Remove(e), true)
        },
        p.ask is Detach ==> {
            let done = p.next(AnswerModel::Done);
            &&& goes_on(p, done, p.out)
            &&& done.folders == p.folders.remove(cloud_id) && done.files == p.files
            &&& gave_up(p, p.next(AnswerModel::Failed(e)), path, FailureModel::Remove(e), true)
        },
{
}

/// One step of a pass: an answer of the kind that was asked for, and the state
/// that it leads to.
#[verifier::opaque]
pub open spec fn is_step(p: PassModel, a: AnswerModel, q: PassModel) -> bool {
    p.wf() && pass::fits(p.ask, a) && q == p.next(a)
}

/// A pass that runs: each state follows from the one before it by the answer that
/// came.
pub open spec fn is_run(states: Seq<PassModel>, answers: Seq<AnswerModel>) -> bool {
    &&& states.len() == answers.len() + 1
    &&& forall|i: int|
        0 <= i < answers.len() ==> is_step(#[trigger] states[i], answers[i], states[i + 1])
}

/// A pass that ran to its end without being stopped or aborted has been through
/// all of its changes.
pub open spec fn is_through(p: PassModel) -> bool {
    p.ask is Finished && p.out.stopped is None
}

/// What a step keeps: the changes and the settings of the pass stay as they are,
/// a step is with the same change or the next one, and only the objects of the
/// change itself can come to stand elsewhere.
pub proof fn law_a_step_stays_with_its_change(p: PassModel, a: AnswerModel)
    requires
        p.wf(),
        pass::fits(p.ask, a),
    ensures
        p.next(a).todo == p.todo,
        p.next(a).root == p.root,
        p.next(a).limit == p.limit,
        p.next(a).reserved == p.reserved,
        p.next(a).waiting == p.waiting,
        p.next(a).at == p.at || p.next(a).at == p.at + 1,
        p.next(a).at == p.at ==> !(p.next(a).ask is Root),
        p.next(a).at == p.at + 1 ==> p.next(a).ask == if p.at + 1 < p.todo.len() {
            Ask::Root
        } else {
            Ask::Finished
        },
        p.next(a).ask is Finished && p.next(a).at == p.at ==> p.next(a).out.stopped is Some,
        p.out.stopped is None && !(p.ask is Root) ==> p.next(a).out.stopped is None,
        p.next(a).out.stopped is None ==> p.out.stopped is None,
        forall|id: Seq<char>|
            id != delta::subject(p.todo[p.at as int]) ==> (p.next(a).files.dom().contains(id)
                <==> p.files.dom().contains(id)) && p.next(a).files[id] == p.files[id],
{
}

/// What a pass has counted and told is never taken back.
pub proof fn law_what_was_told_stays_told(p: PassModel, a: AnswerModel)
    requires
        p.wf(),
        pass::fits(p.ask, a),
    ensures
        p.out.created <= p.next(a).out.created,
        p.out.updated <= p.next(a).out.updated,
        p.out.removed <= p.next(a).out.removed,
        p.out.moved <= p.next(a).out.moved,
        p.out.kept_local.is_prefix_of(p.next(a).out.kept_local),
        p.out.failed.is_prefix_of(p.next(a).out.failed),
{
}

/// No change is passed over: a pass goes on to the next one only when it removed,
/// created, updated or marked what the change is about, left it alone or failed it
/// and said so, or found that nothing was to be done.
pub proof fn law_no_change_is_passed_over(p: PassModel, a: AnswerModel)
    requires
        p.wf(),
        pass::fits(p.ask, a),
        p.next(a).at != p.at,
    ensures
        ({
            let q = p.next(a);
            ||| q.out.kept_local.len() == p.out.kept_local.len() + 1
            ||| q.out.failed.len() == p.out.failed.len() + 1
            ||| p.ask is PlaceNew && a is Done && q.out.created == p.out.created + 1
            ||| p.ask is PlaceOver && a is Done && q.out.updated == p.out.updated + 1
            ||| p.ask is RemoveFile && a is Done && q.out.removed == p.out.removed + 1
            ||| p.ask is RemoveFolder && a is Done && q.out.removed == p.out.removed + 1
            ||| p.ask is RemoveFolder && a is Missing
            ||| p.ask is Detach && a is Done
            ||| p.ask is WriteTag && a is Done
            ||| p.ask is LookGone && a is Missing
            ||| p.ask is LookFile && a is File && (p.todo[p.at as int] matches ChangeModel::Upserted {
                cloud_id,
                size,
                etag,
                ..
            } && a->File_0.id == Some(text::bytes(cloud_id)) && a->File_0.len == size && (etag
                is None || a->File_0.etag == Some(text::bytes(etag->0))))
            ||| p.ask is Root && (p.todo[p.at as int] matches ChangeModel::Removed { cloud_id }
                && !p.files.dom().contains(cloud_id))
            ||| p.ask is Root && (p.todo[p.at as int] matches ChangeModel::FolderRemoved {
                cloud_id,
                ..
            } && !p.folders.dom().contains(cloud_id))
        }),
{
}

/// What a step keeps, of a step as a run has it.
proof fn lemma_step(p: PassModel, a: AnswerModel, q: PassModel)
    requires
        is_step(p, a, q),
    ensures
        p.at < p.todo.len(),
        q.todo == p.todo,
        q.root == p.root,
        q.waiting == p.waiting,
        q.at == p.at || q.at == p.at + 1,
        q.at == p.at ==> !(q.ask is Root),
        q.at == p.at + 1 ==> q.ask == if p.at + 1 < p.todo.len() {
            Ask::Root
        } else {
            Ask::Finished
        },
        !(p.ask is Finished),
        q.ask is Finished && q.at == p.at ==> q.out.stopped is Some,
        q.out.stopped is None ==> p.out.stopped is None,
        p.ask is Root && a != AnswerModel::Current(true) ==> q.out.stopped is Some,
        forall|id: Seq<char>|
            id != delta::subject(p.todo[p.at as int]) ==> (q.files.dom().contains(id)
                <==> p.files.dom().contains(id)) && q.files[id] == p.files[id],
{
    reveal(is_step);
    law_a_step_stays_with_its_change(p, a);
}

/// What a step does about a removed object that is known here.
proof fn lemma_removal_step(p: PassModel, a: AnswerModel, q: PassModel, cloud_id: Seq<char>)
    requires
        is_step(p, a, q),
        p.todo[p.at as int] == (ChangeModel::Removed { cloud_id }),
        p.files.dom().contains(cloud_id),
        q.out.stopped is None,
    ensures
        p.ask is Root ==> q.at == p.at && q.ask is LookGone && q.files == p.files && q.out == p.out,
        p.existing() == Some(p.files[cloud_id]),
        p.ask is LookGone ==> match a {
            AnswerModel::Missing => true,
            AnswerModel::File(f) => {
                ||| p.waiting.contains(f.file) && q.out.kept_local == p.out.kept_local.push(
                    KeptModel { path: p.files[cloud_id], why: Why::EditWaiting },
                )
                ||| !p.waiting.contains(f.file) && f.dirty && q.out.kept_local
                    == p.out.kept_local.push(
                    KeptModel { path: p.files[cloud_id], why: Why::ChangedUnderneath },
                )
                ||| !p.waiting.contains(f.file) && !f.dirty && q.at == p.at && q.ask is RemoveFile
                    && q.files == p.files && q.out == p.out
            },
            _ => false,
        },
        p.ask is RemoveFile ==> (a is Done && q.out.removed == p.out.removed + 1 || a is Failed
            && q.out.failed == p.out.failed.push(
            FailedModel {
                path: p.files[cloud_id],
                why: FailureModel::Remove(a->Failed_0),
            },
        )),
{
    reveal(is_step);
}

/// Facts that hold along a run.
proof fn lemma_along(states: Seq<PassModel>, answers: Seq<AnswerModel>, i: int)
    requires
        is_run(states, answers),
        0 <= i < states.len(),
        states[0].ask is Root,
        states[0].out.stopped is None,
    ensures
        states[0].at <= states[i].at,
        states[i].todo == states[0].todo,
        states[i].root == states[0].root,
        states[i].waiting == states[0].waiting,
        states[i].out.stopped is None && states[i].ask is Finished ==> states[i].at
            == states[0].todo.len(),
    decreases i,
{
    if i > 0 {
        lemma_along(states, answers, i - 1);
        lemma_step(states[i - 1], answers[i - 1], states[i]);
    }
}

/// Where an object is known does not change until the pass is with a change that
/// is about it.
proof fn lemma_known_along(
    states: Seq<PassModel>,
    answers: Seq<AnswerModel>,
    i: int,
    k: int,
    id: Seq<char>,
)
    requires
        is_run(states, answers),
        0 <= i < states.len(),
        states[0].ask is Root,
        states[0].out.stopped is None,
        states[i].at <= k < states[0].todo.len(),
        states[i].at == k ==> states[i].ask is Root,
        forall|j: int|
            states[0].at <= j < k ==> delta::subject(#[trigger] states[0].todo[j]) != id,
    ensures
        states[i].files.dom().contains(id) <==> states[0].files.dom().contains(id),
        states[i].files[id] == states[0].files[id],
    decreases i,
{
    if i > 0 {
        let p = states[i - 1];
        lemma_along(states, answers, i - 1);
        lemma_step(p, answers[i - 1], states[i]);
        assert(delta::subject(states[0].todo[p.at as int]) != id);
        lemma_known_along(states, answers, i - 1, k, id);
    }
}

/// Where the change of a state was taken up.
proof fn lemma_root_of(states: Seq<PassModel>, answers: Seq<AnswerModel>, n: int) -> (i: int)
    requires
        is_run(states, answers),
        0 <= n < answers.len(),
        states[0].ask is Root,
    ensures
        0 <= i <= n,
        states[i].at == states[n].at,
        states[i].ask is Root,
    decreases n,
{
    if states[n].ask is Root {
        n
    } else {
        lemma_step(states[n - 1], answers[n - 1], states[n]);
        lemma_step(states[n], answers[n], states[n + 1]);
        lemma_root_of(states, answers, n - 1)
    }
}

/// Where in a run a change is taken up.
proof fn lemma_taken_up(
    states: Seq<PassModel>,
    answers: Seq<AnswerModel>,
    k: int,
    n: int,
) -> (i: int)
    requires
        is_run(states, answers),
        0 <= n < states.len(),
        states[0].ask is Root,
        states[0].at <= k < states[n].at,
    ensures
        0 <= i < n,
        states[i].at == k,
        states[i].ask is Root,
    decreases n,
{
    let p = states[n - 1];
    lemma_step(p, answers[n - 1], states[n]);
    if p.at > k {
        lemma_taken_up(states, answers, k, n - 1)
    } else {
        lemma_root_of(states, answers, n - 1)
    }
}

/// A pass that was stopped stays so.
proof fn lemma_stopped(states: Seq<PassModel>, answers: Seq<AnswerModel>, i: int, n: int)
    requires
        is_run(states, answers),
        0 <= i <= n < states.len(),
        states[n].out.stopped is None,
    ensures
        states[i].out.stopped is None,
    decreases n - i,
{
    if i < n {
        lemma_stopped(states, answers, i + 1, n);
        lemma_step(states[i], answers[i], states[i + 1]);
    }
}

/// A pass that is through has taken up each of its changes, with the root
/// confirmed: those that bring a file or a folder here as well as those that take
/// one away.
pub proof fn law_every_change_is_taken_up(
    states: Seq<PassModel>,
    answers: Seq<AnswerModel>,
    k: int,
) -> (i: int)
    requires
        is_run(states, answers),
        states[0].ask is Root,
        states[0].out.stopped is None,
        is_through(states.last()),
        states[0].at <= k < states[0].todo.len(),
    ensures
        0 <= i < answers.len(),
        states[i].at == k,
        states[i].todo == states[0].todo,
        states[i].ask is Root,
        answers[i] == AnswerModel::Current(true),
{
    let n = states.len() - 1;
    lemma_along(states, answers, n);
    let r = lemma_taken_up(states, answers, k, n);
    lemma_along(states, answers, r);
    lemma_stopped(states, answers, r + 1, n);
    lemma_step(states[r], answers[r], states[r + 1]);
    r
}

/// A pass that is through has been to each removed object that was known here: it
/// looked at the path where the object was known, and found nothing there, left
/// the file alone because of an edit and said so, removed it, or said why it could
/// not.
pub proof fn law_every_removed_object_is_seen_to(
    states: Seq<PassModel>,
    answers: Seq<AnswerModel>,
    k: int,
    cloud_id: Seq<char>,
) -> (i: int)
    requires
        is_run(states, answers),
        states[0].ask is Root,
        states[0].out.stopped is None,
        is_through(states.last()),
        states[0].at <= k < states[0].todo.len(),
        states[0].todo[k] == (ChangeModel::Removed { cloud_id }),
        states[0].files.dom().contains(cloud_id),
        forall|j: int|
            states[0].at <= j < k ==> delta::subject(#[trigger] states[0].todo[j]) != cloud_id,
    ensures
        0 <= i < answers.len(),
        states[i].at == k,
        states[i].ask is LookGone,
        states[i].existing() == Some(states[0].files[cloud_id]),
        match answers[i] {
            AnswerModel::Missing => true,
            AnswerModel::File(f) => {
                ||| states[0].waiting.contains(f.file) && states[i + 1].out.kept_local
                    == states[i].out.kept_local.push(
                    KeptModel { path: states[0].files[cloud_id], why: Why::EditWaiting },
                )
                ||| !states[0].waiting.contains(f.file) && f.dirty && states[i + 1].out.kept_local
                    == states[i].out.kept_local.push(
                    KeptModel { path: states[0].files[cloud_id], why: Why::ChangedUnderneath },
                )
                ||| !states[0].waiting.contains(f.file) && !f.dirty && i + 1 < answers.len()
                    && states[i + 1].ask is RemoveFile && (answers[i + 1] is Done && states[i
                    + 2].out.removed == states[i].out.removed + 1 || answers[i + 1] is Failed
                    && states[i + 2].out.failed == states[i].out.failed.push(
                    FailedModel {
                        path: states[0].files[cloud_id],
                        why: FailureModel::Remove(answers[i + 1]->Failed_0),
                    },
                ))
            },
            _ => false,
        },
{
    let n = states.len() - 1;
    lemma_along(states, answers, n);
    let r = law_every_change_is_taken_up(states, answers, k);
    lemma_known_along(states, answers, r, k, cloud_id);
    lemma_along(states, answers, r);
    lemma_stopped(states, answers, r + 1, n);
    lemma_removal_step(states[r], answers[r], states[r + 1], cloud_id);
    assert(r + 1 < answers.len());
    lemma_along(states, answers, r + 1);
    lemma_stopped(states, answers, r + 2, n);
    lemma_removal_step(states[r + 1], answers[r + 1], states[r + 2], cloud_id);
    if let AnswerModel::File(f) = answers[r + 1] {
        if !states[0].waiting.contains(f.file) && !f.dirty {
            assert(r + 2 < answers.len());
            lemma_along(states, answers, r + 2);
            lemma_stopped(states, answers, r + 3, n);
            lemma_removal_step(states[r + 2], answers[r + 2], states[r + 3], cloud_id);
        }
    }
    r + 1
}

} // verus!
