//! One upload, one decision at a time.
//!
//! The job owns the decisions and its caller owns the filesystem and the
//! service: the job says what it wants, the caller does it and hands back what
//! came of it.

use crate::paths;
use crate::text::{self, copy_maybe};
use crate::upload::{Outcome, OutcomeModel, Uploaded, UploadedModel};
use vstd::prelude::*;
use vstd::string::*;

verus! {

/// What an upload wants next.
#[derive(Debug, Clone, Copy, PartialEq, Eq, Structural)]
pub enum Want {
    /// Find the file, by inode.
    Find,
    /// Note how the file looks, then send what is at `path`, against what is
    /// `known`.
    Send,
    /// Find the file again, now that the bytes have gone out.
    FindAgain,
    /// Look through the whole directory for the file.
    Rescan,
    /// Find the file after that look.
    FindMoved,
    /// Note how the file looks, then send what is at `moved_path` as a new
    /// object.
    Resend,
    /// Remove the object that was created under the old name.
    RemoveStale,
    /// Record the resent object on the file at `moved_path`.
    AdoptMoved,
    /// Record on it how the file looked before it was resent.
    StampMoved,
    /// Find the file once more before anything is recorded on it.
    FindLast,
    /// Remove the object that was created for a file that is gone.
    RemoveLost,
    /// Record the object on the file at `path`.
    Adopt,
    /// Record on it how the file looked before it was sent.
    Stamp,
    /// The upload is over.
    Over,
}

/// A local file, as found: where it is, and what is recorded of its object.
#[derive(Debug, PartialEq, Eq)]
pub struct Found {
    pub path: String,
    pub cloud_id: Option<String>,
    pub etag: Option<String>,
}

/// What came of a want.
#[derive(Debug, PartialEq, Eq)]
pub enum Reply {
    /// Whether the file was found.
    Found(Option<Found>),
    /// The bytes went out.
    Uploaded(Uploaded),
    /// It was done.
    Done,
    /// It could not be done.
    Failed(String),
}

/// A local file, over texts.
#[verifier::ext_equal]
pub struct FoundModel {
    pub path: Seq<char>,
    pub cloud_id: Option<Seq<char>>,
    pub etag: Option<Seq<char>>,
}

/// What came of a want, over texts.
#[verifier::ext_equal]
pub enum ReplyModel {
    Found(Option<FoundModel>),
    Uploaded(UploadedModel),
    Done,
    Failed(Seq<char>),
}

impl View for Found {
    type V = FoundModel;

    open spec fn view(&self) -> FoundModel {
        FoundModel {
            path: self.path@,
            cloud_id: text::maybe(self.cloud_id),
            etag: text::maybe(self.etag),
        }
    }
}

impl View for Reply {
    type V = ReplyModel;

    open spec fn view(&self) -> ReplyModel {
        match *self {
            Reply::Found(Some(f)) => ReplyModel::Found(Some(f@)),
            Reply::Found(None) => ReplyModel::Found(None),
            Reply::Uploaded(u) => ReplyModel::Uploaded(u@),
            Reply::Done => ReplyModel::Done,
            Reply::Failed(e) => ReplyModel::Failed(e@),
        }
    }
}

/// Which replies a want can have.
pub open spec fn fits(want: Want, r: ReplyModel) -> bool {
    match want {
        Want::Find | Want::FindAgain | Want::FindMoved | Want::FindLast => r is Found,
        Want::Send | Want::Resend => r is Uploaded || r is Failed,
        Want::Rescan | Want::StampMoved | Want::Stamp => r is Done,
        Want::RemoveStale | Want::AdoptMoved | Want::RemoveLost | Want::Adopt => {
            r is Done || r is Failed
        },
        Want::Over => false,
    }
}

/// Where an upload stands.
#[verifier::ext_equal]
pub struct JobModel {
    pub want: Want,
    /// Where the file was when it was sent.
    pub path: Seq<char>,
    /// The object the file came from and the version it is based on.
    pub known: Option<(Seq<char>, Option<Seq<char>>)>,
    /// What the service gave back for the bytes.
    pub sent: Option<UploadedModel>,
    /// Where the file was found after a rename.
    pub moved_path: Seq<char>,
    /// What the service gave back when they were sent again.
    pub again: Option<UploadedModel>,
    pub outcome: Option<OutcomeModel>,
}

impl JobModel {
    /// The path to send from, or to record the object on.
    pub open spec fn place(self) -> Seq<char> {
        if self.want is Resend || self.want is AdoptMoved || self.want is StampMoved {
            self.moved_path
        } else {
            self.path
        }
    }

    /// The object and version that the write is conditional on.
    pub open spec fn base(self) -> Option<(Seq<char>, Option<Seq<char>>)> {
        if self.want is Send {
            self.known
        } else {
            None
        }
    }

    /// The object to record or to remove.
    pub open spec fn object(self) -> Option<UploadedModel> {
        if self.want is AdoptMoved || self.want is StampMoved {
            self.again
        } else {
            self.sent
        }
    }

    pub open spec fn wanting(self, want: Want) -> JobModel {
        JobModel { want, ..self }
    }

    pub open spec fn over(self, outcome: OutcomeModel) -> JobModel {
        JobModel { want: Want::Over, outcome: Some(outcome), ..self }
    }

    /// Where the upload stands once a want has been met.
    pub open spec fn next(self, r: ReplyModel) -> JobModel {
        match (self.want, r) {
            (Want::Find, ReplyModel::Found(None)) => self.over(OutcomeModel::NothingToDo),
            (Want::Find, ReplyModel::Found(Some(f))) => JobModel {
                want: Want::Send,
                path: f.path,
                known: match f.cloud_id {
                    Some(id) => Some((id, f.etag)),
                    None => None,
                },
                ..self
            },
            (Want::Send, ReplyModel::Failed(e)) => self.over(OutcomeModel::Failed(e)),
            (Want::Send, ReplyModel::Uploaded(u)) => JobModel {
                want: Want::FindAgain,
                sent: Some(u),
                ..self
            },
            (Want::FindAgain, ReplyModel::Found(f)) => if f is None {
                self.wanting(Want::Rescan)
            } else {
                self.wanting(Want::FindLast)
            },
            (Want::Rescan, ReplyModel::Done) => self.wanting(Want::FindMoved),
            (Want::FindMoved, ReplyModel::Found(f)) => if f is Some && paths::parts(f->0.path)
                != paths::parts(self.path) {
                JobModel { want: Want::Resend, moved_path: f->0.path, ..self }
            } else {
                self.wanting(Want::FindLast)
            },
            (Want::Resend, ReplyModel::Failed(e)) => self.over(
                OutcomeModel::Failed(
                    "the file was renamed mid-upload and the resend failed: "@ + e,
                ),
            ),
            (Want::Resend, ReplyModel::Uploaded(u)) => JobModel {
                want: if u.cloud_id != self.sent->0.cloud_id {
                    Want::RemoveStale
                } else {
                    Want::AdoptMoved
                },
                again: Some(u),
                ..self
            },
            (Want::RemoveStale, ReplyModel::Done) => self.wanting(Want::AdoptMoved),
            (Want::RemoveStale, ReplyModel::Failed(e)) => self.over(
                OutcomeModel::Failed(
                    "resent under the new name, but the object created under the old one could not be removed: "@
                        + e,
                ),
            ),
            (Want::AdoptMoved, ReplyModel::Done) => self.wanting(Want::StampMoved),
            (Want::AdoptMoved, ReplyModel::Failed(e)) => self.over(
                OutcomeModel::Failed("could not record the cloud id after a rename: "@ + e),
            ),
            (Want::StampMoved, ReplyModel::Done) => self.over(
                OutcomeModel::Sent { cloud_id: self.again->0.cloud_id },
            ),
            (Want::FindLast, ReplyModel::Found(f)) => if f is None {
                self.wanting(Want::RemoveLost)
            } else {
                self.wanting(Want::Adopt)
            },
            (Want::RemoveLost, ReplyModel::Done) => self.over(OutcomeModel::DeletedInstead),
            (Want::RemoveLost, ReplyModel::Failed(e)) => self.over(
                OutcomeModel::Failed(
                    "the file was deleted mid-upload and the remote copy could not be removed: "@
                        + e,
                ),
            ),
            (Want::Adopt, ReplyModel::Done) => self.wanting(Want::Stamp),
            (Want::Adopt, ReplyModel::Failed(e)) => self.over(
                OutcomeModel::Failed("could not record the cloud id: "@ + e),
            ),
            (Want::Stamp, ReplyModel::Done) => self.over(
                OutcomeModel::Sent { cloud_id: self.sent->0.cloud_id },
            ),
            _ => self,
        }
    }

    /// What every upload keeps.
    pub open spec fn wf(self) -> bool {
        &&& self.want is Over <==> self.outcome is Some
        &&& !(self.want is Find || self.want is Send || self.want is Over) ==> self.sent is Some
        &&& self.want is RemoveStale || self.want is AdoptMoved || self.want is StampMoved
            ==> self.again is Some
        &&& self.want is Find ==> self.sent is None
    }
}

/// An upload under way.
pub struct Job {
    want: Want,
    path: String,
    known: Option<(String, Option<String>)>,
    sent: Option<Uploaded>,
    moved_path: String,
    again: Option<Uploaded>,
    outcome: Option<Outcome>,
}

spec fn maybe_uploaded(u: Option<Uploaded>) -> Option<UploadedModel> {
    match u {
        Some(u) => Some(u@),
        None => None,
    }
}

impl View for Job {
    type V = JobModel;

    closed spec fn view(&self) -> JobModel {
        JobModel {
            want: self.want,
            path: self.path@,
            known: match self.known {
                Some((id, tag)) => Some((id@, text::maybe(tag))),
                None => None,
            },
            sent: maybe_uploaded(self.sent),
            moved_path: self.moved_path@,
            again: maybe_uploaded(self.again),
            outcome: match self.outcome {
                Some(o) => Some(o@),
                None => None,
            },
        }
    }
}

impl Job {
    /// Begin an upload of one file.
    pub fn begin() -> (j: Self)
        ensures
            j@.wf(),
            j@ == (JobModel {
                want: Want::Find,
                path: Seq::empty(),
                known: None,
                sent: None,
                moved_path: Seq::empty(),
                again: None,
                outcome: None,
            }),
    {
        Job {
            want: Want::Find,
            path: String::new(),
            known: None,
            sent: None,
            moved_path: String::new(),
            again: None,
            outcome: None,
        }
    }

    /// What the upload wants next.
    pub fn want(&self) -> (w: Want)
        ensures
            w == self@.want,
    {
        self.want
    }

    /// The path to send from or to record the object on: resolved when the
    /// bytes are due, never when the job was queued.
    pub fn path(&self) -> (s: String)
        ensures
            s@ == self@.place(),
    {
        match self.want {
            Want::Resend | Want::AdoptMoved | Want::StampMoved => self.moved_path.clone(),
            _ => self.path.clone(),
        }
    }

    /// What the write is conditional on: the object and version that the file
    /// came from, and nothing when the file is sent again under another name.
    pub fn known(&self) -> (k: Option<(String, Option<String>)>)
        ensures
            match k {
                Some((id, tag)) => Some((id@, text::maybe(tag))),
                None => None,
            } == self@.base(),
    {
        match (self.want, &self.known) {
            (Want::Send, Some((id, tag))) => Some((id.clone(), copy_maybe(tag))),
            _ => None,
        }
    }

    /// The object to record or to remove.
    pub fn object(&self) -> (u: Option<Uploaded>)
        ensures
            match u {
                Some(u) => Some(u@),
                None => None,
            } == self@.object(),
    {
        match self.want {
            Want::AdoptMoved | Want::StampMoved => match &self.again {
                Some(u) => Some(u.clone()),
                None => None,
            },
            _ => match &self.sent {
                Some(u) => Some(u.clone()),
                None => None,
            },
        }
    }

    fn end(&mut self, outcome: Outcome)
        ensures
            final(self)@ == old(self)@.over(outcome@),
    {
        self.want = Want::Over;
        self.outcome = Some(outcome);
    }

    fn end_failed(&mut self, lead: &str, e: String)
        ensures
            final(self)@ == old(self)@.over(OutcomeModel::Failed(lead@ + e@)),
    {
        let m = lead.to_owned().concat(e.as_str());
        self.end(Outcome::Failed(m));
    }

    /// Take what came of the open want, and return the next one.
    pub fn reply(&mut self, r: Reply) -> (want: Want)
        requires
            old(self)@.wf(),
            fits(old(self)@.want, r@),
        ensures
            final(self)@.wf(),
            final(self)@ == old(self)@.next(r@),
            want == final(self)@.want,
    {
        match (self.want, r) {
            (Want::Find, Reply::Found(found)) => {
                match found {
                    None => {
                        self.end(Outcome::NothingToDo);
                    },
                    Some(f) => {
                        self.want = Want::Send;
                        self.path = f.path;
                        self.known = match f.cloud_id {
                            Some(id) => Some((id, f.etag)),
                            None => None,
                        };
                    },
                }
            },
            (Want::Send, Reply::Failed(e)) => {
                self.end(Outcome::Failed(e));
            },
            (Want::Send, Reply::Uploaded(u)) => {
                self.sent = Some(u);
                self.want = Want::FindAgain;
            },
            (Want::FindAgain, Reply::Found(f)) => {
                self.want = if f.is_none() {
                    Want::Rescan
                } else {
                    Want::FindLast
                };
            },
            (Want::Rescan, Reply::Done) => {
                self.want = Want::FindMoved;
            },
            (Want::FindMoved, Reply::Found(found)) => {
                match found {
                    Some(f) => {
                        if paths::same_path(f.path.as_str(), self.path.as_str()) {
                            self.want = Want::FindLast;
                        } else {
                            self.moved_path = f.path;
                            self.want = Want::Resend;
                        }
                    },
                    None => {
                        self.want = Want::FindLast;
                    },
                }
            },
            (Want::Resend, Reply::Failed(e)) => {
                self.end_failed("the file was renamed mid-upload and the resend failed: ", e);
            },
            (Want::Resend, Reply::Uploaded(u)) => {
                let same = match &self.sent {
                    Some(first) => text::same(first.cloud_id.as_str(), u.cloud_id.as_str()),
                    None => true,
                };
                self.want = if same {
                    Want::AdoptMoved
                } else {
                    Want::RemoveStale
                };
                self.again = Some(u);
            },
            (Want::RemoveStale, Reply::Done) => {
                self.want = Want::AdoptMoved;
            },
            (Want::RemoveStale, Reply::Failed(e)) => {
                self.end_failed(
                    "resent under the new name, but the object created under the old one could not be removed: ",
                    e,
                );
            },
            (Want::AdoptMoved, Reply::Done) => {
                self.want = Want::StampMoved;
            },
            (Want::AdoptMoved, Reply::Failed(e)) => {
                self.end_failed("could not record the cloud id after a rename: ", e);
            },
            (Want::StampMoved, Reply::Done) => {
                let id = match &self.again {
                    Some(u) => u.cloud_id.clone(),
                    None => String::new(),
                };
                self.end(Outcome::Sent { cloud_id: id });
            },
            (Want::FindLast, Reply::Found(f)) => {
                self.want = if f.is_none() {
                    Want::RemoveLost
                } else {
                    Want::Adopt
                };
            },
            (Want::RemoveLost, Reply::Done) => {
                self.end(Outcome::DeletedInstead);
            },
            (Want::RemoveLost, Reply::Failed(e)) => {
                self.end_failed(
                    "the file was deleted mid-upload and the remote copy could not be removed: ",
                    e,
                );
            },
            (Want::Adopt, Reply::Done) => {
                self.want = Want::Stamp;
            },
            (Want::Adopt, Reply::Failed(e)) => {
                self.end_failed("could not record the cloud id: ", e);
            },
            (Want::Stamp, Reply::Done) => {
                let id = match &self.sent {
                    Some(u) => u.cloud_id.clone(),
                    None => String::new(),
                };
                self.end(Outcome::Sent { cloud_id: id });
            },
            _ => {},
        }
        self.want
    }

    /// What happened, once the upload is over.
    pub fn outcome(self) -> (o: Outcome)
        requires
            self@.wf(),
            self@.want is Over,
        ensures
            Some(o@) == self@.outcome,
    {
        match self.outcome {
            Some(o) => o,
            None => Outcome::NothingToDo,
        }
    }
}

/// How many wants can still follow.
pub open spec fn steps_left(want: Want) -> int {
    match want {
        Want::Find => 11,
        Want::Send => 10,
        Want::FindAgain => 9,
        Want::Rescan => 8,
        Want::FindMoved => 7,
        Want::Resend => 6,
        Want::RemoveStale => 5,
        Want::AdoptMoved => 4,
        Want::StampMoved => 3,
        Want::FindLast => 6,
        Want::RemoveLost => 5,
        Want::Adopt => 5,
        Want::Stamp => 4,
        Want::Over => 0,
    }
}

/// Every reply brings an upload nearer to its end.
pub proof fn law_an_upload_ends(j: JobModel, r: ReplyModel)
    requires
        j.wf(),
        fits(j.want, r),
    ensures
        0 <= steps_left(j.next(r).want) < steps_left(j.want),
        j.next(r).wf(),
{
}

/// A file that is gone before the bytes are due is not sent.
pub proof fn law_a_missing_file_is_not_sent(j: JobModel)
    requires
        j.wf(),
        j.want is Find,
    ensures
        j.next(ReplyModel::Found(None)).outcome == Some(OutcomeModel::NothingToDo),
        j.next(ReplyModel::Found(None)).sent is None,
{
}

/// The name a file is sent under is the one it had when it was last found.
pub proof fn law_the_name_is_resolved_when_the_bytes_are_due(j: JobModel, r: ReplyModel)
    requires
        j.wf(),
        fits(j.want, r),
    ensures
        j.next(r).want is Send ==> r is Found && r->Found_0 is Some && j.next(r).path
            == r->Found_0->0.path,
        j.next(r).want is Resend ==> r is Found && r->Found_0 is Some && j.next(r).moved_path
            == r->Found_0->0.path,
{
}

/// A delete during an upload sticks: when the file is not found at the end,
/// the object that has just come into existence is removed, and only its
/// removal lets the upload end as deleted.
pub proof fn law_a_delete_during_an_upload_sticks(j: JobModel, r: ReplyModel)
    requires
        j.wf(),
        fits(j.want, r),
    ensures
        j.want is FindLast && r == ReplyModel::Found(None) ==> j.next(r).want is RemoveLost
            && j.next(r).sent == j.sent,
        j.next(r).outcome == Some(OutcomeModel::DeletedInstead) ==> j.want is RemoveLost
            && r is Done,
{
}

/// The only object that an upload ever removes is the one that it created
/// itself.
pub proof fn law_only_its_own_object_is_removed(j: JobModel, r: ReplyModel)
    requires
        j.wf(),
        fits(j.want, r),
    ensures
        j.next(r).want is RemoveStale || j.next(r).want is RemoveLost ==> j.next(r).sent is Some
            && j.next(r).sent == j.sent,
        j.next(r).sent != j.sent ==> j.want is Send && r is Uploaded && j.next(r).sent == Some(
            r->Uploaded_0,
        ),
{
}

/// An upload counts as sent only once the object is recorded on a file that
/// was found after the bytes went out.
pub proof fn law_sent_means_recorded(j: JobModel, r: ReplyModel)
    requires
        j.wf(),
        fits(j.want, r),
    ensures
        j.next(r).outcome is Some && j.next(r).outcome->0 is Sent ==> j.want is Stamp
            || j.want is StampMoved,
        j.next(r).want is Stamp ==> j.want is Adopt && r is Done,
        j.next(r).want is StampMoved ==> j.want is AdoptMoved && r is Done,
        j.next(r).want is Adopt ==> j.want is FindLast && r is Found && r->Found_0 is Some,
{
}

/// An upload of a file that stays where it is: it is sent from where it was found,
/// against the object that it is known to be, and is done once that was recorded
/// and stamped, as the object that came back.
pub proof fn law_an_upload_ends_as_sent(
    j: JobModel,
    f: FoundModel,
    u: UploadedModel,
    again: FoundModel,
    last: FoundModel,
)
    requires
        j.want is Find,
    ensures
        ({
            let send = j.next(ReplyModel::Found(Some(f)));
            let found = send.next(ReplyModel::Uploaded(u));
            let check = found.next(ReplyModel::Found(Some(again)));
            let adopt = check.next(ReplyModel::Found(Some(last)));
            let stamp = adopt.next(ReplyModel::Done);
            let over = stamp.next(ReplyModel::Done);
            &&& send.want is Send && send.path == f.path
            &&& f.cloud_id is None ==> send.known is None
            &&& f.cloud_id matches Some(id) ==> send.known == Some((id, f.etag))
            &&& found.want is FindAgain && found.sent == Some(u)
            &&& check.want is FindLast
            &&& adopt.want is Adopt && adopt.sent == Some(u) && adopt.path == f.path
            &&& stamp.want is Stamp && stamp.sent == Some(u) && stamp.path == f.path
            &&& over.want is Over && over.outcome == Some(
                OutcomeModel::Sent { cloud_id: u.cloud_id },
            )
        }),
{
}

/// An upload of a file that cannot be found again under the inode is looked for in
/// the whole directory. Where it now stands under another path, it is sent again
/// from there, as a new object: the first object is removed where it is another
/// one, and what is recorded and reported is the second.
pub proof fn law_a_file_renamed_during_an_upload_is_sent_again(
    j: JobModel,
    u: UploadedModel,
    moved: FoundModel,
    v: UploadedModel,
)
    requires
        j.want is FindAgain,
        j.sent == Some(u),
        paths::parts(moved.path) != paths::parts(j.path),
    ensures
        ({
            let scan = j.next(ReplyModel::Found(None));
            let look = scan.next(ReplyModel::Done);
            let resend = look.next(ReplyModel::Found(Some(moved)));
            let sent = resend.next(ReplyModel::Uploaded(v));
            let adopt = if v.cloud_id == u.cloud_id {
                sent
            } else {
                sent.next(ReplyModel::Done)
            };
            let stamp = adopt.next(ReplyModel::Done);
            let over = stamp.next(ReplyModel::Done);
            &&& scan.want is Rescan
            &&& look.want is FindMoved
            &&& resend.want is Resend && resend.moved_path == moved.path && resend.sent == Some(u)
            &&& v.cloud_id != u.cloud_id <==> sent.want is RemoveStale
            &&& sent.sent == Some(u) && sent.again == Some(v)
            &&& adopt.want is AdoptMoved && adopt.moved_path == moved.path && adopt.again == Some(v)
            &&& stamp.want is StampMoved
            &&& over.outcome == Some(OutcomeModel::Sent { cloud_id: v.cloud_id })
        }),
{
}

/// A file that a rescan still has where it was, or does not have at all, is looked
/// for once more before anything is recorded: gone, its object is removed again;
/// there, the upload stands.
pub proof fn law_a_file_that_did_not_move_is_looked_for_once_more(
    j: JobModel,
    u: UploadedModel,
    seen: Option<FoundModel>,
    last: FoundModel,
)
    requires
        j.want is FindMoved,
        j.sent == Some(u),
        seen is None || paths::parts(seen->0.path) == paths::parts(j.path),
    ensures
        ({
            let check = j.next(ReplyModel::Found(seen));
            let lost = check.next(ReplyModel::Found(None));
            let kept = check.next(ReplyModel::Found(Some(last)));
            &&& check.want is FindLast
            &&& lost.want is RemoveLost && lost.sent == Some(u)
            &&& lost.next(ReplyModel::Done).outcome == Some(OutcomeModel::DeletedInstead)
            &&& kept.want is Adopt && kept.sent == Some(u)
        }),
{
}

/// A step that fails ends the upload there, and what failed is what is said: as it
/// came where sending failed, and with where it happened otherwise.
pub proof fn law_a_failed_step_ends_the_upload(j: JobModel, e: Seq<char>)
    requires
        fits(j.want, ReplyModel::Failed(e)),
    ensures
        ({
            let over = j.next(ReplyModel::Failed(e));
            &&& over.want is Over
            &&& over.outcome matches Some(OutcomeModel::Failed(said)) && (j.want is Send ==> said
                == e) && said.len() >= e.len() && said.skip(said.len() - e.len()) == e
            &&& over.sent == j.sent
        }),
{
    let over = j.next(ReplyModel::Failed(e));
    let said = over.outcome->0->Failed_0;
    assert(said.skip(said.len() - e.len()) =~= e);
}

/// What a step is about: a file is sent from where it was found, against the object
/// that it is known to be, and sent again from where it was found then, against
/// nothing. What is recorded is the object of that sending, at that path; what is
/// removed is the object of the first.
pub proof fn law_what_a_step_is_about(j: JobModel)
    ensures
        j.want is Send ==> j.place() == j.path && j.base() == j.known,
        j.want is Resend ==> j.place() == j.moved_path && j.base() is None,
        j.want is Adopt || j.want is Stamp ==> j.place() == j.path && j.object() == j.sent,
        j.want is AdoptMoved || j.want is StampMoved ==> j.place() == j.moved_path && j.object()
            == j.again,
        j.want is RemoveStale || j.want is RemoveLost ==> j.object() == j.sent,
        !(j.want is Send) ==> j.base() is None,
{
}

} // verus!
