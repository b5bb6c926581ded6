//! What a hydration framework is measured by: the surface an implementation is
//! driven through, and what a run comes to.

use crate::text;
use vstd::prelude::*;
use vstd::string::*;

verus! {

/// What the cloud side holds for one object.
#[derive(Debug, PartialEq, Eq)]
pub struct CloudObject {
    /// The id the cloud assigned. Never a locally invented one.
    pub id: String,
    /// The name the object has in the cloud.
    pub name: String,
    pub content: Vec<u8>,
    pub etag: String,
}

/// An object over texts.
#[verifier::ext_equal]
pub struct ObjectModel {
    pub id: Seq<char>,
    pub name: Seq<char>,
    pub content: Seq<u8>,
    pub etag: Seq<char>,
}

impl View for CloudObject {
    type V = ObjectModel;

    open spec fn view(&self) -> ObjectModel {
        ObjectModel {
            id: self.id@,
            name: self.name@,
            content: self.content@,
            etag: self.etag@,
        }
    }
}

impl CloudObject {
    /// The same object once more.
    pub fn copy(&self) -> (o: CloudObject)
        ensures
            o@ == self@,
    {
        CloudObject {
            id: self.id.as_str().to_owned(),
            name: self.name.as_str().to_owned(),
            content: text::copy_bytes(&self.content),
            etag: self.etag.as_str().to_owned(),
        }
    }
}

/// A request that was made to the cloud. That a delete reached the server cannot
/// be seen from the files alone.
#[derive(Debug, PartialEq, Eq)]
pub enum CloudOp {
    Get { id: String },
    Put { name: String, content: Vec<u8> },
    Delete { id: String },
    Rename { id: String, to: String },
}

/// A request over texts.
#[verifier::ext_equal]
pub enum OpModel {
    Get { id: Seq<char> },
    Put { name: Seq<char>, content: Seq<u8> },
    Delete { id: Seq<char> },
    Rename { id: Seq<char>, to: Seq<char> },
}

impl View for CloudOp {
    type V = OpModel;

    open spec fn view(&self) -> OpModel {
        match *self {
            CloudOp::Get { id } => OpModel::Get { id: id@ },
            CloudOp::Put { name, content } => OpModel::Put { name: name@, content: content@ },
            CloudOp::Delete { id } => OpModel::Delete { id: id@ },
            CloudOp::Rename { id, to } => OpModel::Rename { id: id@, to: to@ },
        }
    }
}

impl CloudOp {
    /// The same request once more.
    pub fn copy(&self) -> (o: CloudOp)
        ensures
            o@ == self@,
    {
        match self {
            CloudOp::Get { id } => CloudOp::Get { id: id.as_str().to_owned() },
            CloudOp::Put { name, content } => CloudOp::Put {
                name: name.as_str().to_owned(),
                content: text::copy_bytes(content),
            },
            CloudOp::Delete { id } => CloudOp::Delete { id: id.as_str().to_owned() },
            CloudOp::Rename { id, to } => CloudOp::Rename {
                id: id.as_str().to_owned(),
                to: to.as_str().to_owned(),
            },
        }
    }
}

/// Requests over texts.
pub open spec fn op_models(ops: Seq<CloudOp>) -> Seq<OpModel> {
    ops.map_values(|op: CloudOp| op@)
}

/// The same requests once more.
pub fn copy_ops(ops: &Vec<CloudOp>) -> (out: Vec<CloudOp>)
    ensures
        op_models(out@) == op_models(ops@),
{
    let mut out: Vec<CloudOp> = Vec::new();
    let mut i: usize = 0;
    while i < ops.len()
        invariant
            i <= ops@.len(),
            op_models(out@) == op_models(ops@).take(i as int),
        decreases ops@.len() - i,
    {
        let ghost had = op_models(out@);
        out.push(ops[i].copy());
        assert(op_models(out@) =~= had.push(ops@[i as int]@));
        i = i + 1;
        assert(op_models(out@) =~= op_models(ops@).take(i as int));
    }
    assert(op_models(ops@).take(i as int) =~= op_models(ops@));
    out
}

/// What a download returns.
#[derive(Debug, PartialEq, Eq)]
pub enum FetchBehaviour {
    /// The object as declared.
    Honest,
    /// Fewer bytes than were promised.
    Short { bytes: usize },
    /// The content of another version.
    Stale { etag: String },
}

/// Outcome of one invariant. What does not apply has not passed.
#[derive(Debug, PartialEq, Eq)]
pub enum Outcome {
    Pass,
    NotApplicable(String),
}

/// An outcome over texts.
#[verifier::ext_equal]
pub enum OutcomeModel {
    Pass,
    NotApplicable(Seq<char>),
}

impl View for Outcome {
    type V = OutcomeModel;

    open spec fn view(&self) -> OutcomeModel {
        match *self {
            Outcome::Pass => OutcomeModel::Pass,
            Outcome::NotApplicable(why) => OutcomeModel::NotApplicable(why@),
        }
    }
}

impl Outcome {
    pub fn is_pass(&self) -> (b: bool)
        ensures
            b == (self@ == OutcomeModel::Pass),
    {
        matches!(self, Outcome::Pass)
    }
}

/// The control surface that an implementation shows in order to be measured.
/// Races are arranged through it and not waited for.
pub trait Harness {
    /// The directory a user would see.
    fn sync_dir(&self) -> String;

    /// Place an object in the cloud and bring it down as a placeholder.
    fn seed_remote(&mut self, name: &str, content: &Vec<u8>, etag: &str) -> String;

    /// What the cloud holds by this name.
    fn remote(&self, name: &str) -> Option<CloudObject>;

    /// Every request that was made, in order.
    fn ops_observed(&self) -> Vec<CloudOp>;

    /// Hold uploads open once they start.
    fn hold_uploads(&mut self);

    /// Let held uploads complete.
    fn release_uploads(&mut self);

    /// Wait until an upload has begun, for so many milliseconds at most.
    fn wait_for_upload_start(&self, millis: u64) -> bool;

    /// Let any quiet period expire and drain the upload queue.
    fn settle(&mut self);

    /// How the next download behaves.
    fn set_fetch_behaviour(&mut self, name: &str, behaviour: FetchBehaviour);

    /// Evict local content and leave the metadata.
    fn dehydrate(&mut self, name: &str);

    /// Changes that are not in the cloud, those still waiting included.
    fn pending_uploads(&self) -> usize;

    /// Files that are present as metadata alone.
    fn dehydrated_count(&self) -> usize;

    /// Kill the component that serves hydration.
    fn kill_hydration_worker(&mut self);

    /// Whether there is such a component at all.
    fn has_separable_worker(&self) -> (b: bool)
        default_ensures
            !b,
    {
        false
    }
}

} // verus!
