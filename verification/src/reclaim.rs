//! Giving the disk back.
//!
//! A placeholder is built beside the file and swapped in, so eviction is
//! placement over a file that currently has content. Here is the decision:
//! what may be evicted, what is refused and why. The caller finds out what the
//! filesystem says and carries the decision out.

use crate::delta;
use crate::evict_policy::{Candidate, CandidateModel};
use crate::paths;
use crate::sort;
use crate::store;
use crate::store::{Store, StoreModel};
use crate::table::{FileId, Table};
use crate::text;
use vstd::prelude::*;
use vstd::string::*;

verus! {

/// Why a file was left alone. Every one of these is a refusal to destroy
/// something.
#[derive(Debug, PartialEq, Eq)]
pub enum Refused {
    /// No content here to reclaim.
    AlreadyDehydrated,
    /// Nothing in the cloud has this file's content.
    NotUploaded,
    /// Edited since it was last sent: the local copy is the only one.
    ChangedSinceUpload,
    /// An edit is waiting out the debounce, or is being sent right now.
    UploadPending,
    /// The user asked to keep this on the device. `via` names where the pin is,
    /// which is not the file itself when a folder was pinned.
    Pinned { via: String },
    /// Not a regular file, or not ours to touch.
    NotEligible(String),
}

/// A refusal as plain values.
#[verifier::ext_equal]
pub enum RefusedModel {
    AlreadyDehydrated,
    NotUploaded,
    ChangedSinceUpload,
    UploadPending,
    Pinned { via: Seq<char> },
    NotEligible(Seq<char>),
}

impl View for Refused {
    type V = RefusedModel;

    open spec fn view(&self) -> RefusedModel {
        match *self {
            Refused::AlreadyDehydrated => RefusedModel::AlreadyDehydrated,
            Refused::NotUploaded => RefusedModel::NotUploaded,
            Refused::ChangedSinceUpload => RefusedModel::ChangedSinceUpload,
            Refused::UploadPending => RefusedModel::UploadPending,
            Refused::Pinned { via } => RefusedModel::Pinned { via: via@ },
            Refused::NotEligible(why) => RefusedModel::NotEligible(why@),
        }
    }
}

/// What was reclaimed.
#[derive(Debug, Clone, Copy, PartialEq, Eq, Structural)]
pub struct Reclaimed {
    pub bytes: u64,
}

/// How a file compares with what was last made clean.
#[derive(Debug, Clone, Copy, PartialEq, Eq, Structural)]
pub enum Stamp {
    Clean,
    Dirty,
    /// Never made clean, so nothing can be claimed of it.
    Unstamped,
}

/// The metadata of a file.
#[derive(Debug, Clone, Copy, PartialEq, Eq, Structural)]
pub struct Meta {
    pub regular: bool,
    pub id: FileId,
    pub size: u64,
    /// How many blocks of 512 bytes it holds.
    pub blocks: u64,
}

/// How large a block is.
pub const BLOCK: u64 = 512;

/// A path and the sync root with every link resolved.
#[derive(Debug, PartialEq, Eq)]
pub struct Real {
    pub path: String,
    pub root: String,
}

/// Resolved paths over texts.
#[verifier::ext_equal]
pub struct RealModel {
    pub path: Seq<char>,
    pub root: Seq<char>,
}

impl View for Real {
    type V = RealModel;

    open spec fn view(&self) -> RealModel {
        RealModel { path: self.path@, root: self.root@ }
    }
}

/// What the filesystem says of the file that was named. What could not be read
/// is an error with its message.
#[derive(Debug, PartialEq, Eq)]
pub struct Facts {
    /// Whether the path is one that is never synced.
    pub ignored: bool,
    pub meta: Result<Meta, String>,
    /// `None` where the path or the root does not resolve.
    pub resolved: Option<Real>,
    /// Whether the file is marked as having no local content.
    pub dehydrated: Result<bool, String>,
    /// Whether each path of [`pin_chain`] is pinned.
    pub pins: Vec<Result<bool, String>>,
    /// The attribute that holds the cloud id.
    pub cloud_id: Result<Option<Vec<u8>>, String>,
    pub stamp: Result<Stamp, String>,
    /// The attribute that holds the tag.
    pub etag: Result<Option<Vec<u8>>, String>,
}

/// Facts over texts.
#[verifier::ext_equal]
pub struct FactsModel {
    pub ignored: bool,
    pub meta: Result<Meta, Seq<char>>,
    pub resolved: Option<RealModel>,
    pub dehydrated: Result<bool, Seq<char>>,
    pub pins: Seq<Result<bool, Seq<char>>>,
    pub cloud_id: Result<Option<Seq<u8>>, Seq<char>>,
    pub stamp: Result<Stamp, Seq<char>>,
    pub etag: Result<Option<Seq<u8>>, Seq<char>>,
}

/// What could be read, or why not.
pub open spec fn said<T>(r: Result<T, String>) -> Result<T, Seq<char>> {
    match r {
        Ok(x) => Ok(x),
        Err(e) => Err(e@),
    }
}

/// The bytes that could be read, or why not.
pub open spec fn said_bytes(r: Result<Option<Vec<u8>>, String>) -> Result<
    Option<Seq<u8>>,
    Seq<char>,
> {
    match r {
        Ok(x) => Ok(store::maybe_bytes(x)),
        Err(e) => Err(e@),
    }
}

/// Which pins were read.
pub open spec fn pins_said(pins: Seq<Result<bool, String>>) -> Seq<Result<bool, Seq<char>>> {
    pins.map_values(|r: Result<bool, String>| said(r))
}

impl View for Facts {
    type V = FactsModel;

    open spec fn view(&self) -> FactsModel {
        FactsModel {
            ignored: self.ignored,
            meta: said(self.meta),
            resolved: match self.resolved {
                Some(r) => Some(r@),
                None => None,
            },
            dehydrated: said(self.dehydrated),
            pins: pins_said(self.pins@),
            cloud_id: said_bytes(self.cloud_id),
            stamp: said(self.stamp),
            etag: said_bytes(self.etag),
        }
    }
}

/// A file that may be evicted, and what the placeholder in its place is to be.
#[derive(Debug, PartialEq, Eq)]
pub struct Plan {
    /// Where the file is, with every link resolved.
    pub path: String,
    pub root: String,
    pub id: FileId,
    pub size: u64,
    pub blocks: u64,
    pub cloud_id: String,
    pub etag: Option<String>,
}

/// A plan over texts.
#[verifier::ext_equal]
pub struct PlanModel {
    pub path: Seq<char>,
    pub root: Seq<char>,
    pub id: FileId,
    pub size: u64,
    pub blocks: u64,
    pub cloud_id: Seq<char>,
    pub etag: Option<Seq<char>>,
}

impl View for Plan {
    type V = PlanModel;

    open spec fn view(&self) -> PlanModel {
        PlanModel {
            path: self.path@,
            root: self.root@,
            id: self.id,
            size: self.size,
            blocks: self.blocks,
            cloud_id: self.cloud_id@,
            etag: text::maybe(self.etag),
        }
    }
}

/// A path and everything above it, up to and including the root.
pub open spec fn chain(path: Seq<char>, root: Seq<char>) -> Seq<Seq<char>>
    decreases paths::parts(path).len(),
{
    proof {
        paths::law_a_parent_is_one_part_up(path);
    }
    if paths::parts(path) == paths::parts(root) {
        seq![path]
    } else {
        match paths::parent_of(path) {
            Some(up) => seq![path] + chain(up, root),
            None => seq![path],
        }
    }
}

/// The error of a path whose pin was not read: nothing is taken for unpinned
/// without an answer.
pub const UNREAD_PIN: &'static str = "it was not read whether a directory above the file is pinned";

/// The first path that is pinned, or the error that was met before it.
pub open spec fn pinned(
    chain: Seq<Seq<char>>,
    pins: Seq<Result<bool, Seq<char>>>,
    i: int,
) -> Result<Option<Seq<char>>, Seq<char>>
    decreases chain.len() - i,
{
    if i < 0 || i >= chain.len() {
        Ok(None)
    } else if i >= pins.len() {
        Err(UNREAD_PIN@)
    } else {
        match pins[i] {
            Err(e) => Err(e),
            Ok(on) => if on {
                Ok(Some(chain[i]))
            } else {
                pinned(chain, pins, i + 1)
            },
        }
    }
}

pub open spec fn not_inside(shown: Seq<char>) -> RefusedModel {
    RefusedModel::NotEligible(shown + " is not a path inside the sync directory"@)
}

pub open spec fn kept_local(shown: Seq<char>) -> RefusedModel {
    RefusedModel::NotEligible(shown + " is sync-ignored and is kept as a real local file"@)
}

/// Why a path that resolves to this is refused, if it is: a link may lead out
/// of a directory that every part of the path is inside of.
pub open spec fn strays(resolved: Option<RealModel>) -> Option<RefusedModel> {
    match resolved {
        None => Some(RefusedModel::NotEligible("could not resolve the path"@)),
        Some(r) => if paths::starts_with(r.path, r.root) {
            None
        } else {
            Some(RefusedModel::NotEligible("resolves outside the sync directory"@))
        },
    }
}

/// What the checks on the file itself decide, once the path is known to be
/// inside.
pub open spec fn weighed(
    resolved: RealModel,
    meta: Meta,
    f: FactsModel,
    busy: bool,
) -> Result<Result<PlanModel, RefusedModel>, Seq<char>> {
    match f.dehydrated {
        Err(e) => Err(e),
        Ok(true) => Ok(Err(RefusedModel::AlreadyDehydrated)),
        Ok(false) => match pinned(chain(resolved.path, resolved.root), f.pins, 0) {
            Err(e) => Err(e),
            Ok(Some(via)) => Ok(Err(RefusedModel::Pinned { via })),
            Ok(None) => if busy {
                Ok(Err(RefusedModel::UploadPending))
            } else {
                sent(resolved, meta, f)
            },
        },
    }
}

/// What the checks on what the cloud has decide.
pub open spec fn sent(resolved: RealModel, meta: Meta, f: FactsModel) -> Result<
    Result<PlanModel, RefusedModel>,
    Seq<char>,
> {
    match f.cloud_id {
        Err(e) => Err(e),
        Ok(value) => match store::string_of(value) {
            None => Ok(Err(RefusedModel::NotUploaded)),
            Some(cloud_id) => if cloud_id.len() == 0 {
                Ok(Err(RefusedModel::NotUploaded))
            } else {
                match (f.stamp, f.etag) {
                    (Err(e), _) => Err(e),
                    (Ok(Stamp::Clean), Err(e)) => Err(e),
                    (Ok(Stamp::Clean), Ok(tag)) => Ok(
                        Ok(
                            PlanModel {
                                path: resolved.path,
                                root: resolved.root,
                                id: meta.id,
                                size: meta.size,
                                blocks: meta.blocks,
                                cloud_id,
                                etag: store::string_of(tag),
                            },
                        ),
                    ),
                    (Ok(_), _) => Ok(Err(RefusedModel::ChangedSinceUpload)),
                }
            },
        },
    }
}

/// What is decided of a file that someone asked to evict. The path is
/// untrusted; `shown` is how a refusal shows it.
pub open spec fn judged(
    rel: Seq<char>,
    shown: Seq<char>,
    reserved: Seq<Seq<char>>,
    f: FactsModel,
    waiting: Set<FileId>,
    sending: Set<FileId>,
) -> Result<Result<PlanModel, RefusedModel>, Seq<char>> {
    if !delta::is_safe(rel, reserved) {
        Ok(Err(not_inside(shown)))
    } else if f.ignored {
        Ok(Err(kept_local(shown)))
    } else {
        match f.meta {
            Err(e) => Err(e),
            Ok(meta) => if !meta.regular {
                Ok(Err(RefusedModel::NotEligible("not a regular file"@)))
            } else {
                match strays(f.resolved) {
                    Some(why) => Ok(Err(why)),
                    None => weighed(
                        f.resolved->0,
                        meta,
                        f,
                        waiting.contains(meta.id) || sending.contains(meta.id),
                    ),
                }
            },
        }
    }
}

/// A decision as plain values.
pub open spec fn decision(r: Result<Result<Plan, Refused>, String>) -> Result<
    Result<PlanModel, RefusedModel>,
    Seq<char>,
> {
    match r {
        Err(e) => Err(e@),
        Ok(Err(why)) => Ok(Err(why@)),
        Ok(Ok(plan)) => Ok(Ok(plan@)),
    }
}

/// The paths whose pins decide about a path: its own and those of everything
/// above it, up to and including the root.
pub fn pin_chain(path: &str, root: &str) -> (out: Vec<String>)
    ensures
        text::texts(out@) == chain(path@, root@),
{
    let mut out: Vec<String> = Vec::new();
    let mut at: String = path.to_owned();
    let mut more = true;
    assert(text::texts(out@) + chain(at@, root@) =~= chain(path@, root@));
    while more
        invariant
            more ==> text::texts(out@) + chain(at@, root@) == chain(path@, root@),
            !more ==> text::texts(out@) == chain(path@, root@),
        decreases paths::parts(at@).len(), (if more { 1int } else { 0int }),
    {
        proof {
            paths::law_a_parent_is_one_part_up(at@);
        }
        let ghost had = text::texts(out@);
        let ghost here = at@;
        out.push(at.as_str().to_owned());
        assert(text::texts(out@) =~= had.push(here));
        if paths::same_path(at.as_str(), root) {
            more = false;
            assert(had + seq![here] =~= had.push(here));
        } else {
            match paths::parent(at.as_str()) {
                Some(up) => {
                    assert(had + (seq![here] + chain(up@, root@)) =~= had.push(here) + chain(
                        up@,
                        root@,
                    ));
                    at = up;
                },
                None => {
                    more = false;
                    assert(had + seq![here] =~= had.push(here));
                },
            }
        }
    }
    out
}

fn first_pinned(paths: &Vec<String>, pins: &Vec<Result<bool, String>>) -> (r: Result<
    Option<String>,
    String,
>)
    ensures
        pinned(text::texts(paths@), pins_said(pins@), 0) == match r {
            Ok(via) => Ok(text::maybe(via)),
            Err(e) => Err(e@),
        },
{
    let ghost all = text::texts(paths@);
    let ghost read = pins_said(pins@);
    let mut i: usize = 0;
    while i < paths.len()
        invariant
            i <= paths@.len(),
            i <= pins@.len(),
            all == text::texts(paths@),
            read == pins_said(pins@),
            pinned(all, read, 0) == pinned(all, read, i as int),
        decreases paths@.len() - i,
    {
        if i >= pins.len() {
            return Err(UNREAD_PIN.to_owned());
        }
        assert(read[i as int] == said(pins@[i as int]));
        assert(all[i as int] == paths@[i as int]@);
        match &pins[i] {
            Err(e) => {
                return Err(e.as_str().to_owned());
            },
            Ok(on) => {
                if *on {
                    return Ok(Some(paths[i].as_str().to_owned()));
                }
            },
        }
        i = i + 1;
    }
    Ok(None)
}

/// Refuse a path that is not inside, showing it as given.
pub fn refuse_outside(shown: &str) -> (r: Refused)
    ensures
        r@ == not_inside(shown@),
{
    let mut why: String = shown.to_owned();
    why.append(" is not a path inside the sync directory");
    Refused::NotEligible(why)
}

/// Refuse a path that is never synced, showing it as given.
pub fn refuse_ignored(shown: &str) -> (r: Refused)
    ensures
        r@ == kept_local(shown@),
{
    let mut why: String = shown.to_owned();
    why.append(" is sync-ignored and is kept as a real local file");
    Refused::NotEligible(why)
}

fn refuse_stray(resolved: &Option<Real>) -> (r: Option<Refused>)
    ensures
        strays(
            match *resolved {
                Some(x) => Some(x@),
                None => None,
            },
        ) == match r {
            Some(why) => Some(why@),
            None => None,
        },
{
    match resolved {
        None => Some(Refused::NotEligible("could not resolve the path".to_owned())),
        Some(x) => if paths::lies_under(x.path.as_str(), x.root.as_str()) {
            None
        } else {
            Some(Refused::NotEligible("resolves outside the sync directory".to_owned()))
        },
    }
}

fn copy_bytes(v: &Option<Vec<u8>>) -> (r: Option<Vec<u8>>)
    ensures
        store::maybe_bytes(r) == store::maybe_bytes(*v),
{
    match v {
        Some(v) => Some(text::copy_bytes(v)),
        None => None,
    }
}

fn weigh_sent(resolved: &Real, meta: Meta, f: &Facts) -> (r: Result<Result<Plan, Refused>, String>)
    ensures
        decision(r) == sent(resolved@, meta, f@),
{
    let value = match &f.cloud_id {
        Err(e) => {
            return Err(e.as_str().to_owned());
        },
        Ok(value) => copy_bytes(value),
    };
    let cloud_id = match store::get_xattr_string(value) {
        None => {
            return Ok(Err(Refused::NotUploaded));
        },
        Some(cloud_id) => cloud_id,
    };
    if cloud_id.as_str().is_empty() {
        return Ok(Err(Refused::NotUploaded));
    }
    match &f.stamp {
        Err(e) => Err(e.as_str().to_owned()),
        Ok(Stamp::Clean) => match &f.etag {
            Err(e) => Err(e.as_str().to_owned()),
            Ok(tag) => Ok(
                Ok(
                    Plan {
                        path: resolved.path.as_str().to_owned(),
                        root: resolved.root.as_str().to_owned(),
                        id: meta.id,
                        size: meta.size,
                        blocks: meta.blocks,
                        cloud_id,
                        etag: store::get_xattr_string(copy_bytes(tag)),
                    },
                ),
            ),
        },
        Ok(_) => Ok(Err(Refused::ChangedSinceUpload)),
    }
}

fn weigh(resolved: &Real, meta: Meta, f: &Facts, busy: bool) -> (r: Result<
    Result<Plan, Refused>,
    String,
>)
    ensures
        decision(r) == weighed(resolved@, meta, f@, busy),
{
    match &f.dehydrated {
        Err(e) => {
            return Err(e.as_str().to_owned());
        },
        Ok(gone) => {
            if *gone {
                return Ok(Err(Refused::AlreadyDehydrated));
            }
        },
    }
    let above = pin_chain(resolved.path.as_str(), resolved.root.as_str());
    match first_pinned(&above, &f.pins) {
        Err(e) => {
            return Err(e);
        },
        Ok(Some(via)) => {
            return Ok(Err(Refused::Pinned { via }));
        },
        Ok(None) => {},
    }
    if busy {
        return Ok(Err(Refused::UploadPending));
    }
    weigh_sent(resolved, meta, f)
}

/// Decide whether a file that someone asked to evict may be, given how a
/// refusal shows its path.
pub fn judge(
    rel: &str,
    shown: &str,
    reserved: &Vec<String>,
    facts: &Facts,
    waiting: &Table<FileId, ()>,
    sending: &Table<FileId, ()>,
) -> (r: Result<Result<Plan, Refused>, String>)
    ensures
        decision(r) == judged(
            rel@,
            shown@,
            text::texts(reserved@),
            facts@,
            waiting@.dom(),
            sending@.dom(),
        ),
{
    if delta::safe_join("", rel, reserved).is_none() {
        return Ok(Err(refuse_outside(shown)));
    }
    if facts.ignored {
        return Ok(Err(refuse_ignored(shown)));
    }
    let meta = match &facts.meta {
        Err(e) => {
            return Err(e.as_str().to_owned());
        },
        Ok(meta) => *meta,
    };
    if !meta.regular {
        return Ok(Err(Refused::NotEligible("not a regular file".to_owned())));
    }
    if let Some(why) = refuse_stray(&facts.resolved) {
        return Ok(Err(why));
    }
    match &facts.resolved {
        Some(resolved) => weigh(
            resolved,
            meta,
            facts,
            waiting.contains(&meta.id) || sending.contains(&meta.id),
        ),
        None => Ok(Err(Refused::NotEligible("could not resolve the path".to_owned()))),
    }
}

/// Decide whether a file may be turned back into a placeholder. `rel` is
/// relative to the root and untrusted; `waiting` and `sending` are snapshots of
/// the upload queue. An error is one that the facts met before anything was
/// decided.
pub fn reclaim(
    rel: &str,
    reserved: &Vec<String>,
    facts: &Facts,
    waiting: &Table<FileId, ()>,
    sending: &Table<FileId, ()>,
) -> (r: Result<Result<Plan, Refused>, String>)
    ensures
        decision(r) == judged(
            rel@,
            text::quoted(rel@),
            text::texts(reserved@),
            facts@,
            waiting@.dom(),
            sending@.dom(),
        ),
{
    let shown = text::quote(rel);
    judge(rel, shown.as_str(), reserved, facts, waiting, sending)
}

/// How many bytes came free when one thing took the place of another.
pub open spec fn freed(blocks: u64, blocks_after: Option<u64>) -> int {
    let before = blocks * BLOCK;
    let after = match blocks_after {
        Some(b) => b * BLOCK,
        None => 0,
    };
    if before > after {
        before - after
    } else {
        0
    }
}

/// What the index has once a placeholder was to be put in place of a file.
pub open spec fn after_settling(store: StoreModel, id: FileId, placed: bool) -> StoreModel {
    if placed {
        StoreModel { index: store.index.remove(id), ..store }
    } else {
        store
    }
}

/// What came of carrying a plan out: `placed` says whether the placeholder went
/// in, which it does only over the file that was judged, and `blocks_after` is
/// what the placeholder holds. The index forgets the inode that is gone.
///
/// What was freed is measured and not assumed: a file may hold less than its
/// length, and a placeholder more than nothing.
pub fn settle(store: &mut Store, plan: &Plan, placed: bool, blocks_after: Option<u64>) -> (r:
    Result<Reclaimed, Refused>)
    requires
        plan.blocks * BLOCK <= u64::MAX,
        blocks_after matches Some(b) ==> b * BLOCK <= u64::MAX,
    ensures
        !placed ==> *final(store) == *old(store),
        final(store)@ == after_settling(old(store)@, plan.id, placed),
        match r {
            Ok(got) => placed && got.bytes == freed(plan.blocks, blocks_after),
            Err(why) => !placed && why@ == RefusedModel::ChangedSinceUpload,
        },
{
    if !placed {
        return Err(Refused::ChangedSinceUpload);
    }
    let before: u64 = plan.blocks * BLOCK;
    let after: u64 = match blocks_after {
        Some(b) => b * BLOCK,
        None => 0,
    };
    store.forget(&plan.id);
    Ok(Reclaimed { bytes: before.saturating_sub(after) })
}

/// What a request to pin or unpin a path comes to: where the pin goes, or why
/// it goes nowhere.
pub open spec fn pin_target(
    rel: Seq<char>,
    shown: Seq<char>,
    reserved: Seq<Seq<char>>,
    resolved: Option<RealModel>,
) -> Result<Seq<char>, RefusedModel> {
    if !delta::is_safe(rel, reserved) {
        Err(not_inside(shown))
    } else {
        match strays(resolved) {
            Some(why) => Err(why),
            None => Ok(resolved->0.path),
        }
    }
}

/// Resolved paths that may be missing, over texts.
pub open spec fn maybe_real(resolved: Option<Real>) -> Option<RealModel> {
    match resolved {
        Some(r) => Some(r@),
        None => None,
    }
}

/// Where the pin for a path goes, given how a refusal shows the path.
pub fn pin_place(rel: &str, shown: &str, reserved: &Vec<String>, resolved: &Option<Real>) -> (r: Result<
    String,
    Refused,
>)
    ensures
        pin_target(rel@, shown@, text::texts(reserved@), maybe_real(*resolved)) == match r {
            Ok(path) => Ok(path@),
            Err(why) => Err(why@),
        },
{
    if delta::safe_join("", rel, reserved).is_none() {
        return Err(refuse_outside(shown));
    }
    if let Some(why) = refuse_stray(resolved) {
        return Err(why);
    }
    match resolved {
        Some(r) => Ok(r.path.as_str().to_owned()),
        None => Err(Refused::NotEligible("could not resolve the path".to_owned())),
    }
}

/// Where to set or clear the pin for a file or directory that an untrusted
/// `rel` names. A pin on a directory protects everything below it.
pub fn set_pin(rel: &str, reserved: &Vec<String>, resolved: &Option<Real>) -> (r: Result<
    String,
    Refused,
>)
    ensures
        pin_target(rel@, text::quoted(rel@), text::texts(reserved@), maybe_real(*resolved)) == match r {
            Ok(path) => Ok(path@),
            Err(why) => Err(why@),
        },
{
    let shown = text::quote(rel);
    pin_place(rel, shown.as_str(), reserved, resolved)
}

/// A regular file that a walk below a directory came upon.
#[derive(Debug, PartialEq, Eq)]
pub struct Walked {
    /// The whole path.
    pub path: String,
    /// Whether the file is marked as having no local content.
    pub dehydrated: Result<bool, String>,
}

/// A file that a walk came upon, over texts.
#[verifier::ext_equal]
pub struct WalkedModel {
    pub path: Seq<char>,
    pub dehydrated: Result<bool, Seq<char>>,
}

impl View for Walked {
    type V = WalkedModel;

    open spec fn view(&self) -> WalkedModel {
        WalkedModel { path: self.path@, dehydrated: said(self.dehydrated) }
    }
}

/// A walk over texts.
pub open spec fn walk_models(v: Seq<Walked>) -> Seq<WalkedModel> {
    v.map_values(|w: Walked| w@)
}

/// Whether a line can carry a path.
pub open spec fn carries(path: Seq<char>) -> bool {
    !path.contains('\n') && !path.contains('\r')
}

/// The files without content that a walk came upon, relative to the root, or
/// the first error it met. One that a line cannot carry is left off.
pub open spec fn hollow(root: Seq<char>, walk: Seq<WalkedModel>) -> Result<
    Seq<Seq<char>>,
    Seq<char>,
>
    decreases walk.len(),
{
    if walk.len() == 0 {
        Ok(Seq::empty())
    } else {
        let w = walk.last();
        match (hollow(root, walk.drop_last()), w.dehydrated) {
            (Err(e), _) => Err(e),
            (Ok(_), Err(e)) => Err(e),
            (Ok(before), Ok(on)) => match paths::relative_to(root, w.path) {
                Some(rel) => if on && carries(rel) {
                    Ok(before.push(rel))
                } else {
                    Ok(before)
                },
                None => Ok(before),
            },
        }
    }
}

/// What a request for the files without content below a directory comes to.
pub open spec fn pending_below(
    rel: Seq<char>,
    shown: Seq<char>,
    reserved: Seq<Seq<char>>,
    resolved: Option<RealModel>,
    is_dir: bool,
    walk: Seq<WalkedModel>,
) -> Result<Result<Seq<Seq<char>>, RefusedModel>, Seq<char>> {
    match pin_target(rel, shown, reserved, resolved) {
        Err(why) => Ok(Err(why)),
        Ok(_) => if !is_dir {
            Ok(Err(RefusedModel::NotEligible("not a directory"@)))
        } else {
            match hollow(resolved->0.root, walk) {
                Err(e) => Err(e),
                Ok(found) => Ok(Ok(sort::arranged::<String>(found))),
            }
        },
    }
}

fn is_carried(path: &str) -> (r: bool)
    ensures
        r == carries(path@),
{
    let chars = text::chars_of(path);
    let mut i: usize = 0;
    while i < chars.len()
        invariant
            i <= chars@.len(),
            chars@ == path@,
            forall|j: int| 0 <= j < i ==> path@[j] != '\n' && path@[j] != '\r',
        decreases chars@.len() - i,
    {
        if chars[i] == '\n' || chars[i] == '\r' {
            assert(path@.contains(path@[i as int]));
            return false;
        }
        i = i + 1;
    }
    true
}

/// List the files without content below a directory, given how a refusal shows
/// the path.
pub fn list_pending(
    rel: &str,
    shown: &str,
    reserved: &Vec<String>,
    resolved: &Option<Real>,
    is_dir: bool,
    walk: &Vec<Walked>,
) -> (r: Result<Result<Vec<String>, Refused>, String>)
    ensures
        pending_below(
            rel@,
            shown@,
            text::texts(reserved@),
            maybe_real(*resolved),
            is_dir,
            walk_models(walk@),
        ) == match r {
            Err(e) => Err(e@),
            Ok(Err(why)) => Ok(Err(why@)),
            Ok(Ok(list)) => Ok(Ok(text::texts(list@))),
        },
{
    if let Err(why) = pin_place(rel, shown, reserved, resolved) {
        return Ok(Err(why));
    }
    if !is_dir {
        return Ok(Err(Refused::NotEligible("not a directory".to_owned())));
    }
    let root = match resolved {
        Some(r) => r.root.as_str().to_owned(),
        None => {
            return Ok(Err(Refused::NotEligible("could not resolve the path".to_owned())));
        },
    };
    let ghost all = walk_models(walk@);
    let mut out: Vec<String> = Vec::new();
    let mut i: usize = 0;
    assert(all.take(0) =~= Seq::empty());
    assert(text::texts(out@) =~= Seq::empty());
    while i < walk.len()
        invariant
            i <= walk@.len(),
            all == walk_models(walk@),
            is_dir,
            pin_target(rel@, shown@, text::texts(reserved@), maybe_real(*resolved)) is Ok,
            maybe_real(*resolved)->0.root == root@,
            hollow(root@, all.take(i as int)) == Ok::<Seq<Seq<char>>, Seq<char>>(
                text::texts(out@),
            ),
        decreases walk@.len() - i,
    {
        let w = &walk[i];
        let ghost had = text::texts(out@);
        proof {
            assert(all.take(i + 1).drop_last() =~= all.take(i as int));
            assert(all.take(i + 1).last() == w@);
        }
        match &w.dehydrated {
            Err(e) => {
                proof {
                    lemma_hollow_error(root@, all, i + 1);
                }
                return Err(e.as_str().to_owned());
            },
            Ok(on) => {
                if *on {
                    if let Some(rel) = paths::relative(root.as_str(), w.path.as_str()) {
                        if is_carried(rel.as_str()) {
                            let ghost p = rel@;
                            out.push(rel);
                            assert(text::texts(out@) =~= had.push(p));
                        }
                    }
                }
            },
        }
        i = i + 1;
    }
    assert(all.take(i as int) =~= all);
    assert(sort::models(out@) =~= text::texts(out@));
    let out = sort::arrange(out);
    assert(sort::models(out@) =~= text::texts(out@));
    Ok(Ok(out))
}

proof fn lemma_hollow_error(root: Seq<char>, walk: Seq<WalkedModel>, n: int)
    requires
        0 <= n <= walk.len(),
        hollow(root, walk.take(n)) is Err,
    ensures
        hollow(root, walk) == hollow(root, walk.take(n)),
    decreases walk.len(),
{
    if n == walk.len() {
        assert(walk.take(n) =~= walk);
    } else {
        assert(walk.drop_last().take(n) =~= walk.take(n));
        lemma_hollow_error(root, walk.drop_last(), n);
    }
}

/// List the files without content below a directory that an untrusted `rel`
/// names, as paths relative to the sync root, in order. `walk` is every regular
/// file below it but the framework's own.
pub fn pending(
    rel: &str,
    reserved: &Vec<String>,
    resolved: &Option<Real>,
    is_dir: bool,
    walk: &Vec<Walked>,
) -> (r: Result<Result<Vec<String>, Refused>, String>)
    ensures
        pending_below(
            rel@,
            text::quoted(rel@),
            text::texts(reserved@),
            maybe_real(*resolved),
            is_dir,
            walk_models(walk@),
        ) == match r {
            Err(e) => Err(e@),
            Ok(Err(why)) => Ok(Err(why@)),
            Ok(Ok(list)) => Ok(Ok(text::texts(list@))),
        },
{
    let shown = text::quote(rel);
    list_pending(rel, shown.as_str(), reserved, resolved, is_dir, walk)
}

/// What kind of thing a directory entry is. A link is neither a directory nor a
/// file, so a walk never follows one.
#[derive(Debug, Clone, Copy, PartialEq, Eq, Structural)]
pub enum Kind {
    Dir,
    File,
    Other,
}

/// What a walk does with a directory entry.
#[derive(Debug, Clone, Copy, PartialEq, Eq, Structural)]
pub enum Visit {
    Skip,
    Descend,
    Look,
}

/// What a walk does with an entry of some kind.
pub open spec fn visiting(kind: Kind, internal: bool, ignored: bool) -> Visit {
    if internal || ignored || kind is Other {
        Visit::Skip
    } else if kind is Dir {
        Visit::Descend
    } else {
        Visit::Look
    }
}

/// What a walk does with an entry: the framework's own names and what is never
/// synced are passed over at every depth.
pub fn visit(kind: Kind, internal: bool, ignored: bool) -> (v: Visit)
    ensures
        v == visiting(kind, internal, ignored),
{
    if internal || ignored {
        return Visit::Skip;
    }
    match kind {
        Kind::Dir => Visit::Descend,
        Kind::File => Visit::Look,
        Kind::Other => Visit::Skip,
    }
}

/// When a file was last changed, in seconds, and how many blocks it holds.
#[derive(Debug, Clone, Copy, PartialEq, Eq, Structural)]
pub struct Held {
    pub mtime: i64,
    pub blocks: u64,
}

/// What the filesystem says of a regular file that a walk of the sync root came
/// upon.
#[derive(Debug, PartialEq, Eq)]
pub struct Resident {
    /// The whole path.
    pub path: String,
    pub dehydrated: Result<bool, String>,
    /// Whether a directory above it is pinned.
    pub under_pin: bool,
    /// Whether it is pinned itself.
    pub pinned: Result<bool, String>,
    /// The attribute that holds the cloud id.
    pub cloud_id: Result<Option<Vec<u8>>, String>,
    pub stamp: Result<Stamp, String>,
    pub held: Result<Held, String>,
    /// When the content was last fetched, in seconds, if that was noted.
    pub hydrated_at: Result<Option<u64>, String>,
}

/// A resident file over texts.
#[verifier::ext_equal]
pub struct ResidentModel {
    pub path: Seq<char>,
    pub dehydrated: Result<bool, Seq<char>>,
    pub under_pin: bool,
    pub pinned: Result<bool, Seq<char>>,
    pub cloud_id: Result<Option<Seq<u8>>, Seq<char>>,
    pub stamp: Result<Stamp, Seq<char>>,
    pub held: Result<Held, Seq<char>>,
    pub hydrated_at: Result<Option<u64>, Seq<char>>,
}

impl View for Resident {
    type V = ResidentModel;

    open spec fn view(&self) -> ResidentModel {
        ResidentModel {
            path: self.path@,
            dehydrated: said(self.dehydrated),
            under_pin: self.under_pin,
            pinned: said(self.pinned),
            cloud_id: said_bytes(self.cloud_id),
            stamp: said(self.stamp),
            held: said(self.held),
            hydrated_at: said(self.hydrated_at),
        }
    }
}

/// Resident files over texts.
pub open spec fn resident_models(v: Seq<Resident>) -> Seq<ResidentModel> {
    v.map_values(|r: Resident| r@)
}

/// The number of bytes that a file holds is a machine number.
pub open spec fn is_measured(r: ResidentModel) -> bool {
    r.held matches Ok(h) ==> h.blocks * BLOCK <= u64::MAX
}

/// The candidate that a resident file is, once it is known that the cloud has
/// its content. A file without a note of when it was fetched is as recent as
/// its last change.
pub open spec fn measured(root: Seq<char>, r: ResidentModel) -> Result<
    Option<CandidateModel>,
    Seq<char>,
> {
    match paths::relative_to(root, r.path) {
        None => Ok(None),
        Some(rel) => if !carries(rel) {
            Ok(None)
        } else {
            match (r.held, r.hydrated_at) {
                (Err(e), _) => Err(e),
                (Ok(_), Err(e)) => Err(e),
                (Ok(h), Ok(at)) => Ok(
                    Some(
                        CandidateModel {
                            rel,
                            reclaimable: (h.blocks * BLOCK) as u64,
                            recency: match at {
                                Some(t) => t,
                                None => if h.mtime > 0 {
                                    h.mtime as u64
                                } else {
                                    0
                                },
                            },
                        },
                    ),
                ),
            }
        },
    }
}

/// The candidate for eviction that a resident file is, if it is one, or the
/// error that was met before that was known.
pub open spec fn candidate(root: Seq<char>, r: ResidentModel) -> Result<
    Option<CandidateModel>,
    Seq<char>,
> {
    match (r.dehydrated, r.pinned) {
        (Err(e), _) => Err(e),
        (Ok(true), _) => Ok(None),
        (Ok(false), Err(e)) => if r.under_pin {
            Ok(None)
        } else {
            Err(e)
        },
        (Ok(false), Ok(pinned)) => if r.under_pin || pinned {
            Ok(None)
        } else {
            match (r.cloud_id, r.stamp) {
                (Err(e), _) => Err(e),
                (Ok(None), _) => Ok(None),
                (Ok(Some(id)), stamp) => if id.len() == 0 {
                    Ok(None)
                } else {
                    match stamp {
                        Err(e) => Err(e),
                        Ok(Stamp::Clean) => measured(root, r),
                        Ok(_) => Ok(None),
                    }
                },
            }
        },
    }
}

/// The candidates among some resident files, or the first error met.
pub open spec fn candidates(root: Seq<char>, all: Seq<ResidentModel>) -> Result<
    Seq<CandidateModel>,
    Seq<char>,
>
    decreases all.len(),
{
    if all.len() == 0 {
        Ok(Seq::empty())
    } else {
        match (candidates(root, all.drop_last()), candidate(root, all.last())) {
            (Err(e), _) => Err(e),
            (Ok(_), Err(e)) => Err(e),
            (Ok(before), Ok(Some(c))) => Ok(before.push(c)),
            (Ok(before), Ok(None)) => Ok(before),
        }
    }
}

/// Candidates over texts.
pub open spec fn candidate_models(v: Seq<Candidate>) -> Seq<CandidateModel> {
    v.map_values(|c: Candidate| c@)
}

fn measure(root: &str, r: &Resident) -> (out: Result<Option<Candidate>, String>)
    requires
        is_measured(r@),
    ensures
        measured(root@, r@) == match out {
            Err(e) => Err(e@),
            Ok(None) => Ok(None),
            Ok(Some(c)) => Ok(Some(c@)),
        },
{
    let rel = match paths::relative(root, r.path.as_str()) {
        None => {
            return Ok(None);
        },
        Some(rel) => rel,
    };
    if !is_carried(rel.as_str()) {
        return Ok(None);
    }
    let held = match &r.held {
        Err(e) => {
            return Err(e.as_str().to_owned());
        },
        Ok(held) => *held,
    };
    match &r.hydrated_at {
        Err(e) => Err(e.as_str().to_owned()),
        Ok(at) => {
            let recency: u64 = match at {
                Some(t) => *t,
                None => if held.mtime > 0 {
                    held.mtime as u64
                } else {
                    0
                },
            };
            Ok(Some(Candidate { rel, reclaimable: held.blocks * BLOCK, recency }))
        },
    }
}

fn sift(root: &str, r: &Resident) -> (out: Result<Option<Candidate>, String>)
    requires
        is_measured(r@),
    ensures
        candidate(root@, r@) == match out {
            Err(e) => Err(e@),
            Ok(None) => Ok(None),
            Ok(Some(c)) => Ok(Some(c@)),
        },
{
    match &r.dehydrated {
        Err(e) => {
            return Err(e.as_str().to_owned());
        },
        Ok(on) => {
            if *on {
                return Ok(None);
            }
        },
    }
    if r.under_pin {
        return Ok(None);
    }
    match &r.pinned {
        Err(e) => {
            return Err(e.as_str().to_owned());
        },
        Ok(on) => {
            if *on {
                return Ok(None);
            }
        },
    }
    match &r.cloud_id {
        Err(e) => {
            return Err(e.as_str().to_owned());
        },
        Ok(None) => {
            return Ok(None);
        },
        Ok(Some(id)) => {
            if id.len() == 0 {
                return Ok(None);
            }
        },
    }
    match &r.stamp {
        Err(e) => Err(e.as_str().to_owned()),
        Ok(Stamp::Clean) => measure(root, r),
        Ok(_) => Ok(None),
    }
}

proof fn lemma_candidates_error(root: Seq<char>, all: Seq<ResidentModel>, n: int)
    requires
        0 <= n <= all.len(),
        candidates(root, all.take(n)) is Err,
    ensures
        candidates(root, all) == candidates(root, all.take(n)),
    decreases all.len(),
{
    if n == all.len() {
        assert(all.take(n) =~= all);
    } else {
        assert(all.drop_last().take(n) =~= all.take(n));
        lemma_candidates_error(root, all.drop_last(), n);
    }
}

/// Every resident file that could be evicted, for the policy to rank. `root` is
/// the sync root with every link resolved, and `residents` every regular file
/// below it but the framework's own and those that are never synced. This only
/// spares the policy files that [`reclaim`] would refuse, which decides again.
pub fn evictable_candidates(root: &str, residents: &Vec<Resident>) -> (r: Result<
    Vec<Candidate>,
    String,
>)
    requires
        forall|i: int| 0 <= i < residents@.len() ==> is_measured((#[trigger] residents@[i])@),
    ensures
        candidates(root@, resident_models(residents@)) == match r {
            Err(e) => Err(e@),
            Ok(list) => Ok(candidate_models(list@)),
        },
{
    let ghost all = resident_models(residents@);
    let mut out: Vec<Candidate> = Vec::new();
    let mut i: usize = 0;
    assert(all.take(0) =~= Seq::empty());
    assert(candidate_models(out@) =~= Seq::empty());
    while i < residents.len()
        invariant
            i <= residents@.len(),
            forall|i: int| 0 <= i < residents@.len() ==> is_measured((#[trigger] residents@[i])@),
            all == resident_models(residents@),
            candidates(root@, all.take(i as int)) == Ok::<Seq<CandidateModel>, Seq<char>>(
                candidate_models(out@),
            ),
        decreases residents@.len() - i,
    {
        let ghost had = candidate_models(out@);
        proof {
            assert(all.take(i + 1).drop_last() =~= all.take(i as int));
            assert(all.take(i + 1).last() == residents@[i as int]@);
        }
        match sift(root, &residents[i]) {
            Err(e) => {
                proof {
                    lemma_candidates_error(root@, all, i + 1);
                }
                return Err(e);
            },
            Ok(Some(c)) => {
                let ghost m = c@;
                out.push(c);
                assert(candidate_models(out@) =~= had.push(m));
            },
            Ok(None) => {},
        }
        i = i + 1;
    }
    assert(all.take(i as int) =~= all);
    Ok(out)
}

proof fn lemma_pinned(chain: Seq<Seq<char>>, pins: Seq<Result<bool, Seq<char>>>, i: int)
    requires
        0 <= i,
        pinned(chain, pins, i) == Ok::<Option<Seq<char>>, Seq<char>>(None),
    ensures
        i <= chain.len() ==> chain.len() <= pins.len() || i == chain.len(),
        forall|j: int| i <= j < chain.len() ==> pins[j] == Ok::<bool, Seq<char>>(false),
    decreases chain.len() - i,
{
    if i < chain.len() {
        lemma_pinned(chain, pins, i + 1);
    }
}

/// What is evicted is a regular file inside the sync directory that is synced,
/// holds content, is pinned neither itself nor above, has no edit waiting or
/// under way, is in the cloud, and has not changed since it was sent there.
pub proof fn law_only_a_file_the_cloud_has_is_evicted(
    rel: Seq<char>,
    shown: Seq<char>,
    reserved: Seq<Seq<char>>,
    f: FactsModel,
    waiting: Set<FileId>,
    sending: Set<FileId>,
    plan: PlanModel,
)
    requires
        judged(rel, shown, reserved, f, waiting, sending) == Ok::<
            Result<PlanModel, RefusedModel>,
            Seq<char>,
        >(Ok(plan)),
    ensures
        delta::is_safe(rel, reserved),
        !f.ignored,
        f.meta is Ok,
        f.meta->Ok_0.regular,
        plan.id == f.meta->Ok_0.id,
        plan.size == f.meta->Ok_0.size,
        f.resolved is Some,
        plan.path == f.resolved->0.path,
        paths::starts_with(plan.path, f.resolved->0.root),
        f.dehydrated == Ok::<bool, Seq<char>>(false),
        chain(plan.path, plan.root).len() <= f.pins.len(),
        forall|i: int|
            0 <= i < chain(plan.path, plan.root).len() ==> f.pins[i] == Ok::<bool, Seq<char>>(
                false,
            ),
        !waiting.contains(plan.id),
        !sending.contains(plan.id),
        plan.cloud_id.len() > 0,
        f.cloud_id is Ok,
        store::string_of(f.cloud_id->Ok_0) == Some(plan.cloud_id),
        f.stamp == Ok::<Stamp, Seq<char>>(Stamp::Clean),
{
    lemma_pinned(chain(plan.path, plan.root), f.pins, 0);
}

/// A pin on a file or on any directory above it, up to and including the root,
/// keeps the file.
pub proof fn law_a_pin_keeps_everything_below_it(
    rel: Seq<char>,
    shown: Seq<char>,
    reserved: Seq<Seq<char>>,
    f: FactsModel,
    waiting: Set<FileId>,
    sending: Set<FileId>,
    i: int,
)
    requires
        f.resolved is Some,
        0 <= i < f.pins.len(),
        i < chain(f.resolved->0.path, f.resolved->0.root).len(),
        f.pins[i] == Ok::<bool, Seq<char>>(true),
    ensures
        !(judged(rel, shown, reserved, f, waiting, sending) matches Ok(Ok(_))),
{
    if let Ok(Ok(plan)) = judged(rel, shown, reserved, f, waiting, sending) {
        law_only_a_file_the_cloud_has_is_evicted(
            rel,
            shown,
            reserved,
            f,
            waiting,
            sending,
            plan,
        );
    }
}

/// The paths whose pins count are the file, the root, and every directory
/// between them, for a file under the root.
pub proof fn law_pins_are_looked_for_up_to_the_root(path: Seq<char>, root: Seq<char>)
    requires
        paths::starts_with(path, root),
        paths::parts(root).len() > 0,
    ensures
        chain(path, root).len() == paths::parts(path).len() - paths::parts(root).len() + 1,
        forall|i: int|
            0 <= i < chain(path, root).len() ==> paths::parts(#[trigger] chain(path, root)[i])
                == paths::parts(path).take(paths::parts(path).len() - i),
    decreases paths::parts(path).len(),
{
    let p = paths::parts(path);
    let r = paths::parts(root);
    let c = chain(path, root);
    paths::law_a_parent_is_one_part_up(path);
    assert(p.take(p.len() as int) =~= p);
    if p == r {
    } else {
        assert(p.len() > r.len()) by {
            if p.len() == r.len() {
                assert(p =~= r);
            }
        }
        assert(paths::parent_of(path) is Some) by {
            if p == seq![paths::PartModel::Root] {
                assert(r.len() == 0);
            }
        }
        let up = paths::parent_of(path)->0;
        assert(r.is_prefix_of(p.drop_last()));
        law_pins_are_looked_for_up_to_the_root(up, root);
        let rest = chain(up, root);
        assert(c == seq![path] + rest);
        assert forall|i: int| 0 <= i < c.len() implies paths::parts(#[trigger] c[i]) == p.take(
            p.len() - i,
        ) by {
            if i > 0 {
                assert(c[i] == rest[i - 1]);
                assert(p.drop_last().take(p.len() - 1 - (i - 1)) =~= p.take(p.len() - i));
            }
        }
    }
}

/// A file that the policy may choose is one that the cloud has and that is not
/// pinned.
pub proof fn law_a_candidate_is_in_the_cloud(root: Seq<char>, r: ResidentModel)
    requires
        candidate(root, r) matches Ok(Some(_)),
    ensures
        r.dehydrated == Ok::<bool, Seq<char>>(false),
        !r.under_pin,
        r.pinned == Ok::<bool, Seq<char>>(false),
        r.cloud_id matches Ok(Some(id)) && id.len() > 0,
        r.stamp == Ok::<Stamp, Seq<char>>(Stamp::Clean),
{
}

/// How recently a file was used is when its content was acquired, wherever that
/// was recorded: whatever the file says of its own last change, earlier or later.
/// Only a file without such a record goes by its last change, and one from before
/// the epoch counts as the oldest there is. What it would free is what its blocks
/// hold, and it goes by the path below the root.
pub proof fn law_recency_is_when_the_content_was_acquired(
    root: Seq<char>,
    r: ResidentModel,
    c: CandidateModel,
)
    requires
        candidate(root, r) == Ok::<Option<CandidateModel>, Seq<char>>(Some(c)),
        is_measured(r),
    ensures
        r.hydrated_at is Ok,
        r.held is Ok,
        r.hydrated_at->Ok_0 matches Some(t) ==> c.recency == t,
        r.hydrated_at->Ok_0 is None && r.held->Ok_0.mtime >= 0 ==> c.recency
            == r.held->Ok_0.mtime,
        r.hydrated_at->Ok_0 is None && r.held->Ok_0.mtime < 0 ==> c.recency == 0,
        c.reclaimable == 512 * r.held->Ok_0.blocks,
        paths::relative_to(root, r.path) == Some(c.rel),
{
}

/// Writing to a file, or setting its times, does not change how recently its
/// content was acquired.
pub proof fn law_a_recorded_acquisition_outweighs_the_files_own_times(
    root: Seq<char>,
    r: ResidentModel,
    mtime: i64,
)
    requires
        r.held is Ok,
        r.hydrated_at matches Ok(Some(_)),
    ensures
        candidate(root, r) == candidate(
            root,
            ResidentModel { held: Ok(Held { mtime, ..r.held->Ok_0 }), ..r },
        ),
{
}

/// A file is a candidate exactly when its content is here and in the cloud
/// unchanged, nothing pins it, its path below the root can be named on one line,
/// and it could be measured.
pub proof fn law_every_file_that_may_go_is_a_candidate(root: Seq<char>, r: ResidentModel)
    ensures
        (candidate(root, r) matches Ok(Some(_))) <==> ({
            &&& r.dehydrated == Ok::<bool, Seq<char>>(false)
            &&& !r.under_pin
            &&& r.pinned == Ok::<bool, Seq<char>>(false)
            &&& r.cloud_id matches Ok(Some(id)) && id.len() > 0
            &&& r.stamp == Ok::<Stamp, Seq<char>>(Stamp::Clean)
            &&& paths::relative_to(root, r.path) matches Some(rel) && !rel.contains('\n')
                && !rel.contains('\r')
            &&& r.held is Ok
            &&& r.hydrated_at is Ok
        }),
{
}

/// A file that could not be read is not passed over in silence: what failed is
/// what comes back, as long as nothing that was read before it settles that the
/// file stays.
pub proof fn law_a_file_that_cannot_be_judged_is_an_error(root: Seq<char>, r: ResidentModel)
    ensures
        candidate(root, r) is Err ==> ({
            let e = candidate(root, r)->Err_0;
            ||| r.dehydrated == Err::<bool, Seq<char>>(e)
            ||| r.pinned == Err::<bool, Seq<char>>(e)
            ||| r.cloud_id == Err::<Option<Seq<u8>>, Seq<char>>(e)
            ||| r.stamp == Err::<Stamp, Seq<char>>(e)
            ||| r.held == Err::<Held, Seq<char>>(e)
            ||| r.hydrated_at == Err::<Option<u64>, Seq<char>>(e)
        }),
        r.dehydrated is Err ==> candidate(root, r) is Err,
        r.dehydrated == Ok::<bool, Seq<char>>(false) && !r.under_pin ==> {
            &&& r.pinned is Err ==> candidate(root, r) is Err
            &&& r.pinned == Ok::<bool, Seq<char>>(false) ==> {
                &&& r.cloud_id is Err ==> candidate(root, r) is Err
                &&& (r.cloud_id matches Ok(Some(id)) && id.len() > 0) ==> {
                    &&& r.stamp is Err ==> candidate(root, r) is Err
                    &&& r.stamp == Ok::<Stamp, Seq<char>>(Stamp::Clean) && (r.held is Err
                        || r.hydrated_at is Err) && (paths::relative_to(root, r.path) matches Some(
                        rel,
                    ) && !rel.contains('\n') && !rel.contains('\r')) ==> candidate(root, r) is Err
                }
            }
        },
{
}

/// The candidates of a walk are those of its files, each once and in the order of
/// the walk: a walk in two parts gives those of the first and then those of the
/// second, and one file gives itself if it is a candidate. A file that could not
/// be read fails the walk.
pub proof fn law_a_walk_collects_every_candidate(
    root: Seq<char>,
    first: Seq<ResidentModel>,
    second: Seq<ResidentModel>,
    r: ResidentModel,
)
    ensures
        candidates(root, first + second) == match (
            candidates(root, first),
            candidates(root, second),
        ) {
            (Err(e), _) => Err::<Seq<CandidateModel>, Seq<char>>(e),
            (Ok(_), Err(e)) => Err(e),
            (Ok(a), Ok(b)) => Ok(a + b),
        },
        candidates(root, seq![r]) == match candidate(root, r) {
            Err(e) => Err::<Seq<CandidateModel>, Seq<char>>(e),
            Ok(Some(c)) => Ok(seq![c]),
            Ok(None) => Ok(Seq::empty()),
        },
    decreases second.len(),
{
    let one = seq![r];
    assert(one.drop_last() =~= Seq::empty());
    assert(candidates(root, one.drop_last()) == Ok::<Seq<CandidateModel>, Seq<char>>(Seq::empty()));
    if let Ok(Some(c)) = candidate(root, r) {
        assert(Seq::<CandidateModel>::empty().push(c) =~= seq![c]);
    }
    if second.len() == 0 {
        assert(first + second =~= first);
        if candidates(root, first) is Ok {
            let a = candidates(root, first)->Ok_0;
            assert(a + Seq::empty() =~= a);
        }
    } else {
        let less = second.drop_last();
        law_a_walk_collects_every_candidate(root, first, less, r);
        assert((first + second).drop_last() =~= first + less);
        assert((first + second).last() == second.last());
        if candidates(root, first) is Ok && candidates(root, second) is Ok {
            let a = candidates(root, first)->Ok_0;
            let b = candidates(root, less)->Ok_0;
            if let Ok(Some(c)) = candidate(root, second.last()) {
                assert((a + b).push(c) =~= a + b.push(c));
            }
        }
    }
}

/// A file among those that were walked is a candidate of the walk exactly when it
/// is one by itself.
pub proof fn law_no_candidate_is_passed_over(
    root: Seq<char>,
    all: Seq<ResidentModel>,
    i: int,
)
    requires
        0 <= i < all.len(),
        candidates(root, all) is Ok,
    ensures
        candidate(root, all[i]) is Ok,
        candidate(root, all[i]) matches Ok(Some(c)) ==> candidates(root, all)->Ok_0.contains(c),
{
    let a = all.take(i);
    let b = all.skip(i + 1);
    assert(all =~= a + (seq![all[i]] + b));
    law_a_walk_collects_every_candidate(root, a, seq![all[i]] + b, all[i]);
    law_a_walk_collects_every_candidate(root, seq![all[i]], b, all[i]);
    if let Ok(Some(c)) = candidate(root, all[i]) {
        let x = candidates(root, a)->Ok_0;
        assert(candidates(root, all)->Ok_0[x.len() as int] == c);
    }
}

/// Nothing pins a file exactly when each directory from the file up to the root
/// was read and is not pinned. Otherwise the nearest that is pinned is named, or
/// the nearest that could not be read is reported.
pub proof fn law_the_nearest_pin_is_named(
    chain: Seq<Seq<char>>,
    pins: Seq<Result<bool, Seq<char>>>,
    i: int,
)
    requires
        0 <= i <= chain.len(),
        chain.len() <= pins.len(),
    ensures
        pinned(chain, pins, i) == Ok::<Option<Seq<char>>, Seq<char>>(None) <==> forall|k: int|
            i <= k < chain.len() ==> pins[k] == Ok::<bool, Seq<char>>(false),
        forall|k: int|
            i <= k < chain.len() && (forall|j: int|
                i <= j < k ==> pins[j] == Ok::<bool, Seq<char>>(false)) ==> {
                &&& #[trigger] pins[k] == Ok::<bool, Seq<char>>(true) ==> pinned(chain, pins, i)
                    == Ok::<Option<Seq<char>>, Seq<char>>(Some(chain[k]))
                &&& pins[k] matches Err(e) ==> pinned(chain, pins, i) == Err::<
                    Option<Seq<char>>,
                    Seq<char>,
                >(e)
            },
    decreases chain.len() - i,
{
    if i < chain.len() {
        law_the_nearest_pin_is_named(chain, pins, i + 1);
        if pins[i] == Ok::<bool, Seq<char>>(false) {
            assert forall|k: int|
                i <= k < chain.len() && (forall|j: int|
                    i <= j < k ==> pins[j] == Ok::<bool, Seq<char>>(false)) implies {
                &&& #[trigger] pins[k] == Ok::<bool, Seq<char>>(true) ==> pinned(chain, pins, i)
                    == Ok::<Option<Seq<char>>, Seq<char>>(Some(chain[k]))
                &&& pins[k] matches Err(e) ==> pinned(chain, pins, i) == Err::<
                    Option<Seq<char>>,
                    Seq<char>,
                >(e)
            } by {
                if k > i {
                    assert(forall|j: int|
                        i + 1 <= j < k ==> pins[j] == Ok::<bool, Seq<char>>(false));
                }
            }
            assert((forall|k: int|
                i <= k < chain.len() ==> pins[k] == Ok::<bool, Seq<char>>(false)) <==> (forall|
                k: int,
            |
                i + 1 <= k < chain.len() ==> pins[k] == Ok::<bool, Seq<char>>(false)));
        } else {
            assert forall|k: int|
                i <= k < chain.len() && (forall|j: int|
                    i <= j < k ==> pins[j] == Ok::<bool, Seq<char>>(false)) implies {
                &&& #[trigger] pins[k] == Ok::<bool, Seq<char>>(true) ==> pinned(chain, pins, i)
                    == Ok::<Option<Seq<char>>, Seq<char>>(Some(chain[k]))
                &&& pins[k] matches Err(e) ==> pinned(chain, pins, i) == Err::<
                    Option<Seq<char>>,
                    Seq<char>,
                >(e)
            } by {
                assert(k == i);
            }
        }
    }
}

/// Whether a file may give up its content: it is a regular file inside the
/// directory that is not kept local, its content is here, nothing from it up to
/// the root is pinned, no upload of it waits or runs, and the cloud has it as it
/// is.
pub open spec fn may_go(
    rel: Seq<char>,
    reserved: Seq<Seq<char>>,
    f: FactsModel,
    waiting: Set<FileId>,
    sending: Set<FileId>,
) -> bool {
    &&& delta::is_safe(rel, reserved)
    &&& !f.ignored
    &&& f.meta matches Ok(m) && m.regular && !waiting.contains(m.id) && !sending.contains(m.id)
    &&& f.resolved matches Some(r) && paths::starts_with(r.path, r.root) && chain(
        r.path,
        r.root,
    ).len() <= f.pins.len() && forall|k: int|
        0 <= k < chain(r.path, r.root).len() ==> f.pins[k] == Ok::<bool, Seq<char>>(false)
    &&& f.dehydrated == Ok::<bool, Seq<char>>(false)
    &&& f.cloud_id matches Ok(value) && store::string_of(value) matches Some(id) && id.len() > 0
    &&& f.stamp == Ok::<Stamp, Seq<char>>(Stamp::Clean)
    &&& f.etag is Ok
}

/// A file that may give up its content is let to: the plan names the file that the
/// path resolved to, as it was looked at, and the object that holds its content
/// with the version it has.
pub proof fn law_a_file_that_may_go_is_let_go(
    rel: Seq<char>,
    shown: Seq<char>,
    reserved: Seq<Seq<char>>,
    f: FactsModel,
    waiting: Set<FileId>,
    sending: Set<FileId>,
)
    ensures
        (judged(rel, shown, reserved, f, waiting, sending) matches Ok(Ok(_))) <==> may_go(
            rel,
            reserved,
            f,
            waiting,
            sending,
        ),
        may_go(rel, reserved, f, waiting, sending) ==> {
            let plan = judged(rel, shown, reserved, f, waiting, sending)->Ok_0->Ok_0;
            &&& plan.path == f.resolved->0.path
            &&& plan.root == f.resolved->0.root
            &&& plan.id == f.meta->Ok_0.id
            &&& plan.size == f.meta->Ok_0.size
            &&& plan.blocks == f.meta->Ok_0.blocks
            &&& Some(plan.cloud_id) == store::string_of(f.cloud_id->Ok_0)
            &&& plan.etag == store::string_of(f.etag->Ok_0)
        },
{
    if let Ok(Ok(plan)) = judged(rel, shown, reserved, f, waiting, sending) {
        law_only_a_file_the_cloud_has_is_evicted(rel, shown, reserved, f, waiting, sending, plan);
    }
    if may_go(rel, reserved, f, waiting, sending) {
        law_the_nearest_pin_is_named(
            chain(f.resolved->0.path, f.resolved->0.root),
            f.pins,
            0,
        );
    }
}

/// The reason that a user is given is the one that holds. A file whose content is
/// already gone, one below a pin, one on its way up, one that was never sent and
/// one that changed since are told apart, and each is refused by that reason when
/// no other stands before it.
pub proof fn law_a_refusal_names_what_holds(
    rel: Seq<char>,
    shown: Seq<char>,
    reserved: Seq<Seq<char>>,
    f: FactsModel,
    waiting: Set<FileId>,
    sending: Set<FileId>,
)
    requires
        delta::is_safe(rel, reserved),
        !f.ignored,
        f.meta matches Ok(m) && m.regular,
        f.resolved matches Some(r) && paths::starts_with(r.path, r.root) && chain(
            r.path,
            r.root,
        ).len() <= f.pins.len(),
    ensures
        ({
            let got = judged(rel, shown, reserved, f, waiting, sending);
            let up = chain(f.resolved->0.path, f.resolved->0.root);
            let free = forall|k: int|
                0 <= k < up.len() ==> f.pins[k] == Ok::<bool, Seq<char>>(false);
            let id = f.meta->Ok_0.id;
            let here = f.dehydrated == Ok::<bool, Seq<char>>(false);
            let idle = !waiting.contains(id) && !sending.contains(id);
            let named = f.cloud_id matches Ok(v) && store::string_of(v) matches Some(c) && c.len()
                > 0;
            &&& (got matches Ok(Err(RefusedModel::AlreadyDehydrated))) <==> f.dehydrated == Ok::<
                bool,
                Seq<char>,
            >(true)
            &&& (got matches Ok(Err(RefusedModel::Pinned { .. }))) ==> here && exists|k: int|
                0 <= k < up.len() && #[trigger] f.pins[k] == Ok::<bool, Seq<char>>(true)
                    && got->Ok_0->Err_0->via == up[k] && forall|j: int|
                    0 <= j < k ==> f.pins[j] == Ok::<bool, Seq<char>>(false)
            &&& here && (exists|k: int|
                0 <= k < up.len() && #[trigger] f.pins[k] == Ok::<bool, Seq<char>>(true) && forall|
                    j: int,
                |
                    0 <= j < k ==> f.pins[j] == Ok::<bool, Seq<char>>(false)) ==> (got matches Ok(
                Err(RefusedModel::Pinned { .. }),
            ))
            &&& (got matches Ok(Err(RefusedModel::UploadPending))) <==> here && free && !idle
            &&& (got matches Ok(Err(RefusedModel::NotUploaded))) <==> here && free && idle
                && f.cloud_id is Ok && !named
            &&& (got matches Ok(Err(RefusedModel::ChangedSinceUpload))) <==> here && free && idle
                && named && (f.stamp == Ok::<Stamp, Seq<char>>(Stamp::Dirty) || f.stamp == Ok::<
                Stamp,
                Seq<char>,
            >(Stamp::Unstamped))
            &&& !(got matches Ok(Err(RefusedModel::NotEligible(_))))
        }),
{
    let up = chain(f.resolved->0.path, f.resolved->0.root);
    law_the_nearest_pin_is_named(up, f.pins, 0);
    lemma_pin_found(up, f.pins, 0);
}

/// A pin that is named is one of those that were read, and the first.
proof fn lemma_pin_found(
    chain: Seq<Seq<char>>,
    pins: Seq<Result<bool, Seq<char>>>,
    i: int,
)
    requires
        0 <= i <= chain.len(),
        chain.len() <= pins.len(),
    ensures
        pinned(chain, pins, i) matches Ok(Some(via)) ==> exists|k: int|
            i <= k < chain.len() && #[trigger] pins[k] == Ok::<bool, Seq<char>>(true) && via
                == chain[k] && forall|j: int| i <= j < k ==> pins[j] == Ok::<bool, Seq<char>>(false),
    decreases chain.len() - i,
{
    if i < chain.len() {
        if pins[i] == Ok::<bool, Seq<char>>(true) {
            assert(pins[i] == Ok::<bool, Seq<char>>(true));
        } else if pins[i] == Ok::<bool, Seq<char>>(false) {
            lemma_pin_found(chain, pins, i + 1);
            if let Ok(Some(via)) = pinned(chain, pins, i + 1) {
                let k = choose|k: int|
                    i + 1 <= k < chain.len() && #[trigger] pins[k] == Ok::<bool, Seq<char>>(true)
                        && via == chain[k] && forall|j: int|
                        i + 1 <= j < k ==> pins[j] == Ok::<bool, Seq<char>>(false);
                assert forall|j: int| i <= j < k implies pins[j] == Ok::<bool, Seq<char>>(
                    false,
                ) by {}
            }
        }
    }
}

/// A path outside the directory, one that is kept local, one that is no regular
/// file and one that leads out of the directory are not eligible, in that order,
/// and nothing else is said of them.
pub proof fn law_what_is_not_eligible_is_told_why(
    rel: Seq<char>,
    shown: Seq<char>,
    reserved: Seq<Seq<char>>,
    f: FactsModel,
    waiting: Set<FileId>,
    sending: Set<FileId>,
)
    ensures
        ({
            let got = judged(rel, shown, reserved, f, waiting, sending);
            let safe = delta::is_safe(rel, reserved);
            let plain = f.meta matches Ok(m) && m.regular;
            &&& !safe ==> got == Ok::<Result<PlanModel, RefusedModel>, Seq<char>>(
                Err(RefusedModel::NotEligible(shown + " is not a path inside the sync directory"@)),
            )
            &&& safe && f.ignored ==> got == Ok::<Result<PlanModel, RefusedModel>, Seq<char>>(
                Err(
                    RefusedModel::NotEligible(
                        shown + " is sync-ignored and is kept as a real local file"@,
                    ),
                ),
            )
            &&& safe && !f.ignored ==> {
                &&& f.meta matches Err(e) ==> got == Err::<Result<PlanModel, RefusedModel>, Seq<char>>(e)
                &&& (f.meta matches Ok(m) && !m.regular) ==> got == Ok::<
                    Result<PlanModel, RefusedModel>,
                    Seq<char>,
                >(Err(RefusedModel::NotEligible("not a regular file"@)))
                &&& plain && f.resolved is None ==> got == Ok::<
                    Result<PlanModel, RefusedModel>,
                    Seq<char>,
                >(Err(RefusedModel::NotEligible("could not resolve the path"@)))
                &&& plain && f.resolved is Some && !paths::starts_with(
                    f.resolved->0.path,
                    f.resolved->0.root,
                ) ==> got == Ok::<Result<PlanModel, RefusedModel>, Seq<char>>(
                    Err(RefusedModel::NotEligible("resolves outside the sync directory"@)),
                )
            }
        }),
{
}

/// What was freed and what the file still takes make up what it took before; a
/// file that takes more than before freed nothing.
pub proof fn law_what_is_freed_is_what_went(blocks: u64, after: u64)
    ensures
        freed(blocks, None) == 512 * blocks,
        after <= blocks ==> freed(blocks, Some(after)) + 512 * after == 512 * blocks,
        after >= blocks ==> freed(blocks, Some(after)) == 0,
{
}

/// A pin is set on what the path resolves to, for every path inside the directory
/// that resolves inside it, and for no other.
pub proof fn law_a_pin_is_set_inside_the_directory(
    rel: Seq<char>,
    shown: Seq<char>,
    reserved: Seq<Seq<char>>,
    resolved: Option<RealModel>,
)
    ensures
        pin_target(rel, shown, reserved, resolved) is Ok <==> delta::is_safe(rel, reserved)
            && resolved is Some && paths::starts_with(resolved->0.path, resolved->0.root),
        pin_target(rel, shown, reserved, resolved) is Ok ==> pin_target(
            rel,
            shown,
            reserved,
            resolved,
        )->Ok_0 == resolved->0.path,
        pin_target(rel, shown, reserved, resolved) is Err ==> pin_target(
            rel,
            shown,
            reserved,
            resolved,
        )->Err_0 is NotEligible,
{
}

/// The files without content are found one by one: a walk in two parts finds
/// those of the first and then those of the second, and a file that could not be
/// read fails the walk.
pub proof fn law_a_walk_finds_every_hollow_file(
    root: Seq<char>,
    first: Seq<WalkedModel>,
    second: Seq<WalkedModel>,
    w: WalkedModel,
)
    ensures
        hollow(root, first + second) == match (hollow(root, first), hollow(root, second)) {
            (Err(e), _) => Err::<Seq<Seq<char>>, Seq<char>>(e),
            (Ok(_), Err(e)) => Err(e),
            (Ok(a), Ok(b)) => Ok(a + b),
        },
        w.dehydrated matches Err(e) ==> hollow(root, seq![w]) == Err::<Seq<Seq<char>>, Seq<char>>(
            e,
        ),
        w.dehydrated == Ok::<bool, Seq<char>>(false) ==> hollow(root, seq![w]) == Ok::<
            Seq<Seq<char>>,
            Seq<char>,
        >(Seq::empty()),
        w.dehydrated == Ok::<bool, Seq<char>>(true) ==> hollow(root, seq![w]) == match paths::relative_to(
            root,
            w.path,
        ) {
            Some(rel) => if rel.contains('\n') || rel.contains('\r') {
                Ok::<Seq<Seq<char>>, Seq<char>>(Seq::empty())
            } else {
                Ok(seq![rel])
            },
            None => Ok(Seq::empty()),
        },
    decreases second.len(),
{
    let one = seq![w];
    assert(one.drop_last() =~= Seq::empty());
    assert(hollow(root, one.drop_last()) == Ok::<Seq<Seq<char>>, Seq<char>>(Seq::empty()));
    if let Some(rel) = paths::relative_to(root, w.path) {
        assert(Seq::<Seq<char>>::empty().push(rel) =~= seq![rel]);
    }
    if second.len() == 0 {
        assert(first + second =~= first);
        if hollow(root, first) is Ok {
            let a = hollow(root, first)->Ok_0;
            assert(a + Seq::empty() =~= a);
        }
    } else {
        let less = second.drop_last();
        law_a_walk_finds_every_hollow_file(root, first, less, w);
        assert((first + second).drop_last() =~= first + less);
        assert((first + second).last() == second.last());
        if hollow(root, first) is Ok && hollow(root, less) is Ok {
            let a = hollow(root, first)->Ok_0;
            let b = hollow(root, less)->Ok_0;
            if let Some(rel) = paths::relative_to(root, second.last().path) {
                assert((a + b).push(rel) =~= a + b.push(rel));
            }
        }
    }
}

/// What is still to fetch below a directory is listed in full: each file of the
/// walk without content, and nothing else, in order.
pub proof fn law_what_is_still_to_fetch_is_listed(
    rel: Seq<char>,
    shown: Seq<char>,
    reserved: Seq<Seq<char>>,
    resolved: RealModel,
    walk: Seq<WalkedModel>,
    i: int,
)
    requires
        delta::is_safe(rel, reserved),
        paths::starts_with(resolved.path, resolved.root),
        forall|k: int| 0 <= k < walk.len() ==> (#[trigger] walk[k]).dehydrated is Ok,
        0 <= i < walk.len(),
    ensures
        pending_below(rel, shown, reserved, Some(resolved), true, walk) matches Ok(Ok(list))
            && sort::in_order::<String>(list) && (walk[i].dehydrated == Ok::<bool, Seq<char>>(true)
            ==> match paths::relative_to(resolved.root, walk[i].path) {
            Some(p) => !p.contains('\n') && !p.contains('\r') ==> list.contains(p),
            None => true,
        }) && list.len() <= walk.len(),
        pending_below(rel, shown, reserved, Some(resolved), false, walk) matches Ok(Err(why)) && why
            == RefusedModel::NotEligible("not a directory"@),
{
    lemma_hollow_ok(resolved.root, walk);
    let a = walk.take(i);
    let b = walk.skip(i + 1);
    let w = walk[i];
    assert(walk =~= a + (seq![w] + b));
    law_a_walk_finds_every_hollow_file(resolved.root, a, seq![w] + b, w);
    law_a_walk_finds_every_hollow_file(resolved.root, seq![w], b, w);
    let found = hollow(resolved.root, walk)->Ok_0;
    sort::lemma_arranged::<String>(found);
    if w.dehydrated == Ok::<bool, Seq<char>>(true) {
        if let Some(p) = paths::relative_to(resolved.root, w.path) {
            if !p.contains('\n') && !p.contains('\r') {
                let x = hollow(resolved.root, a)->Ok_0;
                assert(found[x.len() as int] == p);
                sort::lemma_arranged_contains::<String>(found, p);
            }
        }
    }
}

proof fn lemma_hollow_ok(root: Seq<char>, walk: Seq<WalkedModel>)
    requires
        forall|k: int| 0 <= k < walk.len() ==> (#[trigger] walk[k]).dehydrated is Ok,
    ensures
        hollow(root, walk) is Ok,
        hollow(root, walk)->Ok_0.len() <= walk.len(),
    decreases walk.len(),
{
    if walk.len() > 0 {
        let less = walk.drop_last();
        assert forall|k: int| 0 <= k < less.len() implies (#[trigger] less[k]).dehydrated is Ok by {
            assert(less[k] == walk[k]);
        }
        lemma_hollow_ok(root, less);
        assert(walk[walk.len() - 1].dehydrated is Ok);
    }
}

/// A walk looks at every regular file and goes into every directory that takes part,
/// and passes over all else.
pub proof fn law_a_walk_visits_what_takes_part(kind: Kind, internal: bool, ignored: bool)
    ensures
        visiting(kind, internal, ignored) is Look <==> kind is File && !internal && !ignored,
        visiting(kind, internal, ignored) is Descend <==> kind is Dir && !internal && !ignored,
        visiting(kind, internal, ignored) is Skip <==> kind is Other || internal || ignored,
{
}

/// A file that gave up its content is no longer indexed under the inode that is
/// gone; every other file is, and a file that kept its content is too.
pub proof fn law_only_a_placed_file_is_forgotten(store: StoreModel, id: FileId, other: FileId)
    requires
        other != id,
    ensures
        !after_settling(store, id, true).index.dom().contains(id),
        after_settling(store, id, true).index.dom().contains(other) <==> store.index.dom().contains(
            other,
        ),
        after_settling(store, id, true).index[other] == store.index[other],
        after_settling(store, id, true).lineage == store.lineage,
        after_settling(store, id, false) == store,
{
}

} // verus!
