//! Carrying local changes of names to the cloud: folders that were made, things
//! that were renamed, and files and folders that went away.
//!
//! The decisions are here. The caller looks at the filesystem, talks to the
//! service, and hands back what came of it.

use crate::lineage;
use crate::lineage::{Lineage, Record, RecordModel};
use crate::manifest;
use crate::offline;
use crate::removals;
use crate::removals::{Gone, GoneModel};
use crate::sort;
use crate::sort::Ranked;
use crate::store;
use crate::table::Table;
use crate::text;
use vstd::prelude::*;
use vstd::string::*;

verus! {

/// What is known about the object that used to be at a path. The record of
/// identities has the files that hold content, and the manifest those that do
/// not; the manifest is read on the first miss and kept until it changes.
pub struct Registers {
    lineage: Lineage,
    manifest: Option<(u128, Table<String, Record>)>,
}

/// Registers over texts.
#[verifier::ext_equal]
pub struct RegistersModel {
    pub lineage: Map<Seq<char>, RecordModel>,
    pub manifest: Option<(u128, Map<Seq<char>, RecordModel>)>,
}

impl View for Registers {
    type V = RegistersModel;

    closed spec fn view(&self) -> RegistersModel {
        RegistersModel {
            lineage: self.lineage@.records,
            manifest: match self.manifest {
                Some((at, m)) => Some((at, lineage::records(m@))),
                None => None,
            },
        }
    }
}

/// What a map has for a key.
pub open spec fn at<V>(m: Map<Seq<char>, V>, key: Seq<char>) -> Option<V> {
    if m.dom().contains(key) {
        Some(m[key])
    } else {
        None
    }
}

impl RegistersModel {
    /// Whether the manifest that was read is the one that is there.
    pub open spec fn is_fresh(self, stamp: u128) -> bool {
        self.manifest matches Some((when, _)) && when == stamp
    }

    /// The registers once something has been looked up. `stamp` says when the
    /// manifest last changed and `raw` is its text.
    pub open spec fn read(
        self,
        rel: Seq<char>,
        stamp: Option<u128>,
        raw: Option<Seq<char>>,
    ) -> RegistersModel {
        match (stamp, raw) {
            (Some(stamp), Some(raw)) => if self.lineage.dom().contains(rel) || self.is_fresh(
                stamp,
            ) {
                self
            } else {
                RegistersModel {
                    manifest: Some((stamp, manifest::read_back(text::lines(raw)))),
                    ..self
                }
            },
            _ => self,
        }
    }

    /// What is known about the object that was at a path.
    pub open spec fn record(
        self,
        rel: Seq<char>,
        stamp: Option<u128>,
        raw: Option<Seq<char>>,
    ) -> Option<RecordModel> {
        if self.lineage.dom().contains(rel) {
            Some(self.lineage[rel])
        } else {
            match stamp {
                None => None,
                Some(stamp) => if self.is_fresh(stamp) {
                    at((self.manifest->0).1, rel)
                } else {
                    match raw {
                        None => None,
                        Some(raw) => at(manifest::read_back(text::lines(raw)), rel),
                    }
                },
            }
        }
    }
}

/// A record that may be missing.
pub open spec fn maybe_record(r: Option<Record>) -> Option<RecordModel> {
    match r {
        Some(r) => Some(r@),
        None => None,
    }
}

fn copy_record(r: Option<&Record>) -> (out: Option<Record>)
    ensures
        maybe_record(out) == match r {
            Some(r) => Some(r@),
            None => None,
        },
{
    match r {
        Some(r) => Some(r.copy()),
        None => None,
    }
}

impl Registers {
    /// Read the text of the record of identities.
    pub fn load(lineage: Option<&str>) -> (r: Registers)
        ensures
            r@ == (RegistersModel {
                lineage: match lineage {
                    Some(s) => lineage::read_back(text::lines(s@)),
                    None => Map::empty(),
                },
                manifest: None,
            }),
    {
        Registers { lineage: Lineage::load(lineage), manifest: None }
    }

    /// Whether the text of the manifest is needed to look a path up. It is
    /// large, so it is not read unless it is.
    pub fn needs_manifest(&self, rel: &str, stamp: Option<u128>) -> (b: bool)
        ensures
            b == (!self@.lineage.dom().contains(rel@) && stamp is Some && !self@.is_fresh(
                stamp->0,
            )),
    {
        if self.lineage.get(rel).is_some() {
            return false;
        }
        match (stamp, &self.manifest) {
            (None, _) => false,
            (Some(_), None) => true,
            (Some(stamp), Some((when, _))) => *when != stamp,
        }
    }

    /// What is known about the object that was at a path. `stamp` says when the
    /// manifest last changed, and `raw` is its text.
    pub fn record(&mut self, rel: &str, stamp: Option<u128>, raw: Option<&str>) -> (r: Option<
        Record,
    >)
        ensures
            maybe_record(r) == old(self)@.record(rel@, stamp, offline::maybe_str(raw)),
            final(self)@ == old(self)@.read(rel@, stamp, offline::maybe_str(raw)),
    {
        if let Some(r) = self.lineage.get(rel) {
            return Some(r.copy());
        }
        let stamp = match stamp {
            Some(stamp) => stamp,
            None => {
                return None;
            },
        };
        let key = rel.to_owned();
        if let Some((when, m)) = &self.manifest {
            if *when == stamp {
                return copy_record(m.get(&key));
            }
        }
        let raw = match raw {
            Some(raw) => raw,
            None => {
                return None;
            },
        };
        let m = manifest::entries(Some(raw));
        let found = copy_record(m.get(&key));
        self.manifest = Some((stamp, m));
        found
    }
}

/// What to withdraw from the cloud for a file that went away.
#[derive(Debug, PartialEq, Eq)]
pub enum Withdrawal {
    /// The cloud has no record of it.
    Nothing,
    /// Remove the object that was just created for it.
    Remove { cloud_id: String },
    /// Remove the object, if it is still at the version that was here.
    RemoveKnown { cloud_id: String, tag: Option<String> },
}

/// A withdrawal over texts.
#[verifier::ext_equal]
pub enum WithdrawalModel {
    Nothing,
    Remove { cloud_id: Seq<char> },
    RemoveKnown { cloud_id: Seq<char>, tag: Option<Seq<char>> },
}

impl View for Withdrawal {
    type V = WithdrawalModel;

    open spec fn view(&self) -> WithdrawalModel {
        match *self {
            Withdrawal::Nothing => WithdrawalModel::Nothing,
            Withdrawal::Remove { cloud_id } => WithdrawalModel::Remove { cloud_id: cloud_id@ },
            Withdrawal::RemoveKnown { cloud_id, tag } => WithdrawalModel::RemoveKnown {
                cloud_id: cloud_id@,
                tag: text::maybe(tag),
            },
        }
    }
}

/// A file that went away, and what to withdraw for it.
#[derive(Debug, PartialEq, Eq)]
pub struct Removal {
    pub path: String,
    pub moved_out: bool,
    pub what: Withdrawal,
}

/// A removal over texts.
#[verifier::ext_equal]
pub struct RemovalModel {
    pub path: Seq<char>,
    pub moved_out: bool,
    pub what: WithdrawalModel,
}

impl View for Removal {
    type V = RemovalModel;

    open spec fn view(&self) -> RemovalModel {
        RemovalModel { path: self.path@, moved_out: self.moved_out, what: self.what@ }
    }
}

/// Removals over texts.
pub open spec fn removal_models(v: Seq<Removal>) -> Seq<RemovalModel> {
    v.map_values(|r: Removal| r@)
}

/// What to withdraw for a path: the object that was just sent from it, or else
/// the one that was recorded for it, at the version that was recorded.
pub open spec fn withdrawal(
    path: Seq<char>,
    recent: Map<Seq<char>, Seq<char>>,
    known: Option<RecordModel>,
) -> WithdrawalModel {
    if recent.dom().contains(path) {
        WithdrawalModel::Remove { cloud_id: recent[path] }
    } else {
        match known {
            Some(r) => WithdrawalModel::RemoveKnown { cloud_id: r.cloud_id, tag: r.tag },
            None => WithdrawalModel::Nothing,
        }
    }
}

/// What to withdraw for files that went away, in the order they went. What is
/// never synced is passed over, and what the cloud has of it stays.
pub open spec fn removals_of(
    gone: Seq<GoneModel>,
    ignored: Set<Seq<char>>,
    recent: Map<Seq<char>, Seq<char>>,
    registers: RegistersModel,
    stamp: Option<u128>,
    raw: Option<Seq<char>>,
) -> Seq<RemovalModel>
    decreases gone.len(),
{
    if gone.len() == 0 {
        Seq::empty()
    } else {
        let g = gone.last();
        let before = removals_of(gone.drop_last(), ignored, recent, registers, stamp, raw);
        if ignored.contains(g.path) {
            before
        } else {
            before.push(
                RemovalModel {
                    path: g.path,
                    moved_out: g.moved_out,
                    what: withdrawal(g.path, recent, registers.record(g.path, stamp, raw)),
                },
            )
        }
    }
}

/// Decide what to withdraw from the cloud for the files that went away here.
/// `recent` is what was just sent and not yet written down, and `known` how
/// many files are tracked: a batch that is more than [`offline::removal_ceiling`]
/// of them is refused whole.
///
/// Called only with names that were reported as removed, never with an absence.
pub fn apply_removals(
    registers: &mut Registers,
    gone: &Vec<Gone>,
    ignored: &Table<String, ()>,
    recent: &Table<String, String>,
    known: usize,
    stamp: Option<u128>,
    raw: Option<&str>,
) -> (out: Option<Vec<Removal>>)
    ensures
        match out {
            None => gone@.len() > offline::ceiling(known as nat),
            Some(list) => gone@.len() <= offline::ceiling(known as nat) && removal_models(list@)
                == removals_of(
                removals::gone_models(gone@),
                ignored@.dom(),
                offline::text_map(recent@),
                old(registers)@,
                stamp,
                offline::maybe_str(raw),
            ),
        },
        final(registers)@.lineage == old(registers)@.lineage,
        forall|rel: Seq<char>|
            final(registers)@.record(rel, stamp, offline::maybe_str(raw)) == old(registers)@.record(
                rel,
                stamp,
                offline::maybe_str(raw),
            ),
{
    if gone.len() > offline::removal_ceiling(known) {
        return None;
    }
    let ghost start = registers@;
    let ghost raw_text = offline::maybe_str(raw);
    let ghost all = removals::gone_models(gone@);
    let ghost sent = offline::text_map(recent@);
    let mut out: Vec<Removal> = Vec::new();
    let mut i: usize = 0;
    assert(all.take(0) =~= Seq::empty());
    assert(removal_models(out@) =~= Seq::empty());
    assert(sent.dom() =~= recent@.dom());
    while i < gone.len()
        invariant
            i <= gone@.len(),
            all == removals::gone_models(gone@),
            sent == offline::text_map(recent@),
            sent.dom() == recent@.dom(),
            raw_text == offline::maybe_str(raw),
            registers@.lineage == start.lineage,
            forall|rel: Seq<char>|
                registers@.record(rel, stamp, raw_text) == start.record(rel, stamp, raw_text),
            removal_models(out@) == removals_of(
                all.take(i as int),
                ignored@.dom(),
                sent,
                start,
                stamp,
                raw_text,
            ),
        decreases gone@.len() - i,
    {
        let g = &gone[i];
        let ghost had = removal_models(out@);
        proof {
            assert(all.take(i + 1).drop_last() =~= all.take(i as int));
            assert(all.take(i + 1).last() == g@);
        }
        if !ignored.contains(&g.path) {
            let what = match recent.get(&g.path) {
                Some(id) => Withdrawal::Remove { cloud_id: id.as_str().to_owned() },
                None => match registers.record(g.path.as_str(), stamp, raw) {
                    Some(r) => Withdrawal::RemoveKnown { cloud_id: r.cloud_id, tag: r.tag },
                    None => Withdrawal::Nothing,
                },
            };
            let removal = Removal {
                path: g.path.as_str().to_owned(),
                moved_out: g.moved_out,
                what,
            };
            let ghost m = removal@;
            out.push(removal);
            assert(removal_models(out@) =~= had.push(m));
        }
        i = i + 1;
    }
    assert(all.take(i as int) =~= all);
    Some(out)
}

/// A folder that went away, with the identity it had.
#[derive(Debug, PartialEq, Eq)]
pub struct FolderGone {
    /// Relative to the sync root.
    pub path: String,
    pub moved_out: bool,
    pub record: Option<Record>,
}

/// A folder that went away, over texts.
#[verifier::ext_equal]
pub struct FolderGoneModel {
    pub path: Seq<char>,
    pub moved_out: bool,
    pub record: Option<RecordModel>,
}

impl View for FolderGone {
    type V = FolderGoneModel;

    open spec fn view(&self) -> FolderGoneModel {
        FolderGoneModel {
            path: self.path@,
            moved_out: self.moved_out,
            record: maybe_record(self.record),
        }
    }
}

/// How deep a path lies.
pub open spec fn depth(path: Seq<char>) -> nat {
    text::count(path, '/')
}

impl Ranked for FolderGone {
    type M = FolderGoneModel;

    open spec fn model(&self) -> FolderGoneModel {
        self@
    }

    /// Deepest first; among equally deep ones, by path.
    open spec fn ahead(a: FolderGoneModel, b: FolderGoneModel) -> bool {
        depth(a.path) > depth(b.path) || (depth(a.path) == depth(b.path) && text::before(
            a.path,
            b.path,
        ))
    }

    proof fn ahead_transitive(a: FolderGoneModel, b: FolderGoneModel, c: FolderGoneModel) {
        if text::before(a.path, b.path) && text::before(b.path, c.path) {
            text::lemma_before_transitive(a.path, b.path, c.path);
        }
    }

    proof fn ahead_cotransitive(a: FolderGoneModel, b: FolderGoneModel, c: FolderGoneModel) {
        if !text::before(a.path, b.path) && !text::before(b.path, c.path) {
            text::lemma_before_cotransitive(a.path, b.path, c.path);
        }
    }

    proof fn ahead_irreflexive(a: FolderGoneModel) {
        text::lemma_before_irreflexive(a.path);
    }

    fn is_ahead(&self, other: &FolderGone) -> (b: bool) {
        let mine = text::count_of(self.path.as_str(), '/');
        let theirs = text::count_of(other.path.as_str(), '/');
        mine > theirs || (mine == theirs && text::is_before(
            self.path.as_str(),
            other.path.as_str(),
        ))
    }
}

/// What to do about a folder that went away. A folder is only removed at a
/// version that is known, through the provider's own proof that it is empty.
#[derive(Debug, PartialEq, Eq)]
pub enum FolderWithdrawal {
    /// It had no recorded identity.
    NoIdentity,
    /// Its version was unknown, and removing it could remove what is below it.
    NoVersion,
    Remove { cloud_id: String, tag: String },
}

/// What to do about a folder, over texts.
#[verifier::ext_equal]
pub enum FolderWithdrawalModel {
    NoIdentity,
    NoVersion,
    Remove { cloud_id: Seq<char>, tag: Seq<char> },
}

impl View for FolderWithdrawal {
    type V = FolderWithdrawalModel;

    open spec fn view(&self) -> FolderWithdrawalModel {
        match *self {
            FolderWithdrawal::NoIdentity => FolderWithdrawalModel::NoIdentity,
            FolderWithdrawal::NoVersion => FolderWithdrawalModel::NoVersion,
            FolderWithdrawal::Remove { cloud_id, tag } => FolderWithdrawalModel::Remove {
                cloud_id: cloud_id@,
                tag: tag@,
            },
        }
    }
}

/// A folder that went away, and what to do about it.
#[derive(Debug, PartialEq, Eq)]
pub struct FolderRemoval {
    pub path: String,
    pub moved_out: bool,
    pub what: FolderWithdrawal,
}

/// A folder removal over texts.
#[verifier::ext_equal]
pub struct FolderRemovalModel {
    pub path: Seq<char>,
    pub moved_out: bool,
    pub what: FolderWithdrawalModel,
}

impl View for FolderRemoval {
    type V = FolderRemovalModel;

    open spec fn view(&self) -> FolderRemovalModel {
        FolderRemovalModel { path: self.path@, moved_out: self.moved_out, what: self.what@ }
    }
}

/// Folder removals over texts.
pub open spec fn folder_removal_models(v: Seq<FolderRemoval>) -> Seq<FolderRemovalModel> {
    v.map_values(|r: FolderRemoval| r@)
}

/// What to do about a folder with this record.
pub open spec fn folder_withdrawal(record: Option<RecordModel>) -> FolderWithdrawalModel {
    match record {
        None => FolderWithdrawalModel::NoIdentity,
        Some(r) => match r.tag {
            None => FolderWithdrawalModel::NoVersion,
            Some(tag) => FolderWithdrawalModel::Remove { cloud_id: r.cloud_id, tag },
        },
    }
}

/// What to do about some folders, in the order given. What is never synced is
/// passed over.
pub open spec fn folder_removals_of(gone: Seq<FolderGoneModel>, ignored: Set<Seq<char>>) -> Seq<
    FolderRemovalModel,
>
    decreases gone.len(),
{
    if gone.len() == 0 {
        Seq::empty()
    } else {
        let g = gone.last();
        let before = folder_removals_of(gone.drop_last(), ignored);
        if ignored.contains(g.path) {
            before
        } else {
            before.push(
                FolderRemovalModel {
                    path: g.path,
                    moved_out: g.moved_out,
                    what: folder_withdrawal(g.record),
                },
            )
        }
    }
}

/// Decide what to withdraw for folders that went away here, deepest first. A
/// batch that is more than [`offline::removal_ceiling`] of what is tracked is
/// refused whole.
pub fn apply_folder_removals(
    gone: Vec<FolderGone>,
    ignored: &Table<String, ()>,
    known: usize,
) -> (out: Option<Vec<FolderRemoval>>)
    ensures
        match out {
            None => gone@.len() > offline::ceiling(known as nat),
            Some(list) => gone@.len() <= offline::ceiling(known as nat) && folder_removal_models(
                list@,
            ) == folder_removals_of(
                sort::arranged::<FolderGone>(sort::models(gone@)),
                ignored@.dom(),
            ),
        },
{
    if gone.len() > offline::removal_ceiling(known) {
        return None;
    }
    let ordered = sort::arrange(gone);
    let ghost all = sort::models(ordered@);
    let mut out: Vec<FolderRemoval> = Vec::new();
    let mut i: usize = 0;
    assert(all.take(0) =~= Seq::empty());
    assert(folder_removal_models(out@) =~= Seq::empty());
    while i < ordered.len()
        invariant
            i <= ordered@.len(),
            all == sort::models(ordered@),
            folder_removal_models(out@) == folder_removals_of(
                all.take(i as int),
                ignored@.dom(),
            ),
        decreases ordered@.len() - i,
    {
        let g = &ordered[i];
        let ghost had = folder_removal_models(out@);
        proof {
            assert(all.take(i + 1).drop_last() =~= all.take(i as int));
            assert(all.take(i + 1).last() == g@);
        }
        if !ignored.contains(&g.path) {
            let what = match &g.record {
                None => FolderWithdrawal::NoIdentity,
                Some(r) => match &r.tag {
                    None => FolderWithdrawal::NoVersion,
                    Some(tag) => FolderWithdrawal::Remove {
                        cloud_id: r.cloud_id.as_str().to_owned(),
                        tag: tag.as_str().to_owned(),
                    },
                },
            };
            let removal = FolderRemoval {
                path: g.path.as_str().to_owned(),
                moved_out: g.moved_out,
                what,
            };
            let ghost m = removal@;
            out.push(removal);
            assert(folder_removal_models(out@) =~= had.push(m));
        }
        i = i + 1;
    }
    assert(all.take(i as int) =~= all);
    Some(out)
}

/// What is known of a rename that happened here.
#[derive(Debug, PartialEq, Eq)]
pub struct RenameFacts {
    /// Whether either name is one of the framework's own.
    pub internal: bool,
    /// Whether either path is never synced.
    pub ignored: bool,
    /// The attributes of what is at the new path, where they could be read.
    pub cloud_id: Option<Vec<u8>>,
    pub etag: Option<Vec<u8>>,
}

/// What to do about a rename.
#[derive(Debug, PartialEq, Eq)]
pub enum Rename {
    /// It is not the cloud's business.
    Ignore,
    /// The new path holds other content under the old identity's name: a save
    /// that replaced the file, not a rename of the object.
    Replacement,
    /// Move the object, if it is still at this version.
    Move { cloud_id: String, tag: Option<String> },
}

/// What to do about a rename, over texts.
#[verifier::ext_equal]
pub enum RenameModel {
    Ignore,
    Replacement,
    Move { cloud_id: Seq<char>, tag: Option<Seq<char>> },
}

impl View for Rename {
    type V = RenameModel;

    open spec fn view(&self) -> RenameModel {
        match *self {
            Rename::Ignore => RenameModel::Ignore,
            Rename::Replacement => RenameModel::Replacement,
            Rename::Move { cloud_id, tag } => RenameModel::Move {
                cloud_id: cloud_id@,
                tag: text::maybe(tag),
            },
        }
    }
}

/// What a rename means, by what the file at its new name says.
pub open spec fn renaming(
    internal: bool,
    ignored: bool,
    cloud_id: Option<Seq<u8>>,
    etag: Option<Seq<u8>>,
) -> RenameModel {
    if internal || ignored {
        RenameModel::Ignore
    } else {
        match store::string_of(cloud_id) {
            None => RenameModel::Replacement,
            Some(cloud_id) => RenameModel::Move { cloud_id, tag: store::string_of(etag) },
        }
    }
}

/// Decide what a rename that happened here means for the cloud. A true rename
/// keeps the inode and with it the identity; a save that replaced the file does
/// not.
pub fn apply_rename(facts: RenameFacts) -> (r: Rename)
    ensures
        r@ == renaming(
            facts.internal,
            facts.ignored,
            store::maybe_bytes(facts.cloud_id),
            store::maybe_bytes(facts.etag),
        ),
{
    if facts.internal || facts.ignored {
        return Rename::Ignore;
    }
    match store::get_xattr_string(facts.cloud_id) {
        None => Rename::Replacement,
        Some(cloud_id) => Rename::Move { cloud_id, tag: store::get_xattr_string(facts.etag) },
    }
}

/// What was recorded for a path guards the removal of its object: a file whose
/// object was not just sent is removed only at the version that was here.
pub proof fn law_a_recorded_version_guards_a_removal(
    path: Seq<char>,
    recent: Map<Seq<char>, Seq<char>>,
    known: RecordModel,
)
    requires
        !recent.dom().contains(path),
    ensures
        withdrawal(path, recent, Some(known)) == (WithdrawalModel::RemoveKnown {
            cloud_id: known.cloud_id,
            tag: known.tag,
        }),
{
}

/// Nothing is withdrawn for a path that is never synced, and nothing is
/// withdrawn for a path that did not go away.
pub proof fn law_only_what_went_away_is_withdrawn(
    gone: Seq<GoneModel>,
    ignored: Set<Seq<char>>,
    recent: Map<Seq<char>, Seq<char>>,
    registers: RegistersModel,
    stamp: Option<u128>,
    raw: Option<Seq<char>>,
    i: int,
)
    requires
        0 <= i < removals_of(gone, ignored, recent, registers, stamp, raw).len(),
    ensures
        ({
            let r = removals_of(gone, ignored, recent, registers, stamp, raw)[i];
            &&& !ignored.contains(r.path)
            &&& gone.contains(GoneModel { path: r.path, moved_out: r.moved_out })
        }),
    decreases gone.len(),
{
    let less = gone.drop_last();
    let before = removals_of(less, ignored, recent, registers, stamp, raw);
    let r = removals_of(gone, ignored, recent, registers, stamp, raw)[i];
    let g = GoneModel { path: r.path, moved_out: r.moved_out };
    if i < before.len() {
        law_only_what_went_away_is_withdrawn(less, ignored, recent, registers, stamp, raw, i);
        let k = choose|k: int| 0 <= k < less.len() && less[k] == g;
        assert(gone[k] == g);
    } else {
        assert(gone[gone.len() - 1] == g);
    }
}

/// A folder is removed only with both an identity and a version.
pub proof fn law_a_folder_is_never_removed_blindly(record: Option<RecordModel>)
    ensures
        folder_withdrawal(record) is Remove <==> (record is Some && record->0.tag is Some),
        folder_withdrawal(record) is Remove ==> folder_withdrawal(record)
            == (FolderWithdrawalModel::Remove {
            cloud_id: record->0.cloud_id,
            tag: record->0.tag->0,
        }),
{
}

proof fn lemma_removal_depths(gone: Seq<FolderGoneModel>, ignored: Set<Seq<char>>)
    requires
        sort::in_order::<FolderGone>(gone),
    ensures
        ({
            let out = folder_removals_of(gone, ignored);
            &&& forall|i: int, j: int|
                0 <= i < j < out.len() ==> depth((#[trigger] out[i]).path) >= depth(
                    (#[trigger] out[j]).path,
                )
            &&& forall|i: int|
                0 <= i < out.len() ==> exists|k: int|
                    0 <= k < gone.len() && (#[trigger] gone[k]).path == (#[trigger] out[i]).path
        }),
    decreases gone.len(),
{
    if gone.len() > 0 {
        let less = gone.drop_last();
        assert forall|i: int, j: int| 0 <= i < j < less.len() implies !FolderGone::ahead(
            #[trigger] less[j],
            #[trigger] less[i],
        ) by {
            assert(less[i] == gone[i] && less[j] == gone[j]);
        }
        lemma_removal_depths(less, ignored);
        let before = folder_removals_of(less, ignored);
        let out = folder_removals_of(gone, ignored);
        assert forall|i: int| 0 <= i < out.len() implies exists|k: int|
            0 <= k < gone.len() && (#[trigger] gone[k]).path == (#[trigger] out[i]).path by {
            if i < before.len() {
                let k = choose|k: int|
                    0 <= k < less.len() && (#[trigger] less[k]).path == before[i].path;
                assert(gone[k] == less[k]);
            } else {
                assert(gone[gone.len() - 1].path == out[i].path);
            }
        }
        assert forall|i: int, j: int| 0 <= i < j < out.len() implies depth((#[trigger] out[i]).path)
            >= depth((#[trigger] out[j]).path) by {
            if j < before.len() {
                assert(out[i] == before[i] && out[j] == before[j]);
            } else {
                let k = choose|k: int|
                    0 <= k < less.len() && (#[trigger] less[k]).path == before[i].path;
                let last = gone.len() - 1;
                assert(less[k] == gone[k]);
                assert(!FolderGone::ahead(gone[last], gone[k]));
            }
        }
    }
}

/// Folders go deepest first, so that what is below one has gone before it.
pub proof fn law_folders_go_deepest_first(
    gone: Seq<FolderGoneModel>,
    ignored: Set<Seq<char>>,
    i: int,
    j: int,
)
    requires
        0 <= i < j < folder_removals_of(sort::arranged::<FolderGone>(gone), ignored).len(),
    ensures
        depth(folder_removals_of(sort::arranged::<FolderGone>(gone), ignored)[i].path) >= depth(
            folder_removals_of(sort::arranged::<FolderGone>(gone), ignored)[j].path,
        ),
{
    sort::lemma_arranged::<FolderGone>(gone);
    lemma_removal_depths(sort::arranged::<FolderGone>(gone), ignored);
}

/// Every path that went away has its removal, unlinked and moved out of the tree
/// alike, unless it is ignored: of the object that was just sent for it, or else of
/// the one that is recorded at it, with the version that is recorded.
pub proof fn law_every_path_that_went_away_is_withdrawn(
    gone: Seq<GoneModel>,
    ignored: Set<Seq<char>>,
    recent: Map<Seq<char>, Seq<char>>,
    registers: RegistersModel,
    stamp: Option<u128>,
    raw: Option<Seq<char>>,
    i: int,
)
    requires
        0 <= i < gone.len(),
        !ignored.contains(gone[i].path),
    ensures
        removals_of(gone, ignored, recent, registers, stamp, raw).contains(
            RemovalModel {
                path: gone[i].path,
                moved_out: gone[i].moved_out,
                what: if recent.dom().contains(gone[i].path) {
                    WithdrawalModel::Remove { cloud_id: recent[gone[i].path] }
                } else {
                    match registers.record(gone[i].path, stamp, raw) {
                        Some(r) => WithdrawalModel::RemoveKnown {
                            cloud_id: r.cloud_id,
                            tag: r.tag,
                        },
                        None => WithdrawalModel::Nothing,
                    }
                },
            },
        ),
{
    let g = gone[i];
    let a = gone.take(i);
    let b = gone.skip(i + 1);
    assert(gone =~= a + (seq![g] + b));
    law_a_batch_is_withdrawn_in_order(a, seq![g] + b, g, ignored, recent, registers, stamp, raw);
    law_a_batch_is_withdrawn_in_order(seq![g], b, g, ignored, recent, registers, stamp, raw);
    let at = removals_of(a, ignored, recent, registers, stamp, raw).len() as int;
    let out = removals_of(gone, ignored, recent, registers, stamp, raw);
    assert(out[at] == removals_of(seq![g], ignored, recent, registers, stamp, raw)[0]);
    assert(out.contains(out[at]));
}

/// The removals of a batch come one for each path that is not ignored, in the
/// order in which the paths went away: what a path gives depends on no other path
/// of the batch.
pub proof fn law_a_batch_is_withdrawn_in_order(
    first: Seq<GoneModel>,
    second: Seq<GoneModel>,
    g: GoneModel,
    ignored: Set<Seq<char>>,
    recent: Map<Seq<char>, Seq<char>>,
    registers: RegistersModel,
    stamp: Option<u128>,
    raw: Option<Seq<char>>,
)
    ensures
        removals_of(first + second, ignored, recent, registers, stamp, raw) == removals_of(
            first,
            ignored,
            recent,
            registers,
            stamp,
            raw,
        ) + removals_of(second, ignored, recent, registers, stamp, raw),
        removals_of(seq![g], ignored, recent, registers, stamp, raw).len() == (if ignored.contains(
            g.path,
        ) {
            0int
        } else {
            1int
        }),
        !ignored.contains(g.path) ==> {
            let r = removals_of(seq![g], ignored, recent, registers, stamp, raw)[0];
            &&& r.path == g.path
            &&& r.moved_out == g.moved_out
            &&& recent.dom().contains(g.path) ==> r.what == (WithdrawalModel::Remove {
                cloud_id: recent[g.path],
            })
            &&& !recent.dom().contains(g.path) ==> r.what == match registers.record(
                g.path,
                stamp,
                raw,
            ) {
                Some(k) => WithdrawalModel::RemoveKnown { cloud_id: k.cloud_id, tag: k.tag },
                None => WithdrawalModel::Nothing,
            }
        },
    decreases second.len(),
{
    let one = seq![g];
    assert(one.drop_last() =~= Seq::empty());
    assert(removals_of(one.drop_last(), ignored, recent, registers, stamp, raw) =~= Seq::empty());
    let both = first + second;
    if second.len() == 0 {
        assert(both =~= first);
        assert(removals_of(both, ignored, recent, registers, stamp, raw) =~= removals_of(
            first,
            ignored,
            recent,
            registers,
            stamp,
            raw,
        ) + removals_of(second, ignored, recent, registers, stamp, raw));
    } else {
        let less = second.drop_last();
        law_a_batch_is_withdrawn_in_order(first, less, g, ignored, recent, registers, stamp, raw);
        assert(both.drop_last() =~= first + less);
        assert(both.last() == second.last());
        assert(removals_of(both, ignored, recent, registers, stamp, raw) =~= removals_of(
            first,
            ignored,
            recent,
            registers,
            stamp,
            raw,
        ) + removals_of(second, ignored, recent, registers, stamp, raw));
    }
}

/// Where a path's identity is looked for: what the record of identities has of it
/// comes first, whatever the manifest says. Without one, it is what the manifest
/// has, taken as it was read when that was read at the same time stamp, and read
/// from its text otherwise. A tree without a manifest has nothing more to say.
pub proof fn law_identities_are_looked_up_in_turn(
    registers: RegistersModel,
    rel: Seq<char>,
    stamp: u128,
    raw: Seq<char>,
)
    ensures
        registers.lineage.dom().contains(rel) ==> registers.record(rel, Some(stamp), Some(raw))
            == Some(registers.lineage[rel]) && registers.record(rel, None, None) == Some(
            registers.lineage[rel],
        ) && registers.read(rel, Some(stamp), Some(raw)) == registers,
        !registers.lineage.dom().contains(rel) ==> {
            let now = registers.read(rel, Some(stamp), Some(raw));
            let got = registers.record(rel, Some(stamp), Some(raw));
            &&& registers.record(rel, None, Some(raw)) is None
            &&& now.manifest matches Some((when, m)) && when == stamp && (got is Some
                <==> m.dom().contains(rel)) && (got is Some ==> got->0 == m[rel])
            &&& now.lineage == registers.lineage
            &&& (registers.manifest matches Some((when, _)) && when == stamp) ==> now == registers
            &&& !(registers.manifest matches Some((when, _)) && when == stamp) ==> now.manifest
                == Some((stamp, manifest::read_back(text::lines(raw))))
        },
{
}

/// A lookup does not change what a later one finds, as long as the manifest is the
/// same.
pub proof fn law_a_lookup_changes_no_answer(
    registers: RegistersModel,
    first: Seq<char>,
    second: Seq<char>,
    stamp: Option<u128>,
    raw: Option<Seq<char>>,
)
    ensures
        registers.read(first, stamp, raw).record(second, stamp, raw) == registers.record(
            second,
            stamp,
            raw,
        ),
{
}

/// The removals of folders come one for each folder that is not ignored, in the
/// order in which the folders are taken, and what a folder gives depends on no
/// other: without an identity or without a version it is only told of.
pub proof fn law_folders_are_withdrawn_in_order(
    first: Seq<FolderGoneModel>,
    second: Seq<FolderGoneModel>,
    g: FolderGoneModel,
    ignored: Set<Seq<char>>,
)
    ensures
        folder_removals_of(first + second, ignored) == folder_removals_of(first, ignored)
            + folder_removals_of(second, ignored),
        ignored.contains(g.path) ==> folder_removals_of(seq![g], ignored).len() == 0,
        !ignored.contains(g.path) ==> {
            let out = folder_removals_of(seq![g], ignored);
            &&& out.len() == 1
            &&& out[0].path == g.path
            &&& out[0].moved_out == g.moved_out
            &&& g.record is None ==> out[0].what is NoIdentity
            &&& (g.record matches Some(r) && r.tag is None) ==> out[0].what is NoVersion
            &&& (g.record matches Some(r) && r.tag is Some) ==> out[0].what == (
            FolderWithdrawalModel::Remove {
                cloud_id: g.record->0.cloud_id,
                tag: g.record->0.tag->0,
            })
        },
    decreases second.len(),
{
    let one = seq![g];
    assert(one.drop_last() =~= Seq::empty());
    assert(folder_removals_of(one.drop_last(), ignored) =~= Seq::empty());
    let both = first + second;
    if second.len() == 0 {
        assert(both =~= first);
        assert(folder_removals_of(both, ignored) =~= folder_removals_of(first, ignored)
            + folder_removals_of(second, ignored));
    } else {
        let less = second.drop_last();
        law_folders_are_withdrawn_in_order(first, less, g, ignored);
        assert(both.drop_last() =~= first + less);
        assert(both.last() == second.last());
        assert(folder_removals_of(both, ignored) =~= folder_removals_of(first, ignored)
            + folder_removals_of(second, ignored));
    }
}

/// Every folder that went away and is not ignored has its removal, however it went
/// and wherever it stood in the batch.
pub proof fn law_every_folder_that_went_away_is_withdrawn(
    gone: Seq<FolderGoneModel>,
    ignored: Set<Seq<char>>,
    i: int,
)
    requires
        0 <= i < gone.len(),
        !ignored.contains(gone[i].path),
    ensures
        folder_removals_of(sort::arranged::<FolderGone>(gone), ignored).contains(
            FolderRemovalModel {
                path: gone[i].path,
                moved_out: gone[i].moved_out,
                what: match gone[i].record {
                    None => FolderWithdrawalModel::NoIdentity,
                    Some(r) => match r.tag {
                        None => FolderWithdrawalModel::NoVersion,
                        Some(tag) => FolderWithdrawalModel::Remove { cloud_id: r.cloud_id, tag },
                    },
                },
            },
        ),
{
    let g = gone[i];
    let s = sort::arranged::<FolderGone>(gone);
    sort::lemma_arranged_contains::<FolderGone>(gone, g);
    assert(gone.contains(g));
    let k = choose|k: int| 0 <= k < s.len() && s[k] == g;
    let a = s.take(k);
    let b = s.skip(k + 1);
    assert(s =~= a + (seq![g] + b));
    law_folders_are_withdrawn_in_order(a, seq![g] + b, g, ignored);
    law_folders_are_withdrawn_in_order(seq![g], b, g, ignored);
    let at = folder_removals_of(a, ignored).len() as int;
    let out = folder_removals_of(s, ignored);
    assert(out[at] == folder_removals_of(seq![g], ignored)[0]);
    assert(out.contains(out[at]));
}

/// A path lies one deeper for each slash that is added to it.
pub proof fn law_each_slash_lies_one_deeper(a: Seq<char>, b: Seq<char>)
    ensures
        depth(a + seq!['/'] + b) == depth(a) + 1 + depth(b),
        !a.contains('/') ==> depth(a) == 0,
    decreases a.len(),
{
    text::law_occurrences_add_up(a + seq!['/'], b, '/', '/');
    text::law_occurrences_add_up(a, seq!['/'], '/', '/');
    if !a.contains('/') && a.len() > 0 {
        let less = a.drop_last();
        assert(!less.contains('/')) by {
            if less.contains('/') {
                let i = choose|i: int| 0 <= i < less.len() && less[i] == '/';
                assert(a[i] == '/');
            }
        }
        assert(a[a.len() - 1] != '/');
        law_each_slash_lies_one_deeper(less, b);
    }
}

/// Of two folders the deeper goes first, and at one depth the one that comes first
/// by its path.
pub proof fn law_in_which_order_folders_go(a: FolderGoneModel, b: FolderGoneModel)
    ensures
        depth(a.path) > depth(b.path) ==> FolderGone::ahead(a, b) && !FolderGone::ahead(b, a),
        depth(a.path) == depth(b.path) ==> (FolderGone::ahead(a, b) <==> text::before(
            a.path,
            b.path,
        )),
{
}

/// A file that takes part and still says at its new name which object it is was
/// moved, and is carried as that object with the version that it says. One that says
/// nothing replaced another file. What takes no part is ignored.
pub proof fn law_a_rename_goes_by_the_identity(
    internal: bool,
    ignored: bool,
    id: Seq<char>,
    value: Option<Seq<u8>>,
    tag: Seq<char>,
)
    ensures
        internal || ignored ==> renaming(internal, ignored, value, value) is Ignore,
        !internal && !ignored ==> {
            &&& renaming(internal, ignored, Some(text::bytes(id)), Some(text::bytes(tag))) == (
            RenameModel::Move { cloud_id: id, tag: Some(tag) })
            &&& renaming(internal, ignored, Some(text::bytes(id)), None) == (RenameModel::Move {
                cloud_id: id,
                tag: None,
            })
            &&& renaming(internal, ignored, None, value) is Replacement
            &&& (value is Some && !vstd::utf8::valid_utf8(value->0)) ==> renaming(
                internal,
                ignored,
                value,
                None,
            ) is Replacement
        },
{
    store::law_an_attribute_is_read_as_its_text(id, Seq::empty());
    store::law_an_attribute_is_read_as_its_text(tag, Seq::empty());
    if let Some(v) = value {
        store::law_an_attribute_is_read_as_its_text(id, v);
    }
}

} // verus!
