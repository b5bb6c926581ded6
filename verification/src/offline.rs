//! Deletions made while the daemon was not running.
//!
//! A file deleted while nothing was watching is simply absent at the next start,
//! and absence alone is never acted on: a file is also absent because it has not
//! been placed yet, or because the sync root is empty, unmounted or wrong. What
//! is acted on is the difference between what was written down as present and
//! what is present now. The record lives in the sync root beside the files it
//! describes, so a wrong root carries no record and yields no difference.

use crate::lineage;
use crate::lineage::{Lineage, Record, RecordModel};
use crate::manifest;
use crate::paths;
use crate::store;
use crate::table;
use crate::table::Table;
use crate::text;
use vstd::prelude::*;
use vstd::string::*;

verus! {

/// The number of removals that is allowed whatever the size of the tree.
pub const REMOVAL_FLOOR: usize = 64;

/// The part of the tree that one batch may remove: one in so many.
pub const REMOVAL_RATIO: usize = 10;

/// The most one removal batch may withdraw, given the size of the tree: a whole
/// root that disappears is above it and a folder of a large tree is below it.
pub open spec fn ceiling(known: nat) -> nat {
    if known / REMOVAL_RATIO as nat > REMOVAL_FLOOR {
        known / REMOVAL_RATIO as nat
    } else {
        REMOVAL_FLOOR as nat
    }
}

/// The most one removal batch may withdraw, given the tree it is part of.
pub fn removal_ceiling(known: usize) -> (n: usize)
    ensures
        n == ceiling(known as nat),
{
    let part: usize = known / REMOVAL_RATIO;
    if part > REMOVAL_FLOOR {
        part
    } else {
        REMOVAL_FLOOR
    }
}

/// Which object was at each path: what the manifest lists, and over it what the
/// record of identities has.
pub open spec fn journaled(
    listed: Map<Seq<char>, RecordModel>,
    recorded: Map<Seq<char>, RecordModel>,
) -> Map<Seq<char>, Seq<char>> {
    Map::new(
        |p: Seq<char>| listed.dom().contains(p) || recorded.dom().contains(p),
        |p: Seq<char>|
            if recorded.dom().contains(p) {
                recorded[p].cloud_id
            } else {
                listed[p].cloud_id
            },
    )
}

/// What the two texts in the sync root say was present.
pub open spec fn journal_of(manifest: Option<Seq<char>>, lineage: Option<Seq<char>>) -> Map<
    Seq<char>,
    Seq<char>,
> {
    journaled(
        match manifest {
            Some(s) => manifest::read_back(text::lines(s)),
            None => Map::empty(),
        },
        match lineage {
            Some(s) => lineage::read_back(text::lines(s)),
            None => Map::empty(),
        },
    )
}

/// A text that may be missing.
pub open spec fn maybe_str(s: Option<&str>) -> Option<Seq<char>> {
    match s {
        Some(s) => Some(s@),
        None => None,
    }
}

/// Texts by text.
pub open spec fn text_map(m: Map<Seq<char>, String>) -> Map<Seq<char>, Seq<char>> {
    m.map_values(|s: String| s@)
}

/// Pairs of texts.
pub open spec fn pairs(v: Seq<(String, String)>) -> Seq<(Seq<char>, Seq<char>)> {
    v.map_values(|p: (String, String)| (p.0@, p.1@))
}

fn put_all(journal: &mut Table<String, String>, from: &Table<String, Record>)
    ensures
        text_map(final(journal)@) == Map::new(
            |p: Seq<char>| old(journal)@.dom().contains(p) || from@.dom().contains(p),
            |p: Seq<char>|
                if from@.dom().contains(p) {
                    from@[p].cloud_id@
                } else {
                    old(journal)@[p]@
                },
        ),
{
    let ghost was = journal@;
    let n = from.len();
    let ghost keys = table::keys_of(from.rows());
    let mut i: usize = 0;
    while i < n
        invariant
            i <= n,
            n == from.rows().len(),
            keys == table::keys_of(from.rows()),
            forall|p: Seq<char>| #[trigger]
                journal@.dom().contains(p) ==> was.dom().contains(p) || from@.dom().contains(p),
            forall|p: Seq<char>| was.dom().contains(p) ==> #[trigger] journal@.dom().contains(p),
            forall|j: int| 0 <= j < i ==> journal@.dom().contains(#[trigger] keys[j]),
            forall|j: int| 0 <= j < i ==> journal@[#[trigger] keys[j]]@ == from@[keys[j]].cloud_id@,
            forall|p: Seq<char>|
                was.dom().contains(p) && !from@.dom().contains(p) ==> #[trigger] journal@[p]
                    == was[p],
        decreases n - i,
    {
        let p = from.key_at(i);
        let r = from.value_at(i);
        assert(keys[i as int] == p@);
        let id = r.cloud_id.as_str().to_owned();
        journal.insert(p.as_str().to_owned(), id);
        i = i + 1;
    }
    proof {
        table::lemma_in_key_order::<String>(from@.dom());
        let got = text_map(journal@);
        let want = Map::new(
            |p: Seq<char>| was.dom().contains(p) || from@.dom().contains(p),
            |p: Seq<char>|
                if from@.dom().contains(p) {
                    from@[p].cloud_id@
                } else {
                    was[p]@
                },
        );
        assert forall|p: Seq<char>| from@.dom().contains(p) implies journal@.dom().contains(p)
            && journal@[p]@ == from@[p].cloud_id@ by {
            assert(keys.contains(p));
            let j = choose|j: int| 0 <= j < keys.len() && keys[j] == p;
            assert(journal@.dom().contains(keys[j]));
            assert(journal@[keys[j]]@ == from@[keys[j]].cloud_id@);
        }
        assert(got =~= want);
    }
}

fn read_lineage(raw: Option<&str>) -> (t: Table<String, Record>)
    ensures
        lineage::records(t@) == match raw {
            Some(s) => lineage::read_back(text::lines(s@)),
            None => Map::empty(),
        },
{
    let l = Lineage::load(raw);
    let entries = l.entries();
    let ghost m = l@.records;
    let ghost keys = table::in_key_order::<String>(m.dom());
    let total = l.len();
    let mut t: Table<String, Record> = Table::new();
    let mut i: usize = 0;
    while i < entries.len()
        invariant
            i <= entries@.len(),
            m == l@.records,
            keys == table::in_key_order::<String>(m.dom()),
            entries@.len() == keys.len(),
            forall|j: int|
                0 <= j < entries@.len() ==> (#[trigger] entries@[j]).0@ == keys[j]
                    && m.dom().contains(entries@[j].0@) && entries@[j].1@ == m[entries@[j].0@],
            forall|p: Seq<char>| #[trigger]
                t@.dom().contains(p) ==> m.dom().contains(p) && t@[p]@ == m[p],
            forall|j: int| 0 <= j < i ==> t@.dom().contains(#[trigger] keys[j]),
        decreases entries@.len() - i,
    {
        let (p, r) = &entries[i];
        t.insert(p.as_str().to_owned(), r.copy());
        i = i + 1;
    }
    proof {
        table::lemma_in_key_order::<String>(m.dom());
        assert forall|p: Seq<char>| m.dom().contains(p) implies t@.dom().contains(p) by {
            assert(keys.contains(p));
            let j = choose|j: int| 0 <= j < keys.len() && keys[j] == p;
            assert(t@.dom().contains(keys[j]));
        }
        assert(lineage::records(t@) =~= m);
    }
    t
}

/// Which object the last run wrote down for each path.
pub fn journal(manifest: Option<&str>, lineage: Option<&str>) -> (t: Table<String, String>)
    ensures
        text_map(t@) == journal_of(maybe_str(manifest), maybe_str(lineage)),
{
    let listed = manifest::entries(manifest);
    let recorded = read_lineage(lineage);
    let mut t: Table<String, String> = Table::new();
    put_all(&mut t, &listed);
    let ghost first = text_map(t@);
    put_all(&mut t, &recorded);
    proof {
        let a = lineage::records(listed@);
        let b = lineage::records(recorded@);
        let want = journaled(a, b);
        let got = text_map(t@);
        assert(a.dom() =~= listed@.dom());
        assert(b.dom() =~= recorded@.dom());
        assert forall|p: Seq<char>| want.dom().contains(p) <==> got.dom().contains(p) by {
            assert(first.dom().contains(p) <==> listed@.dom().contains(p));
        }
        assert forall|p: Seq<char>| want.dom().contains(p) implies want[p] == got[p] by {
            if !b.dom().contains(p) {
                assert(first[p] == listed@[p].cloud_id@);
            }
        }
        assert(got =~= want);
    }
    t
}

/// Whether a path of the journal is one whose object has gone: it is not
/// ignored, nothing is at the path, and the object is at no other path.
pub open spec fn is_gone(
    path: Seq<char>,
    cloud_id: Seq<char>,
    ignored: Set<Seq<char>>,
    present: Set<Seq<char>>,
    on_disk: Set<Seq<char>>,
) -> bool {
    !ignored.contains(path) && !present.contains(path) && !on_disk.contains(cloud_id)
}

/// Those of some paths whose object has gone, with the object.
pub open spec fn gone_of(
    keys: Seq<Seq<char>>,
    journal: Map<Seq<char>, Seq<char>>,
    ignored: Set<Seq<char>>,
    present: Set<Seq<char>>,
    on_disk: Set<Seq<char>>,
) -> Seq<(Seq<char>, Seq<char>)>
    decreases keys.len(),
{
    if keys.len() == 0 {
        Seq::empty()
    } else {
        let p = keys.last();
        let before = gone_of(keys.drop_last(), journal, ignored, present, on_disk);
        if is_gone(p, journal[p], ignored, present, on_disk) {
            before.push((p, journal[p]))
        } else {
            before
        }
    }
}

/// How many of some paths are synced at all.
pub open spec fn synced(keys: Seq<Seq<char>>, ignored: Set<Seq<char>>) -> nat
    decreases keys.len(),
{
    if keys.len() == 0 {
        0
    } else if ignored.contains(keys.last()) {
        synced(keys.drop_last(), ignored)
    } else {
        synced(keys.drop_last(), ignored) + 1
    }
}

/// The objects to withdraw: those that have gone, in the order of their paths,
/// unless there are more of them than one batch may withdraw.
pub open spec fn withdrawn(
    journal: Map<Seq<char>, Seq<char>>,
    ignored: Set<Seq<char>>,
    present: Set<Seq<char>>,
    on_disk: Set<Seq<char>>,
) -> Seq<(Seq<char>, Seq<char>)> {
    let keys = table::in_key_order::<String>(journal.dom());
    let gone = gone_of(keys, journal, ignored, present, on_disk);
    if gone.len() > ceiling(synced(keys, ignored)) {
        Seq::empty()
    } else {
        gone
    }
}

/// What has gone since the last run, path and object, however much it is; and
/// how many of the journal's paths are synced at all. `journal` is what the
/// last run wrote down, `ignored` those of its paths that are never synced,
/// `present` what is there now and `on_disk` which objects the files there are.
pub fn gone_offline(
    journal: &Table<String, String>,
    ignored: &Table<String, ()>,
    present: &Table<String, ()>,
    on_disk: &Table<String, ()>,
) -> (r: (Vec<(String, String)>, usize))
    ensures
        pairs(r.0@) == gone_of(
            table::in_key_order::<String>(journal@.dom()),
            text_map(journal@),
            ignored@.dom(),
            present@.dom(),
            on_disk@.dom(),
        ),
        r.1 == synced(table::in_key_order::<String>(journal@.dom()), ignored@.dom()),
{
    let n = journal.len();
    let ghost m = text_map(journal@);
    let ghost keys = table::keys_of(journal.rows());
    let mut out: Vec<(String, String)> = Vec::new();
    let mut known: usize = 0;
    let mut i: usize = 0;
    assert(m.dom() =~= journal@.dom());
    assert(keys.take(0) =~= Seq::empty());
    assert(pairs(out@) =~= Seq::empty());
    while i < n
        invariant
            i <= n,
            n == journal.rows().len(),
            m == text_map(journal@),
            keys == table::keys_of(journal.rows()),
            pairs(out@) == gone_of(
                keys.take(i as int),
                m,
                ignored@.dom(),
                present@.dom(),
                on_disk@.dom(),
            ),
            known == synced(keys.take(i as int), ignored@.dom()),
            known <= i,
        decreases n - i,
    {
        let p = journal.key_at(i);
        let id = journal.value_at(i);
        let ghost had = pairs(out@);
        proof {
            assert(keys[i as int] == p@);
            assert(m[p@] == id@);
            assert(keys.take(i + 1).drop_last() =~= keys.take(i as int));
            assert(keys.take(i + 1).last() == p@);
        }
        if !ignored.contains(p) {
            known = known + 1;
            if !present.contains(p) && !on_disk.contains(id) {
                out.push((p.as_str().to_owned(), id.as_str().to_owned()));
                assert(pairs(out@) =~= had.push((p@, id@)));
            }
        }
        i = i + 1;
    }
    assert(keys.take(i as int) =~= keys);
    (out, known)
}

/// The deletions that were made while the daemon was stopped: path and object,
/// out of the same facts as [`gone_offline`].
///
/// A disappearance larger than [`removal_ceiling`] of the journal is refused
/// whole.
pub fn detect_offline_removals(
    journal: &Table<String, String>,
    ignored: &Table<String, ()>,
    present: &Table<String, ()>,
    on_disk: &Table<String, ()>,
) -> (out: Vec<(String, String)>)
    ensures
        pairs(out@) == withdrawn(
            text_map(journal@),
            ignored@.dom(),
            present@.dom(),
            on_disk@.dom(),
        ),
{
    let (out, known) = gone_offline(journal, ignored, present, on_disk);
    assert(text_map(journal@).dom() =~= journal@.dom());
    if out.len() > removal_ceiling(known) {
        let none: Vec<(String, String)> = Vec::new();
        assert(pairs(none@) =~= Seq::empty());
        return none;
    }
    out
}

/// What a walk of the sync root found out about one thing in it.
#[derive(Debug, PartialEq, Eq)]
pub struct Present {
    /// The whole path.
    pub path: String,
    /// A regular file.
    pub regular: bool,
    /// One of the framework's own files.
    pub internal: bool,
    /// The attribute that holds the cloud id, where it could be read.
    pub cloud_id: Option<Vec<u8>>,
}

/// A finding over texts.
#[verifier::ext_equal]
pub struct PresentModel {
    pub path: Seq<char>,
    pub regular: bool,
    pub internal: bool,
    pub cloud_id: Option<Seq<char>>,
}

impl View for Present {
    type V = PresentModel;

    open spec fn view(&self) -> PresentModel {
        PresentModel {
            path: self.path@,
            regular: self.regular,
            internal: self.internal,
            cloud_id: store::string_of(store::maybe_bytes(self.cloud_id)),
        }
    }
}

/// Findings over texts.
pub open spec fn present_models(v: Seq<Present>) -> Seq<PresentModel> {
    v.map_values(|p: Present| p@)
}

/// The paths of the user's files that a walk found.
pub open spec fn paths_found(root: Seq<char>, walk: Seq<PresentModel>) -> Set<Seq<char>> {
    Set::new(
        |rel: Seq<char>|
            exists|i: int|
                0 <= i < walk.len() && (#[trigger] walk[i]).regular && !walk[i].internal
                    && paths::relative_to(root, walk[i].path) == Some(rel),
    )
}

/// The objects that a walk found files of.
pub open spec fn objects_found(walk: Seq<PresentModel>) -> Set<Seq<char>> {
    Set::new(
        |id: Seq<char>|
            exists|i: int|
                0 <= i < walk.len() && (#[trigger] walk[i]).regular && !walk[i].internal
                    && walk[i].cloud_id == Some(id),
    )
}

/// Which paths hold a file, and which objects are at any of them.
pub fn scan_present(root: &str, walk: Vec<Present>) -> (r: (Table<String, ()>, Table<String, ()>))
    ensures
        r.0@.dom() == paths_found(root@, present_models(walk@)),
        r.1@.dom() == objects_found(present_models(walk@)),
{
    let ghost all = present_models(walk@);
    let mut there: Table<String, ()> = Table::new();
    let mut on_disk: Table<String, ()> = Table::new();
    assert(there@.dom() =~= paths_found(root@, all.take(0)));
    assert(on_disk@.dom() =~= objects_found(all.take(0)));
    for w in it: walk
        invariant
            it.seq() == walk@,
            all == present_models(walk@),
            there@.dom() == paths_found(root@, all.take(it.index() as int)),
            on_disk@.dom() == objects_found(all.take(it.index() as int)),
    {
        let ghost n = it.index() as int;
        let ghost were = there@.dom();
        let ghost had = on_disk@.dom();
        let ghost m = w@;
        proof {
            assert(all[n] == m);
        }
        if w.regular && !w.internal {
            if let Some(rel) = lineage::relative(root, w.path.as_str()) {
                there.insert(rel, ());
            }
            if let Some(id) = store::get_xattr_string(w.cloud_id) {
                on_disk.insert(id, ());
            }
        }
        proof {
            let some = all.take(n);
            let more = all.take(n + 1);
            assert(more[n] == m);
            assert forall|rel: Seq<char>| #[trigger]
                there@.dom().contains(rel) <==> paths_found(root@, more).contains(rel) by {
                if paths_found(root@, some).contains(rel) {
                    let i = choose|i: int|
                        0 <= i < some.len() && (#[trigger] some[i]).regular && !some[i].internal
                            && paths::relative_to(root@, some[i].path) == Some(rel);
                    assert(more[i] == some[i]);
                }
                if paths_found(root@, more).contains(rel) {
                    let i = choose|i: int|
                        0 <= i < more.len() && (#[trigger] more[i]).regular && !more[i].internal
                            && paths::relative_to(root@, more[i].path) == Some(rel);
                    if i < n {
                        assert(some[i] == more[i]);
                    }
                }
            }
            assert(there@.dom() =~= paths_found(root@, more));
            assert forall|id: Seq<char>| #[trigger]
                on_disk@.dom().contains(id) <==> objects_found(more).contains(id) by {
                if objects_found(some).contains(id) {
                    let i = choose|i: int|
                        0 <= i < some.len() && (#[trigger] some[i]).regular && !some[i].internal
                            && some[i].cloud_id == Some(id);
                    assert(more[i] == some[i]);
                }
                if objects_found(more).contains(id) {
                    let i = choose|i: int|
                        0 <= i < more.len() && (#[trigger] more[i]).regular && !more[i].internal
                            && more[i].cloud_id == Some(id);
                    if i < n {
                        assert(some[i] == more[i]);
                    }
                }
            }
            assert(on_disk@.dom() =~= objects_found(more));
        }
    }
    assert(all.take(all.len() as int) =~= all);
    (there, on_disk)
}

/// Whether the value of the attribute says which object something is.
pub open spec fn identified(value: Option<Seq<u8>>) -> bool {
    value matches Some(v) && v.len() > 0
}

/// Whether the attribute, where it could be read, says which object something
/// is.
pub fn has_cloud_identity(value: &Option<Vec<u8>>) -> (b: bool)
    ensures
        b == identified(store::maybe_bytes(*value)),
{
    match value {
        Some(v) => v.len() > 0,
        None => false,
    }
}

/// A directory below the sync root that a walk came upon: neither the
/// framework's own nor one that is never synced.
#[derive(Debug, PartialEq, Eq)]
pub struct Folder {
    /// The whole path.
    pub path: String,
    /// The attribute that holds the cloud id, where it could be read.
    pub cloud_id: Option<Vec<u8>>,
}

/// A directory over texts.
#[verifier::ext_equal]
pub struct FolderModel {
    pub path: Seq<char>,
    pub cloud_id: Option<Seq<u8>>,
}

impl View for Folder {
    type V = FolderModel;

    open spec fn view(&self) -> FolderModel {
        FolderModel { path: self.path@, cloud_id: store::maybe_bytes(self.cloud_id) }
    }
}

/// Directories over texts.
pub open spec fn folder_models(v: Seq<Folder>) -> Seq<FolderModel> {
    v.map_values(|f: Folder| f@)
}

/// The directories that are not yet attached to a cloud object.
pub open spec fn unattached(root: Seq<char>, walk: Seq<FolderModel>) -> Set<Seq<char>> {
    Set::new(
        |rel: Seq<char>|
            exists|i: int|
                0 <= i < walk.len() && !identified((#[trigger] walk[i]).cloud_id)
                    && paths::relative_to(root, walk[i].path) == Some(rel),
    )
}

/// Find directories that are not yet attached to a cloud object.
pub fn unidentified_folders(root: &str, walk: &Vec<Folder>) -> (out: Table<String, ()>)
    ensures
        out@.dom() == unattached(root@, folder_models(walk@)),
{
    let ghost all = folder_models(walk@);
    let mut out: Table<String, ()> = Table::new();
    let mut i: usize = 0;
    assert(out@.dom() =~= unattached(root@, all.take(0)));
    while i < walk.len()
        invariant
            i <= walk@.len(),
            all == folder_models(walk@),
            out@.dom() == unattached(root@, all.take(i as int)),
        decreases walk@.len() - i,
    {
        let f = &walk[i];
        let ghost had = out@.dom();
        assert(all[i as int] == f@);
        if !has_cloud_identity(&f.cloud_id) {
            if let Some(rel) = lineage::relative(root, f.path.as_str()) {
                out.insert(rel, ());
            }
        }
        proof {
            let some = all.take(i as int);
            let more = all.take(i + 1);
            assert(more[i as int] == f@);
            assert forall|rel: Seq<char>| #[trigger]
                out@.dom().contains(rel) <==> unattached(root@, more).contains(rel) by {
                if unattached(root@, some).contains(rel) {
                    let k = choose|k: int|
                        0 <= k < some.len() && !identified((#[trigger] some[k]).cloud_id)
                            && paths::relative_to(root@, some[k].path) == Some(rel);
                    assert(more[k] == some[k]);
                }
                if unattached(root@, more).contains(rel) {
                    let k = choose|k: int|
                        0 <= k < more.len() && !identified((#[trigger] more[k]).cloud_id)
                            && paths::relative_to(root@, more[k].path) == Some(rel);
                    if k < i {
                        assert(some[k] == more[k]);
                    }
                }
            }
            assert(out@.dom() =~= unattached(root@, more));
        }
        i = i + 1;
    }
    assert(all.take(i as int) =~= all);
    out
}

proof fn lemma_gone(
    keys: Seq<Seq<char>>,
    journal: Map<Seq<char>, Seq<char>>,
    ignored: Set<Seq<char>>,
    present: Set<Seq<char>>,
    on_disk: Set<Seq<char>>,
)
    ensures
        gone_of(keys, journal, ignored, present, on_disk).len() <= synced(keys, ignored),
        forall|i: int|
            0 <= i < gone_of(keys, journal, ignored, present, on_disk).len() ==> {
                let g = #[trigger] gone_of(keys, journal, ignored, present, on_disk)[i];
                &&& keys.contains(g.0)
                &&& g.1 == journal[g.0]
                &&& is_gone(g.0, g.1, ignored, present, on_disk)
            },
        (forall|p: Seq<char>|
            keys.contains(p) && !ignored.contains(p) ==> is_gone(
                p,
                journal[p],
                ignored,
                present,
                on_disk,
            )) ==> gone_of(keys, journal, ignored, present, on_disk).len() == synced(keys, ignored),
    decreases keys.len(),
{
    if keys.len() > 0 {
        let less = keys.drop_last();
        lemma_gone(less, journal, ignored, present, on_disk);
        let all = gone_of(keys, journal, ignored, present, on_disk);
        let before = gone_of(less, journal, ignored, present, on_disk);
        assert forall|p: Seq<char>| less.contains(p) implies keys.contains(p) by {
            let k = choose|k: int| 0 <= k < less.len() && less[k] == p;
            assert(keys[k] == p);
        }
        assert(keys.contains(keys.last())) by {
            assert(keys[keys.len() - 1] == keys.last());
        }
        assert forall|i: int| 0 <= i < all.len() implies {
            let g = #[trigger] all[i];
            &&& keys.contains(g.0)
            &&& g.1 == journal[g.0]
            &&& is_gone(g.0, g.1, ignored, present, on_disk)
        } by {
            if i < before.len() {
                assert(all[i] == before[i]);
            }
        }
    }
}

/// What is withdrawn was written down, is not ignored, is at no path now, and
/// its object is at no other path.
pub proof fn law_only_what_is_gone_is_withdrawn(
    journal: Map<Seq<char>, Seq<char>>,
    ignored: Set<Seq<char>>,
    present: Set<Seq<char>>,
    on_disk: Set<Seq<char>>,
    i: int,
)
    requires
        journal.dom().finite(),
        0 <= i < withdrawn(journal, ignored, present, on_disk).len(),
    ensures
        ({
            let g = withdrawn(journal, ignored, present, on_disk)[i];
            &&& journal.dom().contains(g.0)
            &&& journal[g.0] == g.1
            &&& !ignored.contains(g.0)
            &&& !present.contains(g.0)
            &&& !on_disk.contains(g.1)
        }),
{
    let keys = table::in_key_order::<String>(journal.dom());
    table::lemma_in_key_order::<String>(journal.dom());
    lemma_gone(keys, journal, ignored, present, on_disk);
}

/// A root that carries no record yields nothing to withdraw, whatever is on
/// disk.
pub proof fn law_no_record_withdraws_nothing(
    ignored: Set<Seq<char>>,
    present: Set<Seq<char>>,
    on_disk: Set<Seq<char>>,
)
    ensures
        withdrawn(journal_of(None, None), ignored, present, on_disk) == Seq::<
            (Seq<char>, Seq<char>),
        >::empty(),
{
    let journal = journal_of(None, None);
    assert(journal.dom() =~= Set::empty());
    table::lemma_in_key_order::<String>(journal.dom());
    let keys = table::in_key_order::<String>(journal.dom());
    assert(keys =~= Seq::empty()) by {
        if keys.len() > 0 {
            assert(keys.contains(keys[0]));
        }
    }
}

/// Where everything that was written down is gone, and it was more than the
/// floor, nothing is withdrawn.
pub proof fn law_a_vanished_root_withdraws_nothing(
    journal: Map<Seq<char>, Seq<char>>,
    ignored: Set<Seq<char>>,
    present: Set<Seq<char>>,
    on_disk: Set<Seq<char>>,
)
    requires
        journal.dom().finite(),
        forall|p: Seq<char>| #[trigger]
            journal.dom().contains(p) ==> !present.contains(p) && !on_disk.contains(journal[p]),
        synced(table::in_key_order::<String>(journal.dom()), ignored) > REMOVAL_FLOOR,
    ensures
        withdrawn(journal, ignored, present, on_disk) == Seq::<(Seq<char>, Seq<char>)>::empty(),
{
    let keys = table::in_key_order::<String>(journal.dom());
    table::lemma_in_key_order::<String>(journal.dom());
    lemma_gone(keys, journal, ignored, present, on_disk);
    assert forall|p: Seq<char>| keys.contains(p) && !ignored.contains(p) implies is_gone(
        p,
        journal[p],
        ignored,
        present,
        on_disk,
    ) by {
        assert(journal.dom().contains(p));
    }
}

/// No batch withdraws more than the ceiling of what was written down.
pub proof fn law_a_batch_is_bounded(
    journal: Map<Seq<char>, Seq<char>>,
    ignored: Set<Seq<char>>,
    present: Set<Seq<char>>,
    on_disk: Set<Seq<char>>,
)
    ensures
        withdrawn(journal, ignored, present, on_disk).len() <= ceiling(
            synced(table::in_key_order::<String>(journal.dom()), ignored),
        ),
{
}

/// The keys that satisfy a condition, counted one by one, are as many as the set of
/// them has.
proof fn lemma_counted(
    keys: Seq<Seq<char>>,
    journal: Map<Seq<char>, Seq<char>>,
    ignored: Set<Seq<char>>,
    present: Set<Seq<char>>,
    on_disk: Set<Seq<char>>,
)
    requires
        keys.no_duplicates(),
    ensures
        gone_of(keys, journal, ignored, present, on_disk).len() == keys.to_set().filter(
            |p: Seq<char>| is_gone(p, journal[p], ignored, present, on_disk),
        ).len(),
        synced(keys, ignored) == keys.to_set().filter(|p: Seq<char>| !ignored.contains(p)).len(),
        forall|p: Seq<char>|
            keys.contains(p) && is_gone(p, journal[p], ignored, present, on_disk)
                ==> #[trigger] gone_of(keys, journal, ignored, present, on_disk).contains(
                (p, journal[p]),
            ),
    decreases keys.len(),
{
    let gone = |p: Seq<char>| is_gone(p, journal[p], ignored, present, on_disk);
    let synced_one = |p: Seq<char>| !ignored.contains(p);
    if keys.len() == 0 {
        assert(keys.to_set().filter(gone) =~= Set::empty());
        assert(keys.to_set().filter(synced_one) =~= Set::empty());
    } else {
        let less = keys.drop_last();
        let x = keys.last();
        lemma_counted(less, journal, ignored, present, on_disk);
        assert(!less.contains(x)) by {
            if less.contains(x) {
                let i = choose|i: int| 0 <= i < less.len() && less[i] == x;
                assert(keys[i] == keys[keys.len() - 1]);
            }
        }
        assert(keys.to_set() =~= less.to_set().insert(x)) by {
            assert forall|p: Seq<char>| keys.to_set().contains(p) <==> less.to_set().insert(
                x,
            ).contains(p) by {
                if keys.contains(p) {
                    let i = choose|i: int| 0 <= i < keys.len() && keys[i] == p;
                    if i < less.len() {
                        assert(less[i] == p);
                    }
                }
                if less.contains(p) {
                    let i = choose|i: int| 0 <= i < less.len() && less[i] == p;
                    assert(keys[i] == p);
                }
                assert(keys[keys.len() - 1] == x);
            }
        }
        vstd::seq_lib::seq_to_set_is_finite(less);
        less.to_set().lemma_len_filter(gone);
        less.to_set().lemma_len_filter(synced_one);
        if gone(x) {
            assert(keys.to_set().filter(gone) =~= less.to_set().filter(gone).insert(x));
        } else {
            assert(keys.to_set().filter(gone) =~= less.to_set().filter(gone));
        }
        if synced_one(x) {
            assert(keys.to_set().filter(synced_one) =~= less.to_set().filter(synced_one).insert(x));
        } else {
            assert(keys.to_set().filter(synced_one) =~= less.to_set().filter(synced_one));
        }
        let all = gone_of(keys, journal, ignored, present, on_disk);
        let before = gone_of(less, journal, ignored, present, on_disk);
        assert forall|p: Seq<char>|
            keys.contains(p) && is_gone(
                p,
                journal[p],
                ignored,
                present,
                on_disk,
            ) implies #[trigger] all.contains((p, journal[p])) by {
            let i = choose|i: int| 0 <= i < keys.len() && keys[i] == p;
            if i < less.len() {
                assert(less[i] == p);
                assert(less.contains(p));
                assert(before.contains((p, journal[p])));
                let k = choose|k: int| 0 <= k < before.len() && before[k] == (p, journal[p]);
                assert(all[k] == (p, journal[p]));
            } else {
                assert(all[before.len() as int] == (p, journal[p]));
            }
        }
    }
}

/// The journaled paths that went missing: not ignored, not there, and their object
/// on no other file.
pub open spec fn missing(
    journal: Map<Seq<char>, Seq<char>>,
    ignored: Set<Seq<char>>,
    present: Set<Seq<char>>,
    on_disk: Set<Seq<char>>,
) -> Set<Seq<char>> {
    journal.dom().filter(
        |p: Seq<char>| !ignored.contains(p) && !present.contains(p) && !on_disk.contains(
            journal[p],
        ),
    )
}

/// Every path that went missing is withdrawn, with the object that was journaled
/// for it, as long as no more than sixty-four are missing or no more than a tenth
/// of all that take part. Past both, nothing is.
pub proof fn law_every_missing_path_is_withdrawn(
    journal: Map<Seq<char>, Seq<char>>,
    ignored: Set<Seq<char>>,
    present: Set<Seq<char>>,
    on_disk: Set<Seq<char>>,
    p: Seq<char>,
)
    requires
        journal.dom().finite(),
    ensures
        ({
            let gone = missing(journal, ignored, present, on_disk);
            let known = journal.dom().filter(|q: Seq<char>| !ignored.contains(q));
            let out = withdrawn(journal, ignored, present, on_disk);
            &&& gone.len() <= 64 || 10 * gone.len() <= known.len() ==> out.len() == gone.len() && (
            gone.contains(p) ==> out.contains((p, journal[p])))
            &&& gone.len() > 64 && 10 * gone.len() > known.len() ==> out.len() == 0
        }),
{
    let keys = table::in_key_order::<String>(journal.dom());
    table::lemma_in_key_order::<String>(journal.dom());
    table::law_each_key_comes_once::<String>(journal.dom());
    lemma_counted(keys, journal, ignored, present, on_disk);
    let gone = missing(journal, ignored, present, on_disk);
    assert(gone =~= keys.to_set().filter(
        |p: Seq<char>| is_gone(p, journal[p], ignored, present, on_disk),
    ));
    let known = journal.dom().filter(|q: Seq<char>| !ignored.contains(q));
    assert(known =~= keys.to_set().filter(|p: Seq<char>| !ignored.contains(p)));
    if gone.contains(p) {
        assert(keys.contains(p));
        assert(is_gone(p, journal[p], ignored, present, on_disk));
    }
}

/// One batch may withdraw sixty-four, or a tenth of what is known where that is
/// more.
pub proof fn law_the_ceiling_is_a_tenth_and_never_low(known: nat)
    ensures
        ceiling(known) >= 64,
        ceiling(known) == 64 || 10 * ceiling(known) <= known,
        known < 10 * (ceiling(known) + 1),
{
}

/// What was written down of a path: the record of identities has the last word, and
/// the manifest speaks of the paths that the record does not have.
pub proof fn law_the_journal_holds_both_records(
    listed: Map<Seq<char>, RecordModel>,
    recorded: Map<Seq<char>, RecordModel>,
    p: Seq<char>,
)
    ensures
        journaled(listed, recorded).dom().contains(p) <==> listed.dom().contains(p)
            || recorded.dom().contains(p),
        recorded.dom().contains(p) ==> journaled(listed, recorded)[p] == recorded[p].cloud_id,
        listed.dom().contains(p) && !recorded.dom().contains(p) ==> journaled(listed, recorded)[p]
            == listed[p].cloud_id,
{
}

/// Every regular file of a walk that is not the library's own counts as there, by
/// its path below the root and by the object that it says it is.
pub proof fn law_every_file_walked_counts_as_there(
    root: Seq<char>,
    walk: Seq<PresentModel>,
    i: int,
)
    requires
        0 <= i < walk.len(),
        walk[i].regular,
        !walk[i].internal,
    ensures
        paths::relative_to(root, walk[i].path) matches Some(rel) ==> paths_found(
            root,
            walk,
        ).contains(rel),
        walk[i].cloud_id matches Some(id) ==> objects_found(walk).contains(id),
{
}

/// What a longer walk finds is what its parts find, and a walk of one file finds
/// that file or nothing.
pub proof fn law_a_walk_finds_what_its_parts_find(
    root: Seq<char>,
    first: Seq<PresentModel>,
    second: Seq<PresentModel>,
    x: PresentModel,
)
    ensures
        paths_found(root, first + second) == paths_found(root, first).union(
            paths_found(root, second),
        ),
        objects_found(first + second) == objects_found(first).union(objects_found(second)),
        !x.regular || x.internal ==> paths_found(root, seq![x]).is_empty() && objects_found(
            seq![x],
        ).is_empty(),
        x.cloud_id is None ==> objects_found(seq![x]).is_empty(),
{
    let both = first + second;
    assert forall|rel: Seq<char>| #[trigger]
        paths_found(root, both).contains(rel) <==> paths_found(root, first).union(
            paths_found(root, second),
        ).contains(rel) by {
        if paths_found(root, both).contains(rel) {
            let i = choose|i: int|
                0 <= i < both.len() && (#[trigger] both[i]).regular && !both[i].internal
                    && paths::relative_to(root, both[i].path) == Some(rel);
            if i < first.len() {
                assert(first[i] == both[i]);
            } else {
                assert(second[i - first.len()] == both[i]);
            }
        }
        if paths_found(root, first).contains(rel) {
            let i = choose|i: int|
                0 <= i < first.len() && (#[trigger] first[i]).regular && !first[i].internal
                    && paths::relative_to(root, first[i].path) == Some(rel);
            assert(both[i] == first[i]);
        }
        if paths_found(root, second).contains(rel) {
            let i = choose|i: int|
                0 <= i < second.len() && (#[trigger] second[i]).regular && !second[i].internal
                    && paths::relative_to(root, second[i].path) == Some(rel);
            assert(both[first.len() + i] == second[i]);
        }
    }
    assert(paths_found(root, both) =~= paths_found(root, first).union(paths_found(root, second)));
    assert forall|id: Seq<char>| #[trigger]
        objects_found(both).contains(id) <==> objects_found(first).union(
            objects_found(second),
        ).contains(id) by {
        if objects_found(both).contains(id) {
            let i = choose|i: int|
                0 <= i < both.len() && (#[trigger] both[i]).regular && !both[i].internal
                    && both[i].cloud_id == Some(id);
            if i < first.len() {
                assert(first[i] == both[i]);
            } else {
                assert(second[i - first.len()] == both[i]);
            }
        }
        if objects_found(first).contains(id) {
            let i = choose|i: int|
                0 <= i < first.len() && (#[trigger] first[i]).regular && !first[i].internal
                    && first[i].cloud_id == Some(id);
            assert(both[i] == first[i]);
        }
        if objects_found(second).contains(id) {
            let i = choose|i: int|
                0 <= i < second.len() && (#[trigger] second[i]).regular && !second[i].internal
                    && second[i].cloud_id == Some(id);
            assert(both[first.len() + i] == second[i]);
        }
    }
    assert(objects_found(both) =~= objects_found(first).union(objects_found(second)));
    assert(seq![x][0] == x);
}

/// A folder is without an identity when it carries none or an empty one, and every
/// such folder of a walk is found by its path below the root.
pub proof fn law_every_folder_without_an_identity_is_found(
    root: Seq<char>,
    walk: Seq<FolderModel>,
    rel: Seq<char>,
)
    ensures
        unattached(root, walk).contains(rel) <==> exists|i: int|
            0 <= i < walk.len() && ((#[trigger] walk[i]).cloud_id is None
                || walk[i].cloud_id->0.len() == 0) && paths::relative_to(root, walk[i].path)
                == Some(rel),
{
    if unattached(root, walk).contains(rel) {
        let i = choose|i: int|
            0 <= i < walk.len() && !identified((#[trigger] walk[i]).cloud_id)
                && paths::relative_to(root, walk[i].path) == Some(rel);
        assert(walk[i].cloud_id is None || walk[i].cloud_id->0.len() == 0);
    }
    if exists|i: int|
        0 <= i < walk.len() && ((#[trigger] walk[i]).cloud_id is None || walk[i].cloud_id->0.len()
            == 0) && paths::relative_to(root, walk[i].path) == Some(rel) {
        let i = choose|i: int|
            0 <= i < walk.len() && ((#[trigger] walk[i]).cloud_id is None
                || walk[i].cloud_id->0.len() == 0) && paths::relative_to(root, walk[i].path)
                == Some(rel);
        assert(!identified(walk[i].cloud_id));
    }
}

} // verus!
