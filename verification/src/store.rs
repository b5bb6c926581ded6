//! Which cloud object a local file is, and what it is supposed to contain.
//!
//! The state lives in extended attributes on the files themselves, because the
//! inode is the identity: a file created locally has an inode from the start and
//! keeps it, and learning its cloud id is writing one attribute onto a file that
//! has not moved.
//!
//! An index maps an identity back to a path, because that is what an event gives
//! and attributes are addressed by path. It is rebuilt by walking, so losing it
//! costs a scan and never costs correctness.

use crate::lineage;
use crate::lineage::{Lineage, LineageModel, Record, RecordModel};
use crate::number;
use crate::paths;
use crate::table;
use crate::table::{FileId, Table};
use crate::text;
use vstd::prelude::*;
use vstd::string::*;

verus! {

/// What is known about one file.
#[derive(Debug, PartialEq, Eq)]
pub struct Entry {
    pub path: String,
    /// `None` until the first upload completes.
    pub cloud_id: Option<String>,
    pub etag: Option<String>,
    pub size: u64,
}

/// An entry as plain values.
#[verifier::ext_equal]
pub struct EntryModel {
    pub path: Seq<char>,
    pub cloud_id: Option<Seq<char>>,
    pub etag: Option<Seq<char>>,
    pub size: u64,
}

impl View for Entry {
    type V = EntryModel;

    open spec fn view(&self) -> EntryModel {
        EntryModel {
            path: self.path@,
            cloud_id: text::maybe(self.cloud_id),
            etag: text::maybe(self.etag),
            size: self.size,
        }
    }
}

/// What a walk of the sync directory found out about one thing in it, from its
/// metadata and attributes alone.
#[derive(Debug, PartialEq, Eq)]
pub struct Visited {
    /// The whole path.
    pub path: String,
    pub id: FileId,
    /// A regular file.
    pub regular: bool,
    /// One of the framework's own files.
    pub internal: bool,
    /// Whether the file is marked as having no local content.
    pub placeholder: bool,
    pub cloud_id: Option<String>,
    pub etag: Option<String>,
}

/// A visit as plain values.
#[verifier::ext_equal]
pub struct VisitedModel {
    pub path: Seq<char>,
    pub id: FileId,
    pub regular: bool,
    pub internal: bool,
    pub placeholder: bool,
    pub cloud_id: Option<Seq<char>>,
    pub etag: Option<Seq<char>>,
}

impl View for Visited {
    type V = VisitedModel;

    open spec fn view(&self) -> VisitedModel {
        VisitedModel {
            path: self.path@,
            id: self.id,
            regular: self.regular,
            internal: self.internal,
            placeholder: self.placeholder,
            cloud_id: text::maybe(self.cloud_id),
            etag: text::maybe(self.etag),
        }
    }
}

/// Visits as plain values.
pub open spec fn visits(v: Seq<Visited>) -> Seq<VisitedModel> {
    v.map_values(|x: Visited| x@)
}

/// What the file at an indexed path says when it is looked at.
#[derive(Debug, PartialEq, Eq)]
pub struct Facts {
    pub id: FileId,
    pub size: u64,
    pub cloud_id: Option<String>,
    pub etag: Option<String>,
}

/// What a file says, as plain values.
#[verifier::ext_equal]
pub struct FactsModel {
    pub id: FileId,
    pub size: u64,
    pub cloud_id: Option<Seq<char>>,
    pub etag: Option<Seq<char>>,
}

impl View for Facts {
    type V = FactsModel;

    open spec fn view(&self) -> FactsModel {
        FactsModel {
            id: self.id,
            size: self.size,
            cloud_id: text::maybe(self.cloud_id),
            etag: text::maybe(self.etag),
        }
    }
}

/// A file of the user's, which is what the index is of. The framework's own
/// files are never indexed: one that was would be uploaded, brought back down
/// and rewritten without end.
pub open spec fn is_indexed(v: VisitedModel) -> bool {
    v.regular && !v.internal
}

/// The index that a walk builds.
pub open spec fn indexed(walk: Seq<VisitedModel>) -> Map<FileId, Seq<char>>
    decreases walk.len(),
{
    if walk.len() == 0 {
        Map::empty()
    } else if is_indexed(walk.last()) {
        indexed(walk.drop_last()).insert(walk.last().id, walk.last().path)
    } else {
        indexed(walk.drop_last())
    }
}

/// How many files a walk found.
pub open spec fn counted(walk: Seq<VisitedModel>) -> nat
    decreases walk.len(),
{
    if walk.len() == 0 {
        0
    } else if is_indexed(walk.last()) {
        counted(walk.drop_last()) + 1
    } else {
        counted(walk.drop_last())
    }
}

/// Whether a file is one whose identity is worth remembering: it holds content
/// and lies under the root.
pub open spec fn is_kept(root: Seq<char>, v: VisitedModel) -> bool {
    is_indexed(v) && !v.placeholder && paths::relative_to(root, v.path) is Some
}

/// The paths that a walk found holding content.
pub open spec fn live(root: Seq<char>, walk: Seq<VisitedModel>) -> Set<Seq<char>>
    decreases walk.len(),
{
    if walk.len() == 0 {
        Set::empty()
    } else if is_kept(root, walk.last()) {
        live(root, walk.drop_last()).insert(paths::relative_to(root, walk.last().path)->0)
    } else {
        live(root, walk.drop_last())
    }
}

/// What the files holding content say of themselves.
pub open spec fn seen(root: Seq<char>, walk: Seq<VisitedModel>) -> Map<Seq<char>, RecordModel>
    decreases walk.len(),
{
    if walk.len() == 0 {
        Map::empty()
    } else {
        let v = walk.last();
        let before = seen(root, walk.drop_last());
        match v.cloud_id {
            Some(cloud_id) => if is_kept(root, v) {
                before.insert(
                    paths::relative_to(root, v.path)->0,
                    RecordModel { cloud_id, tag: v.etag },
                )
            } else {
                before
            },
            None => before,
        }
    }
}

/// The record of identities after a scan: read anew, and brought up to date
/// where the walk was whole.
pub open spec fn lineage_after(
    root: Seq<char>,
    raw: Option<Seq<char>>,
    walk: Seq<VisitedModel>,
    whole: bool,
) -> LineageModel {
    let loaded = match raw {
        Some(s) => lineage::read_back(text::lines(s)),
        None => Map::empty(),
    };
    let next = lineage::absorbed(loaded, seen(root, walk), live(root, walk));
    if whole {
        LineageModel { records: next, dirty: next != loaded }
    } else {
        LineageModel { records: loaded, dirty: false }
    }
}

/// A store as plain values.
#[verifier::ext_equal]
pub struct StoreModel {
    pub index: Map<FileId, Seq<char>>,
    pub root: Option<Seq<char>>,
    pub lineage: Option<LineageModel>,
    pub writes: bool,
}

impl StoreModel {
    /// The record to write, for a store that maintains one that says something
    /// new.
    pub open spec fn to_write(self) -> Option<Seq<char>> {
        match self.lineage {
            Some(l) => if self.writes && l.dirty {
                Some(lineage::rendered(l.records))
            } else {
                None
            },
            None => None,
        }
    }

    /// What was recorded for a path before it lost its attributes.
    pub open spec fn remembered(self, path: Seq<char>) -> Option<RecordModel> {
        match (self.root, self.lineage) {
            (Some(root), Some(l)) => match paths::relative_to(root, path) {
                Some(rel) => if l.records.dom().contains(rel) {
                    Some(l.records[rel])
                } else {
                    None
                },
                None => None,
            },
            _ => None,
        }
    }

    /// What an identity resolves to, given what the file at its indexed path
    /// says. A path whose inode is another one is not this file. A file that
    /// says which object it is is believed; one that does not is what was
    /// remembered for it, identity and tag together.
    pub open spec fn resolved(self, id: FileId, facts: Option<FactsModel>) -> Option<EntryModel> {
        match facts {
            Some(f) => if !self.index.dom().contains(id) || f.id != id {
                None
            } else {
                let path = self.index[id];
                match (f.cloud_id, self.remembered(path)) {
                    (None, Some(r)) => Some(
                        EntryModel {
                            path,
                            cloud_id: Some(r.cloud_id),
                            etag: r.tag,
                            size: f.size,
                        },
                    ),
                    _ => Some(
                        EntryModel { path, cloud_id: f.cloud_id, etag: f.etag, size: f.size },
                    ),
                }
            },
            None => None,
        }
    }

    /// What the facts say of some identities, by cloud id. Of two files that
    /// claim one object the later one counts.
    pub open spec fn gathered(
        self,
        keys: Seq<FileId>,
        facts: Map<FileId, FactsModel>,
    ) -> Map<Seq<char>, EntryModel>
        decreases keys.len(),
    {
        if keys.len() == 0 {
            Map::empty()
        } else {
            let id = keys.last();
            let before = self.gathered(keys.drop_last(), facts);
            match self.resolved(
                id,
                if facts.dom().contains(id) {
                    Some(facts[id])
                } else {
                    None
                },
            ) {
                Some(e) => match e.cloud_id {
                    Some(cloud_id) => before.insert(cloud_id, e),
                    None => before,
                },
                None => before,
            }
        }
    }
}

/// Paths by identity, as plain values.
pub open spec fn path_map(m: Map<FileId, String>) -> Map<FileId, Seq<char>> {
    m.map_values(|s: String| s@)
}

/// Facts by identity, as plain values.
pub open spec fn fact_map(m: Map<FileId, Facts>) -> Map<FileId, FactsModel> {
    m.map_values(|f: Facts| f@)
}

/// Entries by cloud id, as plain values.
pub open spec fn entry_map(m: Map<Seq<char>, Entry>) -> Map<Seq<char>, EntryModel> {
    m.map_values(|e: Entry| e@)
}

/// The index of the sync directory.
pub struct Store {
    index: Table<FileId, String>,
    /// Where the last scan started.
    root: Option<String>,
    /// What the files said the last time they still had their attributes, for
    /// a store that was asked to keep it.
    lineage: Option<Lineage>,
    /// Whether this store maintains the record or only reads it. Exactly one
    /// store of a daemon writes it.
    writes: bool,
}

impl View for Store {
    type V = StoreModel;

    closed spec fn view(&self) -> StoreModel {
        StoreModel {
            index: path_map(self.index@),
            root: text::maybe(self.root),
            lineage: match self.lineage {
                Some(l) => Some(l@),
                None => None,
            },
            writes: self.writes,
        }
    }
}

impl Store {
    pub fn new() -> (s: Store)
        ensures
            s@ == (StoreModel { index: Map::empty(), root: None, lineage: None, writes: false }),
    {
        let s = Store { index: Table::new(), root: None, lineage: None, writes: false };
        assert(path_map(s.index@) =~= Map::empty());
        s
    }

    /// Maintain, across scans, the record of what each path's attributes said.
    pub fn remembering(self) -> (s: Store)
        ensures
            s@ == (StoreModel {
                lineage: Some(LineageModel { records: Map::empty(), dirty: false }),
                writes: true,
                ..self@
            }),
    {
        let mut s = self;
        s.lineage = Some(Lineage::new());
        s.writes = true;
        s
    }

    /// Read the record, and never write it.
    pub fn consulting(self) -> (s: Store)
        ensures
            s@ == (StoreModel {
                lineage: Some(LineageModel { records: Map::empty(), dirty: false }),
                writes: false,
                ..self@
            }),
    {
        let mut s = self;
        s.lineage = Some(Lineage::new());
        s.writes = false;
        s
    }

    /// What was recorded for a path before it lost its attributes.
    pub fn remembered(&self, path: &str) -> (r: Option<&Record>)
        ensures
            match r {
                Some(record) => self@.remembered(path@) == Some(record@),
                None => self@.remembered(path@) is None,
            },
    {
        match (&self.root, &self.lineage) {
            (Some(root), Some(l)) => match lineage::relative(root.as_str(), path) {
                Some(rel) => l.get(rel.as_str()),
                None => None,
            },
            _ => None,
        }
    }

    /// Rebuild the index from a walk of the sync directory. `raw` is the text of
    /// the record of identities, which is read anew on every scan because
    /// another store may be the one that writes it; `whole` says whether the
    /// walk reached its end. Gives the number of files, or nothing where it did
    /// not.
    ///
    /// What survives of the older records is decided once, against the whole of
    /// what the walk found.
    pub fn scan(
        &mut self,
        root: &str,
        raw: Option<&str>,
        walk: &Vec<Visited>,
        whole: bool,
    ) -> (found: Option<usize>)
        ensures
            final(self)@ == (StoreModel {
                index: indexed(visits(walk@)),
                root: Some(root@),
                lineage: if old(self)@.lineage is Some {
                    Some(
                        lineage_after(
                            root@,
                            match raw {
                                Some(s) => Some(s@),
                                None => None,
                            },
                            visits(walk@),
                            whole,
                        ),
                    )
                } else {
                    None
                },
                writes: old(self)@.writes,
            }),
            found == if whole {
                Some(counted(visits(walk@)) as usize)
            } else {
                None
            },
            counted(visits(walk@)) <= usize::MAX,
    {
        let ghost all = visits(walk@);
        let mut index: Table<FileId, String> = Table::new();
        let mut fresh: Table<String, Record> = Table::new();
        let mut there: Table<String, ()> = Table::new();
        let mut found: usize = 0;
        let mut i: usize = 0;
        let total = walk.len();
        assert(all.take(0) =~= Seq::empty());
        assert(path_map(index@) =~= Map::empty());
        assert(lineage::records(fresh@) =~= Map::empty());
        assert(there@.dom() =~= Set::empty());
        while i < total
            invariant
                i <= total,
                total == walk@.len(),
                all == visits(walk@),
                path_map(index@) == indexed(all.take(i as int)),
                lineage::records(fresh@) == seen(root@, all.take(i as int)),
                there@.dom() == live(root@, all.take(i as int)),
                found == counted(all.take(i as int)),
                found <= i,
            decreases total - i,
        {
            let v = &walk[i];
            let ghost had = index@;
            let ghost knew = fresh@;
            let ghost were = there@;
            proof {
                assert(all.take(i + 1).drop_last() =~= all.take(i as int));
                assert(all.take(i + 1).last() == v@);
            }
            if v.regular && !v.internal {
                if !v.placeholder {
                    if let Some(rel) = lineage::relative(root, v.path.as_str()) {
                        if let Some(cloud_id) = &v.cloud_id {
                            let record = Record {
                                cloud_id: cloud_id.as_str().to_owned(),
                                tag: text::copy_maybe(&v.etag),
                            };
                            let ghost r = record;
                            fresh.insert(rel.as_str().to_owned(), record);
                            assert(lineage::records(fresh@) =~= lineage::records(knew).insert(
                                rel@,
                                r@,
                            ));
                        }
                        let ghost p = rel@;
                        there.insert(rel, ());
                        assert(there@.dom() =~= were.dom().insert(p));
                    }
                }
                let path = v.path.as_str().to_owned();
                let ghost p = path;
                index.insert(v.id, path);
                assert(path_map(index@) =~= path_map(had).insert(v.id, p@));
                found = found + 1;
            }
            i = i + 1;
        }
        assert(all.take(i as int) =~= all);
        self.root = Some(root.to_owned());
        self.index = index;
        if self.lineage.is_some() {
            let mut l = Lineage::load(raw);
            if whole {
                l.absorb(fresh, &there);
            }
            self.lineage = Some(l);
        }
        if whole {
            Some(found)
        } else {
            None
        }
    }

    /// The record to write after a scan, for the store that maintains it, where
    /// it says something new.
    pub fn lineage_to_write(&self) -> (out: Option<String>)
        ensures
            text::maybe(out) == self@.to_write(),
    {
        if !self.writes {
            return None;
        }
        match &self.lineage {
            Some(l) => l.write(),
            None => None,
        }
    }

    /// Note that the record has reached its file.
    pub fn lineage_written(&mut self)
        ensures
            final(self)@ == (StoreModel {
                lineage: match old(self)@.lineage {
                    Some(l) => Some(LineageModel { records: l.records, dirty: false }),
                    None => None,
                },
                ..old(self)@
            }),
    {
        let mut lineage: Option<Lineage> = None;
        std::mem::swap(&mut lineage, &mut self.lineage);
        if let Some(mut l) = lineage {
            l.written();
            self.lineage = Some(l);
        }
    }

    /// Index by cloud id, given what the files at the indexed paths say. A
    /// remote deletion names an object and not a path: the file may have been
    /// renamed locally since.
    pub fn by_cloud_id(&self, facts: &Table<FileId, Facts>) -> (out: Table<String, Entry>)
        ensures
            entry_map(out@) == self@.gathered(
                table::in_key_order::<FileId>(self@.index.dom()),
                fact_map(facts@),
            ),
    {
        let n = self.index.len();
        let mut out: Table<String, Entry> = Table::new();
        let ghost keys = table::in_key_order::<FileId>(self@.index.dom());
        let ghost known = fact_map(facts@);
        let mut i: usize = 0;
        assert(self@.index.dom() =~= self.index@.dom());
        assert(keys.take(0) =~= Seq::empty());
        assert(entry_map(out@) =~= Map::empty());
        while i < n
            invariant
                i <= n,
                n == self.index.rows().len(),
                keys == table::keys_of(self.index.rows()),
                known == fact_map(facts@),
                entry_map(out@) == self@.gathered(keys.take(i as int), known),
            decreases n - i,
        {
            let id = self.index.key_at(i);
            let ghost had = out@;
            proof {
                assert(keys[i as int] == *id);
                assert(keys.take(i + 1).drop_last() =~= keys.take(i as int));
                assert(keys.take(i + 1).last() == *id);
            }
            if let Some(e) = self.lookup(id, facts.get(id)) {
                if let Some(cloud_id) = text::copy_maybe(&e.cloud_id) {
                    let ghost c = cloud_id@;
                    let ghost m = e;
                    out.insert(cloud_id, e);
                    assert(entry_map(out@) =~= entry_map(had).insert(c, m@));
                }
            }
            i = i + 1;
        }
        assert(keys.take(i as int) =~= keys);
        out
    }

    /// Put a file into the index.
    pub fn remember(&mut self, id: FileId, path: &str)
        ensures
            final(self)@ == (StoreModel {
                index: old(self)@.index.insert(id, path@),
                ..old(self)@
            }),
    {
        let ghost was = self@;
        self.index.insert(id, path.to_owned());
        assert(self@.index =~= was.index.insert(id, path@));
    }

    /// Take a file out of the index.
    pub fn forget(&mut self, id: &FileId)
        ensures
            final(self)@ == (StoreModel { index: old(self)@.index.remove(*id), ..old(self)@ }),
    {
        let ghost was = self@;
        self.index.remove(id);
        assert(self@.index =~= was.index.remove(*id));
    }

    /// Every file in the index, in the order of their identities.
    pub fn paths(&self) -> (out: Vec<String>)
        ensures
            text::texts(out@) == table::in_key_order::<FileId>(self@.index.dom()).map_values(
                |id: FileId| self@.index[id],
            ),
    {
        let n = self.index.len();
        let mut out: Vec<String> = Vec::new();
        let ghost keys = table::in_key_order::<FileId>(self@.index.dom());
        let ghost want = keys.map_values(|id: FileId| self@.index[id]);
        let mut i: usize = 0;
        assert(self@.index.dom() =~= self.index@.dom());
        assert(text::texts(out@) =~= want.take(0));
        while i < n
            invariant
                i <= n,
                n == self.index.rows().len(),
                keys == table::keys_of(self.index.rows()),
                want == keys.map_values(|id: FileId| self@.index[id]),
                text::texts(out@) == want.take(i as int),
            decreases n - i,
        {
            let id = self.index.key_at(i);
            let p = self.index.value_at(i);
            let ghost had = text::texts(out@);
            assert(keys[i as int] == *id);
            out.push(p.as_str().to_owned());
            assert(want[i as int] == p@);
            assert(text::texts(out@) =~= had.push(p@));
            assert(want.take(i + 1) =~= want.take(i as int).push(p@));
            i = i + 1;
        }
        assert(want.take(i as int) =~= want);
        out
    }

    /// The path that the index has for an identity.
    pub fn path_of(&self, id: &FileId) -> (r: Option<&String>)
        ensures
            match r {
                Some(p) => self@.index.dom().contains(*id) && self@.index[*id] == p@,
                None => !self@.index.dom().contains(*id),
            },
    {
        self.index.get(id)
    }

    /// The root that the last scan walked, if there has been one.
    pub fn root(&self) -> (r: &Option<String>)
        ensures
            text::maybe(*r) == self@.root,
    {
        &self.root
    }

    pub fn len(&self) -> (n: usize)
        ensures
            n == self@.index.dom().len(),
    {
        assert(self@.index.dom() =~= self.index@.dom());
        self.index.len()
    }

    pub fn is_empty(&self) -> (b: bool)
        ensures
            b == (self@.index == Map::<FileId, Seq<char>>::empty()),
    {
        proof {
            assert(self@.index.dom() =~= self.index@.dom());
            if self@.index.dom() =~= Set::empty() {
                assert(self.index@ =~= Map::empty());
                assert(self@.index =~= Map::empty());
            }
        }
        self.index.is_empty()
    }

    /// Resolve an event's identity to the file it names, given what the file at
    /// the indexed path says; `None` where it could not be looked at. The index
    /// can be stale, so the identity is verified again: returning another file
    /// would mean fetching content for one and delivering it to another.
    pub fn lookup(&self, id: &FileId, facts: Option<&Facts>) -> (r: Option<Entry>)
        ensures
            match r {
                Some(e) => self@.resolved(
                    *id,
                    match facts {
                        Some(f) => Some(f@),
                        None => None,
                    },
                ) == Some(e@),
                None => self@.resolved(
                    *id,
                    match facts {
                        Some(f) => Some(f@),
                        None => None,
                    },
                ) is None,
            },
    {
        let f = match facts {
            Some(f) => f,
            None => {
                return None;
            },
        };
        let path = match self.index.get(id) {
            Some(path) => path,
            None => {
                return None;
            },
        };
        if f.id.fsid != id.fsid || f.id.ino != id.ino {
            return None;
        }
        if f.cloud_id.is_none() {
            if let Some(r) = self.remembered(path.as_str()) {
                return Some(
                    Entry {
                        path: path.as_str().to_owned(),
                        cloud_id: Some(r.cloud_id.as_str().to_owned()),
                        etag: text::copy_maybe(&r.tag),
                        size: f.size,
                    },
                );
            }
        }
        Some(
            Entry {
                path: path.as_str().to_owned(),
                cloud_id: text::copy_maybe(&f.cloud_id),
                etag: text::copy_maybe(&f.etag),
                size: f.size,
            },
        )
    }
}

/// What the value of an attribute says, where it is there and is text.
pub open spec fn string_of(value: Option<Seq<u8>>) -> Option<Seq<char>> {
    match value {
        Some(v) => if vstd::utf8::valid_utf8(v) {
            Some(vstd::utf8::decode_utf8(v))
        } else {
            None
        },
        None => None,
    }
}

/// Bytes that may be missing, as plain values.
pub open spec fn maybe_bytes(value: Option<Vec<u8>>) -> Option<Seq<u8>> {
    match value {
        Some(v) => Some(v@),
        None => None,
    }
}

/// Read the value of an attribute as text.
pub fn get_xattr_string(value: Option<Vec<u8>>) -> (r: Option<String>)
    ensures
        text::maybe(r) == string_of(maybe_bytes(value)),
{
    match value {
        Some(v) => text::from_bytes(v),
        None => None,
    }
}

/// The file mode that a value remembers: its text, read as a number.
pub open spec fn mode_of(value: Option<Seq<u8>>) -> Option<nat> {
    match string_of(value) {
        Some(s) => number::parsed(s, u32::MAX as nat),
        None => None,
    }
}

/// The file mode that the value of an attribute remembers, if it does.
pub fn remembered_mode(value: Option<Vec<u8>>) -> (r: Option<u32>)
    ensures
        match r {
            Some(m) => Some(m as nat),
            None => None,
        } == mode_of(maybe_bytes(value)),
{
    match get_xattr_string(value) {
        Some(s) => match number::parse(s.as_str(), 0xffff_ffff) {
            Some(m) => Some(m as u32),
            None => None,
        },
        None => None,
    }
}

/// The text that remembers a file mode.
pub fn remember_mode(mode: u32) -> (s: String)
    ensures
        s@ == number::digits(mode as nat),
        number::parsed(s@, u32::MAX as nat) == Some(mode as nat),
{
    proof {
        number::law_decimal_round_trips(mode as nat);
        number::lemma_digits(mode as nat);
        assert(number::digits(mode as nat)[0] >= '0');
    }
    number::decimal(mode as u64)
}

/// The error number for a write that permissions forbid.
pub const EACCES: i32 = 13;

/// The bit of a file mode that lets the owner write.
pub const OWNER_WRITE: u32 = 0o200;

/// What to do next to set an attribute on a file whose mode may forbid writing.
/// Attributes are gated on write permission to the inode, so a file that its
/// owner made read-only refuses them.
#[derive(Debug, Clone, Copy, PartialEq, Eq)]
pub enum AttrStep {
    /// Set the attribute.
    Try,
    /// Read the file's mode.
    ReadMode,
    /// Give the file the mode with the owner's write bit added.
    Relax { mode: u32 },
    /// Set the attribute once more.
    Again { mode: u32 },
    /// Give the file the mode it had.
    Restore { mode: u32, written: Result<(), i32> },
    /// Nothing: this is how it went.
    Done(Result<(), i32>),
}

/// How a step went: an error comes with its number.
#[derive(Debug, Clone, Copy, PartialEq, Eq)]
pub enum AttrReply {
    Went(Result<(), i32>),
    Mode(Result<u32, i32>),
}

/// The step after another one. A reply that does not belong to the step leaves
/// it where it is.
pub open spec fn next_step(step: AttrStep, reply: AttrReply) -> AttrStep {
    match (step, reply) {
        (AttrStep::Try, AttrReply::Went(r)) => if r == Err::<(), i32>(EACCES) {
            AttrStep::ReadMode
        } else {
            AttrStep::Done(r)
        },
        (AttrStep::ReadMode, AttrReply::Mode(Ok(mode))) => AttrStep::Relax { mode },
        (AttrStep::ReadMode, AttrReply::Mode(Err(e))) => AttrStep::Done(Err(e)),
        (AttrStep::Relax { mode }, AttrReply::Went(Ok(_))) => AttrStep::Again { mode },
        (AttrStep::Relax { mode }, AttrReply::Went(Err(e))) => AttrStep::Done(Err(e)),
        (AttrStep::Again { mode }, AttrReply::Went(written)) => AttrStep::Restore {
            mode,
            written,
        },
        (AttrStep::Restore { mode, written }, AttrReply::Went(r)) => AttrStep::Done(
            match written {
                Err(e) => Err(e),
                Ok(_) => r,
            },
        ),
        (step, _) => step,
    }
}

impl AttrStep {
    /// The step after this one.
    pub fn next(self, reply: AttrReply) -> (r: AttrStep)
        ensures
            r == next_step(self, reply),
    {
        match (self, reply) {
            (AttrStep::Try, AttrReply::Went(r)) => match r {
                Err(e) => if e == EACCES {
                    AttrStep::ReadMode
                } else {
                    AttrStep::Done(Err(e))
                },
                Ok(done) => AttrStep::Done(Ok(done)),
            },
            (AttrStep::ReadMode, AttrReply::Mode(r)) => match r {
                Ok(mode) => AttrStep::Relax { mode },
                Err(e) => AttrStep::Done(Err(e)),
            },
            (AttrStep::Relax { mode }, AttrReply::Went(r)) => match r {
                Ok(_) => AttrStep::Again { mode },
                Err(e) => AttrStep::Done(Err(e)),
            },
            (AttrStep::Again { mode }, AttrReply::Went(written)) => AttrStep::Restore {
                mode,
                written,
            },
            (AttrStep::Restore { mode, written }, AttrReply::Went(r)) => AttrStep::Done(
                match written {
                    Err(e) => Err(e),
                    Ok(_) => r,
                },
            ),
            (step, _) => step,
        }
    }

    /// The mode to give the file at this step.
    pub fn mode(&self) -> (r: Option<u32>)
        ensures
            r == match *self {
                AttrStep::Relax { mode } => Some(mode | OWNER_WRITE),
                AttrStep::Restore { mode, .. } => Some(mode),
                _ => None,
            },
    {
        match self {
            AttrStep::Relax { mode } => Some(*mode | OWNER_WRITE),
            AttrStep::Restore { mode, .. } => Some(*mode),
            _ => None,
        }
    }
}

/// Once a file has been made writable the mode it had is given back, whichever
/// way the write goes, and the write's failure is the one reported.
pub proof fn law_the_mode_is_restored(mode: u32, written: Result<(), i32>, restored: Result<(), i32>)
    ensures
        next_step(AttrStep::Relax { mode }, AttrReply::Went(Ok(()))) == (AttrStep::Again { mode }),
        next_step(AttrStep::Again { mode }, AttrReply::Went(written)) == (AttrStep::Restore {
            mode,
            written,
        }),
        next_step(AttrStep::Restore { mode, written }, AttrReply::Went(restored))
            == AttrStep::Done(
            if written is Err {
                written
            } else {
                restored
            },
        ),
{
}

/// What an identity resolves to has that identity.
pub proof fn law_an_identity_is_verified_again(
    store: StoreModel,
    id: FileId,
    facts: Option<FactsModel>,
)
    ensures
        store.resolved(id, facts) is Some ==> facts is Some && facts->0.id == id
            && store.index.dom().contains(id) && store.resolved(id, facts)->0.path
            == store.index[id],
{
}

/// A file that says which object it is is believed, whatever was remembered;
/// otherwise identity and tag are taken from one record.
pub proof fn law_identity_and_tag_belong_together(
    store: StoreModel,
    id: FileId,
    facts: FactsModel,
    e: EntryModel,
)
    requires
        store.resolved(id, Some(facts)) == Some(e),
    ensures
        (e.cloud_id == facts.cloud_id && e.etag == facts.etag) || (facts.cloud_id is None
            && store.remembered(e.path) == Some(RecordModel { cloud_id: e.cloud_id->0, tag: e.etag })),
        facts.cloud_id is Some ==> e.cloud_id == facts.cloud_id && e.etag == facts.etag,
{
}

/// The index holds only files that the walk found to be the user's.
pub proof fn law_own_files_are_never_indexed(walk: Seq<VisitedModel>, id: FileId)
    requires
        indexed(walk).dom().contains(id),
    ensures
        exists|i: int|
            0 <= i < walk.len() && is_indexed(#[trigger] walk[i]) && walk[i].id == id
                && walk[i].path == indexed(walk)[id],
    decreases walk.len(),
{
    let v = walk.last();
    if is_indexed(v) && v.id == id {
        assert(walk[walk.len() - 1] == v);
    } else {
        law_own_files_are_never_indexed(walk.drop_last(), id);
        let less = walk.drop_last();
        let i = choose|i: int|
            0 <= i < less.len() && is_indexed(#[trigger] less[i]) && less[i].id == id
                && less[i].path == indexed(less)[id];
        assert(walk[i] == less[i]);
    }
}

proof fn lemma_live(root: Seq<char>, walk: Seq<VisitedModel>, i: int)
    requires
        0 <= i < walk.len(),
        is_kept(root, walk[i]),
    ensures
        live(root, walk).contains(paths::relative_to(root, walk[i].path)->0),
    decreases walk.len(),
{
    if i < walk.len() - 1 {
        lemma_live(root, walk.drop_last(), i);
    }
}

/// A file that a save replaced, so that it no longer says which object it is,
/// is still known by what was recorded for its path, unless a file that does
/// say so has its path or its object.
pub proof fn law_a_replaced_file_keeps_its_object(
    store: StoreModel,
    root: Seq<char>,
    raw: Seq<char>,
    walk: Seq<VisitedModel>,
    i: int,
    facts: FactsModel,
)
    requires
        store.index == indexed(walk),
        store.root == Some(root),
        store.lineage == Some(lineage_after(root, Some(raw), walk, true)),
        0 <= i < walk.len(),
        is_kept(root, walk[i]),
        store.index.dom().contains(walk[i].id),
        store.index[walk[i].id] == walk[i].path,
        facts.id == walk[i].id,
        facts.cloud_id is None,
        ({
            let rel = paths::relative_to(root, walk[i].path)->0;
            let loaded = lineage::read_back(text::lines(raw));
            &&& loaded.dom().contains(rel)
            &&& !seen(root, walk).dom().contains(rel)
            &&& !lineage::claims(seen(root, walk), loaded[rel].cloud_id)
        }),
    ensures
        ({
            let rel = paths::relative_to(root, walk[i].path)->0;
            let r = lineage::read_back(text::lines(raw))[rel];
            store.resolved(walk[i].id, Some(facts)) == Some(
                EntryModel {
                    path: walk[i].path,
                    cloud_id: Some(r.cloud_id),
                    etag: r.tag,
                    size: facts.size,
                },
            )
        }),
{
    lemma_live(root, walk, i);
}

/// The index has each regular file of a walk that is not the library's own, at the
/// path where it was met last, and nothing else. The walk counts them.
pub proof fn law_every_file_walked_is_indexed(
    first: Seq<VisitedModel>,
    second: Seq<VisitedModel>,
    x: VisitedModel,
)
    ensures
        indexed(first + second) == indexed(first).union_prefer_right(indexed(second)),
        counted(first + second) == counted(first) + counted(second),
        x.regular && !x.internal ==> indexed(seq![x]) == map![x.id => x.path] && counted(seq![x])
            == 1,
        !x.regular || x.internal ==> indexed(seq![x]) == Map::<FileId, Seq<char>>::empty()
            && counted(seq![x]) == 0,
    decreases second.len(),
{
    let one = seq![x];
    assert(one.drop_last() =~= Seq::empty());
    assert(indexed(one.drop_last()) =~= Map::empty());
    assert(counted(one.drop_last()) == 0);
    if x.regular && !x.internal {
        assert(indexed(one) =~= map![x.id => x.path]);
    }
    let both = first + second;
    if second.len() == 0 {
        assert(both =~= first);
        assert(indexed(both) =~= indexed(first).union_prefer_right(indexed(second)));
    } else {
        let less = second.drop_last();
        law_every_file_walked_is_indexed(first, less, x);
        assert(both.drop_last() =~= first + less);
        assert(both.last() == second.last());
        assert(indexed(both) =~= indexed(first).union_prefer_right(indexed(second)));
    }
}

/// What a walk has to say of identities: each file that is indexed, has its content
/// here and stands below the root is live, by its path below the root; and where it
/// carries an identity that is recorded, with its version, the last one met at a
/// path standing. Placeholders say nothing.
pub proof fn law_every_file_with_content_is_remembered(
    root: Seq<char>,
    first: Seq<VisitedModel>,
    second: Seq<VisitedModel>,
    x: VisitedModel,
)
    ensures
        live(root, first + second) == live(root, first).union(live(root, second)),
        seen(root, first + second) == seen(root, first).union_prefer_right(seen(root, second)),
        ({
            let kept = x.regular && !x.internal && !x.placeholder && paths::relative_to(
                root,
                x.path,
            ) is Some;
            let rel = paths::relative_to(root, x.path)->0;
            &&& kept ==> live(root, seq![x]) == set![rel]
            &&& !kept ==> live(root, seq![x]).is_empty()
            &&& kept && x.cloud_id is Some ==> seen(root, seq![x]) == map![
                rel => RecordModel { cloud_id: x.cloud_id->0, tag: x.etag }
            ]
            &&& !kept || x.cloud_id is None ==> seen(root, seq![x]) == Map::<
                Seq<char>,
                RecordModel,
            >::empty()
        }),
    decreases second.len(),
{
    let one = seq![x];
    assert(one.drop_last() =~= Seq::empty());
    assert(live(root, one.drop_last()) =~= Set::empty());
    assert(seen(root, one.drop_last()) =~= Map::empty());
    if is_kept(root, x) {
        let rel = paths::relative_to(root, x.path)->0;
        assert(live(root, one) =~= set![rel]);
        if let Some(cloud_id) = x.cloud_id {
            assert(seen(root, one) =~= map![rel => RecordModel { cloud_id, tag: x.etag }]);
        }
    }
    let both = first + second;
    if second.len() == 0 {
        assert(both =~= first);
        assert(live(root, both) =~= live(root, first).union(live(root, second)));
        assert(seen(root, both) =~= seen(root, first).union_prefer_right(seen(root, second)));
    } else {
        let less = second.drop_last();
        law_every_file_with_content_is_remembered(root, first, less, x);
        assert(both.drop_last() =~= first + less);
        assert(both.last() == second.last());
        assert(live(root, both) =~= live(root, first).union(live(root, second)));
        assert(seen(root, both) =~= seen(root, first).union_prefer_right(seen(root, second)));
    }
}

/// A walk that did not reach its end leaves what was recorded as it was read; one
/// that did is taken in. It is to be written only where that changed something.
pub proof fn law_only_a_whole_walk_is_taken_in(
    root: Seq<char>,
    raw: Option<Seq<char>>,
    walk: Seq<VisitedModel>,
)
    ensures
        ({
            let before = match raw {
                Some(s) => lineage::read_back(text::lines(s)),
                None => Map::empty(),
            };
            let part = lineage_after(root, raw, walk, false);
            let whole = lineage_after(root, raw, walk, true);
            &&& part.records == before && !part.dirty
            &&& whole.records == lineage::absorbed(before, seen(root, walk), live(root, walk))
            &&& whole.dirty <==> whole.records != before
        }),
{
}

/// What is remembered of a path is what the record has of it below the root, for a
/// store that has a root and keeps a record.
pub proof fn law_what_is_recorded_is_remembered(
    store: StoreModel,
    root: Seq<char>,
    l: LineageModel,
    path: Seq<char>,
)
    requires
        store.root == Some(root),
        store.lineage == Some(l),
    ensures
        store.remembered(path) is Some <==> (paths::relative_to(root, path) matches Some(rel)
            && l.records.dom().contains(rel)),
        store.remembered(path) is Some ==> store.remembered(path)->0
            == l.records[paths::relative_to(root, path)->0],
{
}

/// A file that the index has is resolved whenever it can be looked at and still is
/// that file: at the path that the index has, with the size that it has now. A file
/// that says which object it is, is that; one that says nothing is what is
/// remembered at its path, and otherwise has no object.
pub proof fn law_every_indexed_file_is_resolved(store: StoreModel, id: FileId, facts: FactsModel)
    ensures
        store.resolved(id, None) is None,
        store.resolved(id, Some(facts)) is Some <==> store.index.dom().contains(id) && facts.id
            == id,
        store.resolved(id, Some(facts)) matches Some(e) ==> {
            &&& e.path == store.index[id]
            &&& e.size == facts.size
            &&& facts.cloud_id is Some ==> e.cloud_id == facts.cloud_id && e.etag == facts.etag
            &&& facts.cloud_id is None ==> match store.remembered(store.index[id]) {
                Some(r) => e.cloud_id == Some(r.cloud_id) && e.etag == r.tag,
                None => e.cloud_id is None && e.etag == facts.etag,
            }
        },
{
}

/// The files by their objects: each file that resolves to an object is found under
/// it, the last in order standing where several are one object, and nothing else is
/// found.
pub proof fn law_every_object_is_found_by_its_identity(
    store: StoreModel,
    first: Seq<FileId>,
    second: Seq<FileId>,
    facts: Map<FileId, FactsModel>,
    id: FileId,
)
    ensures
        store.gathered(first + second, facts) == store.gathered(first, facts).union_prefer_right(
            store.gathered(second, facts),
        ),
        ({
            let e = store.resolved(
                id,
                if facts.dom().contains(id) {
                    Some(facts[id])
                } else {
                    None
                },
            );
            let found = store.gathered(seq![id], facts);
            if e is Some && e->0.cloud_id is Some {
                found == map![e->0.cloud_id->0 => e->0]
            } else {
                found == Map::<Seq<char>, EntryModel>::empty()
            }
        }),
    decreases second.len(),
{
    let one = seq![id];
    assert(one.drop_last() =~= Seq::empty());
    assert(store.gathered(one.drop_last(), facts) =~= Map::empty());
    let e = store.resolved(
        id,
        if facts.dom().contains(id) {
            Some(facts[id])
        } else {
            None
        },
    );
    if e is Some && e->0.cloud_id is Some {
        assert(store.gathered(one, facts) =~= map![e->0.cloud_id->0 => e->0]);
    }
    let both = first + second;
    if second.len() == 0 {
        assert(both =~= first);
        assert(store.gathered(both, facts) =~= store.gathered(first, facts).union_prefer_right(
            store.gathered(second, facts),
        ));
    } else {
        let less = second.drop_last();
        law_every_object_is_found_by_its_identity(store, first, less, facts, id);
        assert(both.drop_last() =~= first + less);
        assert(both.last() == second.last());
        assert(store.gathered(both, facts) =~= store.gathered(first, facts).union_prefer_right(
            store.gathered(second, facts),
        ));
    }
}

/// An attribute that could be written at once is done with. One that may not be
/// written is tried once more with the file's mode relaxed, and the mode is put
/// back whatever came of it; what is said is what the second try gave, or that the
/// mode could not be put back. Any other failure is passed on as it is.
pub proof fn law_a_read_only_file_is_relaxed_and_put_back(
    mode: u32,
    first: Result<(), i32>,
    second: Result<(), i32>,
    back: Result<(), i32>,
    e: i32,
)
    ensures
        first != Err::<(), i32>(13) ==> next_step(AttrStep::Try, AttrReply::Went(first))
            == AttrStep::Done(first),
        ({
            let look = next_step(AttrStep::Try, AttrReply::Went(Err(13)));
            let relax = next_step(look, AttrReply::Mode(Ok(mode)));
            let again = next_step(relax, AttrReply::Went(Ok(())));
            let restore = next_step(again, AttrReply::Went(second));
            let done = next_step(restore, AttrReply::Went(back));
            &&& look is ReadMode
            &&& relax == AttrStep::Relax { mode }
            &&& again == AttrStep::Again { mode }
            &&& restore == AttrStep::Restore { mode, written: second }
            &&& done == AttrStep::Done(
                if second is Err {
                    second
                } else {
                    back
                },
            )
            &&& next_step(look, AttrReply::Mode(Err(e))) == AttrStep::Done(Err(e))
            &&& next_step(relax, AttrReply::Went(Err(e))) == AttrStep::Done(Err(e))
        }),
{
}

/// A value that is the bytes of a text is read as that text; one that is no text,
/// and none at all, is read as nothing.
pub proof fn law_an_attribute_is_read_as_its_text(s: Seq<char>, value: Seq<u8>)
    ensures
        string_of(Some(text::bytes(s))) == Some(s),
        !vstd::utf8::valid_utf8(value) ==> string_of(Some(value)) is None,
        string_of(None) is None,
        string_of(Some(value)) matches Some(t) ==> text::bytes(t) == value,
{
    broadcast use vstd::utf8::group_utf8_lib;

}

/// A record is written by a store that maintains one, when it says something new,
/// and then in full.
pub proof fn law_what_is_new_is_written(store: StoreModel, l: LineageModel)
    requires
        store.lineage == Some(l),
    ensures
        store.to_write() is Some <==> store.writes && l.dirty,
        store.to_write() is Some ==> store.to_write()->0 == lineage::rendered(l.records),
{
}

/// A mode that was written down is remembered.
pub proof fn law_a_mode_is_remembered(mode: u32)
    ensures
        mode_of(Some(text::bytes(number::digits(mode as nat)))) == Some(mode as nat),
        mode_of(None) is None,
{
    law_an_attribute_is_read_as_its_text(number::digits(mode as nat), Seq::empty());
    number::law_a_number_is_read_back(mode as nat, u32::MAX as nat);
}

} // verus!
