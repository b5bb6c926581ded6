//! What was last known about the object at each path.
//!
//! An atomic save writes a new file and renames it over the old one, and the
//! extended attributes that say which cloud object the file is do not travel
//! across the rename. The version an edit is based on is a fact about the past:
//! it has to have been written down before the save destroyed it, and this is
//! where it is written.
//!
//! A path is the key, which is safe under one invariant: an object is at exactly
//! one path. A scan that finds an object somewhere else drops every older claim
//! to it in the same pass.
//!
//! It is a bridge and not a second store: nothing here is authoritative over
//! what is on the file itself.

use crate::paths;
use crate::table;
use crate::table::Table;
use crate::text;
use vstd::prelude::*;
use vstd::string::*;

verus! {

/// The name of the record in the sync root.
pub const LINEAGE_NAME: &'static str = ".hydration-lineage";

/// What was recorded for one path.
#[derive(Debug, PartialEq, Eq)]
pub struct Record {
    pub cloud_id: String,
    /// The tag of the version an edit here is based on. A drive whose tags are
    /// not preconditions has none, nor has an object before its first upload.
    pub tag: Option<String>,
}

/// A record as plain values.
#[verifier::ext_equal]
pub struct RecordModel {
    pub cloud_id: Seq<char>,
    pub tag: Option<Seq<char>>,
}

impl View for Record {
    type V = RecordModel;

    open spec fn view(&self) -> RecordModel {
        RecordModel { cloud_id: self.cloud_id@, tag: text::maybe(self.tag) }
    }
}

impl Record {
    /// A record with the same contents.
    pub fn copy(&self) -> (r: Record)
        ensures
            r@ == self@,
    {
        Record { cloud_id: self.cloud_id.as_str().to_owned(), tag: text::copy_maybe(&self.tag) }
    }

    fn same(&self, other: &Record) -> (r: bool)
        ensures
            r == (self@ == other@),
    {
        text::same(self.cloud_id.as_str(), other.cloud_id.as_str()) && text::same_maybe(
            &self.tag,
            &other.tag,
        )
    }
}

/// Records by path, as plain values.
pub open spec fn records(m: Map<Seq<char>, Record>) -> Map<Seq<char>, RecordModel> {
    m.map_values(|r: Record| r@)
}

/// Whether one of the records seen is of this object.
pub open spec fn claims(seen: Map<Seq<char>, RecordModel>, cloud_id: Seq<char>) -> bool {
    exists|p: Seq<char>| #[trigger] seen.dom().contains(p) && seen[p].cloud_id == cloud_id
}

/// What is remembered after a scan: everything it saw, and of the older records
/// those whose path is still there, was not seen, and whose object was not seen
/// anywhere else.
pub open spec fn absorbed(
    old_records: Map<Seq<char>, RecordModel>,
    seen: Map<Seq<char>, RecordModel>,
    live: Set<Seq<char>>,
) -> Map<Seq<char>, RecordModel> {
    Map::new(
        |p: Seq<char>|
            seen.dom().contains(p) || (old_records.dom().contains(p) && !claims(
                seen,
                old_records[p].cloud_id,
            ) && live.contains(p)),
        |p: Seq<char>|
            if seen.dom().contains(p) {
                seen[p]
            } else {
                old_records[p]
            },
    )
}

/// What one line of the file records: a path, an object, and perhaps a tag,
/// with tabs between them. A comment or a line without the first two records
/// nothing.
pub open spec fn recorded(line: Seq<char>) -> Option<(Seq<char>, RecordModel)> {
    let f = text::split(line, '\t');
    if line.len() == 0 || line[0] == '#' || f.len() < 2 || f[0].len() == 0 || f[1].len() == 0 {
        None
    } else {
        Some(
            (
                f[0],
                RecordModel {
                    cloud_id: f[1],
                    tag: if f.len() > 2 && f[2].len() > 0 {
                        Some(f[2])
                    } else {
                        None
                    },
                },
            ),
        )
    }
}

/// What the lines of the file record. Of two lines with one path the later one
/// counts.
pub open spec fn read_back(lines: Seq<Seq<char>>) -> Map<Seq<char>, RecordModel>
    decreases lines.len(),
{
    if lines.len() == 0 {
        Map::empty()
    } else {
        match recorded(lines.last()) {
            None => read_back(lines.drop_last()),
            Some((path, record)) => read_back(lines.drop_last()).insert(path, record),
        }
    }
}

/// The comment at the top of the file.
pub open spec fn heading() -> Seq<Seq<char>> {
    seq![
        "# What each file's extended attributes said, the last time they were there."@,
        "# Written by the hydration framework so that a save which replaces a file"@,
        "# — git, and most editors — does not lose which cloud object the file is,"@,
        "# or which version of it the edit is based on. Not a backup, and not"@,
        "# authoritative: the file's own attributes win whenever it still has them."@,
        "#"@,
        "# path\tcloud-id\tetag"@,
    ]
}

/// The line that records a path.
pub open spec fn line_of(path: Seq<char>, r: RecordModel) -> Seq<char> {
    path + seq!['\t'] + r.cloud_id + seq!['\t'] + match r.tag {
        Some(tag) => tag,
        None => Seq::empty(),
    }
}

/// The lines that record some paths, in the order of the paths.
pub open spec fn lines_of(m: Map<Seq<char>, RecordModel>) -> Seq<Seq<char>> {
    table::in_key_order::<String>(m.dom()).map_values(|p: Seq<char>| line_of(p, m[p]))
}

/// The text of the file.
pub open spec fn rendered(m: Map<Seq<char>, RecordModel>) -> Seq<char> {
    text::lined(heading() + lines_of(m))
}

/// A record that a line can hold: the path and the object are there and the path
/// does not read as a comment, and nothing in it breaks the line or a column.
pub open spec fn fits_a_line(path: Seq<char>, r: RecordModel) -> bool {
    &&& path.len() > 0
    &&& path[0] != '#'
    &&& !path.contains('\t')
    &&& !path.contains('\n')
    &&& r.cloud_id.len() > 0
    &&& !r.cloud_id.contains('\t')
    &&& !r.cloud_id.contains('\n')
    &&& r.tag matches Some(tag) ==> {
        &&& tag.len() > 0
        &&& tag.last() != '\r'
        &&& !tag.contains('\t')
        &&& !tag.contains('\n')
    }
}

fn write_heading() -> (out: Vec<String>)
    ensures
        text::texts(out@) == heading(),
{
    let mut out: Vec<String> = Vec::new();
    out.push("# What each file's extended attributes said, the last time they were there.".to_owned());
    out.push("# Written by the hydration framework so that a save which replaces a file".to_owned());
    out.push("# — git, and most editors — does not lose which cloud object the file is,".to_owned());
    out.push("# or which version of it the edit is based on. Not a backup, and not".to_owned());
    out.push("# authoritative: the file's own attributes win whenever it still has them.".to_owned());
    out.push("#".to_owned());
    out.push("# path\tcloud-id\tetag".to_owned());
    assert(text::texts(out@) =~= heading());
    out
}

fn write_line(path: &str, r: &Record) -> (out: String)
    ensures
        out@ == line_of(path@, r@),
{
    let mut out: String = path.to_owned();
    out.push('\t');
    out.append(r.cloud_id.as_str());
    out.push('\t');
    if let Some(tag) = &r.tag {
        out.append(tag.as_str());
    }
    assert(out@ =~= line_of(path@, r@));
    out
}

fn read_line(line: &str) -> (out: Option<(String, Record)>)
    ensures
        match out {
            Some(pair) => recorded(line@) == Some((pair.0@, pair.1@)),
            None => recorded(line@) is None,
        },
{
    let fields = text::split_at(line, '\t');
    let ghost f = text::split(line@, '\t');
    assert(f.len() == fields@.len());
    let chars = text::chars_of(line);
    if chars.len() == 0 || chars[0] == '#' || fields.len() < 2 {
        return None;
    }
    assert(f[0] == fields@[0]@ && f[1] == fields@[1]@);
    if fields[0].as_str().is_empty() || fields[1].as_str().is_empty() {
        return None;
    }
    let tag: Option<String> = if fields.len() > 2 {
        assert(f[2] == fields@[2]@);
        if fields[2].as_str().is_empty() {
            None
        } else {
            Some(fields[2].as_str().to_owned())
        }
    } else {
        None
    };
    Some(
        (
            fields[0].as_str().to_owned(),
            Record { cloud_id: fields[1].as_str().to_owned(), tag },
        ),
    )
}

fn same_records(a: &Table<String, Record>, b: &Table<String, Record>) -> (r: bool)
    ensures
        r == (records(a@) == records(b@)),
{
    let n = a.len();
    let m = b.len();
    let ghost left = records(a@);
    let ghost right = records(b@);
    proof {
        assert(left.dom() =~= a@.dom());
        assert(right.dom() =~= b@.dom());
    }
    if n != m {
        return false;
    }
    let ghost ka = table::keys_of(a.rows());
    let ghost kb = table::keys_of(b.rows());
    let mut i: usize = 0;
    while i < n
        invariant
            i <= n,
            n == m,
            n == a.rows().len(),
            m == b.rows().len(),
            left == records(a@),
            right == records(b@),
            left.dom() == a@.dom(),
            right.dom() == b@.dom(),
            ka == table::keys_of(a.rows()),
            kb == table::keys_of(b.rows()),
            ka == table::in_key_order::<String>(a@.dom()),
            kb == table::in_key_order::<String>(b@.dom()),
            forall|j: int|
                0 <= j < i ==> ka[j] == kb[j] && a@.dom().contains(#[trigger] ka[j])
                    && left[ka[j]] == right[ka[j]],
        decreases n - i,
    {
        let p = a.key_at(i);
        let q = b.key_at(i);
        let u = a.value_at(i);
        let v = b.value_at(i);
        assert(ka[i as int] == p@ && kb[i as int] == q@);
        assert(left[p@] == u@);
        assert(right[q@] == v@);
        if !text::same(p.as_str(), q.as_str()) || !u.same(v) {
            return false;
        }
        i = i + 1;
    }
    proof {
        assert(ka =~= kb);
        table::lemma_in_key_order::<String>(a@.dom());
        table::lemma_in_key_order::<String>(b@.dom());
        assert forall|p: Seq<char>| left.dom().contains(p) implies right.dom().contains(p)
            && left[p] == right[p] by {
            assert(ka.contains(p));
            let j = choose|j: int| 0 <= j < ka.len() && ka[j] == p;
            assert(left[ka[j]] == right[ka[j]]);
            assert(kb.contains(p));
        }
        assert forall|p: Seq<char>| right.dom().contains(p) implies left.dom().contains(p) by {
            assert(kb.contains(p));
            assert(ka.contains(p));
        }
        assert(left =~= right);
    }
    true
}

/// Paths to what was last known about the object at each of them. Keys are
/// relative to the sync root.
pub struct Lineage {
    by_path: Table<String, Record>,
    dirty: bool,
}

/// What is remembered, and whether it has changed since it was last written.
#[verifier::ext_equal]
pub struct LineageModel {
    pub records: Map<Seq<char>, RecordModel>,
    pub dirty: bool,
}

impl View for Lineage {
    type V = LineageModel;

    closed spec fn view(&self) -> LineageModel {
        LineageModel { records: records(self.by_path@), dirty: self.dirty }
    }
}

impl Lineage {
    /// Nothing remembered and nothing to write.
    pub fn new() -> (l: Lineage)
        ensures
            l@ == (LineageModel { records: Map::empty(), dirty: false }),
    {
        let l = Lineage { by_path: Table::new(), dirty: false };
        assert(records(l.by_path@) =~= Map::empty());
        l
    }

    /// Read the text of the file, or start empty where there is none. Never
    /// fails: a damaged line costs what it recorded and nothing else.
    pub fn load(raw: Option<&str>) -> (l: Lineage)
        ensures
            l@ == (LineageModel {
                records: match raw {
                    Some(s) => read_back(text::lines(s@)),
                    None => Map::empty(),
                },
                dirty: false,
            }),
    {
        let raw = match raw {
            Some(raw) => raw,
            None => {
                return Lineage::new();
            },
        };
        let lines = text::lines_of(raw);
        let ghost all = text::texts(lines@);
        let mut by_path: Table<String, Record> = Table::new();
        let mut i: usize = 0;
        assert(records(by_path@) =~= read_back(all.take(0)));
        while i < lines.len()
            invariant
                i <= lines@.len(),
                all == text::texts(lines@),
                records(by_path@) == read_back(all.take(i as int)),
            decreases lines@.len() - i,
        {
            let ghost had = by_path@;
            proof {
                assert(all.take(i + 1).drop_last() =~= all.take(i as int));
                assert(all.take(i + 1).last() == lines@[i as int]@);
            }
            if let Some((path, record)) = read_line(lines[i].as_str()) {
                let ghost p = path@;
                let ghost r = record;
                by_path.insert(path, record);
                assert(records(by_path@) =~= records(had).insert(p, r@));
            }
            i = i + 1;
        }
        assert(all.take(i as int) =~= all);
        Lineage { by_path, dirty: false }
    }

    /// What was last known about the object at a path.
    pub fn get(&self, rel: &str) -> (r: Option<&Record>)
        ensures
            match r {
                Some(record) => self@.records.dom().contains(rel@) && self@.records[rel@]
                    == record@,
                None => !self@.records.dom().contains(rel@),
            },
    {
        let key = rel.to_owned();
        self.by_path.get(&key)
    }

    /// Every path recorded, in order, with what was known about it.
    pub fn entries(&self) -> (out: Vec<(String, Record)>)
        ensures
            out@.len() == table::in_key_order::<String>(self@.records.dom()).len(),
            forall|i: int|
                0 <= i < out@.len() ==> (#[trigger] out@[i]).0@ == table::in_key_order::<String>(
                    self@.records.dom(),
                )[i] && self@.records.dom().contains(out@[i].0@) && out@[i].1@
                    == self@.records[out@[i].0@],
    {
        let n = self.by_path.len();
        let mut out: Vec<(String, Record)> = Vec::new();
        let mut i: usize = 0;
        let ghost keys = table::in_key_order::<String>(self@.records.dom());
        assert(self@.records.dom() =~= self.by_path@.dom());
        while i < n
            invariant
                i <= n,
                n == self.by_path.rows().len(),
                keys == table::in_key_order::<String>(self@.records.dom()),
                keys == table::keys_of(self.by_path.rows()),
                out@.len() == i,
                forall|j: int|
                    0 <= j < i ==> (#[trigger] out@[j]).0@ == keys[j]
                        && self@.records.dom().contains(out@[j].0@) && out@[j].1@
                        == self@.records[out@[j].0@],
            decreases n - i,
        {
            let p = self.by_path.key_at(i);
            let r = self.by_path.value_at(i);
            assert(keys[i as int] == p@);
            out.push((p.as_str().to_owned(), r.copy()));
            i = i + 1;
        }
        out
    }

    pub fn len(&self) -> (n: usize)
        ensures
            n == self@.records.dom().len(),
            self@.records.dom().finite(),
    {
        assert(self@.records.dom() =~= self.by_path@.dom());
        self.by_path.len()
    }

    pub fn is_empty(&self) -> (b: bool)
        ensures
            b == (self@.records == Map::<Seq<char>, RecordModel>::empty()),
    {
        proof {
            assert(self@.records.dom() =~= self.by_path@.dom());
            if self@.records.dom() =~= Set::empty() {
                assert(self.by_path@ =~= Map::empty());
                assert(self@.records =~= Map::empty());
            }
        }
        self.by_path.is_empty()
    }

    /// Whether something has changed since it was last written.
    pub fn needs_writing(&self) -> (b: bool)
        ensures
            b == self@.dirty,
    {
        self.dirty
    }

    /// Replace what is remembered with what a scan just saw, keeping only the
    /// records that survived it. `seen` is every path whose file still carries
    /// its own attributes; `live` is every path the scan visited at all.
    pub fn absorb(&mut self, seen: Table<String, Record>, live: &Table<String, ()>)
        ensures
            final(self)@.records == absorbed(old(self)@.records, records(seen@), live@.dom()),
            final(self)@.dirty == (old(self)@.dirty || absorbed(
                old(self)@.records,
                records(seen@),
                live@.dom(),
            ) != old(self)@.records),
    {
        let ghost was = self@.records;
        let ghost fresh = records(seen@);
        let ghost there = live@.dom();
        let total = seen.len();
        let mut claimed: Table<String, ()> = Table::new();
        let mut i: usize = 0;
        assert(fresh.dom() =~= seen@.dom());
        while i < total
            invariant
                i <= total,
                total == seen.rows().len(),
                fresh == records(seen@),
                fresh.dom() == seen@.dom(),
                forall|j: int|
                    0 <= j < seen.rows().len() ==> seen@.dom().contains(
                        (#[trigger] seen.rows()[j]).0,
                    ) ==> j < i ==> claimed@.dom().contains(fresh[seen.rows()[j].0].cloud_id),
                forall|id: Seq<char>| #[trigger]
                    claimed@.dom().contains(id) ==> claims(fresh, id),
            decreases total - i,
        {
            let p = seen.key_at(i);
            let r = seen.value_at(i);
            assert(fresh[p@] == r@);
            assert(claims(fresh, r.cloud_id@)) by {
                assert(fresh.dom().contains(p@));
            }
            claimed.insert(r.cloud_id.as_str().to_owned(), ());
            i = i + 1;
        }
        assert forall|id: Seq<char>| claims(fresh, id) implies claimed@.dom().contains(id) by {
            let p = choose|p: Seq<char>| #[trigger] fresh.dom().contains(p) && fresh[p].cloud_id
                == id;
            table::lemma_in_key_order::<String>(seen@.dom());
            assert(table::keys_of(seen.rows()).contains(p));
            let j = choose|j: int|
                0 <= j < table::keys_of(seen.rows()).len() && table::keys_of(seen.rows())[j] == p;
            assert(seen.rows()[j].0 == p);
        }
        let mut next: Table<String, Record> = Table::new();
        let n = self.by_path.len();
        let ghost keys = table::keys_of(self.by_path.rows());
        let ghost kept = |p: Seq<char>|
            was.dom().contains(p) && !fresh.dom().contains(p) && !claims(fresh, was[p].cloud_id)
                && there.contains(p);
        assert(was.dom() =~= self.by_path@.dom());
        let mut i: usize = 0;
        while i < n
            invariant
                i <= n,
                n == self.by_path.rows().len(),
                was == self@.records,
                fresh == records(seen@),
                fresh.dom() == seen@.dom(),
                there == live@.dom(),
                was.dom() == self.by_path@.dom(),
                keys == table::keys_of(self.by_path.rows()),
                kept == (|p: Seq<char>|
                    was.dom().contains(p) && !fresh.dom().contains(p) && !claims(
                        fresh,
                        was[p].cloud_id,
                    ) && there.contains(p)),
                forall|id: Seq<char>|
                    #![trigger claimed@.dom().contains(id)]
                    #![trigger claims(fresh, id)]
                    claimed@.dom().contains(id) <==> claims(fresh, id),
                forall|p: Seq<char>| #[trigger]
                    next@.dom().contains(p) ==> kept(p) && next@[p]@ == was[p],
                forall|j: int|
                    0 <= j < i ==> kept(#[trigger] keys[j]) ==> next@.dom().contains(keys[j]),
            decreases n - i,
        {
            let p = self.by_path.key_at(i);
            let r = self.by_path.value_at(i);
            assert(keys[i as int] == p@);
            assert(was[p@] == r@);
            if !seen.contains(p) && !claimed.contains(&r.cloud_id) && live.contains(p) {
                assert(kept(p@));
                next.insert(p.as_str().to_owned(), r.copy());
            } else {
                assert(!kept(p@));
            }
            i = i + 1;
        }
        let ghost older = next@;
        assert forall|p: Seq<char>| kept(p) implies older.dom().contains(p) by {
            table::lemma_in_key_order::<String>(self.by_path@.dom());
            assert(keys.contains(p));
            let j = choose|j: int| 0 <= j < keys.len() && keys[j] == p;
            assert(kept(keys[j]));
        }
        let ghost fresh_keys = table::keys_of(seen.rows());
        let mut i: usize = 0;
        while i < total
            invariant
                i <= total,
                total == seen.rows().len(),
                fresh == records(seen@),
                fresh.dom() == seen@.dom(),
                fresh_keys == table::keys_of(seen.rows()),
                forall|p: Seq<char>| #[trigger]
                    next@.dom().contains(p) ==> if fresh.dom().contains(p) {
                        next@[p]@ == fresh[p]
                    } else {
                        older.dom().contains(p) && next@[p] == older[p]
                    },
                forall|p: Seq<char>| older.dom().contains(p) ==> #[trigger] next@.dom().contains(p),
                forall|p: Seq<char>| #[trigger] older.dom().contains(p) ==> !fresh.dom().contains(p),
                forall|j: int| 0 <= j < i ==> next@.dom().contains(#[trigger] fresh_keys[j]),
            decreases total - i,
        {
            let p = seen.key_at(i);
            let r = seen.value_at(i);
            assert(fresh_keys[i as int] == p@);
            assert(fresh[p@] == r@);
            next.insert(p.as_str().to_owned(), r.copy());
            i = i + 1;
        }
        proof {
            let target = absorbed(was, fresh, there);
            let got = records(next@);
            table::lemma_in_key_order::<String>(seen@.dom());
            assert forall|p: Seq<char>| fresh.dom().contains(p) implies next@.dom().contains(
                p,
            ) by {
                assert(fresh_keys.contains(p));
                let j = choose|j: int| 0 <= j < fresh_keys.len() && fresh_keys[j] == p;
                assert(next@.dom().contains(fresh_keys[j]));
            }
            assert forall|p: Seq<char>| target.dom().contains(p) <==> got.dom().contains(p) by {
                if target.dom().contains(p) && !fresh.dom().contains(p) {
                    assert(kept(p));
                    assert(older.dom().contains(p));
                }
                if got.dom().contains(p) && !fresh.dom().contains(p) {
                    assert(next@.dom().contains(p));
                    assert(older.dom().contains(p));
                    assert(kept(p));
                }
            }
            assert forall|p: Seq<char>| target.dom().contains(p) implies target[p] == got[p] by {
                assert(next@.dom().contains(p));
                if !fresh.dom().contains(p) {
                    assert(older.dom().contains(p));
                }
            }
            assert(target =~= got);
        }
        if !same_records(&next, &self.by_path) {
            self.by_path = next;
            self.dirty = true;
        }
    }

    /// The text to put in place of the file, where it says something new.
    pub fn write(&self) -> (out: Option<String>)
        ensures
            text::maybe(out) == if self@.dirty {
                Some(rendered(self@.records))
            } else {
                None
            },
    {
        if !self.dirty {
            return None;
        }
        let mut lines = write_heading();
        let n = self.by_path.len();
        let ghost m = self@.records;
        let ghost keys = table::keys_of(self.by_path.rows());
        let mut i: usize = 0;
        assert(m.dom() =~= self.by_path@.dom());
        assert(text::texts(lines@) =~= heading() + lines_of(m).take(0));
        while i < n
            invariant
                i <= n,
                n == self.by_path.rows().len(),
                m == self@.records,
                keys == table::keys_of(self.by_path.rows()),
                keys == table::in_key_order::<String>(m.dom()),
                text::texts(lines@) == heading() + lines_of(m).take(i as int),
            decreases n - i,
        {
            let p = self.by_path.key_at(i);
            let r = self.by_path.value_at(i);
            assert(keys[i as int] == p@);
            assert(m[p@] == r@);
            let ghost had = text::texts(lines@);
            lines.push(write_line(p.as_str(), r));
            assert(lines_of(m)[i as int] == line_of(p@, r@));
            assert(text::texts(lines@) =~= had.push(line_of(p@, r@)));
            assert(lines_of(m).take(i + 1) =~= lines_of(m).take(i as int).push(lines_of(m)[i as int]));
            assert(had.push(line_of(p@, r@)) =~= heading() + lines_of(m).take(i + 1));
            i = i + 1;
        }
        assert(lines_of(m).take(i as int) =~= lines_of(m));
        Some(text::write_lines(&lines))
    }

    /// Note that what [`write`](Self::write) gave has reached the file.
    pub fn written(&mut self)
        ensures
            final(self)@ == (LineageModel { records: old(self)@.records, dirty: false }),
    {
        self.dirty = false;
    }
}

/// A path below the sync root, as the record has it; `None` for anything that
/// is not under the root.
pub fn relative(root: &str, path: &str) -> (r: Option<String>)
    ensures
        text::maybe(r) == paths::relative_to(root@, path@),
{
    paths::relative(root, path)
}

/// Everything a scan saw is recorded as it saw it.
pub proof fn law_what_is_seen_is_recorded(
    m: Map<Seq<char>, RecordModel>,
    seen: Map<Seq<char>, RecordModel>,
    live: Set<Seq<char>>,
    path: Seq<char>,
)
    requires
        seen.dom().contains(path),
    ensures
        absorbed(m, seen, live).dom().contains(path),
        absorbed(m, seen, live)[path] == seen[path],
{
}

/// A path that is still there, was not seen with attributes of its own, and
/// whose object nobody else has, keeps what was recorded for it.
pub proof fn law_a_path_that_lost_its_attributes_keeps_its_record(
    m: Map<Seq<char>, RecordModel>,
    seen: Map<Seq<char>, RecordModel>,
    live: Set<Seq<char>>,
    path: Seq<char>,
)
    requires
        m.dom().contains(path),
        live.contains(path),
        !seen.dom().contains(path),
        !claims(seen, m[path].cloud_id),
    ensures
        absorbed(m, seen, live).dom().contains(path),
        absorbed(m, seen, live)[path] == m[path],
{
}

/// An object found at one path is no longer recorded at any path where it was
/// not found.
pub proof fn law_an_object_found_elsewhere_evicts_older_claims(
    m: Map<Seq<char>, RecordModel>,
    seen: Map<Seq<char>, RecordModel>,
    live: Set<Seq<char>>,
    found: Seq<char>,
    path: Seq<char>,
)
    requires
        seen.dom().contains(found),
        !seen.dom().contains(path),
    ensures
        absorbed(m, seen, live).dom().contains(path) ==> absorbed(m, seen, live)[path].cloud_id
            != seen[found].cloud_id,
{
}

/// No two paths record one object.
pub open spec fn one_path_each(m: Map<Seq<char>, RecordModel>) -> bool {
    forall|p: Seq<char>, q: Seq<char>|
        #![trigger m.dom().contains(p), m.dom().contains(q)]
        m.dom().contains(p) && m.dom().contains(q) && m[p].cloud_id == m[q].cloud_id ==> p == q
}

/// An object is at one path: a scan that finds no object twice leaves none
/// recorded twice.
pub proof fn law_an_object_is_at_one_path(
    m: Map<Seq<char>, RecordModel>,
    seen: Map<Seq<char>, RecordModel>,
    live: Set<Seq<char>>,
)
    requires
        one_path_each(m),
        one_path_each(seen),
    ensures
        one_path_each(absorbed(m, seen, live)),
{
    let next = absorbed(m, seen, live);
    assert forall|p: Seq<char>, q: Seq<char>|
        #![trigger next.dom().contains(p), next.dom().contains(q)]
        next.dom().contains(p) && next.dom().contains(q) && next[p].cloud_id
            == next[q].cloud_id implies p == q by {
        if seen.dom().contains(p) && seen.dom().contains(q) {
        } else if seen.dom().contains(p) {
            assert(claims(seen, m[q].cloud_id));
        } else if seen.dom().contains(q) {
            assert(claims(seen, m[p].cloud_id));
        } else {
            assert(m.dom().contains(p) && m.dom().contains(q));
        }
    }
}

/// A path that is gone is not remembered for whatever appears there next.
pub proof fn law_a_gone_path_is_forgotten(
    m: Map<Seq<char>, RecordModel>,
    seen: Map<Seq<char>, RecordModel>,
    live: Set<Seq<char>>,
    path: Seq<char>,
)
    requires
        !live.contains(path),
        !seen.dom().contains(path),
    ensures
        !absorbed(m, seen, live).dom().contains(path),
{
}

/// A scan that sees what the last one saw changes nothing, so it owes no write.
pub proof fn law_an_unchanged_scan_changes_nothing(
    m: Map<Seq<char>, RecordModel>,
    seen: Map<Seq<char>, RecordModel>,
    live: Set<Seq<char>>,
)
    ensures
        absorbed(absorbed(m, seen, live), seen, live) == absorbed(m, seen, live),
{
    assert(absorbed(absorbed(m, seen, live), seen, live) =~= absorbed(m, seen, live));
}

proof fn lemma_heading()
    ensures
        forall|i: int|
            0 <= i < heading().len() ==> text::is_line(#[trigger] heading()[i]) && recorded(
                heading()[i],
            ) is None,
{
    reveal_strlit("# What each file's extended attributes said, the last time they were there.");
    reveal_strlit("# Written by the hydration framework so that a save which replaces a file");
    reveal_strlit("# — git, and most editors — does not lose which cloud object the file is,");
    reveal_strlit("# or which version of it the edit is based on. Not a backup, and not");
    reveal_strlit("# authoritative: the file's own attributes win whenever it still has them.");
    reveal_strlit("#");
    reveal_strlit("# path\tcloud-id\tetag");
    assert forall|i: int| 0 <= i < heading().len() implies text::is_line(#[trigger] heading()[i])
        && recorded(heading()[i]) is None by {
        let h = heading()[i];
        assert(h[0] == '#');
        assert forall|j: int| 0 <= j < h.len() implies h[j] != '\n' by {}
    }
}

proof fn lemma_line(path: Seq<char>, r: RecordModel)
    requires
        fits_a_line(path, r),
    ensures
        text::is_line(line_of(path, r)),
        recorded(line_of(path, r)) == Some((path, r)),
{
    let tag = match r.tag {
        Some(tag) => tag,
        None => Seq::empty(),
    };
    let line = line_of(path, r);
    assert(!tag.contains('\t') && !tag.contains('\n'));
    let tail = r.cloud_id + seq!['\t'] + tag;
    assert(line =~= path + seq!['\t'] + tail);
    text::lemma_split_cons(path, '\t', tail);
    text::lemma_split_cons(r.cloud_id, '\t', tag);
    text::lemma_split_whole(tag, '\t');
    let f = text::split(line, '\t');
    assert(f =~= seq![path, r.cloud_id, tag]);
    assert(line[0] == path[0]);
    assert(line.last() == if tag.len() > 0 {
        tag.last()
    } else {
        '\t'
    });
    assert forall|i: int| 0 <= i < line.len() implies line[i] != '\n' by {
        if i < path.len() {
            assert(path.contains(path[i]));
        } else if path.len() < i < path.len() + 1 + r.cloud_id.len() {
            assert(line[i] == r.cloud_id[i - path.len() - 1]);
            assert(r.cloud_id.contains(line[i]));
        } else if i > path.len() + 1 + r.cloud_id.len() {
            assert(line[i] == tag[i - path.len() - 2 - r.cloud_id.len()]);
            assert(tag.contains(line[i]));
        }
    }
}

proof fn lemma_reads_back(m: Map<Seq<char>, RecordModel>, keys: Seq<Seq<char>>, k: int)
    requires
        0 <= k <= keys.len(),
        forall|i: int|
            0 <= i < keys.len() ==> m.dom().contains(#[trigger] keys[i]) && fits_a_line(
                keys[i],
                m[keys[i]],
            ),
    ensures
        read_back(
            heading() + keys.take(k).map_values(|p: Seq<char>| line_of(p, m[p])),
        ) == Map::new(|p: Seq<char>| keys.take(k).contains(p), |p: Seq<char>| m[p]),
    decreases k,
{
    let f = |p: Seq<char>| line_of(p, m[p]);
    let goal = Map::new(|p: Seq<char>| keys.take(k).contains(p), |p: Seq<char>| m[p]);
    let lines = heading() + keys.take(k).map_values(f);
    if k == 0 {
        assert(lines =~= heading());
        lemma_heading();
        lemma_comments(heading());
        assert(goal =~= Map::empty());
    } else {
        lemma_reads_back(m, keys, k - 1);
        let before = heading() + keys.take(k - 1).map_values(f);
        let p = keys[k - 1];
        lemma_line(p, m[p]);
        assert(lines.drop_last() =~= before);
        assert(lines.last() == line_of(p, m[p]));
        let less = Map::new(|q: Seq<char>| keys.take(k - 1).contains(q), |q: Seq<char>| m[q]);
        let some = keys.take(k);
        let fewer = keys.take(k - 1);
        assert forall|q: Seq<char>| some.contains(q) <==> (fewer.contains(q) || q == p) by {
            if some.contains(q) {
                let i = choose|i: int| 0 <= i < some.len() && some[i] == q;
                if i < k - 1 {
                    assert(fewer[i] == q);
                }
            }
            if fewer.contains(q) {
                let i = choose|i: int| 0 <= i < fewer.len() && fewer[i] == q;
                assert(some[i] == q);
            }
            assert(some[k - 1] == p);
        }
        assert(goal =~= less.insert(p, m[p]));
    }
}

proof fn lemma_comments(lines: Seq<Seq<char>>)
    requires
        forall|i: int| 0 <= i < lines.len() ==> recorded(#[trigger] lines[i]) is None,
    ensures
        read_back(lines) == Map::<Seq<char>, RecordModel>::empty(),
    decreases lines.len(),
{
    if lines.len() > 0 {
        assert(recorded(lines[lines.len() - 1]) is None);
        lemma_comments(lines.drop_last());
    }
}

/// What is written reads back the same, where every record fits a line.
pub proof fn law_what_is_written_reads_back(m: Map<Seq<char>, RecordModel>)
    requires
        m.dom().finite(),
        forall|p: Seq<char>| #[trigger] m.dom().contains(p) ==> fits_a_line(p, m[p]),
    ensures
        read_back(text::lines(rendered(m))) == m,
{
    let keys = table::in_key_order::<String>(m.dom());
    table::lemma_in_key_order::<String>(m.dom());
    assert forall|i: int| 0 <= i < keys.len() implies m.dom().contains(#[trigger] keys[i])
        && fits_a_line(keys[i], m[keys[i]]) by {
        assert(keys.contains(keys[i]));
    }
    let all = heading() + lines_of(m);
    lemma_heading();
    assert forall|i: int| 0 <= i < all.len() implies text::is_line(#[trigger] all[i]) by {
        if i < heading().len() {
            assert(all[i] == heading()[i]);
        } else {
            let p = keys[i - heading().len()];
            lemma_line(p, m[p]);
            assert(all[i] == line_of(p, m[p]));
        }
    }
    text::lemma_lined(all);
    assert(keys.take(keys.len() as int) =~= keys);
    lemma_reads_back(m, keys, keys.len() as int);
    assert(Map::new(|p: Seq<char>| keys.contains(p), |p: Seq<char>| m[p]) =~= m);
}

/// What a scan leaves of a path: what was seen there, or else what was recorded of
/// it before, if the path is still there and no file was seen to be that object.
pub proof fn law_a_scan_keeps_what_still_stands(
    m: Map<Seq<char>, RecordModel>,
    seen: Map<Seq<char>, RecordModel>,
    live: Set<Seq<char>>,
    path: Seq<char>,
)
    ensures
        absorbed(m, seen, live).dom().contains(path) <==> seen.dom().contains(path) || (
        m.dom().contains(path) && live.contains(path) && forall|q: Seq<char>| #[trigger]
            seen.dom().contains(q) ==> seen[q].cloud_id != m[path].cloud_id),
        absorbed(m, seen, live).dom().contains(path) ==> absorbed(m, seen, live)[path] == if seen.dom().contains(
            path,
        ) {
            seen[path]
        } else {
            m[path]
        },
{
}

/// A line of a path and an identity, with or without a version behind them, and
/// whatever stands behind that, is read as what it says. A line without an
/// identity, an empty one and a comment say nothing.
pub proof fn law_a_line_is_read_as_what_it_says(
    path: Seq<char>,
    id: Seq<char>,
    tag: Seq<char>,
    rest: Seq<char>,
)
    requires
        path.len() > 0,
        path[0] != '#',
        !path.contains('\t'),
        id.len() > 0,
        !id.contains('\t'),
        !tag.contains('\t'),
    ensures
        recorded(path) is None,
        recorded(seq!['#'] + rest) is None,
        recorded(Seq::empty()) is None,
        recorded(path + seq!['\t']) is None,
        recorded(path + seq!['\t'] + id) == Some((path, RecordModel { cloud_id: id, tag: None })),
        recorded(path + seq!['\t'] + (id + seq!['\t'] + tag)) == Some(
            (
                path,
                RecordModel {
                    cloud_id: id,
                    tag: if tag.len() > 0 {
                        Some(tag)
                    } else {
                        None
                    },
                },
            ),
        ),
        recorded(path + seq!['\t'] + (id + seq!['\t'] + (tag + seq!['\t'] + rest))) == Some(
            (
                path,
                RecordModel {
                    cloud_id: id,
                    tag: if tag.len() > 0 {
                        Some(tag)
                    } else {
                        None
                    },
                },
            ),
        ),
{
    let empty = Seq::<char>::empty();
    text::lemma_split_whole(path, '\t');
    text::lemma_split_whole(id, '\t');
    text::lemma_split_whole(tag, '\t');
    text::lemma_split_whole(empty, '\t');
    text::lemma_split_cons(path, '\t', empty);
    assert(path + seq!['\t'] + empty =~= path + seq!['\t']);
    text::lemma_split_cons(path, '\t', id);
    text::lemma_split_cons(path, '\t', id + seq!['\t'] + tag);
    text::lemma_split_cons(id, '\t', tag);
    text::lemma_split_cons(path, '\t', id + seq!['\t'] + (tag + seq!['\t'] + rest));
    text::lemma_split_cons(id, '\t', tag + seq!['\t'] + rest);
    text::lemma_split_cons(tag, '\t', rest);
    let a = path + seq!['\t'];
    assert(a[0] == path[0]);
    let b = path + seq!['\t'] + id;
    assert(b[0] == path[0]);
    let c = path + seq!['\t'] + (id + seq!['\t'] + tag);
    assert(c[0] == path[0]);
    let d = path + seq!['\t'] + (id + seq!['\t'] + (tag + seq!['\t'] + rest));
    assert(d[0] == path[0]);
    assert((seq!['#'] + rest)[0] == '#');
}

/// Lines are read one after another, and where two speak of one path the later one
/// stands.
pub proof fn law_later_lines_stand(
    first: Seq<Seq<char>>,
    second: Seq<Seq<char>>,
    line: Seq<char>,
)
    ensures
        read_back(first + second) == read_back(first).union_prefer_right(read_back(second)),
        recorded(line) is None ==> read_back(seq![line]) == Map::<Seq<char>, RecordModel>::empty(),
        recorded(line) matches Some((path, record)) ==> read_back(seq![line]) == map![path => record],
    decreases second.len(),
{
    let one = seq![line];
    assert(one.drop_last() =~= Seq::empty());
    assert(read_back(one.drop_last()) =~= Map::empty());
    if let Some((path, record)) = recorded(line) {
        assert(read_back(one) =~= map![path => record]);
    }
    let both = first + second;
    if second.len() == 0 {
        assert(both =~= first);
        assert(read_back(both) =~= read_back(first).union_prefer_right(read_back(second)));
    } else {
        let less = second.drop_last();
        law_later_lines_stand(first, less, line);
        assert(both.drop_last() =~= first + less);
        assert(both.last() == second.last());
        assert(read_back(both) =~= read_back(first).union_prefer_right(read_back(second)));
    }
}

} // verus!
