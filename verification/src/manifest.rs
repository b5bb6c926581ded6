//! What a backup would miss, written down where the backup will find it.
//!
//! A backup that skips files without local content does not contain them, and a
//! user who believed that it did has lost data. The manifest is small, it is
//! never a placeholder, and it therefore ends up inside whatever the backup did
//! capture: a restore that finds it knows exactly what was left out and where to
//! get it.

use crate::lineage;
use crate::lineage::{Record, RecordModel};
use crate::number;
use crate::paths;
use crate::sort;
use crate::sort::Ranked;
use crate::table::Table;
use crate::text;
use vstd::prelude::*;
use vstd::string::*;

verus! {

/// The name of the manifest in the sync root.
pub const MANIFEST_NAME: &'static str = ".hydration-manifest";

/// What a backup is missing for one file.
#[derive(Debug, PartialEq, Eq)]
pub struct Entry {
    /// Relative to the sync root, so a restore to a different path still works.
    pub path: String,
    pub cloud_id: String,
    pub size: u64,
    pub etag: Option<String>,
}

/// An entry as plain values.
#[verifier::ext_equal]
pub struct EntryModel {
    pub path: Seq<char>,
    pub cloud_id: Seq<char>,
    pub size: u64,
    pub etag: Option<Seq<char>>,
}

impl View for Entry {
    type V = EntryModel;

    open spec fn view(&self) -> EntryModel {
        EntryModel {
            path: self.path@,
            cloud_id: self.cloud_id@,
            size: self.size,
            etag: text::maybe(self.etag),
        }
    }
}

impl Ranked for Entry {
    type M = EntryModel;

    open spec fn model(&self) -> EntryModel {
        self@
    }

    open spec fn ahead(a: EntryModel, b: EntryModel) -> bool {
        text::before(a.path, b.path)
    }

    proof fn ahead_transitive(a: EntryModel, b: EntryModel, c: EntryModel) {
        text::lemma_before_transitive(a.path, b.path, c.path);
    }

    proof fn ahead_cotransitive(a: EntryModel, b: EntryModel, c: EntryModel) {
        text::lemma_before_cotransitive(a.path, b.path, c.path);
    }

    proof fn ahead_irreflexive(a: EntryModel) {
        text::lemma_before_irreflexive(a.path);
    }

    fn is_ahead(&self, other: &Entry) -> (b: bool) {
        text::is_before(self.path.as_str(), other.path.as_str())
    }
}

/// What was found out about one file of the sync directory, from its metadata
/// and attributes alone: reading the content would hydrate the very file that
/// is being recorded.
#[derive(Debug, PartialEq, Eq)]
pub struct Found {
    /// The whole path.
    pub path: String,
    /// A regular file.
    pub regular: bool,
    /// One of the framework's own files.
    pub internal: bool,
    /// Whether the file is marked as having no local content.
    pub dehydrated: bool,
    pub cloud_id: Option<String>,
    pub size: u64,
    pub etag: Option<String>,
}

/// A finding as plain values.
#[verifier::ext_equal]
pub struct FoundModel {
    pub path: Seq<char>,
    pub regular: bool,
    pub internal: bool,
    pub dehydrated: bool,
    pub cloud_id: Option<Seq<char>>,
    pub size: u64,
    pub etag: Option<Seq<char>>,
}

impl View for Found {
    type V = FoundModel;

    open spec fn view(&self) -> FoundModel {
        FoundModel {
            path: self.path@,
            regular: self.regular,
            internal: self.internal,
            dehydrated: self.dehydrated,
            cloud_id: text::maybe(self.cloud_id),
            size: self.size,
            etag: text::maybe(self.etag),
        }
    }
}

/// Findings as plain values.
pub open spec fn findings(v: Seq<Found>) -> Seq<FoundModel> {
    v.map_values(|f: Found| f@)
}

/// Entries as plain values.
pub open spec fn entry_models(v: Seq<Entry>) -> Seq<EntryModel> {
    v.map_values(|e: Entry| e@)
}

/// A file of the user's whose content is not here.
pub open spec fn is_missing(f: FoundModel) -> bool {
    f.regular && !f.internal && f.dehydrated
}

/// A path as it is listed: relative to the root where it is under it.
pub open spec fn shortened(root: Seq<char>, path: Seq<char>) -> Seq<char> {
    match paths::relative_to(root, path) {
        Some(rel) => rel,
        None => path,
    }
}

/// The entries for the files that the cloud has, in the order found.
pub open spec fn in_the_cloud(root: Seq<char>, found: Seq<FoundModel>) -> Seq<EntryModel>
    decreases found.len(),
{
    if found.len() == 0 {
        Seq::empty()
    } else {
        let f = found.last();
        let before = in_the_cloud(root, found.drop_last());
        match f.cloud_id {
            Some(cloud_id) => if is_missing(f) {
                before.push(
                    EntryModel {
                        path: shortened(root, f.path),
                        cloud_id,
                        size: f.size,
                        etag: f.etag,
                    },
                )
            } else {
                before
            },
            None => before,
        }
    }
}

/// The files that have no content anywhere, in the order found.
pub open spec fn nowhere(root: Seq<char>, found: Seq<FoundModel>) -> Seq<Seq<char>>
    decreases found.len(),
{
    if found.len() == 0 {
        Seq::empty()
    } else {
        let f = found.last();
        let before = nowhere(root, found.drop_last());
        if is_missing(f) && f.cloud_id is None {
            before.push(shortened(root, f.path))
        } else {
            before
        }
    }
}

/// What the user is told, and what a restore can act on.
#[derive(Debug, PartialEq, Eq)]
pub struct Manifest {
    pub entries: Vec<Entry>,
    /// Without local content, and with no cloud object to fetch. Nothing can
    /// restore these, which is exactly why they are named.
    pub unrecoverable: Vec<String>,
}

/// A manifest as plain values.
#[verifier::ext_equal]
pub struct ManifestModel {
    pub entries: Seq<EntryModel>,
    pub unrecoverable: Seq<Seq<char>>,
}

impl View for Manifest {
    type V = ManifestModel;

    open spec fn view(&self) -> ManifestModel {
        ManifestModel {
            entries: entry_models(self.entries@),
            unrecoverable: text::texts(self.unrecoverable@),
        }
    }
}

/// The comment at the top of the manifest, but for the count.
pub open spec fn heading() -> Seq<Seq<char>> {
    seq![
        "# Files in this directory that were stored in the cloud and are NOT in your backup."@,
        "# Their metadata was backed up; their content was not. Sign in and re-sync to get it."@,
        "#"@,
        "# path\tcloud-id\tsize\tetag"@,
    ]
}

/// The line that counts the files.
pub open spec fn count_line(n: nat) -> Seq<char> {
    "# "@ + number::digits(n) + " file(s)"@
}

/// The line for one entry.
pub open spec fn entry_line(e: EntryModel) -> Seq<char> {
    e.path + seq!['\t'] + e.cloud_id + seq!['\t'] + number::digits(e.size as nat) + seq!['\t']
        + match e.etag {
        Some(tag) => tag,
        None => "-"@,
    }
}

/// The lines that warn of files that nothing can restore.
pub open spec fn warning(n: nat) -> Seq<Seq<char>> {
    seq![
        "#"@,
        "# WARNING: "@ + number::digits(n)
            + " file(s) below have no content locally AND no cloud object."@,
        "# Nothing can restore them. This should not happen; please report it."@,
    ]
}

/// The line for a file that nothing can restore.
pub open spec fn lost_line(path: Seq<char>) -> Seq<char> {
    "# UNRECOVERABLE\t"@ + path
}

/// The lines at the end of a manifest that names such files.
pub open spec fn lost_lines(lost: Seq<Seq<char>>) -> Seq<Seq<char>> {
    warning(lost.len()) + lost.map_values(|p: Seq<char>| lost_line(p))
}

/// The lines of a manifest.
pub open spec fn lines_of(m: ManifestModel) -> Seq<Seq<char>> {
    heading() + seq![count_line(m.entries.len())] + m.entries.map_values(
        |e: EntryModel| entry_line(e),
    ) + if m.unrecoverable.len() > 0 {
        lost_lines(m.unrecoverable)
    } else {
        Seq::empty()
    }
}

/// What one line of a manifest lists: a path, an object, a size and a tag, with
/// tabs between them; a lone hyphen stands for no tag. A comment, or a line
/// without the four, lists nothing.
pub open spec fn listed(line: Seq<char>) -> Option<(Seq<char>, RecordModel)> {
    let f = text::split(line, '\t');
    if line.len() == 0 || line[0] == '#' || f.len() < 4 || f[0].len() == 0 || f[1].len() == 0 {
        None
    } else {
        Some(
            (
                f[0],
                RecordModel {
                    cloud_id: f[1],
                    tag: if f[3] != "-"@ {
                        Some(f[3])
                    } else {
                        None
                    },
                },
            ),
        )
    }
}

/// What the lines of a manifest list. Of two lines with one path the later one
/// counts.
pub open spec fn read_back(lines: Seq<Seq<char>>) -> Map<Seq<char>, RecordModel>
    decreases lines.len(),
{
    if lines.len() == 0 {
        Map::empty()
    } else {
        match listed(lines.last()) {
            None => read_back(lines.drop_last()),
            Some((path, record)) => read_back(lines.drop_last()).insert(path, record),
        }
    }
}

fn shorten(root: &str, path: &str) -> (r: String)
    ensures
        r@ == shortened(root@, path@),
{
    match paths::relative(root, path) {
        Some(rel) => rel,
        None => path.to_owned(),
    }
}

fn write_heading() -> (out: Vec<String>)
    ensures
        text::texts(out@) == heading(),
{
    let mut out: Vec<String> = Vec::new();
    out.push("# Files in this directory that were stored in the cloud and are NOT in your backup.".to_owned());
    out.push("# Their metadata was backed up; their content was not. Sign in and re-sync to get it.".to_owned());
    out.push("#".to_owned());
    out.push("# path\tcloud-id\tsize\tetag".to_owned());
    assert(text::texts(out@) =~= heading());
    out
}

fn write_entry(e: &Entry) -> (out: String)
    ensures
        out@ == entry_line(e@),
{
    let mut out: String = e.path.as_str().to_owned();
    out.push('\t');
    out.append(e.cloud_id.as_str());
    out.push('\t');
    out.append(number::decimal(e.size).as_str());
    out.push('\t');
    match &e.etag {
        Some(tag) => {
            out.append(tag.as_str());
        },
        None => {
            out.append("-");
        },
    }
    assert(out@ =~= entry_line(e@));
    out
}

fn write_warning(n: u64) -> (out: Vec<String>)
    ensures
        text::texts(out@) == warning(n as nat),
{
    let mut out: Vec<String> = Vec::new();
    out.push("#".to_owned());
    let mut second: String = "# WARNING: ".to_owned();
    second.append(number::decimal(n).as_str());
    second.append(" file(s) below have no content locally AND no cloud object.");
    out.push(second);
    out.push("# Nothing can restore them. This should not happen; please report it.".to_owned());
    assert(text::texts(out@) =~= warning(n as nat));
    out
}

impl Manifest {
    /// Everything found in the sync directory that has no local content, in the
    /// order of the paths.
    pub fn build(root: &str, found: Vec<Found>) -> (m: Manifest)
        ensures
            m@.entries == sort::arranged::<Entry>(in_the_cloud(root@, findings(found@))),
            m@.unrecoverable == sort::arranged::<String>(nowhere(root@, findings(found@))),
    {
        let mut entries: Vec<Entry> = Vec::new();
        let mut unrecoverable: Vec<String> = Vec::new();
        let ghost all = findings(found@);
        let mut i: usize = 0;
        assert(all.take(0) =~= Seq::empty());
        assert(in_the_cloud(root@, Seq::empty()) =~= Seq::empty());
        assert(nowhere(root@, Seq::empty()) =~= Seq::empty());
        while i < found.len()
            invariant
                i <= found@.len(),
                all == findings(found@),
                entry_models(entries@) == in_the_cloud(root@, all.take(i as int)),
                text::texts(unrecoverable@) == nowhere(root@, all.take(i as int)),
            decreases found@.len() - i,
        {
            let f = &found[i];
            let ghost had = entry_models(entries@);
            let ghost lost = text::texts(unrecoverable@);
            proof {
                assert(all.take(i + 1).drop_last() =~= all.take(i as int));
                assert(all.take(i + 1).last() == f@);
            }
            if f.regular && !f.internal && f.dehydrated {
                let rel = shorten(root, f.path.as_str());
                match &f.cloud_id {
                    Some(cloud_id) => {
                        let e = Entry {
                            path: rel,
                            cloud_id: cloud_id.as_str().to_owned(),
                            size: f.size,
                            etag: text::copy_maybe(&f.etag),
                        };
                        let ghost m = e@;
                        entries.push(e);
                        assert(entry_models(entries@) =~= had.push(m));
                    },
                    None => {
                        let ghost m = rel@;
                        unrecoverable.push(rel);
                        assert(text::texts(unrecoverable@) =~= lost.push(m));
                    },
                }
            }
            i = i + 1;
        }
        assert(all.take(i as int) =~= all);
        assert(sort::models(entries@) =~= entry_models(entries@));
        assert(sort::models(unrecoverable@) =~= text::texts(unrecoverable@));
        let entries = sort::arrange(entries);
        let unrecoverable = sort::arrange(unrecoverable);
        assert(sort::models(entries@) =~= entry_models(entries@));
        assert(sort::models(unrecoverable@) =~= text::texts(unrecoverable@));
        Manifest { entries, unrecoverable }
    }

    /// The text of the manifest, human-readable on purpose.
    pub fn render(&self) -> (out: String)
        ensures
            out@ == text::lined(lines_of(self@)),
    {
        let total = self.entries.len();
        let lost = self.unrecoverable.len();
        let mut lines = write_heading();
        let mut count: String = "# ".to_owned();
        count.append(number::decimal(total as u64).as_str());
        count.append(" file(s)");
        let ghost top = heading() + seq![count_line(total as nat)];
        lines.push(count);
        assert(text::texts(lines@) =~= top);
        let ghost middle = self@.entries.map_values(|e: EntryModel| entry_line(e));
        let mut i: usize = 0;
        assert(text::texts(lines@) =~= top + middle.take(0));
        while i < total
            invariant
                i <= total,
                total == self.entries@.len(),
                middle == self@.entries.map_values(|e: EntryModel| entry_line(e)),
                text::texts(lines@) == top + middle.take(i as int),
            decreases total - i,
        {
            let ghost had = text::texts(lines@);
            lines.push(write_entry(&self.entries[i]));
            proof {
                assert(middle[i as int] == entry_line(self.entries@[i as int]@));
                assert(text::texts(lines@) =~= had.push(middle[i as int]));
                assert(had.push(middle[i as int]) =~= top + middle.take(i + 1));
            }
            i = i + 1;
        }
        assert(middle.take(i as int) =~= middle);
        if lost > 0 {
            let mut warned = write_warning(lost as u64);
            lines.append(&mut warned);
            let ghost above = top + middle + warning(lost as nat);
            let ghost below = self@.unrecoverable.map_values(|p: Seq<char>| lost_line(p));
            assert(text::texts(lines@) =~= above);
            let mut i: usize = 0;
            assert(text::texts(lines@) =~= above + below.take(0));
            while i < lost
                invariant
                    i <= lost,
                    lost == self.unrecoverable@.len(),
                    below == self@.unrecoverable.map_values(|p: Seq<char>| lost_line(p)),
                    text::texts(lines@) == above + below.take(i as int),
                decreases lost - i,
            {
                let ghost had = text::texts(lines@);
                let mut line: String = "# UNRECOVERABLE\t".to_owned();
                line.append(self.unrecoverable[i].as_str());
                lines.push(line);
                proof {
                    assert(below[i as int] == lost_line(self.unrecoverable@[i as int]@));
                    assert(text::texts(lines@) =~= had.push(below[i as int]));
                    assert(had.push(below[i as int]) =~= above + below.take(i + 1));
                }
                i = i + 1;
            }
            assert(below.take(i as int) =~= below);
            assert(above + below =~= lines_of(self@));
        } else {
            assert(text::texts(lines@) =~= lines_of(self@));
        }
        text::write_lines(&lines)
    }

    pub fn len(&self) -> (n: usize)
        ensures
            n == self@.entries.len(),
    {
        self.entries.len()
    }

    pub fn is_empty(&self) -> (b: bool)
        ensures
            b == (self@.entries.len() == 0),
    {
        self.entries.len() == 0
    }
}

/// Read the text of a manifest back as what is known of each path. A manifest
/// that is missing lists nothing.
pub fn entries(raw: Option<&str>) -> (out: Table<String, Record>)
    ensures
        lineage::records(out@) == match raw {
            Some(s) => read_back(text::lines(s@)),
            None => Map::empty(),
        },
{
    let mut out: Table<String, Record> = Table::new();
    assert(lineage::records(out@) =~= Map::empty());
    let raw = match raw {
        Some(raw) => raw,
        None => {
            return out;
        },
    };
    let lines = text::lines_of(raw);
    let ghost all = text::texts(lines@);
    let mut i: usize = 0;
    assert(lineage::records(out@) =~= read_back(all.take(0)));
    while i < lines.len()
        invariant
            i <= lines@.len(),
            all == text::texts(lines@),
            lineage::records(out@) == read_back(all.take(i as int)),
        decreases lines@.len() - i,
    {
        let ghost had = out@;
        proof {
            assert(all.take(i + 1).drop_last() =~= all.take(i as int));
            assert(all.take(i + 1).last() == lines@[i as int]@);
        }
        if let Some((path, record)) = read_line(lines[i].as_str()) {
            let ghost p = path@;
            let ghost r = record;
            out.insert(path, record);
            assert(lineage::records(out@) =~= lineage::records(had).insert(p, r@));
        }
        i = i + 1;
    }
    assert(all.take(i as int) =~= all);
    out
}

fn read_line(line: &str) -> (out: Option<(String, Record)>)
    ensures
        match out {
            Some(pair) => listed(line@) == Some((pair.0@, pair.1@)),
            None => listed(line@) is None,
        },
{
    let fields = text::split_at(line, '\t');
    let ghost f = text::split(line@, '\t');
    assert(f.len() == fields@.len());
    let chars = text::chars_of(line);
    if chars.len() == 0 || chars[0] == '#' || fields.len() < 4 {
        return None;
    }
    assert(f[0] == fields@[0]@ && f[1] == fields@[1]@ && f[3] == fields@[3]@);
    if fields[0].as_str().is_empty() || fields[1].as_str().is_empty() {
        return None;
    }
    let tag: Option<String> = if text::same(fields[3].as_str(), "-") {
        None
    } else {
        Some(fields[3].as_str().to_owned())
    };
    Some(
        (
            fields[0].as_str().to_owned(),
            Record { cloud_id: fields[1].as_str().to_owned(), tag },
        ),
    )
}

/// What to do about backups, chosen at setup. There is no safe default, so
/// there is no default.
#[derive(Debug, Clone, Copy, PartialEq, Eq, Structural)]
pub enum BackupPolicy {
    /// Set the no-dump flag and let tools that honour it skip the files.
    Exclude,
    /// Let backups read everything, pulling the whole drive down.
    Hydrate,
    /// Refuse backup tools, so they fail loudly rather than skipping quietly.
    Deny,
}

/// The sentence that a user is shown.
pub open spec fn status_text(policy: BackupPolicy, n: nat) -> Seq<char> {
    match policy {
        BackupPolicy::Exclude => if n == 0 {
            "No files are excluded from backup."@
        } else {
            number::digits(n)
                + " file(s) excluded from backup because they are stored in the cloud. See "@
                + MANIFEST_NAME@ + " to get them back."@
        },
        BackupPolicy::Hydrate => number::digits(n)
            + " cloud-only file(s) will be downloaded in full by any backup that reads them."@,
        BackupPolicy::Deny => number::digits(n)
            + " cloud-only file(s); backup tools will be refused rather than given incomplete data."@,
    }
}

/// The one sentence a user has to be shown, whichever policy is in force.
pub fn status_line(policy: BackupPolicy, dehydrated: usize) -> (out: String)
    ensures
        out@ == status_text(policy, dehydrated as nat),
{
    let mut out: String = number::decimal(dehydrated as u64);
    match policy {
        BackupPolicy::Exclude => {
            if dehydrated == 0 {
                return "No files are excluded from backup.".to_owned();
            }
            out.append(" file(s) excluded from backup because they are stored in the cloud. See ");
            out.append(MANIFEST_NAME);
            out.append(" to get them back.");
        },
        BackupPolicy::Hydrate => {
            out.append(
                " cloud-only file(s) will be downloaded in full by any backup that reads them.",
            );
        },
        BackupPolicy::Deny => {
            out.append(
                " cloud-only file(s); backup tools will be refused rather than given incomplete data.",
            );
        },
    }
    out
}

proof fn lemma_found(root: Seq<char>, found: Seq<FoundModel>, i: int)
    requires
        0 <= i < found.len(),
        is_missing(found[i]),
    ensures
        match found[i].cloud_id {
            Some(cloud_id) => in_the_cloud(root, found).contains(
                EntryModel {
                    path: shortened(root, found[i].path),
                    cloud_id,
                    size: found[i].size,
                    etag: found[i].etag,
                },
            ),
            None => nowhere(root, found).contains(shortened(root, found[i].path)),
        },
    decreases found.len(),
{
    let entries = in_the_cloud(root, found);
    let lost = nowhere(root, found);
    if i == found.len() - 1 {
        if found[i].cloud_id is Some {
            assert(entries[entries.len() - 1] == entries.last());
        } else {
            assert(lost[lost.len() - 1] == lost.last());
        }
    } else {
        let less = found.drop_last();
        lemma_found(root, less, i);
        match found[i].cloud_id {
            Some(cloud_id) => {
                let e = EntryModel {
                    path: shortened(root, found[i].path),
                    cloud_id,
                    size: found[i].size,
                    etag: found[i].etag,
                };
                let before = in_the_cloud(root, less);
                let j = choose|j: int| 0 <= j < before.len() && before[j] == e;
                assert(entries[j] == e);
            },
            None => {
                let p = shortened(root, found[i].path);
                let before = nowhere(root, less);
                let j = choose|j: int| 0 <= j < before.len() && before[j] == p;
                assert(lost[j] == p);
            },
        }
    }
}

/// Every file without local content is named: with its object where there is
/// one, and as unrecoverable where there is none.
pub proof fn law_nothing_missing_is_left_out(
    root: Seq<char>,
    found: Seq<FoundModel>,
    m: ManifestModel,
    i: int,
)
    requires
        m.entries == sort::arranged::<Entry>(in_the_cloud(root, found)),
        m.unrecoverable == sort::arranged::<String>(nowhere(root, found)),
        0 <= i < found.len(),
        is_missing(found[i]),
    ensures
        match found[i].cloud_id {
            Some(cloud_id) => m.entries.contains(
                EntryModel {
                    path: shortened(root, found[i].path),
                    cloud_id,
                    size: found[i].size,
                    etag: found[i].etag,
                },
            ),
            None => m.unrecoverable.contains(shortened(root, found[i].path)),
        },
{
    lemma_found(root, found, i);
    match found[i].cloud_id {
        Some(cloud_id) => {
            sort::lemma_arranged_contains::<Entry>(
                in_the_cloud(root, found),
                EntryModel {
                    path: shortened(root, found[i].path),
                    cloud_id,
                    size: found[i].size,
                    etag: found[i].etag,
                },
            );
        },
        None => {
            sort::lemma_arranged_contains::<String>(
                nowhere(root, found),
                shortened(root, found[i].path),
            );
        },
    }
}

/// What some entries say of each path. Of two entries with one path the later
/// one counts.
pub open spec fn known(entries: Seq<EntryModel>) -> Map<Seq<char>, RecordModel>
    decreases entries.len(),
{
    if entries.len() == 0 {
        Map::empty()
    } else {
        let e = entries.last();
        known(entries.drop_last()).insert(
            e.path,
            RecordModel { cloud_id: e.cloud_id, tag: e.etag },
        )
    }
}

/// An entry that a line can hold.
pub open spec fn fits_a_line(e: EntryModel) -> bool {
    &&& e.path.len() > 0
    &&& e.path[0] != '#'
    &&& !e.path.contains('\t')
    &&& !e.path.contains('\n')
    &&& e.cloud_id.len() > 0
    &&& !e.cloud_id.contains('\t')
    &&& !e.cloud_id.contains('\n')
    &&& e.etag matches Some(tag) ==> {
        &&& tag != "-"@
        &&& text::chomp(tag) == tag
        &&& !tag.contains('\t')
        &&& !tag.contains('\n')
    }
}

/// A line that is a comment and stays one line.
spec fn is_comment(s: Seq<char>) -> bool {
    s.len() > 1 && s[0] == '#' && !s.contains('\n')
}

proof fn lemma_comment(s: Seq<char>)
    requires
        is_comment(s) || s == "#"@,
    ensures
        !s.contains('\n'),
        listed(text::chomp(s)) is None,
{
    reveal_strlit("#");
}

proof fn lemma_entry_line(e: EntryModel)
    requires
        fits_a_line(e),
    ensures
        !entry_line(e).contains('\n'),
        listed(text::chomp(entry_line(e))) == Some(
            (e.path, RecordModel { cloud_id: e.cloud_id, tag: e.etag }),
        ),
{
    reveal_strlit("-");
    let tag = match e.etag {
        Some(tag) => tag,
        None => "-"@,
    };
    let size = number::digits(e.size as nat);
    number::lemma_digits(e.size as nat);
    let line = entry_line(e);
    let tail = size + seq!['\t'] + tag;
    let rest = e.cloud_id + seq!['\t'] + tail;
    assert(line =~= e.path + seq!['\t'] + rest);
    text::lemma_split_cons(e.path, '\t', rest);
    text::lemma_split_cons(e.cloud_id, '\t', tail);
    text::lemma_split_cons(size, '\t', tag);
    text::lemma_split_whole(tag, '\t');
    assert(text::split(line, '\t') =~= seq![e.path, e.cloud_id, size, tag]);
    assert(line[0] == e.path[0]);
    assert(text::chomp(line) == line) by {
        if tag.len() > 0 {
            assert(line.last() == tag.last());
        } else {
            assert(line.last() == '\t');
        }
    }
    let a = e.path.len();
    let b = a + 1 + e.cloud_id.len();
    let c = b + 1 + size.len();
    assert forall|i: int| 0 <= i < line.len() implies line[i] != '\n' by {
        if i < a {
            assert(e.path.contains(line[i]));
        } else if a < i < b {
            assert(line[i] == e.cloud_id[i - a - 1]);
            assert(e.cloud_id.contains(line[i]));
        } else if b < i < c {
            assert(line[i] == size[i - b - 1]);
        } else if i > c {
            assert(line[i] == tag[i - c - 1]);
            assert(tag.contains(line[i]));
        }
    }
}

proof fn lemma_top(n: nat)
    ensures
        forall|i: int|
            0 <= i < heading().len() + 1 ==> {
                let s = #[trigger] (heading() + seq![count_line(n)])[i];
                is_comment(s) || s == "#"@
            },
{
    reveal_strlit("# Files in this directory that were stored in the cloud and are NOT in your backup.");
    reveal_strlit("# Their metadata was backed up; their content was not. Sign in and re-sync to get it.");
    reveal_strlit("#");
    reveal_strlit("# path\tcloud-id\tsize\tetag");
    reveal_strlit("# ");
    reveal_strlit(" file(s)");
    number::lemma_digits(n);
    let top = heading() + seq![count_line(n)];
    assert forall|i: int| 0 <= i < heading().len() + 1 implies {
        let s = #[trigger] top[i];
        is_comment(s) || s == "#"@
    } by {
        let s = top[i];
        if i == 4 {
            let d = number::digits(n);
            assert(s[0] == '#');
            assert forall|j: int| 0 <= j < s.len() implies s[j] != '\n' by {
                if 2 <= j < 2 + d.len() {
                    assert(s[j] == d[j - 2]);
                } else if j >= 2 + d.len() {
                    assert(s[j] == " file(s)"@[j - 2 - d.len()]);
                }
            }
        } else {
            assert forall|j: int| 0 <= j < s.len() implies s[j] != '\n' by {}
        }
    }
}

proof fn lemma_bottom(lost: Seq<Seq<char>>)
    requires
        forall|i: int| 0 <= i < lost.len() ==> !(#[trigger] lost[i]).contains('\n'),
    ensures
        forall|i: int|
            0 <= i < 3 + lost.len() ==> {
                let s = #[trigger] lost_lines(lost)[i];
                is_comment(s) || s == "#"@
            },
{
    reveal_strlit("# WARNING: ");
    reveal_strlit(" file(s) below have no content locally AND no cloud object.");
    reveal_strlit("# Nothing can restore them. This should not happen; please report it.");
    reveal_strlit("# UNRECOVERABLE\t");
    let n = lost.len();
    number::lemma_digits(n);
    let all = lost_lines(lost);
    assert forall|i: int| 0 <= i < 3 + lost.len() implies {
        let s = #[trigger] all[i];
        is_comment(s) || s == "#"@
    } by {
        let s = all[i];
        if i == 1 {
            let d = number::digits(n);
            let head = "# WARNING: "@;
            let tail = " file(s) below have no content locally AND no cloud object."@;
            assert(s == head + d + tail);
            assert forall|j: int| 0 <= j < s.len() implies s[j] != '\n' by {
                if j < head.len() {
                    assert(s[j] == head[j]);
                } else if j < head.len() + d.len() {
                    assert(s[j] == d[j - head.len()]);
                } else {
                    assert(s[j] == tail[j - head.len() - d.len()]);
                }
            }
            assert(s[0] == head[0]);
        } else if i == 2 {
            assert forall|j: int| 0 <= j < s.len() implies s[j] != '\n' by {}
        } else if i > 2 {
            let head = "# UNRECOVERABLE\t"@;
            let p = lost[i - 3];
            assert(s == head + p);
            assert forall|j: int| 0 <= j < s.len() implies s[j] != '\n' by {
                if j < head.len() {
                    assert(s[j] == head[j]);
                } else {
                    assert(s[j] == p[j - head.len()]);
                    assert(p.contains(s[j]));
                }
            }
            assert(s[0] == head[0]);
        }
    }
}

proof fn lemma_reads_entries(entries: Seq<EntryModel>, top: Seq<Seq<char>>)
    requires
        forall|i: int| 0 <= i < entries.len() ==> fits_a_line(#[trigger] entries[i]),
        forall|i: int| 0 <= i < top.len() ==> listed(text::chomp(#[trigger] top[i])) is None,
    ensures
        read_back(
            (top + entries.map_values(|e: EntryModel| entry_line(e))).map_values(
                |s: Seq<char>| text::chomp(s),
            ),
        ) == known(entries),
    decreases entries.len() + top.len(),
{
    let lines = top + entries.map_values(|e: EntryModel| entry_line(e));
    let read = lines.map_values(|s: Seq<char>| text::chomp(s));
    if entries.len() > 0 {
        let e = entries.last();
        let less = entries.drop_last();
        lemma_entry_line(entries[entries.len() - 1]);
        lemma_reads_entries(less, top);
        let before = (top + less.map_values(|e: EntryModel| entry_line(e))).map_values(
            |s: Seq<char>| text::chomp(s),
        );
        assert(read.drop_last() =~= before);
        assert(read.last() == text::chomp(entry_line(e)));
    } else if top.len() > 0 {
        let less = top.drop_last();
        lemma_reads_entries(entries, less);
        let before = (less + entries.map_values(|e: EntryModel| entry_line(e))).map_values(
            |s: Seq<char>| text::chomp(s),
        );
        assert(read.drop_last() =~= before);
        assert(read.last() == text::chomp(top[top.len() - 1]));
    }
}

proof fn lemma_reads_past(lines: Seq<Seq<char>>, bottom: Seq<Seq<char>>)
    requires
        forall|i: int| 0 <= i < bottom.len() ==> listed(text::chomp(#[trigger] bottom[i])) is None,
    ensures
        read_back((lines + bottom).map_values(|s: Seq<char>| text::chomp(s))) == read_back(
            lines.map_values(|s: Seq<char>| text::chomp(s)),
        ),
    decreases bottom.len(),
{
    let f = |s: Seq<char>| text::chomp(s);
    let read = (lines + bottom).map_values(f);
    if bottom.len() > 0 {
        let less = bottom.drop_last();
        lemma_reads_past(lines, less);
        assert(read.drop_last() =~= (lines + less).map_values(f));
        assert(read.last() == text::chomp(bottom[bottom.len() - 1]));
    } else {
        assert(lines + bottom =~= lines);
    }
}

/// A manifest reads back as what it lists, where every entry fits a line and no
/// unrecoverable path breaks one.
pub proof fn law_a_manifest_reads_back(m: ManifestModel)
    requires
        forall|i: int| 0 <= i < m.entries.len() ==> fits_a_line(#[trigger] m.entries[i]),
        forall|i: int|
            0 <= i < m.unrecoverable.len() ==> !(#[trigger] m.unrecoverable[i]).contains('\n'),
    ensures
        read_back(text::lines(text::lined(lines_of(m)))) == known(m.entries),
{
    let top = heading() + seq![count_line(m.entries.len())];
    let middle = m.entries.map_values(|e: EntryModel| entry_line(e));
    let bottom = if m.unrecoverable.len() > 0 {
        lost_lines(m.unrecoverable)
    } else {
        Seq::empty()
    };
    let all = lines_of(m);
    assert(all =~= top + middle + bottom);
    lemma_top(m.entries.len());
    lemma_bottom(m.unrecoverable);
    assert forall|i: int| 0 <= i < top.len() implies listed(text::chomp(#[trigger] top[i])) is None
        && !top[i].contains('\n') by {
        lemma_comment(top[i]);
    }
    assert forall|i: int| 0 <= i < bottom.len() implies listed(
        text::chomp(#[trigger] bottom[i]),
    ) is None && !bottom[i].contains('\n') by {
        lemma_comment(bottom[i]);
    }
    assert forall|i: int| 0 <= i < all.len() implies !(#[trigger] all[i]).contains('\n') by {
        if i < top.len() {
            assert(all[i] == top[i]);
        } else if i < top.len() + middle.len() {
            lemma_entry_line(m.entries[i - top.len()]);
            assert(all[i] == entry_line(m.entries[i - top.len()]));
        } else {
            assert(all[i] == bottom[i - top.len() - middle.len()]);
        }
    }
    text::lemma_lined_chomped(all);
    lemma_reads_past(top + middle, bottom);
    lemma_reads_entries(m.entries, top);
}

/// Which files of a walk the manifest speaks of: the regular files that are not the
/// library's own and have no content here. Those that are an object are entered
/// with it, by their path below the root, with their size and version; those that
/// are none are told of as lost. A walk in two parts gives what the first gives and
/// then what the second gives.
pub proof fn law_each_file_is_entered_by_itself(
    root: Seq<char>,
    first: Seq<FoundModel>,
    second: Seq<FoundModel>,
    x: FoundModel,
)
    ensures
        in_the_cloud(root, first + second) == in_the_cloud(root, first) + in_the_cloud(
            root,
            second,
        ),
        nowhere(root, first + second) == nowhere(root, first) + nowhere(root, second),
        !x.regular || x.internal || !x.dehydrated ==> in_the_cloud(root, seq![x]).len() == 0
            && nowhere(root, seq![x]).len() == 0,
        x.regular && !x.internal && x.dehydrated ==> {
            let path = match paths::relative_to(root, x.path) {
                Some(rel) => rel,
                None => x.path,
            };
            match x.cloud_id {
                Some(cloud_id) => in_the_cloud(root, seq![x]) == seq![
                    EntryModel { path, cloud_id, size: x.size, etag: x.etag },
                ] && nowhere(root, seq![x]).len() == 0,
                None => nowhere(root, seq![x]) == seq![path] && in_the_cloud(root, seq![x]).len()
                    == 0,
            }
        },
    decreases second.len(),
{
    let one = seq![x];
    assert(one.drop_last() =~= Seq::empty());
    assert(in_the_cloud(root, one.drop_last()) =~= Seq::empty());
    assert(nowhere(root, one.drop_last()) =~= Seq::empty());
    let path = shortened(root, x.path);
    assert(Seq::<Seq<char>>::empty().push(path) =~= seq![path]);
    if let Some(cloud_id) = x.cloud_id {
        let e = EntryModel { path, cloud_id, size: x.size, etag: x.etag };
        assert(Seq::<EntryModel>::empty().push(e) =~= seq![e]);
    }
    let both = first + second;
    if second.len() == 0 {
        assert(both =~= first);
        assert(in_the_cloud(root, both) =~= in_the_cloud(root, first) + in_the_cloud(root, second));
        assert(nowhere(root, both) =~= nowhere(root, first) + nowhere(root, second));
    } else {
        let less = second.drop_last();
        law_each_file_is_entered_by_itself(root, first, less, x);
        assert(both.drop_last() =~= first + less);
        assert(both.last() == second.last());
        assert(in_the_cloud(root, both) =~= in_the_cloud(root, first) + in_the_cloud(root, second));
        assert(nowhere(root, both) =~= nowhere(root, first) + nowhere(root, second));
    }
}

/// The entry of a file is one line of four fields: its path, its object, its size
/// in digits, and its version or a dash.
pub proof fn law_an_entry_is_a_line_of_four_fields(e: EntryModel)
    requires
        !e.path.contains('\t'),
        !e.cloud_id.contains('\t'),
        e.etag matches Some(tag) ==> !tag.contains('\t'),
    ensures
        text::split(entry_line(e), '\t') == seq![
            e.path,
            e.cloud_id,
            number::digits(e.size as nat),
            match e.etag {
                Some(tag) => tag,
                None => seq!['-'],
            },
        ],
{
    reveal_strlit("-");
    assert("-"@ =~= seq!['-']);
    number::lemma_digits(e.size as nat);
    let d = number::digits(e.size as nat);
    assert(!d.contains('\t')) by {
        if d.contains('\t') {
            let i = choose|i: int| 0 <= i < d.len() && d[i] == '\t';
            assert('0' <= d[i] <= '9');
        }
    }
    let tag = match e.etag {
        Some(tag) => tag,
        None => seq!['-'],
    };
    assert(!seq!['-'].contains('\t'));
    let t = seq!['\t'];
    assert(entry_line(e) =~= e.path + t + (e.cloud_id + t + (d + t + tag)));
    text::lemma_split_cons(e.path, '\t', e.cloud_id + t + (d + t + tag));
    text::lemma_split_cons(e.cloud_id, '\t', d + t + tag);
    text::lemma_split_cons(d, '\t', tag);
    text::lemma_split_whole(tag, '\t');
    assert(text::split(entry_line(e), '\t') =~= seq![e.path, e.cloud_id, d, tag]);
}

/// A line of at least four fields, with a path and an object, is read as what it
/// says: a dash is no version. Any other line, and a comment, says nothing.
pub proof fn law_a_manifest_line_is_read_as_what_it_says(line: Seq<char>)
    ensures
        ({
            let f = text::split(line, '\t');
            &&& line.len() > 0 && line[0] == '#' ==> listed(line) is None
            &&& f.len() < 4 || f[0].len() == 0 || f[1].len() == 0 ==> listed(line) is None
            &&& line.len() > 0 && line[0] != '#' && f.len() >= 4 && f[0].len() > 0 && f[1].len() > 0
                ==> listed(line) == Some(
                (
                    f[0],
                    RecordModel {
                        cloud_id: f[1],
                        tag: if f[3] == seq!['-'] {
                            None
                        } else {
                            Some(f[3])
                        },
                    },
                ),
            )
        }),
{
    reveal_strlit("-");
    assert("-"@ =~= seq!['-']);
    text::lemma_split_join(line, '\t');
    if line.len() == 0 {
        text::lemma_split_whole(line, '\t');
    }
}

/// Lines are read one after another, and where two speak of one path the later one
/// stands.
pub proof fn law_later_entries_stand(
    first: Seq<Seq<char>>,
    second: Seq<Seq<char>>,
    line: Seq<char>,
)
    ensures
        read_back(first + second) == read_back(first).union_prefer_right(read_back(second)),
        listed(line) is None ==> read_back(seq![line]) == Map::<Seq<char>, RecordModel>::empty(),
        listed(line) matches Some((path, record)) ==> read_back(seq![line]) == map![path => record],
    decreases second.len(),
{
    let one = seq![line];
    assert(one.drop_last() =~= Seq::empty());
    assert(read_back(one.drop_last()) =~= Map::empty());
    if let Some((path, record)) = listed(line) {
        assert(read_back(one) =~= map![path => record]);
    }
    let both = first + second;
    if second.len() == 0 {
        assert(both =~= first);
        assert(read_back(both) =~= read_back(first).union_prefer_right(read_back(second)));
    } else {
        let less = second.drop_last();
        law_later_entries_stand(first, less, line);
        assert(both.drop_last() =~= first + less);
        assert(both.last() == second.last());
        assert(read_back(both) =~= read_back(first).union_prefer_right(read_back(second)));
    }
}

/// A manifest has one line for each entry, in order, below its heading; and where
/// something is lost, a warning that counts it and one line for each.
pub proof fn law_a_manifest_has_a_line_for_each(m: ManifestModel, i: int, j: int)
    requires
        0 <= i < m.entries.len(),
        0 <= j < m.unrecoverable.len(),
    ensures
        lines_of(m).len() == 8 + m.entries.len() + m.unrecoverable.len(),
        lines_of(m)[5 + i] == entry_line(m.entries[i]),
        lines_of(m)[8 + m.entries.len() + j] == "# UNRECOVERABLE\t"@ + m.unrecoverable[j],
        lines_of(ManifestModel { unrecoverable: Seq::empty(), ..m }) == lines_of(m).take(
            5 + m.entries.len() as int,
        ),
{
    let less = ManifestModel { unrecoverable: Seq::empty(), ..m };
    assert(lines_of(less) =~= lines_of(m).take(5 + m.entries.len() as int));
}

/// What a user is told of the files that are only in the cloud starts with how many
/// there are, but for a policy that leaves them out where there are none.
pub proof fn law_the_status_counts_what_is_missing(policy: BackupPolicy, n: nat)
    requires
        n > 0 || !(policy is Exclude),
    ensures
        number::digits(n).is_prefix_of(status_text(policy, n)),
{
    assert(number::digits(n).is_prefix_of(status_text(policy, n)));
}

/// The entries of a manifest stand in the order of their paths.
pub proof fn law_entries_stand_in_the_order_of_their_paths(s: Seq<EntryModel>, i: int, j: int)
    requires
        0 <= i < j < s.len(),
    ensures
        sort::arranged::<Entry>(s).len() == s.len(),
        sort::arranged::<Entry>(s)[i].path == sort::arranged::<Entry>(s)[j].path || text::before(
            sort::arranged::<Entry>(s)[i].path,
            sort::arranged::<Entry>(s)[j].path,
        ),
        sort::arranged::<Entry>(s).to_multiset() == s.to_multiset(),
{
    sort::lemma_arranged::<Entry>(s);
    let a = sort::arranged::<Entry>(s)[i];
    let b = sort::arranged::<Entry>(s)[j];
    text::lemma_before_total(a.path, b.path);
    assert(!Entry::ahead(b, a));
}

/// A manifest counts its entries below its heading, and a warning counts what is
/// lost.
pub proof fn law_a_manifest_counts_what_it_lists(m: ManifestModel)
    ensures
        lines_of(m).len() >= 5,
        ("# "@ + number::digits(m.entries.len())).is_prefix_of(lines_of(m)[4]),
        m.unrecoverable.len() == 0 ==> lines_of(m).len() == 5 + m.entries.len(),
        m.unrecoverable.len() > 0 ==> ("# WARNING: "@ + number::digits(
            m.unrecoverable.len(),
        )).is_prefix_of(lines_of(m)[6 + m.entries.len() as int]),
{
    assert(lines_of(m)[4] == count_line(m.entries.len()));
    assert(("# "@ + number::digits(m.entries.len())).is_prefix_of(count_line(m.entries.len())));
    if m.unrecoverable.len() > 0 {
        let n = m.unrecoverable.len();
        let w = lines_of(m)[6 + m.entries.len() as int];
        assert(w == warning(n)[1]);
        assert(("# WARNING: "@ + number::digits(n)).is_prefix_of(w));
    }
}

} // verus!
