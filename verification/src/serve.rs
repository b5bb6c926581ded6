//! Answering the helper: which object a file's content is fetched from, and what
//! is refused.

use crate::number;
use crate::store;
use crate::store::{Entry, EntryModel, Facts, FactsModel, Store, StoreModel, Visited};
use crate::table::FileId;
use crate::text;
use vstd::prelude::*;
use vstd::string::*;

verus! {

/// The error number for a fetch that fails.
pub const EIO: i32 = 5;

/// The error number for a file that has no remote copy to fetch.
pub const ENODATA: i32 = 61;

/// Why a fetch could not be served.
#[derive(Debug, Clone, Copy, PartialEq, Eq, Structural)]
pub enum Refusal {
    /// The helper named a file that is not known here.
    Unknown,
    /// A file that exists locally and was never uploaded. There is nothing to
    /// fetch: the content is already the only copy.
    NeverUploaded,
}

/// A reply that a fetch failed.
#[derive(Debug, PartialEq, Eq)]
pub struct Failed {
    pub id: u64,
    pub errno: i32,
    pub reason: String,
}

impl Refusal {
    /// The reply for a refusal. A file that was never uploaded is fine, and its
    /// reader is told the difference.
    pub fn into_response(self, id: u64) -> (r: Failed)
        ensures
            r.id == id,
            r.errno == match self {
                Refusal::Unknown => EIO,
                Refusal::NeverUploaded => ENODATA,
            },
            r.reason@ == match self {
                Refusal::Unknown => "no such file in this sync directory"@,
                Refusal::NeverUploaded => {
                    "the file has never been uploaded; the local copy is the only one"@
                },
            },
    {
        match self {
            Refusal::Unknown => Failed {
                id,
                errno: EIO,
                reason: "no such file in this sync directory".to_owned(),
            },
            Refusal::NeverUploaded => Failed {
                id,
                errno: ENODATA,
                reason: "the file has never been uploaded; the local copy is the only one"
                    .to_owned(),
            },
        }
    }
}

/// The object that a file's content is fetched from.
#[derive(Debug, PartialEq, Eq)]
pub struct Source {
    pub cloud_id: String,
    pub size: u64,
    pub tag: Option<String>,
}

/// A source over texts.
#[verifier::ext_equal]
pub struct SourceModel {
    pub cloud_id: Seq<char>,
    pub size: u64,
    pub tag: Option<Seq<char>>,
}

impl View for Source {
    type V = SourceModel;

    open spec fn view(&self) -> SourceModel {
        SourceModel { cloud_id: self.cloud_id@, size: self.size, tag: text::maybe(self.tag) }
    }
}

/// What the index has for a file.
pub open spec fn maybe_entry(e: Option<Entry>) -> Option<EntryModel> {
    match e {
        Some(e) => Some(e@),
        None => None,
    }
}

/// The object for what the index has, or why there is none.
pub open spec fn source_of(e: Option<EntryModel>) -> Result<SourceModel, Refusal> {
    match e {
        None => Err(Refusal::Unknown),
        Some(e) => match e.cloud_id {
            None => Err(Refusal::NeverUploaded),
            Some(cloud_id) => Ok(SourceModel { cloud_id, size: e.size, tag: e.etag }),
        },
    }
}

/// Find the object for what the index has.
pub fn resolve(entry: Option<Entry>) -> (r: Result<Source, Refusal>)
    ensures
        source_of(maybe_entry(entry)) == match r {
            Ok(s) => Ok(s@),
            Err(why) => Err(why),
        },
{
    match entry {
        None => Err(Refusal::Unknown),
        Some(e) => match e.cloud_id {
            None => Err(Refusal::NeverUploaded),
            Some(cloud_id) => Ok(Source { cloud_id, size: e.size, tag: e.etag }),
        },
    }
}

/// A part of an object that a reader asked for.
#[derive(Debug, Clone, Copy, PartialEq, Eq, Structural)]
pub struct Span {
    pub offset: u64,
    pub len: u64,
}

/// How a fetch is answered.
#[derive(Debug, PartialEq, Eq)]
pub enum Answer {
    /// Fetch this part of the object: no more and no less.
    Serve { source: Source, span: Span },
    Fail(Failed),
}

/// The reason for refusing a part that runs off the end of the object.
pub open spec fn too_far(span: Span, size: u64) -> Seq<char> {
    "asked for "@ + number::digits(span.offset as nat) + ".."@ + number::digits(
        (span.offset + span.len) as nat,
    ) + " of an object this daemon has as "@ + number::digits(size as nat) + " bytes"@
}

/// Whether a reply is the one for what the index has.
pub open spec fn is_answer(r: Answer, id: u64, entry: Option<EntryModel>, span: Span) -> bool {
    match source_of(entry) {
        Err(why) => r matches Answer::Fail(f) && f.id == id && f.errno == match why {
            Refusal::Unknown => EIO,
            Refusal::NeverUploaded => ENODATA,
        } && f.reason@ == match why {
            Refusal::Unknown => "no such file in this sync directory"@,
            Refusal::NeverUploaded => {
                "the file has never been uploaded; the local copy is the only one"@
            },
        },
        Ok(s) => if span.offset + span.len > s.size {
            r matches Answer::Fail(f) && f.id == id && f.errno == EIO && f.reason@ == too_far(
                span,
                s.size,
            )
        } else {
            r matches Answer::Serve { source, span: part } && source@ == s && part == span
        },
    }
}

/// Answer a request for a part of a file. One that runs off the end of what the
/// object is known to be is refused and not cut short: a reader who gets less
/// than it asked for would read zeros.
pub fn answer(id: u64, entry: Option<Entry>, span: Span) -> (r: Answer)
    requires
        span.offset + span.len <= u64::MAX,
    ensures
        is_answer(r, id, maybe_entry(entry), span),
{
    let source = match resolve(entry) {
        Ok(source) => source,
        Err(why) => {
            return Answer::Fail(why.into_response(id));
        },
    };
    let end: u64 = span.offset + span.len;
    if end > source.size {
        let mut reason: String = "asked for ".to_owned();
        reason.append(number::decimal(span.offset).as_str());
        reason.append("..");
        reason.append(number::decimal(end).as_str());
        reason.append(" of an object this daemon has as ");
        reason.append(number::decimal(source.size).as_str());
        reason.append(" bytes");
        return Answer::Fail(Failed { id, errno: EIO, reason });
    }
    Answer::Serve { source, span }
}

/// What a file said, if it could be looked at.
pub open spec fn maybe_facts(facts: Option<&Facts>) -> Option<FactsModel> {
    match facts {
        Some(f) => Some(f@),
        None => None,
    }
}

/// A helper's request for a part of a file.
#[derive(Debug, Clone, Copy, PartialEq, Eq, Structural)]
pub struct Request {
    pub id: u64,
    pub file: FileId,
    pub span: Span,
}

/// The side that serves a helper.
pub struct Daemon {
    store: Store,
    root: String,
    /// Mounts other than the sync directory's own that expose its files, as the
    /// helper last reported them.
    exposures: Vec<String>,
}

/// The serving side over texts.
#[verifier::ext_equal]
pub struct DaemonModel {
    pub store: StoreModel,
    pub root: Seq<char>,
    pub exposures: Seq<Seq<char>>,
}

impl View for Daemon {
    type V = DaemonModel;

    closed spec fn view(&self) -> DaemonModel {
        DaemonModel {
            store: self.store@,
            root: self.root@,
            exposures: text::texts(self.exposures@),
        }
    }
}

impl Daemon {
    /// Serve a directory, given a walk of it; nothing where the walk did not
    /// reach its end.
    pub fn new(root: &str, walk: &Vec<Visited>, whole: bool) -> (r: Option<Daemon>)
        ensures
            match r {
                None => !whole,
                Some(d) => whole && d@ == (DaemonModel {
                    store: StoreModel {
                        index: store::indexed(store::visits(walk@)),
                        root: Some(root@),
                        lineage: None,
                        writes: false,
                    },
                    root: root@,
                    exposures: Seq::empty(),
                }),
            },
    {
        let mut store = Store::new();
        if store.scan(root, None, walk, whole).is_none() {
            return None;
        }
        let d = Daemon { store, root: root.to_owned(), exposures: Vec::new() };
        assert(d@.exposures =~= Seq::empty());
        Some(d)
    }

    pub fn store(&self) -> (s: &Store)
        ensures
            s@ == self@.store,
    {
        &self.store
    }

    pub fn store_mut(&mut self) -> (s: &mut Store)
        ensures
            s@ == old(self)@.store,
            final(self)@ == (DaemonModel { store: final(s)@, ..old(self)@ }),
    {
        &mut self.store
    }

    /// Mounts other than the sync directory's own that can reach its files.
    /// Reading through one of them goes past hydration and gives zeros, so more
    /// than none is something the user has to be told.
    pub fn exposures(&self) -> (v: &Vec<String>)
        ensures
            text::texts(v@) == self@.exposures,
    {
        &self.exposures
    }

    /// The helper reported which mounts expose the files now.
    pub fn exposed(&mut self, mounts: Vec<String>)
        ensures
            final(self)@ == (DaemonModel { exposures: text::texts(mounts@), ..old(self)@ }),
    {
        self.exposures = mounts;
    }

    /// Whether the directory has to be walked again before a file is refused: a
    /// file that was created after the last walk is not in the index.
    pub fn wants_rescan(&self, file: &FileId, facts: Option<&Facts>) -> (b: bool)
        ensures
            b == (self@.store.resolved(*file, maybe_facts(facts)) is None),
    {
        self.store.lookup(file, facts).is_none()
    }

    /// Take in a new walk of the directory, and the text of the record of
    /// identities for a store that reads it.
    pub fn rescan(&mut self, raw: Option<&str>, walk: &Vec<Visited>, whole: bool) -> (found: Option<
        usize,
    >)
        ensures
            final(self)@ == (DaemonModel {
                store: StoreModel {
                    index: store::indexed(store::visits(walk@)),
                    root: Some(old(self)@.root),
                    lineage: if old(self)@.store.lineage is Some {
                        Some(
                            store::lineage_after(
                                old(self)@.root,
                                match raw {
                                    Some(s) => Some(s@),
                                    None => None,
                                },
                                store::visits(walk@),
                                whole,
                            ),
                        )
                    } else {
                        None
                    },
                    writes: old(self)@.store.writes,
                },
                ..old(self)@
            }),
            found == if whole {
                Some(store::counted(store::visits(walk@)) as usize)
            } else {
                None
            },
    {
        let root = self.root.as_str().to_owned();
        self.store.scan(root.as_str(), raw, walk, whole)
    }

    /// Answer a request, given what the file says now.
    pub fn serve(&self, req: &Request, facts: Option<&Facts>) -> (r: Answer)
        requires
            req.span.offset + req.span.len <= u64::MAX,
        ensures
            is_answer(
                r,
                req.id,
                self@.store.resolved(req.file, maybe_facts(facts)),
                req.span,
            ),
    {
        answer(req.id, self.store.lookup(&req.file, facts), req.span)
    }
}

/// A file is fetched only from the object that its own entry names, and never in
/// part: what is served is the part that was asked for, and lies within the
/// object.
pub proof fn law_a_part_is_served_whole(r: Answer, id: u64, e: Option<EntryModel>, span: Span)
    requires
        is_answer(r, id, e, span),
        r is Serve,
    ensures
        e is Some,
        Some(r->source@.cloud_id) == e->0.cloud_id,
        r->span == span,
        span.offset + span.len <= e->0.size,
{
}

/// A part of a file that has a remote copy is served exactly when it ends no later
/// than the object does: from the object that the entry names, with the size and
/// the version that the entry has, and as the part that was asked for. It does not
/// matter where in the object the part stands.
pub proof fn law_every_part_within_the_object_is_served(
    r: Answer,
    id: u64,
    e: EntryModel,
    cloud_id: Seq<char>,
    span: Span,
)
    requires
        is_answer(r, id, Some(e), span),
        e.cloud_id == Some(cloud_id),
    ensures
        r is Serve <==> span.offset + span.len <= e.size,
        r is Serve ==> r->source.cloud_id@ == cloud_id && r->source.size == e.size && text::maybe(
            r->source.tag,
        ) == e.etag && r->span == span,
        r is Fail ==> r->Fail_0.id == id && r->Fail_0.errno == 5,
{
}

/// A fetch fails for three reasons and no other: the file is not known, it was
/// never uploaded, or the part ends past the object. The reply carries the number
/// of the request, and the reader of a file that was never uploaded is told so.
pub proof fn law_a_fetch_fails_only_for_a_reason(
    r: Answer,
    id: u64,
    e: Option<EntryModel>,
    span: Span,
)
    requires
        is_answer(r, id, e, span),
    ensures
        r is Fail <==> (e is None || e->0.cloud_id is None || span.offset + span.len > e->0.size),
        e is None ==> r->Fail_0.reason@ == "no such file in this sync directory"@,
        e is Some && e->0.cloud_id is None ==> r->Fail_0.reason@
            == "the file has never been uploaded; the local copy is the only one"@,
        r is Fail ==> r->Fail_0.id == id,
        r is Fail && r->Fail_0.errno == 61 <==> (e is Some && e->0.cloud_id is None),
        r is Fail && r->Fail_0.errno == 5 <==> (e is None || (e->0.cloud_id is Some && span.offset
            + span.len > e->0.size)),
{
}

/// Two parts that follow each other are both served if and only if the part that
/// they make up is, and all three from one object.
pub proof fn law_adjoining_parts_are_served_alike(
    first: Answer,
    second: Answer,
    both: Answer,
    id: u64,
    e: Option<EntryModel>,
    offset: u64,
    a: u64,
    b: u64,
)
    requires
        offset + a + b <= u64::MAX,
        is_answer(first, id, e, Span { offset, len: a }),
        is_answer(second, id, e, Span { offset: (offset + a) as u64, len: b }),
        is_answer(both, id, e, Span { offset, len: (a + b) as u64 }),
    ensures
        both is Serve <==> (first is Serve && second is Serve),
        both is Serve ==> first->source@ == both->source@ && second->source@ == both->source@,
{
}

/// A file that the index has, and that says what it is now, is answered from what
/// it says. One that lost its attributes is answered from what is remembered of
/// it. The directory is walked again only for a file that the index does not have
/// or that is no longer there.
pub proof fn law_a_known_file_is_answered(
    d: DaemonModel,
    file: FileId,
    f: FactsModel,
    r: Answer,
    id: u64,
    span: Span,
)
    requires
        is_answer(r, id, d.store.resolved(file, Some(f)), span),
        d.store.index.dom().contains(file),
        f.id == file,
        span.offset + span.len <= f.size,
    ensures
        d.store.resolved(file, Some(f)) is Some,
        f.cloud_id matches Some(c) ==> r is Serve && r->source.cloud_id@ == c && text::maybe(
            r->source.tag,
        ) == f.etag && r->source.size == f.size && r->span == span,
        f.cloud_id is None ==> match d.store.remembered(d.store.index[file]) {
            Some(k) => r is Serve && r->source.cloud_id@ == k.cloud_id && text::maybe(r->source.tag)
                == k.tag && r->source.size == f.size && r->span == span,
            None => r is Fail && r->Fail_0.errno == 61,
        },
{
}

} // verus!
