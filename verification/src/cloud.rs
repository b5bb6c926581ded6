//! A cloud that a harness can steer.

use crate::conformance;
use crate::conformance::{CloudObject, CloudOp, FetchBehaviour, ObjectModel, OpModel};
use crate::number;
use crate::serve::Span;
use crate::table;
use crate::table::{FileId, Key, Table};
use crate::text;
use crate::upload::Uploaded;
use vstd::prelude::*;
use vstd::string::*;

verus! {

/// What the cloud holds, and how it is to behave.
pub struct State {
    pub objects: Table<String, CloudObject>,
    pub ops: Vec<CloudOp>,
    pub next_id: u32,
    pub fetch: Table<String, FetchBehaviour>,
    /// Uploads are let in but not let out, so that a rename or a delete can be
    /// made to land inside the window.
    pub holding: bool,
    /// Set the moment an upload enters.
    pub upload_entered: bool,
}

/// The state over texts.
#[verifier::ext_equal]
pub struct StateModel {
    pub objects: Map<Seq<char>, ObjectModel>,
    pub ops: Seq<OpModel>,
    pub next_id: u32,
    pub fetch: Map<Seq<char>, FetchBehaviour>,
    pub holding: bool,
    pub upload_entered: bool,
}

/// Objects over texts.
pub open spec fn object_map(m: Map<Seq<char>, CloudObject>) -> Map<Seq<char>, ObjectModel> {
    m.map_values(|o: CloudObject| o@)
}

impl View for State {
    type V = StateModel;

    open spec fn view(&self) -> StateModel {
        StateModel {
            objects: object_map(self.objects@),
            ops: conformance::op_models(self.ops@),
            next_id: self.next_id,
            fetch: self.fetch@,
            holding: self.holding,
            upload_entered: self.upload_entered,
        }
    }
}

/// The id with a number.
pub open spec fn id_of(n: nat) -> Seq<char> {
    "cloud-"@ + number::digits(n)
}

/// The version with a number.
pub open spec fn etag_of(n: nat) -> Seq<char> {
    "etag-"@ + number::digits(n)
}

/// How new an object is: the number behind the last hyphen of its id.
pub open spec fn rank(id: Seq<char>) -> nat {
    match number::parsed(text::split(id, '-').last(), u32::MAX as nat) {
        Some(n) => n,
        None => 0,
    }
}

/// Whether an object is one with this name, and none with it is newer. A rename
/// over a placeholder leaves two: the new one, and the one it replaced.
pub open spec fn newest(
    objects: Map<Seq<char>, ObjectModel>,
    name: Seq<char>,
    o: ObjectModel,
) -> bool {
    &&& o.name == name
    &&& objects.contains_value(o)
    &&& forall|k: Seq<char>| #[trigger]
        objects.dom().contains(k) && objects[k].name == name ==> rank(objects[k].id) <= rank(o.id)
}

/// What a short download consists of: the letter x.
pub const SHORT_FILL: u8 = 0x78;

/// What the content of another version consists of: exclamation marks.
pub const STALE_FILL: u8 = 0x21;

/// What a download delivers of a part of an object. A short one is short of the
/// part that was asked for.
pub open spec fn delivered(o: ObjectModel, how: Option<FetchBehaviour>, span: Span) -> Seq<u8> {
    match how {
        Some(FetchBehaviour::Short { bytes }) => Seq::new(
            if bytes < span.len {
                bytes as nat
            } else {
                span.len as nat
            },
            |i: int| SHORT_FILL,
        ),
        Some(FetchBehaviour::Stale { etag }) => Seq::new(span.len as nat, |i: int| STALE_FILL),
        _ => {
            let whole = span.offset + span.len;
            let end = if whole < o.content.len() {
                whole
            } else {
                o.content.len() as int
            };
            let start = if span.offset < end {
                span.offset as int
            } else {
                end
            };
            o.content.subrange(start, end)
        },
    }
}

fn rank_of(id: &str) -> (n: u64)
    ensures
        n == rank(id@),
{
    let parts = text::split_at(id, '-');
    proof {
        text::lemma_split_join(id@, '-');
    }
    assert(text::texts(parts@).last() == parts@[parts@.len() - 1]@);
    match number::parse(parts[parts.len() - 1].as_str(), 0xffff_ffff) {
        Some(n) => n,
        None => 0,
    }
}

fn repeated(byte: u8, n: usize) -> (out: Vec<u8>)
    ensures
        out@ == Seq::new(n as nat, |i: int| byte),
{
    let mut out: Vec<u8> = Vec::new();
    while out.len() < n
        invariant
            out@.len() <= n,
            forall|j: int| 0 <= j < out@.len() ==> out@[j] == byte,
        decreases n - out@.len(),
    {
        out.push(byte);
    }
    assert(out@ =~= Seq::new(n as nat, |i: int| byte));
    out
}

fn slice(v: &Vec<u8>, start: usize, end: usize) -> (out: Vec<u8>)
    requires
        start <= end <= v@.len(),
    ensures
        out@ == v@.subrange(start as int, end as int),
{
    let mut out: Vec<u8> = Vec::new();
    let mut i: usize = start;
    while i < end
        invariant
            start <= i <= end <= v@.len(),
            out@ == v@.subrange(start as int, i as int),
        decreases end - i,
    {
        out.push(v[i]);
        i = i + 1;
        assert(out@ =~= v@.subrange(start as int, i as int));
    }
    out
}

/// A cloud that a harness can steer.
pub struct Cloud {
    pub state: State,
}

impl View for Cloud {
    type V = StateModel;

    open spec fn view(&self) -> StateModel {
        self.state@
    }
}

impl Cloud {
    /// A cloud that holds nothing.
    pub fn new() -> (c: Cloud)
        ensures
            c@ == (StateModel {
                objects: Map::empty(),
                ops: Seq::empty(),
                next_id: 0,
                fetch: Map::empty(),
                holding: false,
                upload_entered: false,
            }),
    {
        let c = Cloud {
            state: State {
                objects: Table::new(),
                ops: Vec::new(),
                next_id: 0,
                fetch: Table::new(),
                holding: false,
                upload_entered: false,
            },
        };
        assert(c@.objects =~= Map::empty());
        assert(c@.ops =~= Seq::empty());
        c
    }

    fn put(&mut self, o: CloudObject)
        ensures
            final(self)@ == (StateModel { objects: old(self)@.objects.insert(o@.id, o@), ..old(self)@ }),
    {
        let id = o.id.as_str().to_owned();
        let ghost had = self.state.objects@;
        let ghost key = id@;
        self.state.objects.insert(id, o);
        assert(object_map(self.state.objects@) =~= object_map(had).insert(key, o@));
    }

    /// Place an object in the cloud. Its id is a new one.
    pub fn seed(&mut self, name: &str, content: &Vec<u8>, etag: &str) -> (id: String)
        requires
            old(self)@.next_id < u32::MAX,
        ensures
            id@ == id_of((old(self)@.next_id + 1) as nat),
            final(self)@ == (StateModel {
                next_id: (old(self)@.next_id + 1) as u32,
                objects: old(self)@.objects.insert(
                    id@,
                    ObjectModel { id: id@, name: name@, content: content@, etag: etag@ },
                ),
                ..old(self)@
            }),
    {
        self.state.next_id = self.state.next_id + 1;
        let mut id: String = "cloud-".to_owned();
        id.append(number::decimal(self.state.next_id as u64).as_str());
        self.put(
            CloudObject {
                id: id.as_str().to_owned(),
                name: name.to_owned(),
                content: text::copy_bytes(content),
                etag: etag.to_owned(),
            },
        );
        id
    }

    /// The newest object with this name.
    pub fn by_name(&self, name: &str) -> (r: Option<CloudObject>)
        ensures
            match r {
                Some(o) => newest(self@.objects, name@, o@),
                None => forall|k: Seq<char>| #[trigger]
                    self@.objects.dom().contains(k) ==> self@.objects[k].name != name@,
            },
    {
        let total = self.state.objects.len();
        let ghost rows = self.state.objects.rows();
        let ghost map = self@.objects;
        let mut best: Option<CloudObject> = None;
        let mut i: usize = 0;
        while i < total
            invariant
                i <= total == rows.len(),
                rows == self.state.objects.rows(),
                map == object_map(self.state.objects@),
                match best {
                    Some(o) => o@.name == name@ && map.contains_value(o@) && forall|j: int|
                        0 <= j < i && (#[trigger] rows[j]).1.name@ == name@ ==> rank(rows[j].1.id@)
                            <= rank(o@.id),
                    None => forall|j: int| 0 <= j < i ==> (#[trigger] rows[j]).1.name@ != name@,
                },
            decreases total - i,
        {
            let key = self.state.objects.key_at(i);
            let o = self.state.objects.value_at(i);
            proof {
                assert(map.dom().contains(key.model()));
                assert(map[key.model()] == o@);
                assert(map.contains_value(o@));
            }
            if text::same(o.name.as_str(), name) {
                let better = match &best {
                    Some(b) => rank_of(b.id.as_str()) <= rank_of(o.id.as_str()),
                    None => true,
                };
                if better {
                    best = Some(o.copy());
                }
            }
            i = i + 1;
        }
        proof {
            assert forall|k: Seq<char>| #[trigger] map.dom().contains(k) implies exists|j: int|
                0 <= j < rows.len() && (#[trigger] rows[j]).1@ == map[k] by {
                assert(self.state.objects@.dom().contains(k));
                let j = table::row_of(rows, k);
                assert(rows[j].1@ == map[k]);
            }
        }
        best
    }

    /// Every request that was made, in order.
    pub fn ops(&self) -> (out: Vec<CloudOp>)
        ensures
            conformance::op_models(out@) == self@.ops,
    {
        conformance::copy_ops(&self.state.ops)
    }

    /// Hold uploads from here on.
    pub fn hold(&mut self)
        ensures
            final(self)@ == (StateModel { holding: true, upload_entered: false, ..old(self)@ }),
    {
        self.state.holding = true;
        self.state.upload_entered = false;
    }

    /// Let uploads complete.
    pub fn release(&mut self)
        ensures
            final(self)@ == (StateModel { holding: false, ..old(self)@ }),
    {
        self.state.holding = false;
    }

    /// Whether an upload has to wait.
    pub fn holding(&self) -> (b: bool)
        ensures
            b == self@.holding,
    {
        self.state.holding
    }

    /// Whether an upload has begun since uploads were last held.
    pub fn upload_started(&self) -> (b: bool)
        ensures
            b == self@.upload_entered,
    {
        self.state.upload_entered
    }

    /// Say how the downloads of the object with this name behave.
    pub fn set_behaviour(&mut self, name: &str, b: FetchBehaviour)
        ensures
            final(self)@ == (StateModel { fetch: old(self)@.fetch.insert(name@, b), ..old(self)@ }),
    {
        self.state.fetch.insert(name.to_owned(), b);
    }

    fn note(&mut self, op: CloudOp)
        ensures
            final(self)@ == (StateModel { ops: old(self)@.ops.push(op@), ..old(self)@ }),
    {
        let ghost had = conformance::op_models(self.state.ops@);
        self.state.ops.push(op);
        assert(conformance::op_models(self.state.ops@) =~= had.push(op@));
    }

    /// Download a part of an object; nothing where there is none. The request is
    /// on record either way.
    pub fn fetch(&mut self, cloud_id: &str, span: Span) -> (r: Option<Vec<u8>>)
        requires
            span.offset + span.len <= u64::MAX,
            span.len <= usize::MAX,
        ensures
            final(self)@ == (StateModel {
                ops: old(self)@.ops.push(OpModel::Get { id: cloud_id@ }),
                ..old(self)@
            }),
            match r {
                None => !old(self)@.objects.dom().contains(cloud_id@),
                Some(bytes) => {
                    &&& old(self)@.objects.dom().contains(cloud_id@)
                    &&& bytes@ == delivered(
                        old(self)@.objects[cloud_id@],
                        (if old(self)@.fetch.dom().contains(old(self)@.objects[cloud_id@].name) {
                            Some(old(self)@.fetch[old(self)@.objects[cloud_id@].name])
                        } else {
                            None
                        }),
                        span,
                    )
                },
            },
    {
        self.note(CloudOp::Get { id: cloud_id.to_owned() });
        let key = cloud_id.to_owned();
        let o = match self.state.objects.get(&key) {
            Some(o) => o,
            None => {
                return None;
            },
        };
        assert(self@.objects[cloud_id@] == o@);
        let bytes = match self.state.fetch.get(&o.name) {
            Some(FetchBehaviour::Short { bytes }) => {
                let n: usize = if (*bytes as u64) < span.len {
                    *bytes
                } else {
                    span.len as usize
                };
                repeated(SHORT_FILL, n)
            },
            Some(FetchBehaviour::Stale { etag: _ }) => repeated(STALE_FILL, span.len as usize),
            _ => {
                let len: u64 = o.content.len() as u64;
                let whole: u64 = span.offset + span.len;
                let end: u64 = if whole < len {
                    whole
                } else {
                    len
                };
                let start: u64 = if span.offset < end {
                    span.offset
                } else {
                    end
                };
                slice(&o.content, start as usize, end as usize)
            },
        };
        Some(bytes)
    }

    /// An upload enters: the race is arranged.
    pub fn enter(&mut self)
        ensures
            final(self)@ == (StateModel { upload_entered: true, ..old(self)@ }),
    {
        self.state.upload_entered = true;
    }

    /// Upload content under the name that the file has now, over the object it
    /// came from where the cloud still has it.
    pub fn upload(&mut self, name: &str, content: &Vec<u8>, existing: Option<&str>) -> (r: Uploaded)
        requires
            old(self)@.next_id < u32::MAX || (existing matches Some(e)
                && old(self)@.objects.dom().contains(e@)),
        ensures
            final(self)@ == uploaded(old(self)@, name@, content@, maybe_str(existing)),
            r@.cloud_id == upload_id(old(self)@, maybe_str(existing)),
            r@.etag == Some(
                etag_of(uploaded(old(self)@, name@, content@, maybe_str(existing)).next_id as nat),
            ),
    {
        self.note(CloudOp::Put { name: name.to_owned(), content: text::copy_bytes(content) });
        let known = match existing {
            Some(e) => self.state.objects.contains(&e.to_owned()),
            None => false,
        };
        let id: String = match existing {
            Some(e) if known => e.to_owned(),
            _ => {
                self.state.next_id = self.state.next_id + 1;
                let mut id: String = "cloud-".to_owned();
                id.append(number::decimal(self.state.next_id as u64).as_str());
                id
            },
        };
        let mut etag: String = "etag-".to_owned();
        etag.append(number::decimal(self.state.next_id as u64).as_str());
        self.put(
            CloudObject {
                id: id.as_str().to_owned(),
                name: name.to_owned(),
                content: text::copy_bytes(content),
                etag: etag.as_str().to_owned(),
            },
        );
        Uploaded { cloud_id: id, etag: Some(etag) }
    }

    /// Delete an object. One that is not there is deleted all the same.
    pub fn remove(&mut self, cloud_id: &str)
        ensures
            final(self)@ == (StateModel {
                ops: old(self)@.ops.push(OpModel::Delete { id: cloud_id@ }),
                objects: old(self)@.objects.remove(cloud_id@),
                ..old(self)@
            }),
    {
        self.note(CloudOp::Delete { id: cloud_id.to_owned() });
        let ghost had = self.state.objects@;
        let key = cloud_id.to_owned();
        self.state.objects.remove(&key);
        assert(object_map(self.state.objects@) =~= object_map(had).remove(cloud_id@));
    }
}

/// A borrowed text, if there is one.
pub open spec fn maybe_str(s: Option<&str>) -> Option<Seq<char>> {
    match s {
        Some(s) => Some(s@),
        None => None,
    }
}

/// Whether an upload goes over an object that the cloud has.
pub open spec fn goes_over(s: StateModel, existing: Option<Seq<char>>) -> bool {
    existing is Some && s.objects.dom().contains(existing->0)
}

/// The id that an upload ends under.
pub open spec fn upload_id(s: StateModel, existing: Option<Seq<char>>) -> Seq<char> {
    if goes_over(s, existing) {
        existing->0
    } else {
        id_of((s.next_id + 1) as nat)
    }
}

/// The cloud after an upload.
pub open spec fn uploaded(
    s: StateModel,
    name: Seq<char>,
    content: Seq<u8>,
    existing: Option<Seq<char>>,
) -> StateModel {
    let id = upload_id(s, existing);
    let next_id = if goes_over(s, existing) {
        s.next_id
    } else {
        (s.next_id + 1) as u32
    };
    StateModel {
        ops: s.ops.push(OpModel::Put { name, content }),
        next_id,
        objects: s.objects.insert(
            id,
            ObjectModel { id, name, content, etag: etag_of(next_id as nat) },
        ),
        ..s
    }
}

/// A file as it is found when local changes are looked for.
#[derive(Debug, PartialEq, Eq)]
pub struct Noticed {
    pub id: FileId,
    pub dehydrated: bool,
    pub content: Vec<u8>,
    /// The object it is known to be.
    pub cloud_id: Option<String>,
}

/// Whether a file holds something that the cloud does not have. One without
/// local content holds nothing.
pub open spec fn is_unsent(n: Noticed, objects: Map<Seq<char>, ObjectModel>) -> bool {
    !n.dehydrated && !(n.cloud_id is Some && objects.dom().contains(n.cloud_id->0@)
        && objects[n.cloud_id->0@].content == n.content@)
}

/// The files that hold something the cloud does not have, in their order.
pub open spec fn unsent(walk: Seq<Noticed>, objects: Map<Seq<char>, ObjectModel>) -> Seq<FileId>
    decreases walk.len(),
{
    if walk.len() == 0 {
        Seq::empty()
    } else if is_unsent(walk.last(), objects) {
        unsent(walk.drop_last(), objects).push(walk.last().id)
    } else {
        unsent(walk.drop_last(), objects)
    }
}

/// Find the files whose changes have to be sent.
pub fn notice_changes(walk: &Vec<Noticed>, cloud: &Cloud) -> (out: Vec<FileId>)
    ensures
        out@ == unsent(walk@, cloud@.objects),
{
    let mut out: Vec<FileId> = Vec::new();
    let mut i: usize = 0;
    assert(walk@.take(0) =~= Seq::empty());
    while i < walk.len()
        invariant
            i <= walk@.len(),
            out@ == unsent(walk@.take(i as int), cloud@.objects),
        decreases walk@.len() - i,
    {
        let n = &walk[i];
        assert(walk@.take(i + 1).drop_last() =~= walk@.take(i as int));
        assert(walk@.take(i + 1).last() == *n);
        let same = match &n.cloud_id {
            None => false,
            Some(id) => match cloud.state.objects.get(id) {
                None => false,
                Some(o) => {
                    assert(cloud@.objects[id@] == o@);
                    text::equal_bytes(&o.content, &n.content)
                },
            },
        };
        if !n.dehydrated && !same {
            out.push(n.id);
        }
        i = i + 1;
    }
    assert(walk@.take(i as int) =~= walk@);
    out
}

/// How often local changes are looked for before a harness gives up settling.
pub const SETTLE_ROUNDS: u32 = 80;

/// What comes next in letting everything settle.
#[derive(Debug, Clone, Copy, PartialEq, Eq, Structural)]
pub enum Settle {
    /// Look for changes, bring deadlines forward, wait a moment and count what is
    /// pending.
    Round { left: u32 },
    /// Look once more, so that a change made during the wait is not missed, and
    /// count again.
    Confirm { left: u32 },
    Done,
}

/// The round after this one.
pub open spec fn round(left: u32) -> Settle {
    if left > 1 {
        Settle::Round { left: (left - 1) as u32 }
    } else {
        Settle::Done
    }
}

/// What comes after a count.
pub open spec fn settled(step: Settle, pending: usize) -> Settle {
    match step {
        Settle::Round { left } => if pending == 0 {
            Settle::Confirm { left }
        } else {
            round(left)
        },
        Settle::Confirm { left } => if pending == 0 {
            Settle::Done
        } else {
            round(left)
        },
        Settle::Done => Settle::Done,
    }
}

impl Settle {
    /// Begin to let everything settle.
    pub fn begin() -> (s: Settle)
        ensures
            s == (Settle::Round { left: SETTLE_ROUNDS }),
    {
        Settle::Round { left: SETTLE_ROUNDS }
    }

    /// What comes after a count.
    pub fn next(self, pending: usize) -> (s: Settle)
        ensures
            s == settled(self, pending),
    {
        match self {
            Settle::Round { left } => if pending == 0 {
                Settle::Confirm { left }
            } else if left > 1 {
                Settle::Round { left: left - 1 }
            } else {
                Settle::Done
            },
            Settle::Confirm { left } => if pending == 0 {
                Settle::Done
            } else if left > 1 {
                Settle::Round { left: left - 1 }
            } else {
                Settle::Done
            },
            Settle::Done => Settle::Done,
        }
    }
}

/// A file as it is found when placeholders are counted.
#[derive(Debug, Clone, Copy, PartialEq, Eq, Structural)]
pub struct Stat {
    pub is_file: bool,
    pub blocks: u64,
}

/// How many files hold no content.
pub open spec fn empty_files(v: Seq<Stat>) -> nat
    decreases v.len(),
{
    if v.len() == 0 {
        0
    } else {
        empty_files(v.drop_last()) + if v.last().is_file && v.last().blocks == 0 {
            1nat
        } else {
            0nat
        }
    }
}

/// Count the files that hold no content.
pub fn dehydrated_count(v: &Vec<Stat>) -> (n: usize)
    ensures
        n == empty_files(v@),
{
    let mut n: usize = 0;
    let mut i: usize = 0;
    assert(v@.take(0) =~= Seq::empty());
    while i < v.len()
        invariant
            n <= i <= v@.len(),
            n == empty_files(v@.take(i as int)),
        decreases v@.len() - i,
    {
        assert(v@.take(i + 1).drop_last() =~= v@.take(i as int));
        assert(v@.take(i + 1).last() == v@[i as int]);
        if v[i].is_file && v[i].blocks == 0 {
            n = n + 1;
        }
        i = i + 1;
    }
    assert(v@.take(i as int) =~= v@);
    n
}

/// Whether every object is kept under its own id, and every id is one that was
/// given out.
pub open spec fn issued(s: StateModel) -> bool {
    forall|k: Seq<char>| #[trigger]
        s.objects.dom().contains(k) ==> s.objects[k].id == k && exists|n: nat|
            n <= s.next_id && k == #[trigger] id_of(n)
}

proof fn lemma_rank(n: nat)
    requires
        n <= u32::MAX,
    ensures
        rank(id_of(n)) == n,
{
    reveal_strlit("cloud-");
    let head = "cloud"@;
    reveal_strlit("cloud");
    let d = number::digits(n);
    number::lemma_digits(n);
    assert(!d.contains('-')) by {
        if d.contains('-') {
            let i = choose|i: int| 0 <= i < d.len() && d[i] == '-';
            assert('0' <= d[i] <= '9');
        }
    }
    assert(id_of(n) =~= head + seq!['-'] + d);
    text::lemma_split_append(head, '-', d);
    text::lemma_split_whole(d, '-');
    assert(text::split(id_of(n), '-').last() == d);
    number::law_decimal_round_trips(n);
}

/// What was seeded last under a name is the newest object with it.
pub proof fn law_what_is_seeded_is_the_newest(
    s: StateModel,
    name: Seq<char>,
    content: Seq<u8>,
    etag: Seq<char>,
    o: ObjectModel,
)
    requires
        issued(s),
        s.next_id < u32::MAX,
        ({
            let id = id_of((s.next_id + 1) as nat);
            newest(s.objects.insert(id, ObjectModel { id, name, content, etag }), name, o)
        }),
    ensures
        o == (ObjectModel { id: id_of((s.next_id + 1) as nat), name, content, etag }),
{
    let top = (s.next_id + 1) as nat;
    let id = id_of(top);
    let new = ObjectModel { id, name, content, etag };
    let after = s.objects.insert(id, new);
    lemma_rank(top);
    let k = choose|k: Seq<char>| #[trigger] after.dom().contains(k) && after[k] == o;
    assert(after.dom().contains(id));
    assert(after[id].name == name);
    if k != id {
        assert(s.objects.dom().contains(k));
        let n = choose|n: nat| n <= s.next_id && k == #[trigger] id_of(n);
        lemma_rank(n);
        assert(false);
    }
}

/// A new id is nobody's: what an upload makes displaces nothing.
pub proof fn law_a_new_id_is_nobodys(s: StateModel)
    requires
        issued(s),
        s.next_id < u32::MAX,
    ensures
        !s.objects.dom().contains(id_of((s.next_id + 1) as nat)),
{
    let id = id_of((s.next_id + 1) as nat);
    if s.objects.dom().contains(id) {
        let n = choose|n: nat| n <= s.next_id && id == #[trigger] id_of(n);
        lemma_rank(n);
        lemma_rank((s.next_id + 1) as nat);
    }
}

/// Uploading keeps every object under its own id, with ids that were given out.
pub proof fn law_ids_stay_issued(
    s: StateModel,
    name: Seq<char>,
    content: Seq<u8>,
    existing: Option<Seq<char>>,
)
    requires
        issued(s),
        s.next_id < u32::MAX,
    ensures
        issued(uploaded(s, name, content, existing)),
{
    let after = uploaded(s, name, content, existing);
    assert forall|k: Seq<char>| #[trigger] after.objects.dom().contains(k) implies after.objects[k].id
        == k && exists|n: nat| n <= after.next_id && k == #[trigger] id_of(n) by {
        if s.objects.dom().contains(k) {
            let n = choose|n: nat| n <= s.next_id && k == #[trigger] id_of(n);
            assert(n <= after.next_id && k == id_of(n));
        } else {
            assert(k == id_of((s.next_id + 1) as nat));
        }
    }
}

/// A download that is short of what was asked never fills its part.
pub proof fn law_a_short_download_never_fills_its_part(o: ObjectModel, bytes: usize, span: Span)
    requires
        bytes < span.len,
    ensures
        delivered(o, Some(FetchBehaviour::Short { bytes }), span).len() < span.len,
{
}

/// Letting everything settle ends.
pub proof fn law_settling_ends(step: Settle, pending: usize)
    requires
        step != Settle::Done,
    ensures
        rounds_left(settled(step, pending)) < rounds_left(step),
{
}

/// A bound on the counts that are still to be made.
pub open spec fn rounds_left(step: Settle) -> nat {
    match step {
        Settle::Round { left } => 2 * left as nat + 2,
        Settle::Confirm { left } => 2 * left as nat + 1,
        Settle::Done => 0,
    }
}

/// What is uploaded is there afterwards, under its name and with its content: over
/// the object that it replaces, where there is one, and otherwise as a new one.
/// Every other object stays, and the upload is the last thing that was done.
pub proof fn law_what_is_uploaded_is_there(
    s: StateModel,
    name: Seq<char>,
    content: Seq<u8>,
    existing: Option<Seq<char>>,
    other: Seq<char>,
)
    requires
        s.next_id < u32::MAX,
        other != upload_id(s, existing),
    ensures
        ({
            let after = uploaded(s, name, content, existing);
            let id = upload_id(s, existing);
            let over = existing matches Some(e) && s.objects.dom().contains(e);
            &&& over ==> Some(id) == existing && after.next_id == s.next_id
            &&& !over ==> id == id_of((s.next_id + 1) as nat) && after.next_id == s.next_id + 1
            &&& after.objects.dom().contains(id)
            &&& after.objects[id].id == id
            &&& after.objects[id].name == name
            &&& after.objects[id].content == content
            &&& after.objects[id].etag == etag_of(after.next_id as nat)
            &&& after.objects.dom().contains(other) <==> s.objects.dom().contains(other)
            &&& after.objects[other] == s.objects[other]
            &&& after.ops == s.ops.push(OpModel::Put { name, content })
            &&& after.fetch == s.fetch && after.holding == s.holding
        }),
{
}

/// An honest download gives the part that was asked for, as far as the object goes,
/// byte for byte.
pub proof fn law_an_honest_download_is_the_content(
    o: ObjectModel,
    how: Option<FetchBehaviour>,
    span: Span,
    i: int,
)
    requires
        how is None || how->0 is Honest,
    ensures
        ({
            let got = delivered(o, how, span);
            &&& span.offset + span.len <= o.content.len() ==> got.len() == span.len
            &&& span.offset >= o.content.len() ==> got.len() == 0
            &&& span.offset <= o.content.len() < span.offset + span.len ==> got.len()
                == o.content.len() - span.offset
            &&& 0 <= i < got.len() ==> got[i] == o.content[span.offset + i]
        }),
{
}

/// A stale download is as long as what was asked for, and a short one no longer than
/// it is said to be.
pub proof fn law_how_long_a_dishonest_download_is(
    o: ObjectModel,
    bytes: usize,
    etag: String,
    span: Span,
)
    ensures
        delivered(o, Some(FetchBehaviour::Stale { etag }), span).len() == span.len,
        delivered(o, Some(FetchBehaviour::Short { bytes }), span).len() <= span.len,
        delivered(o, Some(FetchBehaviour::Short { bytes }), span).len() <= bytes,
        delivered(o, Some(FetchBehaviour::Short { bytes }), span).len() == span.len
            || delivered(o, Some(FetchBehaviour::Short { bytes }), span).len() == bytes,
{
}

/// A file has something to send when its content is here and is not what the object
/// that it is holds; a walk finds these one by one, in its order.
pub proof fn law_every_change_is_noticed(
    first: Seq<Noticed>,
    second: Seq<Noticed>,
    x: Noticed,
    objects: Map<Seq<char>, ObjectModel>,
)
    ensures
        unsent(first + second, objects) == unsent(first, objects) + unsent(second, objects),
        x.dehydrated ==> unsent(seq![x], objects).len() == 0,
        !x.dehydrated && x.cloud_id is None ==> unsent(seq![x], objects) == seq![x.id],
        !x.dehydrated && x.cloud_id is Some && !objects.dom().contains(x.cloud_id->0@) ==> unsent(
            seq![x],
            objects,
        ) == seq![x.id],
        !x.dehydrated && x.cloud_id is Some && objects.dom().contains(x.cloud_id->0@) ==> (if objects[x.cloud_id->0@].content
            == x.content@ {
            unsent(seq![x], objects).len() == 0
        } else {
            unsent(seq![x], objects) == seq![x.id]
        }),
    decreases second.len(),
{
    let one = seq![x];
    assert(one.drop_last() =~= Seq::empty());
    assert(unsent(one.drop_last(), objects) =~= Seq::empty());
    assert(Seq::<FileId>::empty().push(x.id) =~= seq![x.id]);
    let both = first + second;
    if second.len() == 0 {
        assert(both =~= first);
        assert(unsent(both, objects) =~= unsent(first, objects) + unsent(second, objects));
    } else {
        let less = second.drop_last();
        law_every_change_is_noticed(first, less, x, objects);
        assert(both.drop_last() =~= first + less);
        assert(both.last() == second.last());
        assert(unsent(both, objects) =~= unsent(first, objects) + unsent(second, objects));
    }
}

/// Settling is done when two looks in a row find nothing pending, or when its rounds
/// are used up; a look that finds something starts the next round.
pub proof fn law_settling_takes_two_quiet_looks(left: u32, pending: usize)
    requires
        pending > 0,
    ensures
        settled(Settle::Round { left }, 0) == (Settle::Confirm { left }),
        settled(Settle::Confirm { left }, 0) == Settle::Done,
        left > 1 ==> settled(Settle::Round { left }, pending) == (Settle::Round {
            left: (left - 1) as u32,
        }),
        left > 1 ==> settled(Settle::Confirm { left }, pending) == (Settle::Round {
            left: (left - 1) as u32,
        }),
        left <= 1 ==> settled(Settle::Round { left }, pending) == Settle::Done && settled(
            Settle::Confirm { left },
            pending,
        ) == Settle::Done,
{
}

/// The files without blocks are counted one by one.
pub proof fn law_empty_files_are_counted(first: Seq<Stat>, second: Seq<Stat>, x: Stat)
    ensures
        empty_files(first + second) == empty_files(first) + empty_files(second),
        empty_files(seq![x]) == if x.is_file && x.blocks == 0 {
            1nat
        } else {
            0nat
        },
    decreases second.len(),
{
    let one = seq![x];
    assert(one.drop_last() =~= Seq::empty());
    assert(empty_files(one.drop_last()) == 0);
    let both = first + second;
    if second.len() == 0 {
        assert(both =~= first);
    } else {
        law_empty_files_are_counted(first, second.drop_last(), x);
        assert(both.drop_last() =~= first + second.drop_last());
        assert(both.last() == second.last());
    }
}

} // verus!
