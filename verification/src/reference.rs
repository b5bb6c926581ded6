//! A fake service for measuring a client that talks to one: what each request
//! does to what the service holds, and what it is answered.

use crate::conformance;
use crate::conformance::{CloudObject, CloudOp, FetchBehaviour, ObjectModel, OpModel};
use crate::cloud;
use crate::number;
use crate::table;
use crate::table::{Key, Table};
use crate::text;
use vstd::prelude::*;
use vstd::string::*;

verus! {

/// The text member of a JSON object with this name, if some bytes are one that
/// has it.
pub uninterp spec fn json_text(body: Seq<u8>, key: Seq<char>) -> Option<Seq<char>>;

/// `serde_json::from_slice` to a `serde_json::Value`, and then `Value::get` and
/// `Value::as_str`, which `json_text` names together: what they give depends on
/// the bytes and on the key alone.
#[verifier::external_body]
fn json_text_of(body: &Vec<u8>, key: &str) -> (r: Option<String>)
    ensures
        text::maybe(r) == json_text(body@, key@),
{
    let value: serde_json::Value = serde_json::from_slice(body).ok()?;
    value.get(key)?.as_str().map(String::from)
}

/// The per cent sign.
pub const PERCENT: u8 = 0x25;

/// The value of a hexadecimal digit.
pub open spec fn hex(b: u8) -> Option<u8> {
    if 0x30 <= b <= 0x39 {
        Some((b - 0x30) as u8)
    } else if 0x41 <= b <= 0x46 {
        Some((b - 0x41 + 10) as u8)
    } else if 0x61 <= b <= 0x66 {
        Some((b - 0x61 + 10) as u8)
    } else {
        None
    }
}

/// The number that two digits stand for. The first may be a plus sign.
pub open spec fn hex_pair(a: u8, b: u8) -> Option<u8> {
    match hex(b) {
        None => None,
        Some(low) => if a == 0x2b {
            Some(low)
        } else {
            match hex(a) {
                None => None,
                Some(high) => Some((high * 16 + low) as u8),
            }
        },
    }
}

/// Bytes with every escape replaced by the byte it stands for, from a place on.
/// What is no escape stands for itself.
pub open spec fn unescaped(b: Seq<u8>, i: int) -> Seq<u8>
    decreases b.len() - i,
{
    if i < 0 || i >= b.len() {
        Seq::empty()
    } else if b[i] == PERCENT && i + 2 < b.len() && hex_pair(b[i + 1], b[i + 2]) is Some {
        seq![hex_pair(b[i + 1], b[i + 2])->0] + unescaped(b, i + 3)
    } else {
        seq![b[i]] + unescaped(b, i + 1)
    }
}

fn hex_of(b: u8) -> (r: Option<u8>)
    ensures
        r == hex(b),
{
    if 0x30 <= b && b <= 0x39 {
        Some(b - 0x30)
    } else if 0x41 <= b && b <= 0x46 {
        Some(b - 0x41 + 10)
    } else if 0x61 <= b && b <= 0x66 {
        Some(b - 0x61 + 10)
    } else {
        None
    }
}

fn hex_pair_of(a: u8, b: u8) -> (r: Option<u8>)
    ensures
        r == hex_pair(a, b),
{
    match hex_of(b) {
        None => None,
        Some(low) => if a == 0x2b {
            Some(low)
        } else {
            match hex_of(a) {
                None => None,
                Some(high) => Some(high * 16 + low),
            }
        },
    }
}

/// Bytes without a per cent sign hold no escape.
pub proof fn law_plain_bytes_are_unchanged(b: Seq<u8>, i: int)
    requires
        !b.contains(PERCENT),
        0 <= i <= b.len(),
    ensures
        unescaped(b, i) == b.skip(i),
    decreases b.len() - i,
{
    if i < b.len() {
        assert(b[i] != PERCENT);
        law_plain_bytes_are_unchanged(b, i + 1);
        assert(seq![b[i]] + b.skip(i + 1) =~= b.skip(i));
    } else {
        assert(b.skip(i) =~= Seq::empty());
    }
}

/// Whether no escape cuts a character in two.
pub open spec fn whole_escapes(b: Seq<u8>) -> bool {
    forall|i: int|
        0 <= i && i + 3 < b.len() && #[trigger] b[i] == PERCENT ==> !(0x80 <= b[i + 3] < 0xc0)
}

/// Replace every escape in a text by what it stands for.
pub fn percent_decode(s: &str) -> (r: String)
    requires
        whole_escapes(text::bytes(s@)),
    ensures
        r@ == text::lossy(unescaped(text::bytes(s@), 0)),
        vstd::utf8::valid_utf8(unescaped(text::bytes(s@), 0)) ==> r@ == vstd::utf8::decode_utf8(
            unescaped(text::bytes(s@), 0),
        ),
        !text::bytes(s@).contains(PERCENT) ==> r@ == s@,
{
    let b = s.as_bytes();
    let total = b.len();
    let mut out: Vec<u8> = Vec::new();
    let mut i: usize = 0;
    assert(out@ + unescaped(b@, 0) =~= unescaped(b@, 0));
    while i < total
        invariant
            i <= total == b@.len(),
            out@ + unescaped(b@, i as int) == unescaped(b@, 0),
        decreases total - i,
    {
        let pair = if b[i] == PERCENT && total - i > 2 {
            hex_pair_of(b[i + 1], b[i + 2])
        } else {
            None
        };
        let ghost had = out@;
        match pair {
            Some(v) => {
                out.push(v);
                assert(had + (seq![v] + unescaped(b@, i + 3)) =~= out@ + unescaped(b@, i + 3));
                i = i + 3;
            },
            None => {
                out.push(b[i]);
                assert(had + (seq![b@[i as int]] + unescaped(b@, i + 1)) =~= out@ + unescaped(
                    b@,
                    i + 1,
                ));
                i = i + 1;
            },
        }
    }
    proof {
        assert(out@ + unescaped(b@, i as int) =~= out@);
        if !b@.contains(PERCENT) {
            law_plain_bytes_are_unchanged(b@, 0);
            assert(b@.skip(0) =~= b@);
            vstd::utf8::encode_utf8_valid_utf8(s@);
            vstd::utf8::encode_utf8_decode_utf8(s@);
        }
    }
    text::from_lossy(&out)
}

/// Where a text first occurs in another from a place on, or the other's length.
pub open spec fn found_at(s: Seq<char>, what: Seq<char>, i: int) -> int
    decreases s.len() - i,
{
    if i < 0 || i >= s.len() || i + what.len() > s.len() {
        s.len() as int
    } else if s.subrange(i, i + what.len()) == what {
        i
    } else {
        found_at(s, what, i + 1)
    }
}

/// What stands behind the first colon and stroke of a text, up to the next such
/// pair.
pub open spec fn between(s: Seq<char>) -> Seq<char> {
    let i = found_at(s, ":/"@, 0);
    if i >= s.len() {
        Seq::empty()
    } else {
        let j = found_at(s, ":/"@, i + 2);
        s.subrange(i + 2, j)
    }
}

/// A text without any number of equal endings.
pub open spec fn trimmed(s: Seq<char>, ending: Seq<char>) -> Seq<char>
    decreases s.len(),
{
    if ending.len() > 0 && text::ends(s, ending) {
        trimmed(s.take(s.len() - ending.len()), ending)
    } else {
        s
    }
}

/// The name of an uploaded file as it stands in the path of the request.
pub open spec fn raw_name(path: Seq<char>) -> Seq<char> {
    trimmed(trimmed(between(path), ":"@), "/content"@)
}

fn find_pair(s: &Vec<char>, from: usize) -> (at: usize)
    requires
        from <= s@.len(),
    ensures
        at == found_at(s@, ":/"@, from as int),
        from <= at <= s@.len(),
        at < s@.len() ==> at + 2 <= s@.len(),
{
    let total = s.len();
    let mut i: usize = from;
    proof {
        reveal_strlit(":/");
    }
    while i < total
        invariant
            from <= i <= total == s@.len(),
            ":/"@ == seq![':', '/'],
            found_at(s@, ":/"@, from as int) == found_at(s@, ":/"@, i as int),
        decreases total - i,
    {
        proof {
            assert(seq![':', '/'].len() == 2);
        }
        if total - i > 1 {
            let ghost cut = s@.subrange(i as int, i + 2);
            assert(cut[0] == s@[i as int] && cut[1] == s@[i + 1]);
            if s[i] == ':' && s[i + 1] == '/' {
                assert(cut =~= seq![':', '/']);
                return i;
            }
            assert(cut != seq![':', '/']) by {
                if cut == seq![':', '/'] {
                    assert(cut[0] == ':' && cut[1] == '/');
                }
            }
        } else {
            return total;
        }
        i = i + 1;
    }
    total
}

fn trim_ending(s: Vec<char>, ending: &str) -> (out: Vec<char>)
    requires
        ending@.len() > 0,
    ensures
        out@ == trimmed(s@, ending@),
{
    let e = text::chars_of(ending);
    let mut out = s;
    let ghost whole = s@;
    while text::has_suffix(&out, ending)
        invariant
            e@ == ending@,
            ending@.len() > 0,
            trimmed(out@, ending@) == trimmed(whole, ending@),
        decreases out@.len(),
    {
        let n: usize = out.len() - e.len();
        out.truncate(n);
    }
    out
}

/// The name of an uploaded file, out of the path of the request.
pub fn upload_name(path: &str) -> (r: String)
    requires
        whole_escapes(text::bytes(raw_name(path@))),
    ensures
        r@ == text::lossy(unescaped(text::bytes(raw_name(path@)), 0)),
        !text::bytes(raw_name(path@)).contains(PERCENT) ==> r@ == raw_name(path@),
{
    proof {
        reveal_strlit(":/");
        reveal_strlit(":");
        reveal_strlit("/content");
    }
    let chars = text::chars_of(path);
    let i = find_pair(&chars, 0);
    let mut piece: Vec<char> = Vec::new();
    if i < chars.len() {
        let j = find_pair(&chars, i + 2);
        let mut k: usize = i + 2;
        while k < j
            invariant
                i + 2 <= k <= j <= chars@.len(),
                piece@ == chars@.subrange(i + 2, k as int),
            decreases j - k,
        {
            piece.push(chars[k]);
            k = k + 1;
            assert(piece@ =~= chars@.subrange(i + 2, k as int));
        }
    }
    assert(piece@ =~= between(path@));
    let piece = trim_ending(piece, ":");
    let piece = trim_ending(piece, "/content");
    let raw = text::text_of(&piece);
    percent_decode(raw.as_str())
}

/// The service's state.
pub struct CloudState {
    /// Objects by cloud id.
    pub items: Table<String, CloudObject>,
    pub ops: Vec<CloudOp>,
    pub next_id: u32,
    pub holding: bool,
    /// What a download of the object with a name returns.
    pub fetch: Table<String, FetchBehaviour>,
    /// The service's own address, which the links it gives out point back to.
    pub base_url: String,
    /// Counted up for each listing, so that each link is distinct.
    pub delta_seq: u32,
}

/// The state over texts.
#[verifier::ext_equal]
pub struct StateModel {
    pub items: Map<Seq<char>, ObjectModel>,
    pub ops: Seq<OpModel>,
    pub next_id: u32,
    pub holding: bool,
    pub fetch: Map<Seq<char>, FetchBehaviour>,
    pub base_url: Seq<char>,
    pub delta_seq: u32,
}

impl View for CloudState {
    type V = StateModel;

    open spec fn view(&self) -> StateModel {
        StateModel {
            items: cloud::object_map(self.items@),
            ops: conformance::op_models(self.ops@),
            next_id: self.next_id,
            holding: self.holding,
            fetch: self.fetch@,
            base_url: self.base_url@,
            delta_seq: self.delta_seq,
        }
    }
}

/// What the service says of an object.
#[derive(Debug, PartialEq, Eq)]
pub struct Item {
    pub id: String,
    pub name: String,
    pub etag: String,
    /// The version of the content alone.
    pub ctag: String,
    pub size: u64,
}

/// What is said of an object, over texts.
#[verifier::ext_equal]
pub struct ItemModel {
    pub id: Seq<char>,
    pub name: Seq<char>,
    pub etag: Seq<char>,
    pub ctag: Seq<char>,
    pub size: nat,
}

impl View for Item {
    type V = ItemModel;

    open spec fn view(&self) -> ItemModel {
        ItemModel {
            id: self.id@,
            name: self.name@,
            etag: self.etag@,
            ctag: self.ctag@,
            size: self.size as nat,
        }
    }
}

/// What the service says of an object.
pub open spec fn item_of(o: ObjectModel) -> ItemModel {
    ItemModel {
        id: o.id,
        name: o.name,
        etag: o.etag,
        ctag: "c"@ + o.etag,
        size: o.content.len(),
    }
}

/// Items over texts.
pub open spec fn item_models(v: Seq<Item>) -> Seq<ItemModel> {
    v.map_values(|i: Item| i@)
}

/// Describe an object.
pub fn item_json(o: &CloudObject) -> (i: Item)
    ensures
        i@ == item_of(o@),
{
    let mut ctag: String = "c".to_owned();
    ctag.append(o.etag.as_str());
    Item {
        id: o.id.as_str().to_owned(),
        name: o.name.as_str().to_owned(),
        etag: o.etag.as_str().to_owned(),
        ctag,
        size: o.content.len() as u64,
    }
}

/// The last part of a path.
pub open spec fn last_part(path: Seq<char>) -> Seq<char> {
    text::split(path, '/').last()
}

/// The part of a path before the last.
pub open spec fn part_before_last(path: Seq<char>) -> Seq<char> {
    let parts = text::split(path, '/');
    if parts.len() < 2 {
        Seq::empty()
    } else {
        parts[parts.len() - 2]
    }
}

/// What a download of an object returns.
pub open spec fn downloaded(o: ObjectModel, how: Option<FetchBehaviour>) -> Seq<u8> {
    match how {
        Some(FetchBehaviour::Short { bytes }) => if bytes < o.content.len() {
            o.content.take(bytes as int)
        } else {
            o.content
        },
        Some(FetchBehaviour::Stale { etag }) => Seq::new(
            o.content.len(),
            |i: int| cloud::STALE_FILL,
        ),
        _ => o.content,
    }
}

/// Whether an object is one with this name. Where there are several, the service
/// takes any.
pub open spec fn named(items: Map<Seq<char>, ObjectModel>, name: Seq<char>, o: ObjectModel) -> bool {
    o.name == name && items.contains_value(o)
}

/// Whether no object has this name.
pub open spec fn unnamed(items: Map<Seq<char>, ObjectModel>, name: Seq<char>) -> bool {
    forall|k: Seq<char>| #[trigger] items.dom().contains(k) ==> items[k].name != name
}

/// The reply to an upload.
#[derive(Debug, PartialEq, Eq)]
pub struct Sent {
    pub item: Item,
    /// Whether the reply is held back, so that the upload stays on its way.
    pub delayed: bool,
}

/// The service after an upload that ended under an id.
pub open spec fn after_upload(
    s: StateModel,
    name: Seq<char>,
    content: Seq<u8>,
    id: Seq<char>,
    fresh: bool,
) -> StateModel {
    let next_id = if fresh {
        (s.next_id + 1) as u32
    } else {
        s.next_id
    };
    StateModel {
        ops: s.ops.push(OpModel::Put { name, content }),
        next_id,
        items: s.items.insert(
            id,
            ObjectModel { id, name, content, etag: cloud::etag_of((next_id + 1) as nat) },
        ),
        ..s
    }
}

/// The service after a rename.
pub open spec fn after_rename(
    s: StateModel,
    id: Seq<char>,
    new_name: Option<Seq<char>>,
) -> StateModel {
    if new_name is Some && s.items.dom().contains(id) {
        StateModel {
            ops: s.ops.push(OpModel::Rename { id, to: new_name->0 }),
            items: s.items.insert(id, ObjectModel { name: new_name->0, ..s.items[id] }),
            ..s
        }
    } else {
        s
    }
}

impl CloudState {
    /// A service at an address, holding nothing.
    pub fn new(base_url: &str) -> (s: CloudState)
        ensures
            s@ == (StateModel {
                items: Map::empty(),
                ops: Seq::empty(),
                next_id: 0,
                holding: false,
                fetch: Map::empty(),
                base_url: base_url@,
                delta_seq: 0,
            }),
    {
        let s = CloudState {
            items: Table::new(),
            ops: Vec::new(),
            next_id: 0,
            holding: false,
            fetch: Table::new(),
            base_url: base_url.to_owned(),
            delta_seq: 0,
        };
        assert(s@.items =~= Map::empty());
        assert(s@.ops =~= Seq::empty());
        s
    }

    /// An object with this name.
    pub fn by_name(&self, name: &str) -> (r: Option<CloudObject>)
        ensures
            match r {
                Some(o) => named(self@.items, name@, o@),
                None => unnamed(self@.items, name@),
            },
    {
        let total = self.items.len();
        let ghost rows = self.items.rows();
        let ghost map = self@.items;
        let mut i: usize = 0;
        while i < total
            invariant
                i <= total == rows.len(),
                rows == self.items.rows(),
                map == self@.items,
                forall|j: int| 0 <= j < i ==> (#[trigger] rows[j]).1.name@ != name@,
            decreases total - i,
        {
            let key = self.items.key_at(i);
            let o = self.items.value_at(i);
            if text::same(o.name.as_str(), name) {
                assert(map.dom().contains(key.model()));
                assert(map[key.model()] == o@);
                return Some(o.copy());
            }
            i = i + 1;
        }
        proof {
            assert forall|k: Seq<char>| #[trigger] map.dom().contains(k) implies map[k].name
                != name@ by {
                assert(self.items@.dom().contains(k));
                let j = table::row_of(rows, k);
                assert(rows[j].1@ == map[k]);
            }
        }
        None
    }

    /// An id that was not given out before.
    pub fn fresh_id(&mut self) -> (id: String)
        requires
            old(self)@.next_id < u32::MAX,
        ensures
            id@ == cloud::id_of((old(self)@.next_id + 1) as nat),
            final(self)@ == (StateModel { next_id: (old(self)@.next_id + 1) as u32, ..old(self)@ }),
    {
        self.next_id = self.next_id + 1;
        let mut id: String = "cloud-".to_owned();
        id.append(number::decimal(self.next_id as u64).as_str());
        id
    }

    fn put(&mut self, o: CloudObject)
        ensures
            final(self)@ == (StateModel { items: old(self)@.items.insert(o@.id, o@), ..old(self)@ }),
    {
        let id = o.id.as_str().to_owned();
        let ghost had = self.items@;
        let ghost key = id@;
        self.items.insert(id, o);
        assert(cloud::object_map(self.items@) =~= cloud::object_map(had).insert(key, o@));
    }

    fn note(&mut self, op: CloudOp)
        ensures
            final(self)@ == (StateModel { ops: old(self)@.ops.push(op@), ..old(self)@ }),
    {
        let ghost had = conformance::op_models(self.ops@);
        self.ops.push(op);
        assert(conformance::op_models(self.ops@) =~= had.push(op@));
    }

    /// Place an object in the service.
    pub fn seed(&mut self, name: &str, content: &Vec<u8>, etag: &str) -> (id: String)
        requires
            old(self)@.next_id < u32::MAX,
        ensures
            id@ == cloud::id_of((old(self)@.next_id + 1) as nat),
            final(self)@ == (StateModel {
                next_id: (old(self)@.next_id + 1) as u32,
                items: old(self)@.items.insert(
                    id@,
                    ObjectModel { id: id@, name: name@, content: content@, etag: etag@ },
                ),
                ..old(self)@
            }),
    {
        let id = self.fresh_id();
        self.put(
            CloudObject {
                id: id.as_str().to_owned(),
                name: name.to_owned(),
                content: text::copy_bytes(content),
                etag: etag.to_owned(),
            },
        );
        id
    }

    /// List everything that the service holds, and give a link for the next
    /// listing.
    pub fn delta(&mut self) -> (r: (String, Vec<Item>))
        requires
            old(self)@.delta_seq < u32::MAX,
        ensures
            final(self)@ == (StateModel {
                delta_seq: (old(self)@.delta_seq + 1) as u32,
                ..old(self)@
            }),
            r.0@ == old(self)@.base_url + "/me/drive/items/root/delta?token="@ + number::digits(
                (old(self)@.delta_seq + 1) as nat,
            ),
            item_models(r.1@) == listing(old(self)@.items),
    {
        self.delta_seq = self.delta_seq + 1;
        let mut link: String = self.base_url.as_str().to_owned();
        link.append("/me/drive/items/root/delta?token=");
        link.append(number::decimal(self.delta_seq as u64).as_str());
        let total = self.items.len();
        let ghost rows = self.items.rows();
        let ghost keys = table::in_key_order::<String>(self.items@.dom());
        let mut out: Vec<Item> = Vec::new();
        let mut i: usize = 0;
        assert(table::keys_of(rows) == keys);
        while i < total
            invariant
                i <= total == rows.len(),
                rows == self.items.rows(),
                table::keys_of(rows) == keys,
                item_models(out@) == Seq::new(
                    i as nat,
                    |j: int| item_of(cloud::object_map(self.items@)[keys[j]]),
                ),
            decreases total - i,
        {
            let ghost had = item_models(out@);
            let key = self.items.key_at(i);
            let o = self.items.value_at(i);
            assert(table::keys_of(rows)[i as int] == rows[i as int].0);
            assert(cloud::object_map(self.items@)[keys[i as int]] == o@);
            let item = item_json(o);
            let ghost m = item@;
            out.push(item);
            assert(item_models(out@) =~= had.push(m));
            i = i + 1;
            assert(item_models(out@) =~= Seq::new(
                i as nat,
                |j: int| item_of(cloud::object_map(self.items@)[keys[j]]),
            ));
        }
        assert(cloud::object_map(self.items@).dom() =~= self.items@.dom());
        assert(item_models(out@) =~= listing(cloud::object_map(self.items@)));
        (link, out)
    }

    /// Answer a download; nothing where there is no such object.
    pub fn content(&self, path: &str) -> (r: Option<Vec<u8>>)
        ensures
            match r {
                None => !self@.items.dom().contains(part_before_last(path@)),
                Some(bytes) => {
                    let id = part_before_last(path@);
                    &&& self@.items.dom().contains(id)
                    &&& bytes@ == downloaded(
                        self@.items[id],
                        (if self@.fetch.dom().contains(self@.items[id].name) {
                            Some(self@.fetch[self@.items[id].name])
                        } else {
                            None
                        }),
                    )
                },
            },
    {
        let parts = text::split_at(path, '/');
        let id: String = if parts.len() < 2 {
            String::new()
        } else {
            assert(text::texts(parts@)[parts@.len() - 2] == parts@[parts@.len() - 2]@);
            parts[parts.len() - 2].as_str().to_owned()
        };
        assert(id@ =~= part_before_last(path@));
        let o = match self.items.get(&id) {
            Some(o) => o,
            None => {
                return None;
            },
        };
        assert(self@.items[id@] == o@);
        let bytes = match self.fetch.get(&o.name) {
            Some(FetchBehaviour::Short { bytes }) => {
                let mut all = text::copy_bytes(&o.content);
                if *bytes < all.len() {
                    all.truncate(*bytes);
                    assert(all@ =~= o.content@.take(*bytes as int));
                }
                all
            },
            Some(FetchBehaviour::Stale { etag: _ }) => {
                let n = o.content.len();
                let mut all: Vec<u8> = Vec::new();
                while all.len() < n
                    invariant
                        all@.len() <= n,
                        forall|j: int| 0 <= j < all@.len() ==> all@[j] == cloud::STALE_FILL,
                    decreases n - all@.len(),
                {
                    all.push(cloud::STALE_FILL);
                }
                assert(all@ =~= Seq::new(n as nat, |i: int| cloud::STALE_FILL));
                all
            },
            _ => text::copy_bytes(&o.content),
        };
        Some(bytes)
    }

    /// Store what was uploaded under a name: over an object with that name where
    /// there is one, else under a new id.
    pub fn store(&mut self, name: &str, content: Vec<u8>) -> (r: Sent)
        requires
            old(self)@.next_id < u32::MAX - 1 || (old(self)@.next_id < u32::MAX && !unnamed(
                old(self)@.items,
                name@,
            )),
        ensures
            r.delayed == old(self)@.holding,
            ({
                let fresh = unnamed(old(self)@.items, name@);
                &&& fresh ==> r.item@.id == cloud::id_of((old(self)@.next_id + 1) as nat)
                &&& !fresh ==> exists|o: ObjectModel| #[trigger]
                    named(old(self)@.items, name@, o) && o.id == r.item@.id
                &&& final(self)@ == after_upload(
                    old(self)@,
                    name@,
                    content@,
                    r.item@.id,
                    fresh,
                )
                &&& r.item@ == item_of(final(self)@.items[r.item@.id])
            }),
    {
        let ghost before = self@;
        let ghost bytes = content@;
        self.note(CloudOp::Put { name: name.to_owned(), content: text::copy_bytes(&content) });
        let id: String = match self.by_name(name) {
            Some(o) => {
                proof {
                    assert(named(before.items, name@, o@));
                    let k = choose|k: Seq<char>| #[trigger]
                        before.items.dom().contains(k) && before.items[k] == o@;
                    assert(!unnamed(before.items, name@));
                }
                o.id
            },
            None => self.fresh_id(),
        };
        let mut etag: String = "etag-".to_owned();
        etag.append(number::decimal(self.next_id as u64 + 1).as_str());
        let o = CloudObject {
            id: id.as_str().to_owned(),
            name: name.to_owned(),
            content,
            etag,
        };
        let item = item_json(&o);
        self.put(o);
        Sent { item, delayed: self.holding }
    }

    /// Answer an upload.
    pub fn upload(&mut self, path: &str, body: Vec<u8>) -> (r: Sent)
        requires
            old(self)@.next_id < u32::MAX - 1,
            whole_escapes(text::bytes(raw_name(path@))),
        ensures
            ({
                let name = text::lossy(unescaped(text::bytes(raw_name(path@)), 0));
                let fresh = unnamed(old(self)@.items, name);
                &&& r.delayed == old(self)@.holding
                &&& fresh ==> r.item@.id == cloud::id_of((old(self)@.next_id + 1) as nat)
                &&& !fresh ==> exists|o: ObjectModel| #[trigger]
                    named(old(self)@.items, name, o) && o.id == r.item@.id
                &&& final(self)@ == after_upload(old(self)@, name, body@, r.item@.id, fresh)
                &&& r.item@ == item_of(final(self)@.items[r.item@.id])
            }),
    {
        let name = upload_name(path);
        self.store(name.as_str(), body)
    }

    /// Answer a delete.
    pub fn delete(&mut self, path: &str)
        ensures
            final(self)@ == (StateModel {
                ops: old(self)@.ops.push(OpModel::Delete { id: last_part(path@) }),
                items: old(self)@.items.remove(last_part(path@)),
                ..old(self)@
            }),
    {
        let id = last_of(path);
        self.note(CloudOp::Delete { id: id.as_str().to_owned() });
        let ghost had = self.items@;
        self.items.remove(&id);
        assert(cloud::object_map(self.items@) =~= cloud::object_map(had).remove(id@));
    }

    /// Give an object another name, where there is one to give and an object to
    /// give it to, and say what the object is then.
    pub fn rename(&mut self, id: &str, new_name: Option<String>) -> (r: Option<Item>)
        ensures
            final(self)@ == after_rename(old(self)@, id@, text::maybe(new_name)),
            match r {
                None => !old(self)@.items.dom().contains(id@),
                Some(item) => old(self)@.items.dom().contains(id@) && item@ == item_of(
                    final(self)@.items[id@],
                ),
            },
    {
        let key = id.to_owned();
        let o = match self.items.get(&key) {
            Some(o) => o.copy(),
            None => {
                return None;
            },
        };
        assert(self@.items[id@] == o@);
        match new_name {
            None => Some(item_json(&o)),
            Some(to) => {
                self.note(
                    CloudOp::Rename { id: id.to_owned(), to: to.as_str().to_owned() },
                );
                let renamed = CloudObject { id: o.id, name: to, content: o.content, etag: o.etag };
                let item = item_json(&renamed);
                let ghost had = self.items@;
                self.items.insert(key, renamed);
                assert(cloud::object_map(self.items@) =~= cloud::object_map(had).insert(
                    id@,
                    renamed@,
                ));
                Some(item)
            },
        }
    }

    /// Answer a rename; nothing where there is no such object.
    pub fn patch(&mut self, path: &str, body: &Vec<u8>) -> (r: Option<Item>)
        ensures
            final(self)@ == after_rename(
                old(self)@,
                last_part(path@),
                json_text(body@, "name"@),
            ),
            match r {
                None => !old(self)@.items.dom().contains(last_part(path@)),
                Some(item) => old(self)@.items.dom().contains(last_part(path@)) && item@ == item_of(
                    final(self)@.items[last_part(path@)],
                ),
            },
    {
        let id = last_of(path);
        self.rename(id.as_str(), json_text_of(body, "name"))
    }

    /// Whether an upload has reached the service.
    pub fn upload_seen(&self) -> (b: bool)
        ensures
            b == (exists|i: int| 0 <= i < self@.ops.len() && #[trigger] self@.ops[i] is Put),
    {
        let ghost ops = self@.ops;
        let mut i: usize = 0;
        while i < self.ops.len()
            invariant
                i <= self.ops@.len(),
                ops == conformance::op_models(self.ops@),
                forall|j: int| 0 <= j < i ==> !(#[trigger] ops[j] is Put),
            decreases self.ops@.len() - i,
        {
            assert(ops[i as int] == self.ops@[i as int]@);
            if let CloudOp::Put { name: _, content: _ } = &self.ops[i] {
                assert(ops[i as int] is Put);
                return true;
            }
            i = i + 1;
        }
        false
    }
}

/// Everything that the service holds, in the order of the ids.
pub open spec fn listing(items: Map<Seq<char>, ObjectModel>) -> Seq<ItemModel> {
    let keys = table::in_key_order::<String>(items.dom());
    Seq::new(keys.len(), |j: int| item_of(items[keys[j]]))
}

fn last_of(path: &str) -> (s: String)
    ensures
        s@ == last_part(path@),
{
    let parts = text::split_at(path, '/');
    proof {
        text::lemma_split_join(path@, '/');
    }
    assert(text::texts(parts@).last() == parts@[parts@.len() - 1]@);
    parts[parts.len() - 1].as_str().to_owned()
}

/// A download that is short of its object differs from it.
pub proof fn law_a_short_download_is_not_the_object(o: ObjectModel, bytes: usize)
    requires
        bytes < o.content.len(),
    ensures
        downloaded(o, Some(FetchBehaviour::Short { bytes })) != o.content,
{
    assert(downloaded(o, Some(FetchBehaviour::Short { bytes })).len() == bytes);
}

/// Renaming changes nothing but the name.
pub proof fn law_a_rename_keeps_the_content(
    s: StateModel,
    id: Seq<char>,
    to: Option<Seq<char>>,
    k: Seq<char>,
)
    requires
        s.items.dom().contains(k),
    ensures
        after_rename(s, id, to).items.dom().contains(k),
        after_rename(s, id, to).items[k].content == s.items[k].content,
        after_rename(s, id, to).items[k].id == s.items[k].id,
        k != id ==> after_rename(s, id, to).items[k] == s.items[k],
{
}

/// What a hexadecimal digit is worth, in either case, and that nothing else is one.
pub proof fn law_hexadecimal_digits(b: u8, d: u8)
    ensures
        hex(b) is Some <==> 0x30 <= b <= 0x39 || 0x41 <= b <= 0x46 || 0x61 <= b <= 0x66,
        d < 10 ==> hex((0x30 + d) as u8) == Some(d),
        10 <= d < 16 ==> hex((0x41 + d - 10) as u8) == Some(d) && hex((0x61 + d - 10) as u8) == Some(
            d,
        ),
{
}

/// Two digits are a byte, the first of them the greater half; a sign in its place
/// leaves the second alone.
pub proof fn law_two_digits_are_a_byte(a: u8, b: u8)
    ensures
        hex(a) is Some && hex(b) is Some ==> hex_pair(a, b) is Some && hex_pair(a, b)->0 == 16
            * hex(a)->0 + hex(b)->0,
        a == 0x2b ==> hex_pair(a, b) == hex(b),
        hex(b) is None ==> hex_pair(a, b) is None,
        a != 0x2b && hex(a) is None ==> hex_pair(a, b) is None,
{
}

proof fn lemma_unescaped_shift(pre: Seq<u8>, b: Seq<u8>, i: int)
    requires
        0 <= i,
    ensures
        unescaped(pre + b, pre.len() + i) == unescaped(b, i),
    decreases b.len() - i,
{
    let all = pre + b;
    let at = pre.len() + i;
    if i < b.len() {
        assert(all[at] == b[i]);
        if i + 2 < b.len() {
            assert(all[at + 1] == b[i + 1] && all[at + 2] == b[i + 2]);
            lemma_unescaped_shift(pre, b, i + 3);
        }
        lemma_unescaped_shift(pre, b, i + 1);
    }
}

/// An escape is read as the byte that its digits are, wherever it stands; a percent
/// sign without two digits behind it, and every other byte, is read as it is.
pub proof fn law_an_escape_is_read_as_its_byte(plain: Seq<u8>, a: u8, b: u8, rest: Seq<u8>)
    requires
        !plain.contains(PERCENT),
    ensures
        hex_pair(a, b) matches Some(v) ==> unescaped(plain + (seq![PERCENT, a, b] + rest), 0)
            == plain + (seq![v] + unescaped(rest, 0)),
        hex_pair(a, b) is None ==> unescaped(seq![PERCENT, a, b] + rest, 0) == seq![PERCENT]
            + unescaped(seq![a, b] + rest, 0),
        unescaped(plain + rest, 0) == plain + unescaped(rest, 0),
        unescaped(seq![PERCENT], 0) == seq![PERCENT],
    decreases plain.len(),
{
    let esc = seq![PERCENT, a, b] + rest;
    lemma_unescaped_shift(seq![PERCENT, a, b], rest, 0);
    assert(esc =~= seq![PERCENT] + (seq![a, b] + rest));
    lemma_unescaped_shift(seq![PERCENT], seq![a, b] + rest, 0);
    assert(esc[0] == PERCENT && esc[1] == a && esc[2] == b);
    reveal_with_fuel(unescaped, 2);
    let p = seq![PERCENT];
    assert(unescaped(p, 0) =~= p);
    if plain.len() == 0 {
        assert(plain + esc =~= esc);
        assert(plain + rest =~= rest);
        assert(plain + unescaped(rest, 0) =~= unescaped(rest, 0));
        if let Some(v) = hex_pair(a, b) {
            assert(plain + (seq![v] + unescaped(rest, 0)) =~= seq![v] + unescaped(rest, 0));
        }
    } else {
        let t = plain.drop_first();
        let head = seq![plain[0]];
        assert(plain[0] != PERCENT) by {
            assert(plain.contains(plain[0]));
        }
        assert(!t.contains(PERCENT)) by {
            if t.contains(PERCENT) {
                let i = choose|i: int| 0 <= i < t.len() && t[i] == PERCENT;
                assert(plain[i + 1] == PERCENT);
            }
        }
        law_an_escape_is_read_as_its_byte(t, a, b, rest);
        assert(plain + esc =~= head + (t + esc));
        assert(plain + rest =~= head + (t + rest));
        lemma_unescaped_shift(head, t + esc, 0);
        lemma_unescaped_shift(head, t + rest, 0);
        assert((plain + esc)[0] == plain[0]);
        assert((plain + rest)[0] == plain[0]);
        if let Some(v) = hex_pair(a, b) {
            assert(head + (t + (seq![v] + unescaped(rest, 0))) =~= plain + (seq![v] + unescaped(
                rest,
                0,
            )));
        }
        assert(head + (t + unescaped(rest, 0)) =~= plain + unescaped(rest, 0));
    }
}

/// Where a text is found is the first place, from where the search starts, at which
/// it stands; it is not found only where it stands nowhere behind that.
pub proof fn law_a_text_is_found_where_it_first_stands(
    s: Seq<char>,
    what: Seq<char>,
    i: int,
    k: int,
)
    requires
        0 <= i <= k,
        k + what.len() <= s.len(),
        what.len() > 0,
        s.subrange(k, k + what.len()) == what,
    ensures
        i <= found_at(s, what, i) <= k,
        s.subrange(found_at(s, what, i), found_at(s, what, i) + what.len()) == what,
    decreases s.len() - i,
{
    if s.subrange(i, i + what.len()) != what {
        law_a_text_is_found_where_it_first_stands(s, what, i + 1, k);
    }
}

/// The name in a path is what stands between the first colon and slash and the next,
/// or the end where there is no next. A path without one has no name.
pub proof fn law_a_name_stands_between_its_marks(s: Seq<char>, i: int, j: int)
    requires
        i == found_at(s, seq![':', '/'], 0),
        j == found_at(s, seq![':', '/'], i + 2),
    ensures
        i >= s.len() ==> between(s).len() == 0,
        i < s.len() ==> between(s) == s.subrange(i + 2, j),
{
    reveal_strlit(":/");
    assert(":/"@ =~= seq![':', '/']);
}

/// An ending is taken off as often as it stands there, and nothing else is.
pub proof fn law_endings_are_taken_off(s: Seq<char>, ending: Seq<char>)
    requires
        ending.len() > 0,
    ensures
        trimmed(s + ending, ending) == trimmed(s, ending),
        !text::ends(s, ending) ==> trimmed(s, ending) == s && trimmed(s + ending, ending) == s,
        trimmed(s, ending).is_prefix_of(s),
        !text::ends(trimmed(s, ending), ending),
    decreases s.len(),
{
    let all = s + ending;
    assert(all.skip(all.len() - ending.len()) =~= ending);
    assert(all.take(all.len() - ending.len()) =~= s);
    if text::ends(s, ending) {
        law_endings_are_taken_off(s.take(s.len() - ending.len()), ending);
    }
}

/// The last part of a path stands behind its last slash, and the part before it
/// between the last two.
pub proof fn law_the_last_parts_of_a_path(a: Seq<char>, b: Seq<char>, c: Seq<char>)
    requires
        !b.contains('/'),
        !c.contains('/'),
    ensures
        last_part(a + seq!['/'] + c) == c,
        last_part(c) == c,
        part_before_last(a + seq!['/'] + (b + seq!['/'] + c)) == b,
        part_before_last(c).len() == 0,
{
    text::lemma_split_append(a, '/', c);
    text::lemma_split_whole(c, '/');
    text::lemma_split_whole(b, '/');
    text::lemma_split_append(a, '/', b + seq!['/'] + c);
    text::lemma_split_cons(b, '/', c);
    text::lemma_split_join(a, '/');
    let two = text::split(a, '/') + (seq![b] + seq![c]);
    assert(two[two.len() - 2] == b);
}

/// A download is the content, cut where it is said to be short, and of the same
/// length where it is said to be stale.
pub proof fn law_what_a_download_gives(o: ObjectModel, bytes: usize, etag: String)
    ensures
        downloaded(o, None) == o.content,
        downloaded(o, Some(FetchBehaviour::Honest)) == o.content,
        downloaded(o, Some(FetchBehaviour::Short { bytes })).is_prefix_of(o.content),
        bytes <= o.content.len() ==> downloaded(o, Some(FetchBehaviour::Short { bytes })).len()
            == bytes,
        bytes >= o.content.len() ==> downloaded(o, Some(FetchBehaviour::Short { bytes }))
            == o.content,
        downloaded(o, Some(FetchBehaviour::Stale { etag })).len() == o.content.len(),
{
    if bytes == o.content.len() {
        assert(o.content.take(bytes as int) =~= o.content);
    }
}

/// What is uploaded is there afterwards, under its name, with its content and a tag
/// of its own; every other object stays, and the upload is the last thing done.
pub proof fn law_an_upload_is_there(
    s: StateModel,
    name: Seq<char>,
    content: Seq<u8>,
    id: Seq<char>,
    fresh: bool,
    other: Seq<char>,
)
    requires
        s.next_id < u32::MAX - 1,
        other != id,
    ensures
        ({
            let after = after_upload(s, name, content, id, fresh);
            &&& after.items.dom().contains(id)
            &&& after.items[id].id == id && after.items[id].name == name && after.items[id].content
                == content
            &&& after.items[id].etag == cloud::etag_of((after.next_id + 1) as nat)
            &&& after.items.dom().contains(other) <==> s.items.dom().contains(other)
            &&& after.items[other] == s.items[other]
            &&& after.ops == s.ops.push(OpModel::Put { name, content })
            &&& fresh ==> after.next_id == s.next_id + 1
            &&& !fresh ==> after.next_id == s.next_id
        }),
{
}

/// A rename of an object that is there gives it its new name and is noted. Without a
/// name, and of an object that is not there, nothing happens.
pub proof fn law_a_rename_takes_effect(s: StateModel, id: Seq<char>, to: Seq<char>)
    ensures
        s.items.dom().contains(id) ==> after_rename(s, id, Some(to)).items.dom().contains(id)
            && after_rename(s, id, Some(to)).items[id].name == to && after_rename(
            s,
            id,
            Some(to),
        ).items[id].etag == s.items[id].etag && after_rename(s, id, Some(to)).ops == s.ops.push(
            OpModel::Rename { id, to },
        ),
        !s.items.dom().contains(id) ==> after_rename(s, id, Some(to)) == s,
        after_rename(s, id, None) == s,
{
}

/// A listing has each object once, with its name, its tags and its size.
pub proof fn law_a_listing_has_each_object(items: Map<Seq<char>, ObjectModel>, id: Seq<char>)
    requires
        items.dom().finite(),
        items.dom().contains(id),
    ensures
        listing(items).len() == items.dom().len(),
        listing(items).contains(
            ItemModel {
                id: items[id].id,
                name: items[id].name,
                etag: items[id].etag,
                ctag: "c"@ + items[id].etag,
                size: items[id].content.len(),
            },
        ),
{
    let keys = table::in_key_order::<String>(items.dom());
    table::lemma_in_key_order::<String>(items.dom());
    table::law_each_key_comes_once::<String>(items.dom());
    assert(keys.contains(id));
    let k = choose|k: int| 0 <= k < keys.len() && keys[k] == id;
    assert(listing(items)[k] == item_of(items[id]));
}

} // verus!
