//! A cloud that is a local directory.
//!
//! Objects are files named by id, with a small file beside each for its name.
//! Numbers are never used twice: an id that came back would attach one file's
//! content to another's identity.

use crate::number;
use crate::paths;
use crate::sort;
use crate::sort::Ranked;
use crate::text;
use vstd::prelude::*;
use vstd::string::*;

verus! {

/// A directory standing in for a cloud.
#[derive(Debug, PartialEq, Eq)]
pub struct FolderCloud {
    root: String,
    next: u64,
}

/// The directory, and the last number that was used.
#[verifier::ext_equal]
pub struct FolderModel {
    pub root: Seq<char>,
    pub next: u64,
}

impl View for FolderCloud {
    type V = FolderModel;

    closed spec fn view(&self) -> FolderModel {
        FolderModel { root: self.root@, next: self.next }
    }
}

/// The number in the name of a file, if it has one: behind `obj-` and up to the
/// first full stop.
pub open spec fn number_of(name: Seq<char>) -> Option<nat> {
    if text::begins(name, "obj-"@) {
        number::parsed(text::split(name.skip(4), '.')[0], u64::MAX as nat)
    } else {
        None
    }
}

/// The largest number among some names, or zero.
pub open spec fn last_number(names: Seq<Seq<char>>) -> nat
    decreases names.len(),
{
    if names.len() == 0 {
        0
    } else {
        let before = last_number(names.drop_last());
        match number_of(names.last()) {
            Some(n) => if n > before {
                n
            } else {
                before
            },
            None => before,
        }
    }
}

/// The id with a number.
pub open spec fn id_of(n: nat) -> Seq<char> {
    "obj-"@ + number::digits(n)
}

/// A name put below the directory. A whole path stands for itself.
pub open spec fn below(root: Seq<char>, name: Seq<char>) -> Seq<char> {
    if paths::is_absolute(name) {
        name
    } else {
        paths::joined(root, name)
    }
}

fn parse_number(name: &str) -> (r: Option<u64>)
    ensures
        number_of(name@) == match r {
            Some(n) => Some(n as nat),
            None => None,
        },
{
    let chars = text::chars_of(name);
    proof {
        reveal_strlit("obj-");
    }
    if !text::has_prefix(&chars, "obj-") {
        return None;
    }
    let mut rest: Vec<char> = Vec::new();
    let mut i: usize = 4;
    assert(rest@ =~= name@.skip(4).take(0));
    while i < chars.len()
        invariant
            4 <= i <= chars@.len(),
            chars@ == name@,
            rest@ == name@.skip(4).take(i - 4),
        decreases chars@.len() - i,
    {
        rest.push(chars[i]);
        i = i + 1;
        assert(rest@ =~= name@.skip(4).take(i - 4));
    }
    assert(rest@ =~= name@.skip(4));
    let rest = text::text_of(&rest);
    let pieces = text::split_at(rest.as_str(), '.');
    proof {
        text::lemma_split_join(rest@, '.');
        assert(text::texts(pieces@)[0] == pieces@[0]@);
    }
    number::parse(pieces[0].as_str(), 0xffff_ffff_ffff_ffff)
}

fn make_id(n: u64) -> (s: String)
    ensures
        s@ == id_of(n as nat),
{
    let mut s: String = "obj-".to_owned();
    s.append(number::decimal(n).as_str());
    s
}

/// One object: its id, its name and its size.
#[derive(Debug, PartialEq, Eq)]
pub struct Listed {
    pub id: String,
    pub name: String,
    pub size: u64,
}

/// One object over texts.
#[verifier::ext_equal]
pub struct ListedModel {
    pub id: Seq<char>,
    pub name: Seq<char>,
    pub size: u64,
}

impl View for Listed {
    type V = ListedModel;

    open spec fn view(&self) -> ListedModel {
        ListedModel { id: self.id@, name: self.name@, size: self.size }
    }
}

impl Ranked for Listed {
    type M = ListedModel;

    open spec fn model(&self) -> ListedModel {
        self@
    }

    /// By id, then by name, then by size.
    open spec fn ahead(a: ListedModel, b: ListedModel) -> bool {
        text::before(a.id, b.id) || (a.id == b.id && (text::before(a.name, b.name) || (a.name
            == b.name && a.size < b.size)))
    }

    proof fn ahead_transitive(a: ListedModel, b: ListedModel, c: ListedModel) {
        if text::before(a.id, b.id) && text::before(b.id, c.id) {
            text::lemma_before_transitive(a.id, b.id, c.id);
        }
        if text::before(a.name, b.name) && text::before(b.name, c.name) {
            text::lemma_before_transitive(a.name, b.name, c.name);
        }
    }

    proof fn ahead_cotransitive(a: ListedModel, b: ListedModel, c: ListedModel) {
        text::lemma_before_cotransitive(a.id, b.id, c.id);
        text::lemma_before_total(a.id, b.id);
        text::lemma_before_total(b.id, c.id);
        text::lemma_before_total(a.name, b.name);
        text::lemma_before_total(b.name, c.name);
        if text::before(b.id, a.id) && text::before(c.id, b.id) {
            text::lemma_before_transitive(c.id, b.id, a.id);
        }
        if text::before(b.name, a.name) && text::before(c.name, b.name) {
            text::lemma_before_transitive(c.name, b.name, a.name);
        }
        text::lemma_before_irreflexive(a.id);
        text::lemma_before_irreflexive(a.name);
        if text::before(a.id, c.id) && text::before(c.id, a.id) {
            text::lemma_before_transitive(a.id, c.id, a.id);
        }
        if text::before(a.name, c.name) && text::before(c.name, a.name) {
            text::lemma_before_transitive(a.name, c.name, a.name);
        }
    }

    proof fn ahead_irreflexive(a: ListedModel) {
        text::lemma_before_irreflexive(a.id);
        text::lemma_before_irreflexive(a.name);
    }

    fn is_ahead(&self, other: &Listed) -> (b: bool) {
        if text::is_before(self.id.as_str(), other.id.as_str()) {
            return true;
        }
        if !text::same(self.id.as_str(), other.id.as_str()) {
            return false;
        }
        if text::is_before(self.name.as_str(), other.name.as_str()) {
            return true;
        }
        text::same(self.name.as_str(), other.name.as_str()) && self.size < other.size
    }
}

/// A file in the directory: its name, its size, and what the file that holds
/// the object's name says, if it could be read.
#[derive(Debug, PartialEq, Eq)]
pub struct Stored {
    pub file: String,
    pub size: u64,
    pub name: Option<String>,
}

/// A file over texts.
#[verifier::ext_equal]
pub struct StoredModel {
    pub file: Seq<char>,
    pub size: u64,
    pub name: Option<Seq<char>>,
}

impl View for Stored {
    type V = StoredModel;

    open spec fn view(&self) -> StoredModel {
        StoredModel { file: self.file@, size: self.size, name: text::maybe(self.name) }
    }
}

/// Files over texts.
pub open spec fn stored_models(v: Seq<Stored>) -> Seq<StoredModel> {
    v.map_values(|s: Stored| s@)
}

/// Whether a file is an object, and not the name of one or something else.
pub open spec fn is_object(file: Seq<char>) -> bool {
    text::begins(file, "obj-"@) && !text::ends(file, ".name"@)
}

/// The objects among some files, in the order found. One without a name goes by
/// its id.
pub open spec fn objects(files: Seq<StoredModel>) -> Seq<ListedModel>
    decreases files.len(),
{
    if files.len() == 0 {
        Seq::empty()
    } else {
        let f = files.last();
        let before = objects(files.drop_last());
        if is_object(f.file) {
            before.push(
                ListedModel {
                    id: f.file,
                    name: match f.name {
                        Some(name) => name,
                        None => f.file,
                    },
                    size: f.size,
                },
            )
        } else {
            before
        }
    }
}

impl FolderCloud {
    /// Open a directory with these files in it. The numbering goes on where it
    /// left off.
    pub fn open(root: &str, files: &Vec<String>) -> (c: FolderCloud)
        ensures
            c@ == (FolderModel {
                root: root@,
                next: last_number(text::texts(files@)) as u64,
            }),
            last_number(text::texts(files@)) <= u64::MAX,
    {
        let ghost all = text::texts(files@);
        let mut next: u64 = 0;
        let mut i: usize = 0;
        assert(all.take(0) =~= Seq::empty());
        while i < files.len()
            invariant
                i <= files@.len(),
                all == text::texts(files@),
                next == last_number(all.take(i as int)),
            decreases files@.len() - i,
        {
            proof {
                assert(all.take(i + 1).drop_last() =~= all.take(i as int));
                assert(all.take(i + 1).last() == files@[i as int]@);
            }
            if let Some(n) = parse_number(files[i].as_str()) {
                if n > next {
                    next = n;
                }
            }
            i = i + 1;
        }
        assert(all.take(i as int) =~= all);
        FolderCloud { root: root.to_owned(), next }
    }

    /// Where an object is.
    pub fn object(&self, id: &str) -> (s: String)
        ensures
            s@ == below(self@.root, id@),
    {
        if paths::absolute(id) {
            return id.to_owned();
        }
        paths::join(self.root.as_str(), id)
    }

    /// Where the name of an object is.
    pub fn name_file(&self, id: &str) -> (s: String)
        ensures
            s@ == below(self@.root, id@ + ".name"@),
    {
        let mut name: String = id.to_owned();
        name.append(".name");
        if paths::absolute(name.as_str()) {
            return name;
        }
        paths::join(self.root.as_str(), name.as_str())
    }

    /// Whether there is a number left for a new object.
    pub fn has_room(&self) -> (b: bool)
        ensures
            b == (self@.next < u64::MAX),
    {
        self.next < 0xffff_ffff_ffff_ffff
    }

    /// The id for a new object.
    pub fn seed(&mut self) -> (id: String)
        requires
            old(self)@.next < u64::MAX,
        ensures
            final(self)@ == (FolderModel { next: (old(self)@.next + 1) as u64, ..old(self)@ }),
            id@ == id_of((old(self)@.next + 1) as nat),
    {
        self.next = self.next + 1;
        make_id(self.next)
    }

    /// The id to upload under: the one a file already has, or a new one.
    pub fn upload(&mut self, existing: Option<&str>) -> (id: String)
        requires
            existing is None ==> old(self)@.next < u64::MAX,
        ensures
            match existing {
                Some(e) => id@ == e@ && final(self)@ == old(self)@,
                None => id@ == id_of((old(self)@.next + 1) as nat) && final(self)@ == (FolderModel {
                    next: (old(self)@.next + 1) as u64,
                    ..old(self)@
                }),
            },
    {
        match existing {
            Some(e) => e.to_owned(),
            None => self.seed(),
        }
    }

    /// The tag of a version: how long its content is.
    pub fn tag(&self, size: u64) -> (s: String)
        ensures
            s@ == number::digits(size as nat),
    {
        number::decimal(size)
    }

    /// Everything that the directory holds, in order.
    pub fn list(&self, files: &Vec<Stored>) -> (out: Vec<Listed>)
        ensures
            sort::models(out@) == sort::arranged::<Listed>(objects(stored_models(files@))),
    {
        let ghost all = stored_models(files@);
        let mut out: Vec<Listed> = Vec::new();
        let mut i: usize = 0;
        assert(all.take(0) =~= Seq::empty());
        assert(sort::models(out@) =~= Seq::empty());
        while i < files.len()
            invariant
                i <= files@.len(),
                all == stored_models(files@),
                sort::models(out@) == objects(all.take(i as int)),
            decreases files@.len() - i,
        {
            let f = &files[i];
            let ghost had = sort::models(out@);
            proof {
                assert(all.take(i + 1).drop_last() =~= all.take(i as int));
                assert(all.take(i + 1).last() == f@);
            }
            let chars = text::chars_of(f.file.as_str());
            if text::has_prefix(&chars, "obj-") && !text::has_suffix(&chars, ".name") {
                let name = match &f.name {
                    Some(name) => name.as_str().to_owned(),
                    None => f.file.as_str().to_owned(),
                };
                let l = Listed { id: f.file.as_str().to_owned(), name, size: f.size };
                let ghost m = l@;
                out.push(l);
                assert(sort::models(out@) =~= had.push(m));
            }
            i = i + 1;
        }
        assert(all.take(i as int) =~= all);
        sort::arrange(out)
    }
}

proof fn lemma_number_of_id(n: nat)
    requires
        n <= u64::MAX,
    ensures
        number_of(id_of(n)) == Some(n),
        number_of(id_of(n) + ".name"@) == Some(n),
{
    reveal_strlit("obj-");
    reveal_strlit(".name");
    let d = number::digits(n);
    number::lemma_digits(n);
    number::law_decimal_round_trips(n);
    let id = id_of(n);
    assert(id.take(4) =~= "obj-"@);
    assert(id.skip(4) =~= d);
    assert(!d.contains('.')) by {
        assert forall|i: int| 0 <= i < d.len() implies d[i] != '.' by {
            assert('0' <= d[i]);
        }
    }
    text::lemma_split_whole(d, '.');
    assert(d[0] >= '0');
    let file = id + ".name"@;
    assert(file.take(4) =~= "obj-"@);
    let tail = seq!['n', 'a', 'm', 'e'];
    assert(file.skip(4) =~= d + seq!['.'] + tail);
    text::lemma_split_cons(d, '.', tail);
}

proof fn lemma_last_number(names: Seq<Seq<char>>, i: int)
    requires
        0 <= i < names.len(),
        number_of(names[i]) is Some,
    ensures
        number_of(names[i])->0 <= last_number(names),
    decreases names.len(),
{
    if i < names.len() - 1 {
        lemma_last_number(names.drop_last(), i);
    }
}

/// A new id is the id of no object that was there when the directory was
/// opened, nor of one that was made since.
pub proof fn law_an_id_is_never_used_twice(files: Seq<Seq<char>>, made: nat, i: int)
    requires
        0 <= i < files.len(),
        last_number(files) <= made < u64::MAX,
    ensures
        files[i] != id_of(made + 1),
        files[i] != id_of(made + 1) + ".name"@,
        forall|k: nat| 1 <= k <= made ==> #[trigger] id_of(k) != id_of(made + 1),
{
    lemma_number_of_id(made + 1);
    if number_of(files[i]) is Some {
        lemma_last_number(files, i);
    }
    assert forall|k: nat| 1 <= k <= made implies #[trigger] id_of(k) != id_of(made + 1) by {
        lemma_number_of_id(k);
    }
}

/// The last number is one that a file has, or zero, and no file has a greater one.
pub proof fn law_the_last_number_is_the_greatest(names: Seq<Seq<char>>, i: int)
    requires
        0 <= i < names.len(),
    ensures
        number_of(names[i]) matches Some(n) ==> n <= last_number(names),
        last_number(names) > 0 ==> exists|k: int|
            0 <= k < names.len() && number_of(#[trigger] names[k]) == Some(last_number(names)),
    decreases names.len(),
{
    let less = names.drop_last();
    let n = names.len() - 1;
    if less.len() > 0 {
        if i < n {
            law_the_last_number_is_the_greatest(less, i);
            assert(less[i] == names[i]);
        } else {
            law_the_last_number_is_the_greatest(less, 0);
        }
    }
    if last_number(names) > 0 {
        if last_number(names) == last_number(less) && less.len() > 0 {
            let k = choose|k: int|
                0 <= k < less.len() && number_of(#[trigger] less[k]) == Some(last_number(less));
            assert(names[k] == less[k]);
        } else {
            assert(less.len() == 0 ==> last_number(less) == 0);
            assert(names.last() == names[n]);
            assert(number_of(names[n]) == Some(last_number(names)));
        }
    }
}

/// A file's number is the one that its object was named by, with or without an
/// ending behind a dot. A name that does not start as an object's has none.
pub proof fn law_an_objects_number_is_read_back(n: nat, ending: Seq<char>, other: Seq<char>)
    requires
        n <= u64::MAX,
    ensures
        number_of(id_of(n)) == Some(n),
        number_of(id_of(n) + seq!['.'] + ending) == Some(n),
        !text::begins(other, "obj-"@) ==> number_of(other) is None,
{
    reveal_strlit("obj-");
    let d = number::digits(n);
    number::lemma_digits(n);
    number::law_decimal_round_trips(n);
    assert(!d.contains('.')) by {
        if d.contains('.') {
            let i = choose|i: int| 0 <= i < d.len() && d[i] == '.';
            assert('0' <= d[i] <= '9');
        }
    }
    assert(d[0] != '+') by {
        assert('0' <= d[0] <= '9');
    }
    let id = id_of(n);
    assert(id.skip(4) =~= d);
    assert(id.take(4) =~= "obj-"@);
    text::lemma_split_whole(d, '.');
    let more = id + seq!['.'] + ending;
    assert(more.skip(4) =~= d + seq!['.'] + ending);
    assert(more.take(4) =~= "obj-"@);
    text::lemma_split_cons(d, '.', ending);
}

/// The objects of a folder are the files that start as one and hold no name, one by
/// one and in their order: each by its file, with its size, and under the name that
/// was kept beside it or else that of the file.
pub proof fn law_every_object_is_listed(
    first: Seq<StoredModel>,
    second: Seq<StoredModel>,
    x: StoredModel,
)
    ensures
        objects(first + second) == objects(first) + objects(second),
        text::begins(x.file, "obj-"@) && !text::ends(x.file, ".name"@) ==> objects(seq![x]) == seq![
            ListedModel {
                id: x.file,
                name: match x.name {
                    Some(name) => name,
                    None => x.file,
                },
                size: x.size,
            },
        ],
        !text::begins(x.file, "obj-"@) || text::ends(x.file, ".name"@) ==> objects(seq![x]).len()
            == 0,
    decreases second.len(),
{
    let one = seq![x];
    assert(one.drop_last() =~= Seq::empty());
    assert(objects(one.drop_last()) =~= Seq::empty());
    let l = ListedModel {
        id: x.file,
        name: match x.name {
            Some(name) => name,
            None => x.file,
        },
        size: x.size,
    };
    assert(Seq::<ListedModel>::empty().push(l) =~= seq![l]);
    let both = first + second;
    if second.len() == 0 {
        assert(both =~= first);
        assert(objects(both) =~= objects(first) + objects(second));
    } else {
        let less = second.drop_last();
        law_every_object_is_listed(first, less, x);
        assert(both.drop_last() =~= first + less);
        assert(both.last() == second.last());
        assert(objects(both) =~= objects(first) + objects(second));
    }
}

/// A listing is in the order of the objects, and has each of them once for each
/// time that it is there.
pub proof fn law_a_listing_is_in_order(files: Seq<StoredModel>)
    ensures
        sort::in_order::<Listed>(sort::arranged::<Listed>(objects(files))),
        sort::arranged::<Listed>(objects(files)).to_multiset() == objects(files).to_multiset(),
{
    sort::lemma_arranged::<Listed>(objects(files));
}

/// A name is looked for below the root, unless it says where it is by itself.
pub proof fn law_where_a_name_is_looked_for(root: Seq<char>, name: Seq<char>)
    requires
        name.len() > 0,
    ensures
        name[0] == '/' ==> below(root, name) == name,
        name[0] != '/' ==> below(root, name) == paths::joined(root, name),
{
}

/// Objects are listed in the order of their identities.
pub proof fn law_objects_are_listed_by_identity(s: Seq<ListedModel>, i: int, j: int)
    requires
        0 <= i < j < s.len(),
    ensures
        sort::arranged::<Listed>(s).len() == s.len(),
        sort::arranged::<Listed>(s)[i].id == sort::arranged::<Listed>(s)[j].id || text::before(
            sort::arranged::<Listed>(s)[i].id,
            sort::arranged::<Listed>(s)[j].id,
        ),
{
    sort::lemma_arranged::<Listed>(s);
    let a = sort::arranged::<Listed>(s)[i];
    let b = sort::arranged::<Listed>(s)[j];
    text::lemma_before_total(a.id, b.id);
    assert(!Listed::ahead(b, a));
}

} // verus!
