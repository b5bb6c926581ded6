//! Which folders this device leaves out. The choice is stored as metadata on the
//! sync root: no content is read or written, and changing the choice never
//! removes files.

use crate::paths;
use crate::sort;
use crate::sort::Ranked;
use crate::text;
use vstd::prelude::*;
use vstd::string::*;

verus! {

/// The JSON text of a list of strings.
pub uninterp spec fn json_of(list: Seq<Seq<char>>) -> Seq<u8>;

/// The list of strings that some bytes are the JSON text of, or why they are
/// none.
pub uninterp spec fn json_parsed(bytes: Seq<u8>) -> Result<Seq<Seq<char>>, Seq<char>>;

/// `serde_json::to_vec` on a list of strings, which `json_of` names. It fails
/// only for a value that refuses to be written or for a map with other keys
/// than strings, so never here, and `serde_json::from_slice` gives the list
/// back.
#[verifier::external_body]
fn to_json(list: &Vec<String>) -> (r: Result<Vec<u8>, String>)
    ensures
        r is Ok,
        r->Ok_0@ == json_of(text::texts(list@)),
        json_parsed(r->Ok_0@) is Ok,
        json_parsed(r->Ok_0@)->Ok_0 == text::texts(list@),
{
    serde_json::to_vec(list).map_err(|e| e.to_string())
}

/// `serde_json::from_slice` to a list of strings, with the text of its error,
/// which `json_parsed` names: what it gives depends on the bytes alone.
#[verifier::external_body]
fn from_json(bytes: &Vec<u8>) -> (r: Result<Vec<String>, String>)
    ensures
        json_parsed(bytes@) == match r {
            Ok(list) => Ok(text::texts(list@)),
            Err(e) => Err(e@),
        },
{
    serde_json::from_slice(bytes).map_err(|e| e.to_string())
}

/// The name of the attribute that holds the choice.
pub const XATTR: &'static str = "user.hydration.selection";

/// The name of the attribute that holds the choice which was last acted on.
pub const APPLIED: &'static str = "user.hydration.selection_applied";

/// How many folders can be left out.
pub const MAX_FOLDERS: usize = 200;

/// How many bytes the path of one may have.
pub const MAX_PATH: usize = 2048;

/// How many bytes the whole choice may have.
pub const MAX_BYTES: usize = 16000;

/// Why a choice is not one.
#[derive(Debug, PartialEq, Eq)]
pub enum Problem {
    TooMany,
    NotRelative,
    TooLarge,
    Invalid,
    /// What is stored is not a list.
    Malformed(String),
}

/// What is said of a problem.
pub open spec fn problem_text(why: Problem) -> Seq<char> {
    match why {
        Problem::TooMany => "Choose at most 200 excluded folders"@,
        Problem::NotRelative => "Choose a folder relative to the OneDrive root"@,
        Problem::TooLarge => "Folder selection is too large"@,
        Problem::Invalid => "Invalid folder selection"@,
        Problem::Malformed(e) => e@,
    }
}

impl Problem {
    pub fn message(&self) -> (s: String)
        ensures
            s@ == problem_text(*self),
    {
        match self {
            Problem::TooMany => "Choose at most 200 excluded folders".to_owned(),
            Problem::NotRelative => "Choose a folder relative to the OneDrive root".to_owned(),
            Problem::TooLarge => "Folder selection is too large".to_owned(),
            Problem::Invalid => "Invalid folder selection".to_owned(),
            Problem::Malformed(e) => e.as_str().to_owned(),
        }
    }
}

/// A piece of a path that is an ordinary name.
pub open spec fn is_name(piece: Seq<char>) -> bool {
    piece.len() > 0 && piece != seq!['.'] && piece != seq!['.', '.']
}

/// A folder that can be left out: a path below the root, made of ordinary names
/// with one slash between them, that fits.
pub open spec fn is_choice(p: Seq<char>) -> bool {
    &&& text::bytes(p).len() <= MAX_PATH
    &&& !p.contains('\0')
    &&& !p.contains('\n')
    &&& !p.contains('\r')
    &&& forall|i: int|
        0 <= i < text::split(p, '/').len() ==> is_name(#[trigger] text::split(p, '/')[i])
}

/// Whether a folder lies below another one of these.
pub open spec fn is_nested(all: Seq<Seq<char>>, p: Seq<char>) -> bool {
    exists|j: int| 0 <= j < all.len() && #[trigger] all[j] != p && paths::starts_with(p, all[j])
}

/// A sorted list without repetitions.
pub open spec fn deduped(s: Seq<Seq<char>>) -> Seq<Seq<char>>
    decreases s.len(),
{
    if s.len() <= 1 {
        s
    } else if s.last() == s[s.len() - 2] {
        deduped(s.drop_last())
    } else {
        deduped(s.drop_last()).push(s.last())
    }
}

/// Those of the first `k` folders that lie below no other one.
pub open spec fn outermost(all: Seq<Seq<char>>, k: nat) -> Seq<Seq<char>>
    decreases k,
{
    if k == 0 {
        Seq::empty()
    } else {
        let before = outermost(all, (k - 1) as nat);
        let p = all[k - 1];
        if is_nested(all, p) {
            before
        } else {
            before.push(p)
        }
    }
}

/// A choice in its plainest form: in order, each folder once, and none that
/// lies below another one.
pub open spec fn plainest(list: Seq<Seq<char>>) -> Seq<Seq<char>> {
    let all = deduped(sort::arranged::<String>(list));
    outermost(all, all.len())
}

/// Why a list is not a choice, whatever its size on disk.
pub open spec fn fault(list: Seq<Seq<char>>) -> Option<Problem> {
    if list.len() > MAX_FOLDERS {
        Some(Problem::TooMany)
    } else if exists|i: int| 0 <= i < list.len() && !is_choice(#[trigger] list[i]) {
        Some(Problem::NotRelative)
    } else {
        None
    }
}

/// What a list comes to as a choice.
pub open spec fn validated(list: Seq<Seq<char>>) -> Result<Seq<Seq<char>>, Problem> {
    match fault(list) {
        Some(why) => Err(why),
        None => if json_of(plainest(list)).len() > MAX_BYTES {
            Err(Problem::TooLarge)
        } else {
            Ok(plainest(list))
        },
    }
}

/// A choice over texts.
pub open spec fn chosen(r: Result<Vec<String>, Problem>) -> Result<Seq<Seq<char>>, Problem> {
    match r {
        Ok(list) => Ok(text::texts(list@)),
        Err(why) => Err(why),
    }
}

fn check_name(piece: &str) -> (b: bool)
    ensures
        b == is_name(piece@),
{
    proof {
        reveal_strlit(".");
        reveal_strlit("..");
        assert("."@ =~= seq!['.']);
        assert(".."@ =~= seq!['.', '.']);
    }
    !piece.is_empty() && !text::same(piece, ".") && !text::same(piece, "..")
}

fn check_choice(p: &str) -> (b: bool)
    ensures
        b == is_choice(p@),
{
    if p.as_bytes().len() > MAX_PATH {
        return false;
    }
    let chars = text::chars_of(p);
    let mut i: usize = 0;
    while i < chars.len()
        invariant
            i <= chars@.len(),
            chars@ == p@,
            forall|j: int| 0 <= j < i ==> p@[j] != '\0' && p@[j] != '\n' && p@[j] != '\r',
        decreases chars@.len() - i,
    {
        if chars[i] == '\0' || chars[i] == '\n' || chars[i] == '\r' {
            assert(p@.contains(p@[i as int]));
            return false;
        }
        i = i + 1;
    }
    let pieces = text::split_at(p, '/');
    let ghost all = text::split(p@, '/');
    let mut i: usize = 0;
    while i < pieces.len()
        invariant
            i <= pieces@.len(),
            all == text::split(p@, '/'),
            all == text::texts(pieces@),
            forall|j: int| 0 <= j < i ==> is_name(#[trigger] all[j]),
        decreases pieces@.len() - i,
    {
        assert(all[i as int] == pieces@[i as int]@);
        if !check_name(pieces[i].as_str()) {
            return false;
        }
        i = i + 1;
    }
    true
}

fn check_nested(all: &Vec<String>, p: &str) -> (b: bool)
    ensures
        b == is_nested(text::texts(all@), p@),
{
    let ghost list = text::texts(all@);
    let mut j: usize = 0;
    while j < all.len()
        invariant
            j <= all@.len(),
            list == text::texts(all@),
            forall|k: int|
                0 <= k < j ==> #[trigger] list[k] == p@ || !paths::starts_with(p@, list[k]),
        decreases all@.len() - j,
    {
        assert(list[j as int] == all@[j as int]@);
        if !text::same(all[j].as_str(), p) && paths::lies_under(p, all[j].as_str()) {
            return true;
        }
        j = j + 1;
    }
    false
}

fn copy_list(list: &Vec<String>) -> (out: Vec<String>)
    ensures
        text::texts(out@) == text::texts(list@),
{
    let mut out: Vec<String> = Vec::new();
    let ghost all = text::texts(list@);
    let mut i: usize = 0;
    assert(text::texts(out@) =~= all.take(0));
    while i < list.len()
        invariant
            i <= list@.len(),
            all == text::texts(list@),
            text::texts(out@) == all.take(i as int),
        decreases list@.len() - i,
    {
        let ghost had = text::texts(out@);
        out.push(list[i].as_str().to_owned());
        assert(text::texts(out@) =~= had.push(all[i as int]));
        assert(all.take(i + 1) =~= all.take(i as int).push(all[i as int]));
        i = i + 1;
    }
    assert(all.take(i as int) =~= all);
    out
}

fn dedup(list: Vec<String>) -> (out: Vec<String>)
    ensures
        text::texts(out@) == deduped(text::texts(list@)),
{
    let mut out: Vec<String> = Vec::new();
    let ghost all = text::texts(list@);
    let mut i: usize = 0;
    assert(text::texts(out@) =~= deduped(all.take(0)));
    while i < list.len()
        invariant
            i <= list@.len(),
            all == text::texts(list@),
            text::texts(out@) == deduped(all.take(i as int)),
        decreases list@.len() - i,
    {
        let ghost had = text::texts(out@);
        let ghost more = all.take(i + 1);
        proof {
            assert(more.drop_last() =~= all.take(i as int));
            assert(more.last() == list@[i as int]@);
            if i > 0 {
                assert(more[more.len() - 2] == list@[i - 1]@);
            } else {
                assert(more =~= seq![list@[0]@]);
                assert(had =~= Seq::empty());
            }
        }
        if i == 0 || !text::same(list[i].as_str(), list[i - 1].as_str()) {
            out.push(list[i].as_str().to_owned());
            assert(text::texts(out@) =~= had.push(list@[i as int]@));
        }
        i = i + 1;
    }
    assert(all.take(i as int) =~= all);
    out
}

/// Bring a list into its plainest form as a choice, or say why it is none. How
/// large it is on disk is not looked at.
pub fn normalize(list: &Vec<String>) -> (r: Result<Vec<String>, Problem>)
    ensures
        chosen(r) == match fault(text::texts(list@)) {
            Some(why) => Err(why),
            None => Ok(plainest(text::texts(list@))),
        },
{
    let ghost given = text::texts(list@);
    if list.len() > MAX_FOLDERS {
        return Err(Problem::TooMany);
    }
    let mut i: usize = 0;
    while i < list.len()
        invariant
            i <= list@.len(),
            list@.len() <= MAX_FOLDERS,
            given == text::texts(list@),
            forall|j: int| 0 <= j < i ==> is_choice(#[trigger] given[j]),
        decreases list@.len() - i,
    {
        assert(given[i as int] == list@[i as int]@);
        if !check_choice(list[i].as_str()) {
            return Err(Problem::NotRelative);
        }
        i = i + 1;
    }
    let copied = copy_list(list);
    assert(sort::models(copied@) =~= text::texts(copied@));
    let sorted = sort::arrange(copied);
    assert(sort::models(sorted@) =~= text::texts(sorted@));
    let all = dedup(sorted);
    let ghost each = text::texts(all@);
    let mut out: Vec<String> = Vec::new();
    let mut i: usize = 0;
    assert(text::texts(out@) =~= outermost(each, 0));
    while i < all.len()
        invariant
            i <= all@.len(),
            each == text::texts(all@),
            text::texts(out@) == outermost(each, i as nat),
        decreases all@.len() - i,
    {
        let ghost had = text::texts(out@);
        assert(each[i as int] == all@[i as int]@);
        if !check_nested(&all, all[i].as_str()) {
            out.push(all[i].as_str().to_owned());
            assert(text::texts(out@) =~= had.push(each[i as int]));
        }
        i = i + 1;
    }
    Ok(out)
}

/// Refuse a choice that is too large on disk, given how large it is.
pub fn within(list: Vec<String>, size: usize) -> (r: Result<Vec<String>, Problem>)
    ensures
        chosen(r) == if size > MAX_BYTES {
            Err(Problem::TooLarge)
        } else {
            Ok(text::texts(list@))
        },
{
    if size > MAX_BYTES {
        Err(Problem::TooLarge)
    } else {
        Ok(list)
    }
}

/// Check a list as a choice and bring it into its plainest form.
pub fn validate(list: &Vec<String>) -> (r: Result<Vec<String>, Problem>)
    ensures
        chosen(r) == validated(text::texts(list@)),
{
    let plain = match normalize(list) {
        Ok(plain) => plain,
        Err(why) => {
            return Err(why);
        },
    };
    match to_json(&plain) {
        Ok(bytes) => within(plain, bytes.len()),
        Err(e) => Err(Problem::Malformed(e)),
    }
}

/// What a stored choice says; nothing where it is not one.
pub open spec fn stored(value: Option<Seq<u8>>) -> Option<Result<Seq<Seq<char>>, Problem>> {
    match value {
        None => Some(Ok(Seq::empty())),
        Some(bytes) => if bytes.len() > MAX_BYTES {
            Some(Err(Problem::Invalid))
        } else {
            match json_parsed(bytes) {
                Ok(list) => Some(validated(list)),
                Err(_) => None,
            }
        },
    }
}

/// Bytes that may be missing.
pub open spec fn value_of(value: Option<Vec<u8>>) -> Option<Seq<u8>> {
    match value {
        Some(v) => Some(v@),
        None => None,
    }
}

/// Read the choice that an attribute holds. Without one nothing is left out.
pub fn read(value: &Option<Vec<u8>>) -> (r: Result<Vec<String>, Problem>)
    ensures
        match stored(value_of(*value)) {
            Some(answer) => chosen(r) == answer,
            None => r matches Err(Problem::Malformed(e)) && json_parsed(value_of(*value)->0)
                == Err::<Seq<Seq<char>>, Seq<char>>(e@),
        },
{
    match value {
        None => {
            let none: Vec<String> = Vec::new();
            assert(text::texts(none@) =~= Seq::empty());
            Ok(none)
        },
        Some(bytes) => {
            if bytes.len() > MAX_BYTES {
                return Err(Problem::Invalid);
            }
            match from_json(bytes) {
                Ok(list) => validate(&list),
                Err(e) => Err(Problem::Malformed(e)),
            }
        },
    }
}

/// What to store for a choice.
pub fn write(list: &Vec<String>) -> (r: Result<Vec<u8>, Problem>)
    ensures
        match r {
            Ok(bytes) => validated(text::texts(list@)) is Ok && bytes@ == json_of(
                plainest(text::texts(list@)),
            ) && json_parsed(bytes@) == Ok::<Seq<Seq<char>>, Seq<char>>(
                plainest(text::texts(list@)),
            ),
            Err(why) => validated(text::texts(list@)) == Err::<Seq<Seq<char>>, Problem>(why),
        },
{
    match validate(list) {
        Ok(plain) => match to_json(&plain) {
            Ok(bytes) => Ok(bytes),
            Err(e) => Err(Problem::Malformed(e)),
        },
        Err(why) => Err(why),
    }
}

/// Read the choice that was last acted on.
pub fn applied(value: &Option<Vec<u8>>) -> (r: Result<Vec<String>, Problem>)
    ensures
        match value_of(*value) {
            None => chosen(r) == Ok::<Seq<Seq<char>>, Problem>(Seq::empty()),
            Some(bytes) => match json_parsed(bytes) {
                Ok(list) => chosen(r) == Ok::<Seq<Seq<char>>, Problem>(list),
                Err(why) => r matches Err(Problem::Malformed(e)) && e@ == why,
            },
        },
{
    match value {
        None => {
            let none: Vec<String> = Vec::new();
            assert(text::texts(none@) =~= Seq::empty());
            Ok(none)
        },
        Some(bytes) => match from_json(bytes) {
            Ok(list) => Ok(list),
            Err(e) => Err(Problem::Malformed(e)),
        },
    }
}

/// Drop what is to be stored where it is stored already.
pub fn unless_stored(current: &Option<Vec<u8>>, bytes: Vec<u8>) -> (r: Option<Vec<u8>>)
    ensures
        value_of(r) == if value_of(*current) == Some(bytes@) {
            None
        } else {
            Some(bytes@)
        },
{
    match current {
        Some(now) => if text::equal_bytes(now, &bytes) {
            None
        } else {
            Some(bytes)
        },
        None => Some(bytes),
    }
}

/// What to store to note that a choice was acted on, where it is not stored
/// already.
pub fn mark_applied(current: &Option<Vec<u8>>, list: &Vec<String>) -> (r: Result<
    Option<Vec<u8>>,
    Problem,
>)
    ensures
        r matches Ok(write) && value_of(write) == if value_of(*current) == Some(
            json_of(text::texts(list@)),
        ) {
            None
        } else {
            Some(json_of(text::texts(list@)))
        },
        json_parsed(json_of(text::texts(list@))) == Ok::<Seq<Seq<char>>, Seq<char>>(
            text::texts(list@),
        ),
{
    match to_json(list) {
        Ok(bytes) => Ok(unless_stored(current, bytes)),
        Err(e) => Err(Problem::Malformed(e)),
    }
}

/// Whether a path is left out: it is one of the folders or lies below one.
pub open spec fn covers(list: Seq<Seq<char>>, rel: Seq<char>) -> bool {
    exists|i: int| 0 <= i < list.len() && paths::starts_with(rel, #[trigger] list[i])
}

/// Whether a path relative to the root is left out.
pub fn contains(list: &Vec<String>, relative: &str) -> (b: bool)
    ensures
        b == covers(text::texts(list@), relative@),
{
    let ghost all = text::texts(list@);
    let mut i: usize = 0;
    while i < list.len()
        invariant
            i <= list@.len(),
            all == text::texts(list@),
            forall|j: int| 0 <= j < i ==> !paths::starts_with(relative@, #[trigger] all[j]),
        decreases list@.len() - i,
    {
        assert(all[i as int] == list@[i as int]@);
        if paths::lies_under(relative, list[i].as_str()) {
            return true;
        }
        i = i + 1;
    }
    false
}

/// Whether texts stand in order, no two alike.
pub open spec fn is_ascending(s: Seq<Seq<char>>) -> bool {
    forall|i: int, j: int|
        0 <= i < j < s.len() ==> text::before(#[trigger] s[i], #[trigger] s[j])
}

proof fn lemma_deduped(s: Seq<Seq<char>>)
    requires
        sort::in_order::<String>(s),
    ensures
        is_ascending(deduped(s)),
        deduped(s).len() <= s.len(),
        s.len() > 0 ==> deduped(s).len() > 0 && deduped(s).last() == s.last(),
        forall|p: Seq<char>| #[trigger] deduped(s).contains(p) <==> s.contains(p),
    decreases s.len(),
{
    if s.len() > 1 {
        let less = s.drop_last();
        assert forall|i: int, j: int| 0 <= i < j < less.len() implies !String::ahead(
            #[trigger] less[j],
            #[trigger] less[i],
        ) by {
            assert(less[i] == s[i] && less[j] == s[j]);
        }
        lemma_deduped(less);
        let d = deduped(less);
        let last = s.last();
        assert(less.last() == s[s.len() - 2]);
        let all = deduped(s);
        if last != s[s.len() - 2] {
            assert(!String::ahead(s[s.len() - 1], s[s.len() - 2]));
            text::lemma_before_total(less.last(), last);
            assert(text::before(less.last(), last));
            assert forall|i: int, j: int| 0 <= i < j < all.len() implies text::before(
                #[trigger] all[i],
                #[trigger] all[j],
            ) by {
                if j == d.len() {
                    if i < d.len() - 1 {
                        assert(text::before(d[i], d[d.len() - 1]));
                        text::lemma_before_transitive(d[i], d[d.len() - 1], last);
                    }
                } else {
                    assert(all[i] == d[i] && all[j] == d[j]);
                }
            }
        }
        assert forall|p: Seq<char>| #[trigger] all.contains(p) <==> s.contains(p) by {
            if all.contains(p) {
                let k = choose|k: int| 0 <= k < all.len() && all[k] == p;
                if k < d.len() {
                    assert(d[k] == p);
                    assert(d.contains(p));
                    let m = choose|m: int| 0 <= m < less.len() && less[m] == p;
                    assert(s[m] == p);
                } else {
                    assert(s[s.len() - 1] == p);
                }
            }
            if s.contains(p) {
                let k = choose|k: int| 0 <= k < s.len() && s[k] == p;
                if k < less.len() {
                    assert(less[k] == p);
                    assert(less.contains(p));
                    assert(d.contains(p));
                    let m = choose|m: int| 0 <= m < d.len() && d[m] == p;
                    assert(all[m] == p);
                } else if last == s[s.len() - 2] {
                    assert(d[d.len() - 1] == p);
                    assert(all[d.len() - 1] == p);
                } else {
                    assert(all[all.len() - 1] == p);
                }
            }
        }
    }
}

proof fn lemma_outermost(all: Seq<Seq<char>>, k: nat)
    requires
        is_ascending(all),
        k <= all.len(),
    ensures
        is_ascending(outermost(all, k)),
        outermost(all, k).len() <= k,
        forall|p: Seq<char>| #[trigger]
            outermost(all, k).contains(p) <==> (all.take(k as int).contains(p) && !is_nested(
                all,
                p,
            )),
    decreases k,
{
    let out = outermost(all, k);
    if k == 0 {
        assert(all.take(0) =~= Seq::empty());
    } else {
        lemma_outermost(all, (k - 1) as nat);
        let before = outermost(all, (k - 1) as nat);
        let some = all.take(k - 1);
        let more = all.take(k as int);
        let p = all[k - 1];
        assert forall|q: Seq<char>| more.contains(q) <==> (some.contains(q) || q == p) by {
            if more.contains(q) {
                let i = choose|i: int| 0 <= i < more.len() && more[i] == q;
                if i < k - 1 {
                    assert(some[i] == q);
                }
            }
            if some.contains(q) {
                let i = choose|i: int| 0 <= i < some.len() && some[i] == q;
                assert(more[i] == q);
            }
            assert(more[k - 1] == p);
        }
        if !is_nested(all, p) {
            assert forall|q: Seq<char>| #[trigger] out.contains(q) <==> (before.contains(q) || q
                == p) by {
                if out.contains(q) {
                    let i = choose|i: int| 0 <= i < out.len() && out[i] == q;
                    if i < before.len() {
                        assert(before[i] == q);
                    }
                }
                if before.contains(q) {
                    let i = choose|i: int| 0 <= i < before.len() && before[i] == q;
                    assert(out[i] == q);
                }
                assert(out[out.len() - 1] == p);
            }
            assert forall|i: int, j: int| 0 <= i < j < out.len() implies text::before(
                #[trigger] out[i],
                #[trigger] out[j],
            ) by {
                if j < before.len() {
                    assert(out[i] == before[i] && out[j] == before[j]);
                } else {
                    assert(before[i] == out[i]);
                    assert(before.contains(out[i]));
                    let m = choose|m: int| 0 <= m < some.len() && some[m] == out[i];
                    assert(text::before(all[m], all[k - 1]));
                }
            }
        }
        assert forall|q: Seq<char>| #[trigger] out.contains(q) <==> (more.contains(q)
            && !is_nested(all, q)) by {
            assert(before.contains(q) <==> (some.contains(q) && !is_nested(all, q)));
        }
    }
}

proof fn lemma_plainest(list: Seq<Seq<char>>)
    ensures
        is_ascending(plainest(list)),
        plainest(list).len() <= list.len(),
        forall|p: Seq<char>| #[trigger]
            plainest(list).contains(p) <==> (list.contains(p) && !is_nested(list, p)),
{
    let sorted = sort::arranged::<String>(list);
    sort::lemma_arranged::<String>(list);
    lemma_deduped(sorted);
    let all = deduped(sorted);
    lemma_outermost(all, all.len());
    assert(all.take(all.len() as int) =~= all);
    assert forall|p: Seq<char>| #[trigger] all.contains(p) <==> list.contains(p) by {
        sort::lemma_arranged_contains::<String>(list, p);
    }
    assert forall|p: Seq<char>| is_nested(all, p) <==> is_nested(list, p) by {
        if is_nested(all, p) {
            let j = choose|j: int|
                0 <= j < all.len() && #[trigger] all[j] != p && paths::starts_with(p, all[j]);
            assert(all.contains(all[j]));
            let k = choose|k: int| 0 <= k < list.len() && list[k] == all[j];
            assert(list[k] != p);
        }
        if is_nested(list, p) {
            let j = choose|j: int|
                0 <= j < list.len() && #[trigger] list[j] != p && paths::starts_with(p, list[j]);
            assert(list.contains(list[j]));
            assert(all.contains(list[j]));
            let k = choose|k: int| 0 <= k < all.len() && all[k] == list[j];
            assert(all[k] != p);
        }
    }
    assert forall|p: Seq<char>| #[trigger] plainest(list).contains(p) <==> (list.contains(p)
        && !is_nested(list, p)) by {
        assert(all.contains(p) <==> list.contains(p));
        assert(is_nested(all, p) <==> is_nested(list, p));
    }
}

proof fn lemma_already_plain(s: Seq<Seq<char>>)
    requires
        is_ascending(s),
        forall|i: int| 0 <= i < s.len() ==> !is_nested(s, #[trigger] s[i]),
    ensures
        plainest(s) == s,
{
    assert forall|i: int, j: int| 0 <= i < j < s.len() implies !String::ahead(
        #[trigger] s[j],
        #[trigger] s[i],
    ) by {
        if text::before(s[j], s[i]) {
            text::lemma_before_transitive(s[i], s[j], s[i]);
            text::lemma_before_irreflexive(s[i]);
        }
    }
    sort::lemma_arranged_in_order::<String>(s);
    lemma_no_repetition(s);
    lemma_all_outermost(s, s.len());
    assert(s.take(s.len() as int) =~= s);
}

proof fn lemma_no_repetition(s: Seq<Seq<char>>)
    requires
        is_ascending(s),
    ensures
        deduped(s) == s,
    decreases s.len(),
{
    if s.len() > 1 {
        let less = s.drop_last();
        assert forall|i: int, j: int| 0 <= i < j < less.len() implies text::before(
            #[trigger] less[i],
            #[trigger] less[j],
        ) by {
            assert(less[i] == s[i] && less[j] == s[j]);
        }
        lemma_no_repetition(less);
        assert(text::before(s[s.len() - 2], s[s.len() - 1]));
        text::lemma_before_irreflexive(s.last());
        assert(less.push(s.last()) =~= s);
    }
}

proof fn lemma_all_outermost(s: Seq<Seq<char>>, k: nat)
    requires
        k <= s.len(),
        forall|i: int| 0 <= i < s.len() ==> !is_nested(s, #[trigger] s[i]),
    ensures
        outermost(s, k) == s.take(k as int),
    decreases k,
{
    if k == 0 {
        assert(s.take(0) =~= Seq::empty());
    } else {
        lemma_all_outermost(s, (k - 1) as nat);
        assert(!is_nested(s, s[k - 1]));
        assert(s.take(k - 1).push(s[k - 1]) =~= s.take(k as int));
    }
}

/// A choice that was stored reads back as what was stored: the given folders in
/// their plainest form.
pub proof fn law_a_stored_choice_reads_back(list: Seq<Seq<char>>, bytes: Seq<u8>)
    requires
        validated(list) is Ok,
        bytes == json_of(plainest(list)),
        json_parsed(bytes) == Ok::<Seq<Seq<char>>, Seq<char>>(plainest(list)),
    ensures
        stored(Some(bytes)) == Some(
            Ok::<Seq<Seq<char>>, Problem>(plainest(list)),
        ),
{
    let plain = plainest(list);
    lemma_plainest(list);
    assert forall|i: int| 0 <= i < plain.len() implies !is_nested(plain, #[trigger] plain[i])
        && is_choice(plain[i]) by {
        assert(plain.contains(plain[i]));
        assert(list.contains(plain[i]));
        if is_nested(plain, plain[i]) {
            let j = choose|j: int|
                0 <= j < plain.len() && #[trigger] plain[j] != plain[i] && paths::starts_with(
                    plain[i],
                    plain[j],
                );
            assert(plain.contains(plain[j]));
            let k = choose|k: int| 0 <= k < list.len() && list[k] == plain[j];
            assert(list[k] != plain[i]);
            assert(is_nested(list, plain[i]));
        }
    }
    lemma_already_plain(plain);
    assert(fault(plain) is None);
}

proof fn lemma_name_parts(pieces: Seq<Seq<char>>, relative: bool)
    requires
        forall|i: int| 0 <= i < pieces.len() ==> is_name(#[trigger] pieces[i]),
    ensures
        paths::parts_from(pieces, relative) == pieces.map_values(
            |p: Seq<char>| paths::PartModel::Name(p),
        ),
    decreases pieces.len(),
{
    let want = pieces.map_values(|p: Seq<char>| paths::PartModel::Name(p));
    if pieces.len() == 0 {
        assert(paths::parts_from(pieces, relative) =~= want);
    } else {
        let less = pieces.drop_last();
        assert forall|i: int| 0 <= i < less.len() implies is_name(#[trigger] less[i]) by {
            assert(less[i] == pieces[i]);
        }
        lemma_name_parts(less, relative);
        assert(is_name(pieces[pieces.len() - 1]));
        assert(paths::parts_from(pieces, relative) =~= want);
    }
}

proof fn lemma_choice_parts(p: Seq<char>)
    requires
        is_choice(p),
    ensures
        paths::parts(p) == text::split(p, '/').map_values(
            |x: Seq<char>| paths::PartModel::Name(x),
        ),
{
    let pieces = text::split(p, '/');
    lemma_name_parts(pieces, true);
    if paths::is_absolute(p) {
        text::lemma_position(p, '/');
        assert(p.take(0).len() == 0);
        assert(is_name(pieces[0]));
    }
}

proof fn lemma_choice_by_parts(p: Seq<char>, q: Seq<char>)
    requires
        is_choice(p),
        is_choice(q),
        paths::parts(p) == paths::parts(q),
    ensures
        p == q,
{
    lemma_choice_parts(p);
    lemma_choice_parts(q);
    let a = text::split(p, '/');
    let b = text::split(q, '/');
    assert(a.len() == paths::parts(p).len());
    assert(b.len() == paths::parts(q).len());
    assert forall|i: int| 0 <= i < a.len() implies a[i] == b[i] by {
        assert(paths::parts(p)[i] == paths::PartModel::Name(a[i]));
        assert(paths::parts(q)[i] == paths::PartModel::Name(b[i]));
    }
    assert(a =~= b);
    text::lemma_split_join(p, '/');
    text::lemma_split_join(q, '/');
}

proof fn lemma_cover(list: Seq<Seq<char>>, rel: Seq<char>, k: int)
    requires
        forall|i: int| 0 <= i < list.len() ==> is_choice(#[trigger] list[i]),
        0 <= k < list.len(),
        paths::starts_with(rel, list[k]),
    ensures
        exists|p: Seq<char>| #[trigger]
            list.contains(p) && !is_nested(list, p) && paths::starts_with(rel, p),
    decreases paths::parts(list[k]).len(),
{
    let p = list[k];
    assert(list.contains(p));
    if is_nested(list, p) {
        let j = choose|j: int|
            0 <= j < list.len() && #[trigger] list[j] != p && paths::starts_with(p, list[j]);
        let a = paths::parts(list[j]);
        let b = paths::parts(p);
        let c = paths::parts(rel);
        assert(a.is_prefix_of(b) && b.is_prefix_of(c));
        if a.len() == b.len() {
            assert(a =~= b);
            lemma_choice_by_parts(p, list[j]);
        }
        assert(a.is_prefix_of(c)) by {
            assert forall|i: int| 0 <= i < a.len() implies a[i] == c[i] by {
                assert(a[i] == b[i] && b[i] == c[i]);
            }
            assert(a =~= c.subrange(0, a.len() as int));
        }
        lemma_cover(list, rel, j);
    }
}

/// Leaving out folders that lie below others changes nothing about what is left
/// out: the plainest form covers exactly what was chosen.
pub proof fn law_the_plainest_form_covers_the_same(list: Seq<Seq<char>>, rel: Seq<char>)
    requires
        fault(list) is None,
    ensures
        covers(plainest(list), rel) == covers(list, rel),
{
    let plain = plainest(list);
    lemma_plainest(list);
    if covers(plain, rel) {
        let i = choose|i: int| 0 <= i < plain.len() && paths::starts_with(rel, #[trigger] plain[i]);
        assert(plain.contains(plain[i]));
        let k = choose|k: int| 0 <= k < list.len() && list[k] == plain[i];
        assert(paths::starts_with(rel, list[k]));
    }
    if covers(list, rel) {
        let k = choose|k: int| 0 <= k < list.len() && paths::starts_with(rel, #[trigger] list[k]);
        lemma_cover(list, rel, k);
        let p = choose|p: Seq<char>| #[trigger]
            list.contains(p) && !is_nested(list, p) && paths::starts_with(rel, p);
        assert(plain.contains(p));
        let i = choose|i: int| 0 <= i < plain.len() && plain[i] == p;
        assert(paths::starts_with(rel, plain[i]));
    }
}

/// A choice stands in order without repetitions, no folder in it lies inside
/// another, and it holds just those of the given folders that lie inside no
/// other one.
pub proof fn law_a_choice_is_in_its_plainest_form(list: Seq<Seq<char>>)
    requires
        validated(list) is Ok,
    ensures
        ({
            let choice = validated(list)->Ok_0;
            &&& is_ascending(choice)
            &&& choice.no_duplicates()
            &&& forall|i: int, j: int|
                0 <= i < choice.len() && 0 <= j < choice.len() && i != j ==> !paths::starts_with(
                    #[trigger] choice[i],
                    #[trigger] choice[j],
                )
            &&& forall|p: Seq<char>| #[trigger]
                choice.contains(p) <==> list.contains(p) && !is_nested(list, p)
        }),
{
    let choice = plainest(list);
    lemma_plainest(list);
    assert forall|i: int, j: int| 0 <= i < choice.len() && 0 <= j < choice.len() && i
        != j implies choice[i] != choice[j] by {
        text::lemma_before_irreflexive(choice[i]);
        if i < j {
            assert(text::before(choice[i], choice[j]));
        } else {
            assert(text::before(choice[j], choice[i]));
        }
    }
    assert forall|i: int, j: int|
        0 <= i < choice.len() && 0 <= j < choice.len() && i != j implies !paths::starts_with(
        #[trigger] choice[i],
        #[trigger] choice[j],
    ) by {
        assert(choice.contains(choice[i]) && choice.contains(choice[j]));
        assert(list.contains(choice[j]));
        let k = choose|k: int| 0 <= k < list.len() && list[k] == choice[j];
        if paths::starts_with(choice[i], choice[j]) {
            assert(list[k] != choice[i]);
            assert(is_nested(list, choice[i]));
        }
    }
}

/// A choice of folders is refused for two reasons and no other, the number of them
/// first: there are more than two hundred, or one of them is no path below the
/// root that can be stored.
pub proof fn law_a_choice_is_refused_for_a_reason(list: Seq<Seq<char>>)
    ensures
        fault(list) == Some(Problem::TooMany) <==> list.len() > 200,
        fault(list) == Some(Problem::NotRelative) <==> list.len() <= 200 && exists|i: int|
            0 <= i < list.len() && !is_choice(#[trigger] list[i]),
        fault(list) is None <==> list.len() <= 200 && forall|i: int|
            0 <= i < list.len() ==> is_choice(#[trigger] list[i]),
        fault(list) is Some ==> validated(list) == Err::<Seq<Seq<char>>, Problem>(fault(list)->0),
        fault(list) is None && json_of(plainest(list)).len() <= 16000 ==> validated(list) == Ok::<
            Seq<Seq<char>>,
            Problem,
        >(plainest(list)),
        fault(list) is None && json_of(plainest(list)).len() > 16000 ==> validated(list) == Err::<
            Seq<Seq<char>>,
            Problem,
        >(Problem::TooLarge),
{
}

/// Names strung together with slashes are a path that can be chosen, unless they
/// are too long or hold a character that a line cannot; and nothing else is.
pub proof fn law_names_can_be_chosen(names: Seq<Seq<char>>)
    requires
        names.len() > 0,
        forall|i: int|
            0 <= i < names.len() ==> (#[trigger] names[i]).len() > 0 && names[i] != seq!['.']
                && names[i] != seq!['.', '.'] && !names[i].contains('/') && !names[i].contains('\0')
                && !names[i].contains('\n') && !names[i].contains('\r'),
        text::bytes(text::join(names, seq!['/'])).len() <= 2048,
    ensures
        is_choice(text::join(names, seq!['/'])),
{
    let p = text::join(names, seq!['/']);
    text::lemma_join_split(names, '/');
    assert(text::split(p, '/') == names);
    lemma_join_avoids(names, '\0');
    lemma_join_avoids(names, '\n');
    lemma_join_avoids(names, '\r');
    assert forall|i: int| 0 <= i < text::split(p, '/').len() implies is_name(
        #[trigger] text::split(p, '/')[i],
    ) by {
        assert(names[i].len() > 0);
    }
}

proof fn lemma_join_avoids(names: Seq<Seq<char>>, c: char)
    requires
        c != '/',
        forall|i: int| 0 <= i < names.len() ==> !(#[trigger] names[i]).contains(c),
    ensures
        !text::join(names, seq!['/']).contains(c),
    decreases names.len(),
{
    let s = text::join(names, seq!['/']);
    if names.len() == 1 {
        assert(!names[0].contains(c));
    } else if names.len() > 1 {
        let less = names.drop_last();
        assert forall|i: int| 0 <= i < less.len() implies !(#[trigger] less[i]).contains(c) by {
            assert(less[i] == names[i]);
        }
        lemma_join_avoids(less, c);
        let a = text::join(less, seq!['/']);
        let b = names.last();
        assert(!names[names.len() - 1].contains(c));
        if s.contains(c) {
            let i = choose|i: int| 0 <= i < s.len() && s[i] == c;
            if i < a.len() {
                assert(a[i] == c);
            } else if i > a.len() {
                assert(b[i - a.len() - 1] == c);
            }
        }
    }
}

/// A path that leaves the tree, starts at a root, or has an empty name in it cannot
/// be chosen, nor one that a line or a name cannot hold.
pub proof fn law_what_cannot_be_chosen(p: Seq<char>, i: int)
    requires
        0 <= i < text::split(p, '/').len(),
    ensures
        text::split(p, '/')[i].len() == 0 || text::split(p, '/')[i] == seq!['.'] || text::split(
            p,
            '/',
        )[i] == seq!['.', '.'] ==> !is_choice(p),
        p.contains('\0') || p.contains('\n') || p.contains('\r') ==> !is_choice(p),
        text::bytes(p).len() > 2048 ==> !is_choice(p),
{
    assert(is_name(text::split(p, '/')[i]) || !is_name(text::split(p, '/')[i]));
}

/// A chosen folder covers itself and all that lies below it, and what no chosen
/// folder is above is not covered.
pub proof fn law_a_folder_covers_what_lies_below(
    list: Seq<Seq<char>>,
    rel: Seq<char>,
    i: int,
)
    requires
        0 <= i < list.len(),
    ensures
        covers(list, list[i]),
        paths::parts(list[i]).is_prefix_of(paths::parts(rel)) ==> covers(list, rel),
        (forall|k: int|
            0 <= k < list.len() ==> !paths::parts(#[trigger] list[k]).is_prefix_of(
                paths::parts(rel),
            )) ==> !covers(list, rel),
{
    assert(paths::starts_with(list[i], list[i]));
}

/// What is stored and read: nothing stored is an empty choice, more than fits is
/// invalid whatever it says, and what can be read is held to the same rules as a
/// new choice.
pub proof fn law_what_is_stored_is_validated(bytes: Seq<u8>)
    ensures
        stored(None) == Some(Ok::<Seq<Seq<char>>, Problem>(Seq::empty())),
        bytes.len() > 16000 ==> stored(Some(bytes)) == Some(
            Err::<Seq<Seq<char>>, Problem>(Problem::Invalid),
        ),
        bytes.len() <= 16000 ==> match json_parsed(bytes) {
            Ok(list) => stored(Some(bytes)) == Some(validated(list)),
            Err(_) => stored(Some(bytes)) is None,
        },
{
}

} // verus!
