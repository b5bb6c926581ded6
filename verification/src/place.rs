//! Putting a placeholder in its place.
//!
//! Everything is named relative to the sync root that was opened, so a path that
//! is not below it is refused. A placeholder is built without a name and linked
//! in complete; where the name is taken it is linked beside it and renamed over,
//! so a reader sees the whole of one file or the whole of the other.

use crate::number;
use crate::paths;
use crate::paths::{Part, PartModel};
use crate::table::FileId;
use crate::text;
use vstd::prelude::*;
use vstd::string::*;

verus! {

/// A path below the root, in parts that are all ordinary names.
pub open spec fn below_root(root: Seq<char>, path: Seq<char>) -> Option<Seq<char>> {
    match paths::relative_to(root, path) {
        Some(rel) => if rel.len() > 0 && paths::is_plain(rel) {
            Some(rel)
        } else {
            None
        },
        None => None,
    }
}

fn all_names(rel: &str) -> (b: bool)
    ensures
        b == paths::is_plain(rel@),
{
    let parts = paths::parts_of(rel);
    let ghost all = paths::parts(rel@);
    let mut i: usize = 0;
    while i < parts.len()
        invariant
            i <= parts@.len(),
            all == paths::parts(rel@),
            all == paths::part_models(parts@),
            forall|j: int| 0 <= j < i ==> (#[trigger] all[j]) is Name,
        decreases parts@.len() - i,
    {
        assert(all[i as int] == parts@[i as int]@);
        match &parts[i] {
            Part::Name(_) => {},
            _ => {
                return false;
            },
        }
        i = i + 1;
    }
    true
}

/// The path as it stands below the root, or `None` if it is not below it.
pub fn relative(root: &str, path: &str) -> (r: Option<String>)
    ensures
        text::maybe(r) == below_root(root@, path@),
{
    match paths::relative(root, path) {
        Some(rel) => if !rel.as_str().is_empty() && all_names(rel.as_str()) {
            Some(rel)
        } else {
            None
        },
        None => None,
    }
}

/// Why a placeholder is not put at a path.
pub fn place_refusal(root: &str, path: &str) -> (s: String)
    ensures
        s@ == path@ + " is not below the sync root "@ + root@
            + "; refusing rather than resolving it from /"@,
{
    let mut s: String = remove_refusal(root, path);
    s.append("; refusing rather than resolving it from /");
    s
}

/// Why a file is not removed at a path.
pub fn remove_refusal(root: &str, path: &str) -> (s: String)
    ensures
        s@ == path@ + " is not below the sync root "@ + root@,
{
    let mut s: String = path.to_owned();
    s.append(" is not below the sync root ");
    s.append(root);
    s
}

/// The names that a plain path is made of.
pub open spec fn names(rel: Seq<char>) -> Seq<Seq<char>> {
    paths::parts(rel).map_values(|p: PartModel| p->Name_0)
}

/// A path made of these names.
pub open spec fn path_of(names: Seq<Seq<char>>) -> Seq<char> {
    text::join(names, seq!['/'])
}

/// The directories on the way to a path, from the outermost in.
pub open spec fn parents(rel: Seq<char>) -> Seq<Seq<char>> {
    let all = names(rel);
    Seq::new((all.len() - 1) as nat, |i: int| path_of(all.take(i + 1)))
}

/// The name that a file goes by until it is renamed to its own.
pub open spec fn scratch_name(base: Seq<char>, seq_no: nat) -> Seq<char> {
    "."@ + base + ".hydration-"@ + number::digits(seq_no)
}

/// The path beside another one that a file goes by until it is renamed.
pub open spec fn scratch(rel: Seq<char>, seq_no: nat) -> Seq<char> {
    let all = names(rel);
    path_of(all.drop_last().push(scratch_name(all.last(), seq_no)))
}

fn names_of(rel: &str) -> (out: Vec<String>)
    requires
        paths::is_plain(rel@),
    ensures
        text::texts(out@) == names(rel@),
{
    let parts = paths::parts_of(rel);
    let ghost all = paths::parts(rel@);
    let mut out: Vec<String> = Vec::new();
    let mut i: usize = 0;
    assert(text::texts(out@) =~= names(rel@).take(0));
    while i < parts.len()
        invariant
            i <= parts@.len(),
            all == paths::parts(rel@),
            all == paths::part_models(parts@),
            paths::is_plain(rel@),
            text::texts(out@) == names(rel@).take(i as int),
        decreases parts@.len() - i,
    {
        assert(all[i as int] == parts@[i as int]@);
        let ghost had = text::texts(out@);
        if let Part::Name(n) = &parts[i] {
            out.push(n.as_str().to_owned());
            assert(names(rel@)[i as int] == n@);
            assert(text::texts(out@) =~= had.push(n@));
            assert(names(rel@).take(i + 1) =~= names(rel@).take(i as int).push(n@));
        }
        i = i + 1;
    }
    assert(names(rel@).take(i as int) =~= names(rel@));
    out
}

/// The directories to make on the way to a path, from the outermost in.
pub fn make_parents(rel: &str) -> (out: Vec<String>)
    requires
        paths::is_plain(rel@),
        paths::parts(rel@).len() > 0,
    ensures
        text::texts(out@) == parents(rel@),
{
    let all = names_of(rel);
    let ghost each = names(rel@);
    let ghost want = parents(rel@);
    let mut out: Vec<String> = Vec::new();
    let mut so_far: Vec<String> = Vec::new();
    let total = all.len();
    let mut i: usize = 0;
    proof {
        reveal_strlit("/");
        assert("/"@ =~= seq!['/']);
        assert(each.len() == total);
    }
    assert(text::texts(out@) =~= want.take(0));
    assert(text::texts(so_far@) =~= each.take(0));
    while i + 1 < total
        invariant
            total == all@.len(),
            total > 0,
            i + 1 <= total,
            each == names(rel@),
            each == text::texts(all@),
            each.len() == total,
            want == parents(rel@),
            "/"@ == seq!['/'],
            text::texts(so_far@) == each.take(i as int),
            text::texts(out@) == want.take(i as int),
        decreases total - i,
    {
        let ghost had = text::texts(out@);
        let ghost before = text::texts(so_far@);
        so_far.push(all[i].as_str().to_owned());
        proof {
            assert(each[i as int] == all@[i as int]@);
            assert(text::texts(so_far@) =~= before.push(each[i as int]));
            assert(each.take(i + 1) =~= each.take(i as int).push(each[i as int]));
        }
        let dir = text::join_with(&so_far, "/");
        let ghost d = dir@;
        out.push(dir);
        proof {
            assert(want[i as int] == d);
            assert(text::texts(out@) =~= had.push(d));
            assert(want.take(i + 1) =~= want.take(i as int).push(d));
        }
        i = i + 1;
    }
    assert(want.take(i as int) =~= want);
    out
}

/// The path beside another one that a file goes by until it is renamed.
pub fn scratch_path(rel: &str, seq_no: u64) -> (s: String)
    requires
        paths::is_plain(rel@),
        paths::parts(rel@).len() > 0,
    ensures
        s@ == scratch(rel@, seq_no as nat),
{
    let mut all = names_of(rel);
    let ghost each = names(rel@);
    proof {
        assert(each.len() == all@.len());
        reveal_strlit("/");
        assert("/"@ =~= seq!['/']);
    }
    let last: usize = all.len() - 1;
    let mut name: String = ".".to_owned();
    name.append(all[last].as_str());
    name.append(".hydration-");
    name.append(number::decimal(seq_no).as_str());
    let ghost n = name@;
    proof {
        assert(each[last as int] == all@[last as int]@);
        assert(n == scratch_name(each.last(), seq_no as nat));
    }
    let ghost before = all@;
    all.truncate(last);
    all.push(name);
    proof {
        assert(text::texts(all@) =~= each.drop_last().push(n)) by {
            assert forall|i: int| 0 <= i < last implies text::texts(all@)[i] == each[i] by {
                assert(all@[i] == before[i]);
                assert(each[i] == before[i]@);
            }
        }
    }
    text::join_with(&all, "/")
}

/// The error number for a name that is taken.
pub const EEXIST: i32 = 17;

/// What to do next to give a nameless file its name.
#[derive(Debug, PartialEq, Eq)]
pub enum LinkStep {
    /// Link it to its name.
    Link,
    /// Remove the scratch name, if it is there.
    ClearScratch,
    /// Link it to the scratch name.
    LinkScratch,
    /// Rename the scratch name to the name, over what is there.
    Rename,
    /// Remove the scratch name: the renaming failed with this error.
    Cleanup(i32),
    /// Nothing: this is how it went.
    Done(Result<(), i32>),
}

/// The step after another one, given how it went.
pub open spec fn next_link(step: LinkStep, r: Result<(), i32>) -> LinkStep {
    match step {
        LinkStep::Link => if r == Err::<(), i32>(EEXIST) {
            LinkStep::ClearScratch
        } else {
            LinkStep::Done(r)
        },
        LinkStep::ClearScratch => LinkStep::LinkScratch,
        LinkStep::LinkScratch => if r is Err {
            LinkStep::Done(r)
        } else {
            LinkStep::Rename
        },
        LinkStep::Rename => match r {
            Err(e) => LinkStep::Cleanup(e),
            Ok(_) => LinkStep::Done(r),
        },
        LinkStep::Cleanup(e) => LinkStep::Done(Err(e)),
        LinkStep::Done(done) => LinkStep::Done(done),
    }
}

impl LinkStep {
    /// The step after this one, given how it went: an error comes with its
    /// number.
    pub fn link_into_place(self, r: Result<(), i32>) -> (next: LinkStep)
        ensures
            next == next_link(self, r),
    {
        match self {
            LinkStep::Link => match r {
                Err(e) => if e == EEXIST {
                    LinkStep::ClearScratch
                } else {
                    LinkStep::Done(Err(e))
                },
                Ok(done) => LinkStep::Done(Ok(done)),
            },
            LinkStep::ClearScratch => LinkStep::LinkScratch,
            LinkStep::LinkScratch => match r {
                Err(e) => LinkStep::Done(Err(e)),
                Ok(_) => LinkStep::Rename,
            },
            LinkStep::Rename => match r {
                Err(e) => LinkStep::Cleanup(e),
                Ok(done) => LinkStep::Done(Ok(done)),
            },
            LinkStep::Cleanup(e) => LinkStep::Done(Err(e)),
            LinkStep::Done(done) => LinkStep::Done(done),
        }
    }
}

/// Where the renaming fails the scratch name is taken away, and the failure is
/// the one reported.
pub proof fn law_a_failed_rename_leaves_no_scratch(e: i32, r: Result<(), i32>)
    ensures
        next_link(LinkStep::Rename, Err(e)) == LinkStep::Cleanup(e),
        next_link(LinkStep::Cleanup(e), r) == LinkStep::Done(Err(e)),
{
}

/// A file is put at its name only by linking where nothing is, or by renaming
/// over what is there: there is no moment without a file at a name that had one.
pub proof fn law_a_name_is_never_left_empty(step: LinkStep, r: Result<(), i32>)
    ensures
        next_link(step, r) == LinkStep::Done(Ok(())) ==> (step is Link || step is Rename
            || step == LinkStep::Done(Ok(()))),
{
}

/// The error of a name that nothing stands at.
pub const ENOENT: i32 = 2;

/// What a file was when its replacement was approved.
#[derive(Debug, Clone, Copy, PartialEq, Eq, Structural)]
pub struct ReplacementGuard {
    pub id: FileId,
    pub size: u64,
    pub mtime: i64,
    pub mtime_nsec: i64,
}

impl ReplacementGuard {
    /// Whether a file is still the one that was approved, and as it was then.
    pub fn admits(&self, now: &ReplacementGuard) -> (b: bool)
        ensures
            b == (*self == *now),
    {
        *self == *now
    }
}

/// How a replacement that was approved for one file ended.
#[derive(Debug, Clone, Copy, PartialEq, Eq)]
pub enum ConditionalPlace {
    Placed,
    /// What stood at the name was not what was approved. It stands there again.
    TargetChanged,
}

/// What to do next to put a nameless file in the place of an approved one.
#[derive(Debug, PartialEq, Eq)]
pub enum SwapStep {
    /// Remove the scratch name, if it is there.
    ClearScratch,
    /// Link the nameless file to the scratch name.
    LinkScratch,
    /// Exchange what stands at the scratch name and at the name.
    Exchange,
    /// Look at what stood at the name: it stands at the scratch name now.
    Look,
    /// Exchange the two again.
    PutBack,
    /// Remove the scratch name, which holds nothing that is needed. This is how
    /// it went.
    Discard(Result<ConditionalPlace, i32>),
    /// Nothing: this is how it went.
    Done(Result<ConditionalPlace, i32>),
}

/// The step after another one, given how it went and, where it was a look, what
/// was seen.
pub open spec fn next_swap(
    step: SwapStep,
    guard: ReplacementGuard,
    r: Result<Option<ReplacementGuard>, i32>,
) -> SwapStep {
    match step {
        SwapStep::ClearScratch => SwapStep::LinkScratch,
        SwapStep::LinkScratch => match r {
            Ok(_) => SwapStep::Exchange,
            Err(e) => SwapStep::Done(Err(e)),
        },
        SwapStep::Exchange => match r {
            Ok(_) => SwapStep::Look,
            Err(e) => if e == ENOENT {
                SwapStep::Discard(Ok(ConditionalPlace::TargetChanged))
            } else {
                SwapStep::Discard(Err(e))
            },
        },
        SwapStep::Look => if r == Ok::<Option<ReplacementGuard>, i32>(Some(guard)) {
            SwapStep::Discard(Ok(ConditionalPlace::Placed))
        } else {
            SwapStep::PutBack
        },
        SwapStep::PutBack => match r {
            Ok(_) => SwapStep::Discard(Ok(ConditionalPlace::TargetChanged)),
            Err(e) => SwapStep::Done(Err(e)),
        },
        SwapStep::Discard(done) => SwapStep::Done(done),
        SwapStep::Done(done) => SwapStep::Done(done),
    }
}

impl SwapStep {
    /// The step after this one, given how it went: an error comes with its
    /// number, and a look with what it saw.
    pub fn swap_into_place(
        self,
        guard: &ReplacementGuard,
        r: Result<Option<ReplacementGuard>, i32>,
    ) -> (next: SwapStep)
        ensures
            next == next_swap(self, *guard, r),
    {
        match self {
            SwapStep::ClearScratch => SwapStep::LinkScratch,
            SwapStep::LinkScratch => match r {
                Ok(_) => SwapStep::Exchange,
                Err(e) => SwapStep::Done(Err(e)),
            },
            SwapStep::Exchange => match r {
                Ok(_) => SwapStep::Look,
                Err(e) => if e == ENOENT {
                    SwapStep::Discard(Ok(ConditionalPlace::TargetChanged))
                } else {
                    SwapStep::Discard(Err(e))
                },
            },
            SwapStep::Look => match r {
                Ok(Some(now)) => if guard.admits(&now) {
                    SwapStep::Discard(Ok(ConditionalPlace::Placed))
                } else {
                    SwapStep::PutBack
                },
                _ => SwapStep::PutBack,
            },
            SwapStep::PutBack => match r {
                Ok(_) => SwapStep::Discard(Ok(ConditionalPlace::TargetChanged)),
                Err(e) => SwapStep::Done(Err(e)),
            },
            SwapStep::Discard(done) => SwapStep::Done(done),
            SwapStep::Done(done) => SwapStep::Done(done),
        }
    }
}

/// A file that changed after its replacement was approved is put back at its
/// name, and one that could not be looked at is too: only the approved file,
/// as it was, is ever replaced.
pub proof fn law_only_the_approved_file_is_replaced(
    step: SwapStep,
    guard: ReplacementGuard,
    r: Result<Option<ReplacementGuard>, i32>,
)
    ensures
        r != Ok::<Option<ReplacementGuard>, i32>(Some(guard)) ==> next_swap(
            SwapStep::Look,
            guard,
            r,
        ) == SwapStep::PutBack,
        next_swap(step, guard, r) == SwapStep::Discard(Ok(ConditionalPlace::Placed)) ==> step is Look
            && r == Ok::<Option<ReplacementGuard>, i32>(Some(guard)),
        next_swap(step, guard, r) == SwapStep::Done(Ok(ConditionalPlace::Placed)) ==> step
            == SwapStep::Discard(Ok(ConditionalPlace::Placed)) || step == SwapStep::Done(
            Ok(ConditionalPlace::Placed),
        ),
{
}

/// The scratch name is removed only once it does not hold the file that stood
/// at the name, unless that is the file whose replacement was approved.
pub proof fn law_a_changed_file_is_never_dropped(
    step: SwapStep,
    guard: ReplacementGuard,
    r: Result<Option<ReplacementGuard>, i32>,
)
    ensures
        next_swap(step, guard, r) is Discard ==> {
            ||| step is Exchange && r is Err
            ||| step is Look && r == Ok::<Option<ReplacementGuard>, i32>(Some(guard))
            ||| step is PutBack && r is Ok
        },
{
}

proof fn lemma_plain_pieces(rel: Seq<char>)
    requires
        paths::is_plain(rel),
    ensures
        forall|i: int|
            0 <= i < names(rel).len() ==> {
                &&& !(#[trigger] names(rel)[i]).contains('/')
                &&& paths::part(names(rel)[i], false) == Some(PartModel::Name(names(rel)[i]))
            },
{
    let pieces = text::split(rel, '/');
    let relative = !paths::is_absolute(rel);
    if paths::is_absolute(rel) {
        assert(paths::parts(rel)[0] == PartModel::Root);
        assert(paths::parts(rel)[0] is Name);
    }
    paths::lemma_split_pieces(rel);
    lemma_parts_are_pieces(pieces, relative);
    assert forall|i: int| 0 <= i < names(rel).len() implies !(#[trigger] names(rel)[i]).contains(
        '/',
    ) && paths::part(names(rel)[i], false) == Some(PartModel::Name(names(rel)[i])) by {
        assert(paths::parts(rel)[i] is Name);
        let k = choose|k: int|
            0 <= k < pieces.len() && paths::part(#[trigger] pieces[k], relative && k == 0) == Some(
                paths::parts(rel)[i],
            );
        assert(names(rel)[i] == pieces[k]);
    }
}

proof fn lemma_parts_are_pieces(pieces: Seq<Seq<char>>, relative: bool)
    ensures
        forall|i: int|
            0 <= i < paths::parts_from(pieces, relative).len() ==> exists|k: int|
                0 <= k < pieces.len() && paths::part(#[trigger] pieces[k], relative && k == 0)
                    == Some(#[trigger] paths::parts_from(pieces, relative)[i]),
    decreases pieces.len(),
{
    if pieces.len() > 0 {
        let less = pieces.drop_last();
        lemma_parts_are_pieces(less, relative);
        let all = paths::parts_from(pieces, relative);
        let before = paths::parts_from(less, relative);
        assert forall|i: int| 0 <= i < all.len() implies exists|k: int|
            0 <= k < pieces.len() && paths::part(#[trigger] pieces[k], relative && k == 0) == Some(
                #[trigger] all[i],
            ) by {
            if i < before.len() {
                assert(all[i] == before[i]);
                let k = choose|k: int|
                    0 <= k < less.len() && paths::part(#[trigger] less[k], relative && k == 0)
                        == Some(before[i]);
                assert(pieces[k] == less[k]);
            } else {
                let k = pieces.len() - 1;
                assert(paths::part(pieces[k], relative && k == 0) == Some(all[i]));
            }
        }
    }
}

proof fn lemma_path_parts(all: Seq<Seq<char>>)
    requires
        all.len() > 0,
        forall|i: int|
            0 <= i < all.len() ==> {
                &&& !(#[trigger] all[i]).contains('/')
                &&& paths::part(all[i], false) == Some(PartModel::Name(all[i]))
            },
    ensures
        paths::parts(path_of(all)) == all.map_values(|n: Seq<char>| PartModel::Name(n)),
{
    let s = path_of(all);
    text::lemma_join_split(all, '/');
    assert(!paths::is_absolute(s)) by {
        if paths::is_absolute(s) {
            text::lemma_position(s, '/');
            assert(text::position(s, '/') == 0);
            assert(text::split(s, '/')[0] =~= s.take(0));
            assert(all[0].len() == 0);
            assert(paths::part(all[0], false) is None);
        }
    }
    lemma_named(all);
}

proof fn lemma_named(all: Seq<Seq<char>>)
    requires
        forall|i: int|
            0 <= i < all.len() ==> paths::part(#[trigger] all[i], false) == Some(
                PartModel::Name(all[i]),
            ),
    ensures
        paths::parts_from(all, true) == all.map_values(|n: Seq<char>| PartModel::Name(n)),
    decreases all.len(),
{
    let want = all.map_values(|n: Seq<char>| PartModel::Name(n));
    if all.len() == 0 {
        assert(paths::parts_from(all, true) =~= want);
    } else {
        let less = all.drop_last();
        assert forall|i: int| 0 <= i < less.len() implies paths::part(#[trigger] less[i], false)
            == Some(PartModel::Name(less[i])) by {
            assert(less[i] == all[i]);
        }
        lemma_named(less);
        assert(paths::part(all[all.len() - 1], false) == Some(PartModel::Name(all.last())));
        assert(paths::parts_from(all, true) =~= want);
    }
}

/// The scratch name lies in the directory of the file it stands for, so the
/// renaming stays inside one directory.
pub proof fn law_scratch_lies_beside_its_file(rel: Seq<char>, seq_no: nat)
    requires
        paths::is_plain(rel),
        paths::parts(rel).len() > 0,
    ensures
        paths::is_plain(scratch(rel, seq_no)),
        paths::parts(scratch(rel, seq_no)).len() == paths::parts(rel).len(),
        paths::parts(scratch(rel, seq_no)).drop_last() == paths::parts(rel).drop_last(),
        paths::parts(scratch(rel, seq_no)).last() == PartModel::Name(
            scratch_name(names(rel).last(), seq_no),
        ),
{
    lemma_plain_pieces(rel);
    let all = names(rel);
    let p = paths::parts(rel);
    let n = scratch_name(all.last(), seq_no);
    reveal_strlit(".");
    reveal_strlit(".hydration-");
    let d = number::digits(seq_no);
    number::lemma_digits(seq_no);
    assert(!all[all.len() - 1].contains('/'));
    let a = "."@ + all.last();
    let b = a + ".hydration-"@;
    assert(n == b + d);
    assert forall|i: int| 0 <= i < n.len() implies n[i] != '/' by {
        if i == 0 {
            assert(n[i] == "."@[0]);
        } else if i < a.len() {
            assert(n[i] == all.last()[i - 1]);
            assert(all.last().contains(n[i]));
        } else if i < b.len() {
            assert(n[i] == ".hydration-"@[i - a.len()]);
        } else {
            assert(n[i] == d[i - b.len()]);
            assert('0' <= d[i - b.len()]);
        }
    }
    assert(n.len() > 2);
    let put = all.drop_last().push(n);
    assert forall|i: int| 0 <= i < put.len() implies !(#[trigger] put[i]).contains('/')
        && paths::part(put[i], false) == Some(PartModel::Name(put[i])) by {
        if i < all.len() - 1 {
            assert(put[i] == all[i]);
        } else {
            assert(put[i] == n);
        }
    }
    lemma_path_parts(put);
    let q = paths::parts(path_of(put));
    assert(q.drop_last() =~= p.drop_last()) by {
        assert forall|i: int| 0 <= i < p.len() - 1 implies q[i] == p[i] by {
            assert(p[i] is Name);
            assert(put[i] == all[i]);
        }
    }
}

/// The directories to make are those above the path, each inside the one before
/// it.
pub proof fn law_parents_lead_to_the_path(rel: Seq<char>, i: int)
    requires
        paths::is_plain(rel),
        0 <= i < parents(rel).len(),
        paths::parts(rel).len() > 0,
    ensures
        paths::parts(parents(rel)[i]) == paths::parts(rel).take(i + 1),
{
    lemma_plain_pieces(rel);
    let all = names(rel);
    let p = paths::parts(rel);
    let some = all.take(i + 1);
    assert forall|k: int| 0 <= k < some.len() implies !(#[trigger] some[k]).contains('/')
        && paths::part(some[k], false) == Some(PartModel::Name(some[k])) by {
        assert(some[k] == all[k]);
    }
    lemma_path_parts(some);
    assert(some.map_values(|n: Seq<char>| PartModel::Name(n)) =~= p.take(i + 1)) by {
        assert forall|k: int| 0 <= k < i + 1 implies PartModel::Name(some[k]) == p[k] by {
            assert(p[k] is Name);
        }
    }
}

/// A path is below the root exactly when the root's parts are its first ones and
/// what follows is at least one part and nothing but names.
pub proof fn law_what_lies_below_the_root(root: Seq<char>, path: Seq<char>)
    ensures
        below_root(root, path) is Some ==> paths::starts_with(path, root) && below_root(root, path)
            == paths::relative_to(root, path) && below_root(root, path)->0.len() > 0
            && paths::is_plain(below_root(root, path)->0),
        paths::relative_to(root, path) matches Some(rel) ==> (rel.len() > 0 && paths::is_plain(rel)
            ==> below_root(root, path) == Some(rel)),
{
}

/// A path has one directory above it for each of its names but the last, from the
/// outermost in.
pub proof fn law_every_directory_above_is_made(rel: Seq<char>)
    requires
        paths::is_plain(rel),
        paths::parts(rel).len() > 0,
    ensures
        parents(rel).len() == paths::parts(rel).len() - 1,
{
}

/// A link that could be made is done. One onto a name that is taken is made beside
/// it and renamed over it, and what the rename gives is what is said; what was made
/// beside it is cleared away where the rename failed. Any other failure is said as
/// it is.
pub proof fn law_a_link_goes_over_what_is_there(
    r: Result<(), i32>,
    cleared: Result<(), i32>,
    e: i32,
)
    ensures
        r != Err::<(), i32>(17) ==> next_link(LinkStep::Link, r) == LinkStep::Done(r),
        next_link(LinkStep::Link, Err(17)) == LinkStep::ClearScratch,
        next_link(LinkStep::ClearScratch, cleared) == LinkStep::LinkScratch,
        next_link(LinkStep::LinkScratch, Ok(())) == LinkStep::Rename,
        next_link(LinkStep::LinkScratch, Err(e)) == LinkStep::Done(Err(e)),
        next_link(LinkStep::Rename, Ok(())) == LinkStep::Done(Ok(())),
{
}

/// A swap whose exchange brought out the file that was approved is placed. One that
/// brought out another is put back and says that the target changed, and so does
/// one whose target was gone. What was made beside it is discarded in each case, and
/// any other failure is said as it is.
pub proof fn law_a_swap_places_what_was_approved(
    guard: ReplacementGuard,
    other: Option<ReplacementGuard>,
    r: Result<Option<ReplacementGuard>, i32>,
    done: Result<ConditionalPlace, i32>,
    e: i32,
)
    requires
        other != Some(guard),
        e != 2,
    ensures
        next_swap(SwapStep::ClearScratch, guard, r) == SwapStep::LinkScratch,
        r is Ok ==> next_swap(SwapStep::LinkScratch, guard, r) == SwapStep::Exchange,
        next_swap(SwapStep::LinkScratch, guard, Err(e)) == SwapStep::Done(Err(e)),
        r is Ok ==> next_swap(SwapStep::Exchange, guard, r) == SwapStep::Look,
        next_swap(SwapStep::Exchange, guard, Err(2)) == SwapStep::Discard(
            Ok(ConditionalPlace::TargetChanged),
        ),
        next_swap(SwapStep::Exchange, guard, Err(e)) == SwapStep::Discard(Err(e)),
        next_swap(SwapStep::Look, guard, Ok(Some(guard))) == SwapStep::Discard(
            Ok(ConditionalPlace::Placed),
        ),
        next_swap(SwapStep::Look, guard, Ok(other)) == SwapStep::PutBack,
        next_swap(SwapStep::Look, guard, Err(e)) == SwapStep::PutBack,
        r is Ok ==> next_swap(SwapStep::PutBack, guard, r) == SwapStep::Discard(
            Ok(ConditionalPlace::TargetChanged),
        ),
        next_swap(SwapStep::PutBack, guard, Err(e)) == SwapStep::Done(Err(e)),
        next_swap(SwapStep::Discard(done), guard, r) == SwapStep::Done(done),
{
}

/// Two tries at one file have scratch names of their own.
pub proof fn law_each_try_has_a_name_of_its_own(base: Seq<char>, a: nat, b: nat)
    requires
        scratch_name(base, a) == scratch_name(base, b),
    ensures
        a == b,
{
    let head = "."@ + base + ".hydration-"@;
    let x = scratch_name(base, a);
    let y = scratch_name(base, b);
    assert(x.skip(head.len() as int) =~= number::digits(a));
    assert(y.skip(head.len() as int) =~= number::digits(b));
    number::law_decimal_round_trips(a);
    number::law_decimal_round_trips(b);
}

} // verus!
