//! Finding what has not been sent, by looking.
//!
//! Edits can happen that no event tells of. The walk that finds them also comes
//! upon placeholders that hold bytes: those are never sent, because reading one
//! to send it hydrates the whole object, and they are named because nothing
//! else will notice them.

use crate::reclaim::Stamp;
use crate::table::FileId;
use crate::text;
use vstd::prelude::*;
use vstd::string::*;

verus! {

/// What a walk found out about one thing in the sync directory.
#[derive(Debug, PartialEq, Eq)]
pub struct Looked {
    /// The whole path.
    pub path: String,
    /// Whether the path is never synced.
    pub ignored: bool,
    /// A regular file.
    pub regular: bool,
    /// One of the framework's own files.
    pub internal: bool,
    pub id: FileId,
    pub size: u64,
    /// How the file compares with what was last made clean, where that could be
    /// told.
    pub stamp: Option<Stamp>,
    /// Whether the file is marked as having no local content.
    pub dehydrated: bool,
    /// Whether there are bytes in it, where that could be told.
    pub holds_data: bool,
    /// Whether it has a cloud id.
    pub identified: bool,
}

/// A finding over texts.
#[verifier::ext_equal]
pub struct LookedModel {
    pub path: Seq<char>,
    pub ignored: bool,
    pub regular: bool,
    pub internal: bool,
    pub id: FileId,
    pub size: u64,
    pub stamp: Option<Stamp>,
    pub dehydrated: bool,
    pub holds_data: bool,
    pub identified: bool,
}

impl View for Looked {
    type V = LookedModel;

    open spec fn view(&self) -> LookedModel {
        LookedModel {
            path: self.path@,
            ignored: self.ignored,
            regular: self.regular,
            internal: self.internal,
            id: self.id,
            size: self.size,
            stamp: self.stamp,
            dehydrated: self.dehydrated,
            holds_data: self.holds_data,
            identified: self.identified,
        }
    }
}

/// Findings over texts.
pub open spec fn looked_models(v: Seq<Looked>) -> Seq<LookedModel> {
    v.map_values(|l: Looked| l@)
}

/// A file of the user's that is synced.
pub open spec fn is_synced(l: LookedModel) -> bool {
    !l.ignored && l.regular && !l.internal
}

/// A file to queue for upload: one that no longer matches what was last made
/// clean, or one with content that never was clean and has no object.
pub open spec fn is_unsent(l: LookedModel) -> bool {
    is_synced(l) && !l.dehydrated && (l.stamp == Some(Stamp::Dirty) || (l.stamp == Some(
        Stamp::Unstamped,
    ) && l.size > 0 && !l.identified))
}

/// A placeholder that holds bytes which nothing of the framework's vouches for.
pub open spec fn is_holding(l: LookedModel) -> bool {
    is_synced(l) && l.dehydrated && l.stamp != Some(Stamp::Clean) && l.holds_data
}

/// The files to queue, in the order found.
pub open spec fn unsent(walk: Seq<LookedModel>) -> Seq<FileId>
    decreases walk.len(),
{
    if walk.len() == 0 {
        Seq::empty()
    } else if is_unsent(walk.last()) {
        unsent(walk.drop_last()).push(walk.last().id)
    } else {
        unsent(walk.drop_last())
    }
}

/// The placeholders to name, in the order found.
pub open spec fn holding(walk: Seq<LookedModel>) -> Seq<Seq<char>>
    decreases walk.len(),
{
    if walk.len() == 0 {
        Seq::empty()
    } else if is_holding(walk.last()) {
        holding(walk.drop_last()).push(walk.last().path)
    } else {
        holding(walk.drop_last())
    }
}

/// What a walk found: what to send, and what it refused to.
#[derive(Debug, PartialEq, Eq)]
pub struct Resync {
    /// Files to queue for upload.
    pub send: Vec<FileId>,
    /// Placeholders that hold bytes. Never sent.
    pub holding: Vec<String>,
}

/// Everything that a walk found which has not been sent in its current form.
pub fn dirty_files(walk: &Vec<Looked>) -> (r: Resync)
    ensures
        r.send@ == unsent(looked_models(walk@)),
        text::texts(r.holding@) == holding(looked_models(walk@)),
{
    let ghost all = looked_models(walk@);
    let mut send: Vec<FileId> = Vec::new();
    let mut held: Vec<String> = Vec::new();
    let mut i: usize = 0;
    assert(all.take(0) =~= Seq::empty());
    assert(text::texts(held@) =~= Seq::empty());
    while i < walk.len()
        invariant
            i <= walk@.len(),
            all == looked_models(walk@),
            send@ == unsent(all.take(i as int)),
            text::texts(held@) == holding(all.take(i as int)),
        decreases walk@.len() - i,
    {
        let l = &walk[i];
        let ghost had = text::texts(held@);
        proof {
            assert(all.take(i + 1).drop_last() =~= all.take(i as int));
            assert(all.take(i + 1).last() == l@);
        }
        if !l.ignored && l.regular && !l.internal {
            let clean = match l.stamp {
                Some(Stamp::Clean) => true,
                _ => false,
            };
            if l.dehydrated {
                if !clean && l.holds_data {
                    let path = l.path.as_str().to_owned();
                    let ghost p = path@;
                    held.push(path);
                    assert(text::texts(held@) =~= had.push(p));
                }
            } else {
                let worth_sending = match l.stamp {
                    Some(Stamp::Dirty) => true,
                    Some(Stamp::Unstamped) => l.size > 0 && !l.identified,
                    _ => false,
                };
                if worth_sending {
                    send.push(l.id);
                }
            }
        }
        i = i + 1;
    }
    assert(all.take(i as int) =~= all);
    Resync { send, holding: held }
}

/// What is queued came from a file that is not a placeholder and that is not
/// known to be clean.
pub proof fn law_a_placeholder_is_never_sent(walk: Seq<LookedModel>, i: int)
    requires
        0 <= i < unsent(walk).len(),
    ensures
        exists|k: int|
            0 <= k < walk.len() && (#[trigger] walk[k]).id == unsent(walk)[i] && is_synced(walk[k])
                && !walk[k].dehydrated && walk[k].stamp != Some(Stamp::Clean),
    decreases walk.len(),
{
    let less = walk.drop_last();
    if is_unsent(walk.last()) && i == unsent(walk).len() - 1 {
        assert(walk[walk.len() - 1].id == unsent(walk)[i]);
    } else {
        law_a_placeholder_is_never_sent(less, i);
        let k = choose|k: int|
            0 <= k < less.len() && (#[trigger] less[k]).id == unsent(less)[i] && is_synced(less[k])
                && !less[k].dehydrated && less[k].stamp != Some(Stamp::Clean);
        assert(walk[k] == less[k]);
    }
}

proof fn lemma_unsent(walk: Seq<LookedModel>, k: int)
    requires
        0 <= k < walk.len(),
    ensures
        is_unsent(walk[k]) ==> unsent(walk).contains(walk[k].id),
        is_holding(walk[k]) ==> holding(walk).contains(walk[k].path),
    decreases walk.len(),
{
    let less = walk.drop_last();
    if k == walk.len() - 1 {
        if is_unsent(walk[k]) {
            assert(unsent(walk)[unsent(walk).len() - 1] == walk[k].id);
        }
        if is_holding(walk[k]) {
            assert(holding(walk)[holding(walk).len() - 1] == walk[k].path);
        }
    } else {
        lemma_unsent(less, k);
        assert(less[k] == walk[k]);
        if is_unsent(walk[k]) {
            let i = choose|i: int| 0 <= i < unsent(less).len() && unsent(less)[i] == walk[k].id;
            assert(unsent(walk)[i] == walk[k].id);
        }
        if is_holding(walk[k]) {
            let i = choose|i: int|
                0 <= i < holding(less).len() && holding(less)[i] == walk[k].path;
            assert(holding(walk)[i] == walk[k].path);
        }
    }
}

/// Nothing is left out: every unsent file is queued, and every placeholder that
/// holds bytes of unknown origin is named.
pub proof fn law_a_walk_misses_nothing(walk: Seq<LookedModel>, k: int)
    requires
        0 <= k < walk.len(),
    ensures
        is_unsent(walk[k]) ==> unsent(walk).contains(walk[k].id),
        is_holding(walk[k]) ==> holding(walk).contains(walk[k].path),
{
    lemma_unsent(walk, k);
}

/// What is sent and what is told of, in the order of the walk: a walk in two parts
/// gives what the first gives and then what the second gives. A file is sent when
/// it takes part, is no placeholder, and was either changed since it was stamped or
/// never stamped while it holds content without an identity. A placeholder is told
/// of when it holds content and is not as it was stamped.
pub proof fn law_each_file_of_a_walk_is_judged_by_itself(
    first: Seq<LookedModel>,
    second: Seq<LookedModel>,
    x: LookedModel,
)
    ensures
        unsent(first + second) == unsent(first) + unsent(second),
        holding(first + second) == holding(first) + holding(second),
        ({
            let takes_part = !x.ignored && x.regular && !x.internal;
            let changed = x.stamp == Some(Stamp::Dirty);
            let fresh = x.stamp == Some(Stamp::Unstamped) && x.size > 0 && !x.identified;
            &&& takes_part && !x.dehydrated && (changed || fresh) ==> unsent(seq![x]) == seq![x.id]
            &&& !(takes_part && !x.dehydrated && (changed || fresh)) ==> unsent(seq![x]).len() == 0
            &&& takes_part && x.dehydrated && x.holds_data && x.stamp != Some(Stamp::Clean)
                ==> holding(seq![x]) == seq![x.path]
            &&& !(takes_part && x.dehydrated && x.holds_data && x.stamp != Some(Stamp::Clean))
                ==> holding(seq![x]).len() == 0
        }),
    decreases second.len(),
{
    let one = seq![x];
    assert(one.drop_last() =~= Seq::empty());
    assert(unsent(one.drop_last()) =~= Seq::empty());
    assert(holding(one.drop_last()) =~= Seq::empty());
    assert(Seq::<FileId>::empty().push(x.id) =~= seq![x.id]);
    assert(Seq::<Seq<char>>::empty().push(x.path) =~= seq![x.path]);
    let both = first + second;
    if second.len() == 0 {
        assert(both =~= first);
        assert(unsent(both) =~= unsent(first) + unsent(second));
        assert(holding(both) =~= holding(first) + holding(second));
    } else {
        let less = second.drop_last();
        law_each_file_of_a_walk_is_judged_by_itself(first, less, x);
        assert(both.drop_last() =~= first + less);
        assert(both.last() == second.last());
        assert(unsent(both) =~= unsent(first) + unsent(second));
        assert(holding(both) =~= holding(first) + holding(second));
    }
}

} // verus!
