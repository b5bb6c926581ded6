//! Which local folder is which cloud folder.

use crate::offline::{Folder, FolderModel};
use crate::offline;
use crate::store;
use crate::table::Table;
use crate::text;
use vstd::prelude::*;
use vstd::string::*;

verus! {

/// The error for a folder whose attribute is not text.
pub open spec fn not_text(path: Seq<char>) -> Seq<char> {
    "folder at "@ + path + " has a non-UTF-8 cloud identity"@
}

/// The error for an object that two folders claim, given how its id is shown.
pub open spec fn claimed_twice(shown: Seq<char>) -> Seq<char> {
    "folder cloud identity "@ + shown + " is claimed more than once"@
}

/// Where each cloud folder is, or the first folder's error. A folder without an
/// identity, or with an empty one, is nobody's.
pub open spec fn folder_map(walk: Seq<FolderModel>) -> Result<Map<Seq<char>, Seq<char>>, Seq<char>>
    decreases walk.len(),
{
    if walk.len() == 0 {
        Ok(Map::empty())
    } else {
        let f = walk.last();
        match folder_map(walk.drop_last()) {
            Err(e) => Err(e),
            Ok(m) => match f.cloud_id {
                None => Ok(m),
                Some(v) => match store::string_of(Some(v)) {
                    None => Err(not_text(f.path)),
                    Some(id) => if id.len() == 0 {
                        Ok(m)
                    } else if m.dom().contains(id) {
                        Err(claimed_twice(text::quoted(id)))
                    } else {
                        Ok(m.insert(id, f.path))
                    },
                },
            },
        }
    }
}

/// Say that two folders claim one object, given how its id is shown.
pub fn claim_error(shown: &str) -> (s: String)
    ensures
        s@ == claimed_twice(shown@),
{
    let mut s: String = "folder cloud identity ".to_owned();
    s.append(shown);
    s.append(" is claimed more than once");
    s
}

proof fn lemma_error(walk: Seq<FolderModel>, n: int)
    requires
        0 <= n <= walk.len(),
        folder_map(walk.take(n)) is Err,
    ensures
        folder_map(walk) == folder_map(walk.take(n)),
    decreases walk.len(),
{
    if n == walk.len() {
        assert(walk.take(n) =~= walk);
    } else {
        assert(walk.drop_last().take(n) =~= walk.take(n));
        lemma_error(walk.drop_last(), n);
    }
}

/// Index the folders that a walk came upon by their cloud ids.
pub fn folders_by_cloud_id(walk: &Vec<Folder>) -> (r: Result<Table<String, String>, String>)
    ensures
        folder_map(offline::folder_models(walk@)) == match r {
            Ok(t) => Ok(offline::text_map(t@)),
            Err(e) => Err(e@),
        },
{
    let ghost all = offline::folder_models(walk@);
    let mut found: Table<String, String> = Table::new();
    let mut i: usize = 0;
    assert(all.take(0) =~= Seq::empty());
    assert(offline::text_map(found@) =~= Map::empty());
    while i < walk.len()
        invariant
            i <= walk@.len(),
            all == offline::folder_models(walk@),
            folder_map(all.take(i as int)) == Ok::<Map<Seq<char>, Seq<char>>, Seq<char>>(
                offline::text_map(found@),
            ),
        decreases walk@.len() - i,
    {
        let f = &walk[i];
        let ghost had = found@;
        proof {
            assert(all.take(i + 1).drop_last() =~= all.take(i as int));
            assert(all.take(i + 1).last() == f@);
            assert(offline::text_map(had).dom() =~= had.dom());
        }
        if let Some(v) = &f.cloud_id {
            match store::get_xattr_string(Some(text::copy_bytes(v))) {
                None => {
                    let mut e: String = "folder at ".to_owned();
                    e.append(f.path.as_str());
                    e.append(" has a non-UTF-8 cloud identity");
                    proof {
                        lemma_error(all, i + 1);
                    }
                    return Err(e);
                },
                Some(id) => {
                    if !id.as_str().is_empty() {
                        if found.contains(&id) {
                            proof {
                                lemma_error(all, i + 1);
                            }
                            let shown = text::quote(id.as_str());
                            return Err(claim_error(shown.as_str()));
                        }
                        let path = f.path.as_str().to_owned();
                        let ghost c = id@;
                        let ghost p = path@;
                        found.insert(id, path);
                        assert(offline::text_map(found@) =~= offline::text_map(had).insert(c, p));
                    }
                },
            }
        }
        i = i + 1;
    }
    assert(all.take(i as int) =~= all);
    Ok(found)
}

/// Where an index was made, no two folders claim one object.
pub proof fn law_no_object_is_claimed_twice(walk: Seq<FolderModel>, i: int, j: int)
    requires
        folder_map(walk) is Ok,
        0 <= i < j < walk.len(),
        store::string_of(walk[i].cloud_id) is Some,
        store::string_of(walk[i].cloud_id)->0.len() > 0,
    ensures
        store::string_of(walk[i].cloud_id) != store::string_of(walk[j].cloud_id),
    decreases walk.len(),
{
    let less = walk.drop_last();
    assert(less[i] == walk[i]);
    if j < walk.len() - 1 {
        assert(less[j] == walk[j]);
        law_no_object_is_claimed_twice(less, i, j);
    } else {
        lemma_indexed(less, i, store::string_of(walk[i].cloud_id)->0);
    }
}

proof fn lemma_indexed(walk: Seq<FolderModel>, i: int, id: Seq<char>)
    requires
        folder_map(walk) is Ok,
        0 <= i < walk.len(),
        id.len() > 0,
        store::string_of(walk[i].cloud_id) == Some(id),
    ensures
        folder_map(walk)->Ok_0.dom().contains(id),
    decreases walk.len(),
{
    if i < walk.len() - 1 {
        assert(walk.drop_last()[i] == walk[i]);
        lemma_indexed(walk.drop_last(), i, id);
    }
}

/// Each folder of a walk that carries an identity is known by it, at its own path.
/// Folders without one, or with an empty one, are left out, and nothing else is
/// known.
pub proof fn law_every_identified_folder_is_known(walk: Seq<FolderModel>, i: int)
    requires
        folder_map(walk) is Ok,
        0 <= i < walk.len(),
    ensures
        walk[i].cloud_id is Some ==> store::string_of(walk[i].cloud_id) is Some,
        store::string_of(walk[i].cloud_id) matches Some(id) ==> (id.len() > 0 ==> folder_map(
            walk,
        )->Ok_0.dom().contains(id) && folder_map(walk)->Ok_0[id] == walk[i].path),
        forall|id: Seq<char>| #[trigger]
            folder_map(walk)->Ok_0.dom().contains(id) ==> id.len() > 0 && exists|k: int|
                0 <= k < walk.len() && store::string_of((#[trigger] walk[k]).cloud_id) == Some(id),
    decreases walk.len(),
{
    lemma_known_folders(walk);
    let less = walk.drop_last();
    if i < less.len() {
        law_every_identified_folder_is_known(less, i);
        assert(less[i] == walk[i]);
    }
}

proof fn lemma_known_folders(walk: Seq<FolderModel>)
    requires
        folder_map(walk) is Ok,
    ensures
        forall|id: Seq<char>| #[trigger]
            folder_map(walk)->Ok_0.dom().contains(id) ==> id.len() > 0 && exists|k: int|
                0 <= k < walk.len() && store::string_of((#[trigger] walk[k]).cloud_id) == Some(id),
    decreases walk.len(),
{
    if walk.len() > 0 {
        let less = walk.drop_last();
        lemma_known_folders(less);
        assert forall|id: Seq<char>| #[trigger]
            folder_map(walk)->Ok_0.dom().contains(id) implies id.len() > 0 && exists|k: int|
            0 <= k < walk.len() && store::string_of((#[trigger] walk[k]).cloud_id) == Some(id) by {
            if folder_map(less)->Ok_0.dom().contains(id) {
                let k = choose|k: int|
                    0 <= k < less.len() && store::string_of((#[trigger] less[k]).cloud_id) == Some(
                        id,
                    );
                assert(walk[k] == less[k]);
            } else {
                assert(store::string_of(walk[walk.len() - 1].cloud_id) == Some(id));
            }
        }
    }
}

/// A walk fails only where an identity is no text or is claimed twice.
pub proof fn law_a_walk_of_folders_fails_only_for_a_reason(walk: Seq<FolderModel>)
    requires
        forall|i: int|
            0 <= i < walk.len() && (#[trigger] walk[i]).cloud_id is Some ==> store::string_of(
                walk[i].cloud_id,
            ) is Some,
        forall|i: int, j: int|
            0 <= i < j < walk.len() && store::string_of((#[trigger] walk[i]).cloud_id) is Some
                && store::string_of(walk[i].cloud_id)->0.len() > 0 ==> store::string_of(
                walk[i].cloud_id,
            ) != store::string_of((#[trigger] walk[j]).cloud_id),
    ensures
        folder_map(walk) is Ok,
    decreases walk.len(),
{
    if walk.len() > 0 {
        let less = walk.drop_last();
        assert forall|i: int|
            0 <= i < less.len() && (#[trigger] less[i]).cloud_id is Some implies store::string_of(
            less[i].cloud_id,
        ) is Some by {
            assert(less[i] == walk[i]);
        }
        assert forall|i: int, j: int|
            0 <= i < j < less.len() && store::string_of((#[trigger] less[i]).cloud_id) is Some
                && store::string_of(less[i].cloud_id)->0.len() > 0 implies store::string_of(
            less[i].cloud_id,
        ) != store::string_of((#[trigger] less[j]).cloud_id) by {
            assert(less[i] == walk[i] && less[j] == walk[j]);
        }
        law_a_walk_of_folders_fails_only_for_a_reason(less);
        lemma_known_folders(less);
        let last = walk[walk.len() - 1];
        if last.cloud_id is Some {
            let id = store::string_of(last.cloud_id)->0;
            if folder_map(less)->Ok_0.dom().contains(id) {
                let k = choose|k: int|
                    0 <= k < less.len() && store::string_of((#[trigger] less[k]).cloud_id) == Some(
                        id,
                    );
                assert(less[k] == walk[k]);
                assert(store::string_of(walk[k].cloud_id) != store::string_of(last.cloud_id));
            }
        }
    }
}

} // verus!
