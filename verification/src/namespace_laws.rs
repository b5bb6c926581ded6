//! What the remote tree promises.

use crate::delta::{Change, ChangeModel};
use crate::namespace::{self, ItemModel, KindModel, NodeModel, Tree, MAX_DEPTH};
use crate::sort;
use crate::table;
use vstd::prelude::*;

verus! {

/// Whether the parent chain of one item leads up to another in at most `n`
/// links.
pub open spec fn leads_up(
    nodes: Map<Seq<char>, NodeModel>,
    from: Seq<char>,
    to: Seq<char>,
    n: nat,
) -> bool
    decreases n,
{
    from == to || (n > 0 && nodes.dom().contains(from) && match nodes[from].parent {
        Some(p) => leads_up(nodes, p, to, (n - 1) as nat),
        None => false,
    })
}

pub(crate) proof fn lemma_walk_reaches(t: Tree, from: Seq<char>, to: Seq<char>, n: nat)
    requires
        t.wf(),
        leads_up(t.nodes, from, to, n),
    ensures
        namespace::walk(t.kids, seq![to], Set::empty()).contains(from),
    decreases n,
{
    namespace::lemma_walk_closed(t.kids, seq![to], Set::empty());
    if from == to {
        assert(seq![to][0] == to);
        assert(seq![to].contains(to));
    } else {
        let p = t.nodes[from].parent->0;
        lemma_walk_reaches(t, p, to, (n - 1) as nat);
        assert(t.is_linked(from));
        assert(t.kids[p].contains(from));
    }
}

proof fn lemma_beneath_reaches(t: Tree, from: Seq<char>, to: Seq<char>, n: nat)
    requires
        t.wf(),
        leads_up(t.nodes, from, to, n),
        from != to,
    ensures
        namespace::beneath(t, to).contains(from),
    decreases n,
{
    namespace::lemma_walk_closed(t.kids, namespace::kids_of(t.kids, to), Set::empty());
    let p = t.nodes[from].parent->0;
    assert(t.is_linked(from));
    assert(t.kids[p].contains(from));
    if p == to {
        table::lemma_in_key_order::<String>(t.kids[to]);
        assert(namespace::kids_of(t.kids, to).contains(from));
    } else {
        lemma_beneath_reaches(t, p, to, (n - 1) as nat);
    }
}

pub(crate) proof fn lemma_reports(nodes: Map<Seq<char>, NodeModel>, ids: Seq<Seq<char>>)
    ensures
        forall|id: Seq<char>| #[trigger]
            ids.contains(id) && namespace::report(nodes, id) is Some ==> namespace::reports(nodes, ids).contains(
                namespace::report(nodes, id)->0,
            ),
        forall|c: ChangeModel| #[trigger]
            namespace::reports(nodes, ids).contains(c) ==> exists|id: Seq<char>|
                ids.contains(id) && #[trigger] namespace::report(nodes, id) == Some(c),
    decreases ids.len(),
{
    if ids.len() > 0 {
        let front = ids.drop_last();
        lemma_reports(nodes, front);
        let r = namespace::reports(nodes, ids);
        let q = namespace::reports(nodes, front);
        assert forall|id: Seq<char>| #[trigger]
            ids.contains(id) && namespace::report(nodes, id) is Some implies r.contains(
            namespace::report(nodes, id)->0,
        ) by {
            let i = choose|i: int| 0 <= i < ids.len() && ids[i] == id;
            let c = namespace::report(nodes, id)->0;
            if i < front.len() {
                assert(front[i] == id);
                assert(front.contains(id));
                assert(q.contains(c));
                let k = choose|k: int| 0 <= k < q.len() && q[k] == c;
                assert(r[k] == c);
            } else {
                assert(r[q.len() as int] == c);
            }
        }
        assert forall|c: ChangeModel| #[trigger] r.contains(c) implies exists|id: Seq<char>|
            ids.contains(id) && #[trigger] namespace::report(nodes, id) == Some(c) by {
            let k = choose|k: int| 0 <= k < r.len() && r[k] == c;
            if k < q.len() {
                assert(q[k] == c);
                assert(q.contains(c));
                let id = choose|id: Seq<char>|
                    front.contains(id) && #[trigger] namespace::report(nodes, id) == Some(c);
                let i = choose|i: int| 0 <= i < front.len() && front[i] == id;
                assert(ids[i] == id);
                assert(ids.contains(id));
            } else {
                assert(ids[ids.len() - 1] == ids.last());
                assert(ids.contains(ids.last()));
                assert(namespace::report(nodes, ids.last()) == Some(c));
            }
        }
    }
}

pub(crate) proof fn lemma_removals(nodes: Map<Seq<char>, NodeModel>, ids: Seq<Seq<char>>, id: Seq<char>)
    requires
        ids.contains(id),
        namespace::is_file(nodes, id),
    ensures
        namespace::removals(nodes, ids).contains(ChangeModel::Removed { cloud_id: id }),
    decreases ids.len(),
{
    let front = ids.drop_last();
    let i = choose|i: int| 0 <= i < ids.len() && ids[i] == id;
    let c = ChangeModel::Removed { cloud_id: id };
    let r = namespace::removals(nodes, ids);
    let q = namespace::removals(nodes, front);
    if i < front.len() {
        assert(front[i] == id);
        assert(front.contains(id));
        lemma_removals(nodes, front, id);
        let k = choose|k: int| 0 <= k < q.len() && q[k] == c;
        assert(r[k] == c);
    } else {
        assert(r[q.len() as int] == c);
    }
}

proof fn lemma_one_keeps(t: Tree, item: ItemModel, out: Seq<ChangeModel>, c: ChangeModel)
    requires
        out.contains(c),
    ensures
        namespace::applied_one(t, item, out).1.contains(c),
{
    let k = choose|k: int| 0 <= k < out.len() && out[k] == c;
    match item {
        ItemModel::Upsert { id, parent, name, kind } => {
            let r = namespace::upserted(t, id, parent, name, kind, out).1;
            if !(kind is Root) && parent is Some && t.nodes.dom().contains(parent->0) {
                let after = namespace::grown(t, id, parent->0, name, kind);
                if kind is File {
                    assert(r[k] == c);
                } else if namespace::is_move(t, id, parent->0, name) {
                    let all = out + namespace::reports(after.nodes, namespace::walk(after.kids, seq![id], Set::empty()));
                    assert(all[k] == c);
                    assert(all.contains(c));
                    sort::lemma_arranged_contains::<Change>(all, c);
                }
            }
        },
        ItemModel::Delete { id } => {
            let r = namespace::deleted(t, id, out).1;
            assert(r[k] == c);
        },
    }
}

proof fn lemma_replayed_keeps(
    t: Tree,
    ids: Seq<Seq<char>>,
    out: Seq<ChangeModel>,
    c: ChangeModel,
)
    requires
        out.contains(c),
    ensures
        namespace::replayed(t, ids, out).1.contains(c),
    decreases ids.len(),
{
    if ids.len() > 0 {
        lemma_replayed_keeps(t, ids.drop_last(), out, c);
        let (u, o) = namespace::replayed(t, ids.drop_last(), out);
        let id = ids.last();
        if u.held.dom().contains(id) {
            let free = Tree { nodes: u.nodes, kids: u.kids, root: u.root, held: u.held.remove(id) };
            lemma_one_keeps(free, u.held[id], o, c);
        }
    }
}

proof fn lemma_settled_keeps(t: Tree, out: Seq<ChangeModel>, c: ChangeModel)
    requires
        t.wf(),
        out.contains(c),
    ensures
        namespace::settled(t, out).1.contains(c),
    decreases t.held.dom().len(),
{
    namespace::lemma_replay_shrinks(t, out);
    if namespace::ready(t).len() > 0 {
        let (u, o) = namespace::replayed(t, namespace::ready(t), out);
        lemma_replayed_keeps(t, namespace::ready(t), out, c);
        lemma_settled_keeps(u, o, c);
    }
}

/// Moving a folder, or calling it otherwise, reports every file beneath it at
/// its new path, however deep the file lies.
pub proof fn law_moving_a_folder_moves_its_files(
    t: Tree,
    id: Seq<char>,
    parent: Seq<char>,
    name: Seq<char>,
    file: Seq<char>,
    n: nat,
)
    requires
        t.wf(),
        t.nodes.dom().contains(parent),
        namespace::is_move(t, id, parent, name),
        leads_up(namespace::grown(t, id, parent, name, KindModel::Folder).nodes, file, id, n),
        namespace::is_file(namespace::grown(t, id, parent, name, KindModel::Folder).nodes, file),
        namespace::path_of(namespace::grown(t, id, parent, name, KindModel::Folder).nodes, file) is Some,
    ensures
        ({
            let u = namespace::grown(t, id, parent, name, KindModel::Folder);
            let item = ItemModel::Upsert {
                id,
                parent: Some(parent),
                name,
                kind: KindModel::Folder,
            };
            namespace::applied(t, item).1.contains(
                ChangeModel::Upserted {
                    cloud_id: file,
                    path: namespace::path_of(u.nodes, file)->0,
                    size: u.nodes[file].kind->size,
                    etag: u.nodes[file].kind->ctag,
                },
            )
        }),
{
    let u = namespace::grown(t, id, parent, name, KindModel::Folder);
    let empty = Seq::<ChangeModel>::empty();
    namespace::lemma_upserted_wf(t, id, Some(parent), name, KindModel::Folder, empty);
    let (v, o) = namespace::upserted(t, id, Some(parent), name, KindModel::Folder, empty);
    assert(v == u);
    lemma_walk_reaches(u, file, id, n);
    let ids = namespace::walk(u.kids, seq![id], Set::empty());
    lemma_reports(u.nodes, ids);
    let c = namespace::report(u.nodes, file)->0;
    let all = empty + namespace::reports(u.nodes, ids);
    assert(all =~= namespace::reports(u.nodes, ids));
    assert(all.contains(c));
    sort::lemma_arranged_contains::<Change>(all, c);
    lemma_settled_keeps(u, o, c);
}

pub(crate) proof fn lemma_not_ready(t: Tree)
    requires
        t.wf(),
        forall|id: Seq<char>| !namespace::is_ready(t, id),
    ensures
        namespace::ready(t).len() == 0,
{
    namespace::lemma_ready(t);
    if namespace::ready(t).len() > 0 {
        assert(namespace::is_ready(t, namespace::ready(t)[0]));
    }
}

/// Deleting a folder forgets everything beneath it and reports each file
/// there as gone.
pub proof fn law_deleting_a_folder_removes_its_files(
    t: Tree,
    id: Seq<char>,
    below: Seq<char>,
    n: nat,
)
    requires
        t.wf(),
        namespace::ready(t).len() == 0,
        t.nodes.dom().contains(id),
        leads_up(t.nodes, below, id, n),
    ensures
        !namespace::applied(t, ItemModel::Delete { id }).0.nodes.dom().contains(below),
        namespace::is_file(t.nodes, below) ==> namespace::applied(t, ItemModel::Delete { id }).1.contains(
            ChangeModel::Removed { cloud_id: below },
        ),
{
    let empty = Seq::<ChangeModel>::empty();
    namespace::lemma_deleted_wf(t, id, empty);
    let (u, o) = namespace::deleted(t, id, empty);
    let gone = namespace::beneath(t, id).to_set().insert(id);
    if below != id {
        lemma_beneath_reaches(t, below, id, n);
        assert(gone.contains(below));
    }
    namespace::lemma_ready(t);
    assert forall|x: Seq<char>| !namespace::is_ready(u, x) by {
        if namespace::is_ready(u, x) {
            assert(namespace::is_ready(t, x));
            assert(namespace::ready(t).contains(x));
        }
    }
    lemma_not_ready(u);
    if namespace::is_file(t.nodes, below) {
        let c = ChangeModel::Removed { cloud_id: below };
        let a = namespace::removals(t.nodes, namespace::beneath(t, id));
        let b = namespace::removals(t.nodes, seq![id]);
        if below == id {
            assert(seq![id][0] == id);
            assert(seq![id].contains(id));
            lemma_removals(t.nodes, seq![id], id);
            let k = choose|k: int| 0 <= k < b.len() && b[k] == c;
            assert(o[a.len() + k] == c);
        } else {
            lemma_removals(t.nodes, namespace::beneath(t, id), below);
            let k = choose|k: int| 0 <= k < a.len() && a[k] == c;
            assert(o[k] == c);
        }
    }
}

/// A folder that is reported again as it stands means nothing, and changes
/// nothing.
pub proof fn law_an_unchanged_folder_is_no_work(
    t: Tree,
    id: Seq<char>,
    parent: Seq<char>,
    name: Seq<char>,
)
    requires
        t.wf(),
        namespace::ready(t).len() == 0,
        t.nodes.dom().contains(id),
        t.nodes[id] == (NodeModel { parent: Some(parent), name, kind: KindModel::Folder }),
    ensures
        namespace::applied(
            t,
            ItemModel::Upsert { id, parent: Some(parent), name, kind: KindModel::Folder },
        ) == (t, Seq::<ChangeModel>::empty()),
{
    assert(t.is_linked(id));
    let u = namespace::grown(t, id, parent, name, KindModel::Folder);
    assert(u.nodes =~= t.nodes);
    assert(t.kids[parent].remove(id).insert(id) =~= t.kids[parent]);
    assert(u.kids =~= t.kids);
    assert(u == t);
}

/// A folder that is new is not a change: nothing is reported for it when
/// nothing was waiting for it.
pub proof fn law_a_new_folder_is_no_change(
    t: Tree,
    id: Seq<char>,
    parent: Seq<char>,
    name: Seq<char>,
)
    requires
        t.wf(),
        namespace::ready(t).len() == 0,
        t.nodes.dom().contains(parent),
        !t.nodes.dom().contains(id),
        forall|x: Seq<char>| #[trigger]
            t.held.dom().contains(x) ==> t.held[x]->parent != Some(id),
    ensures
        namespace::applied(
            t,
            ItemModel::Upsert { id, parent: Some(parent), name, kind: KindModel::Folder },
        ).1 == Seq::<ChangeModel>::empty(),
{
    let u = namespace::grown(t, id, parent, name, KindModel::Folder);
    let empty = Seq::<ChangeModel>::empty();
    namespace::lemma_upserted_wf(t, id, Some(parent), name, KindModel::Folder, empty);
    namespace::lemma_ready(t);
    assert forall|x: Seq<char>| !namespace::is_ready(u, x) by {
        if namespace::is_ready(u, x) {
            assert(t.held.dom().contains(x));
            assert(!namespace::ready(t).contains(x));
            assert(!namespace::is_ready(t, x));
        }
    }
    lemma_not_ready(u);
}

/// Nothing stays held once its parent is known.
pub proof fn law_nothing_held_has_a_known_parent(t: Tree, item: ItemModel, id: Seq<char>)
    requires
        t.wf(),
    ensures
        !namespace::is_ready(namespace::applied(t, item).0, id),
        namespace::applied(t, item).0.wf(),
{
    let empty = Seq::<ChangeModel>::empty();
    match item {
        ItemModel::Upsert { id, parent, name, kind } => {
            namespace::lemma_upserted_wf(t, id, parent, name, kind, empty);
        },
        ItemModel::Delete { id } => {
            namespace::lemma_deleted_wf(t, id, empty);
        },
    }
    let (u, o) = namespace::applied_one(t, item, empty);
    namespace::lemma_settled(u, o);
    let v = namespace::settled(u, o).0;
    namespace::lemma_ready(v);
    assert(!namespace::ready(v).contains(id));
}

/// An item whose parent is not known is held, visibly, and reports nothing.
pub proof fn law_an_orphan_is_held(
    t: Tree,
    id: Seq<char>,
    parent: Option<Seq<char>>,
    name: Seq<char>,
    kind: KindModel,
)
    requires
        t.wf(),
        namespace::ready(t).len() == 0,
        !(kind is Root),
        parent is None || !t.nodes.dom().contains(parent->0),
    ensures
        namespace::applied(t, ItemModel::Upsert { id, parent, name, kind }).0.held == t.held.insert(
            id,
            ItemModel::Upsert { id, parent, name, kind },
        ),
        namespace::applied(t, ItemModel::Upsert { id, parent, name, kind }).1 == Seq::<ChangeModel>::empty(),
{
    let empty = Seq::<ChangeModel>::empty();
    namespace::lemma_upserted_wf(t, id, parent, name, kind, empty);
    let u = namespace::upserted(t, id, parent, name, kind, empty).0;
    namespace::lemma_ready(t);
    assert forall|x: Seq<char>| !namespace::is_ready(u, x) by {
        if namespace::is_ready(u, x) && x != id {
            assert(namespace::is_ready(t, x));
            assert(namespace::ready(t).contains(x));
        }
    }
    lemma_not_ready(u);
}

/// A full listing names every file under the root at its current path,
/// shallowest first, and names nothing else.
pub proof fn law_a_listing_is_complete(t: Tree, root: Seq<char>, file: Seq<char>, n: nat)
    requires
        t.wf(),
        t.root == Some(root),
    ensures
        leads_up(t.nodes, file, root, n) && namespace::report(t.nodes, file) is Some ==> namespace::listed(t).contains(
            namespace::report(t.nodes, file)->0,
        ),
        sort::in_order::<Change>(namespace::listed(t)),
        forall|c: ChangeModel| #[trigger]
            namespace::listed(t).contains(c) ==> exists|id: Seq<char>| #[trigger]
                namespace::report(t.nodes, id) == Some(c),
{
    let ids = namespace::walk(t.kids, seq![root], Set::empty());
    let all = namespace::reports(t.nodes, ids);
    lemma_reports(t.nodes, ids);
    sort::lemma_arranged::<Change>(all);
    if leads_up(t.nodes, file, root, n) && namespace::report(t.nodes, file) is Some {
        lemma_walk_reaches(t, file, root, n);
        sort::lemma_arranged_contains::<Change>(all, namespace::report(t.nodes, file)->0);
    }
    assert forall|c: ChangeModel| #[trigger] namespace::listed(t).contains(c) implies exists|id: Seq<char>|
        #[trigger] namespace::report(t.nodes, id) == Some(c) by {
        sort::lemma_arranged_contains::<Change>(all, c);
    }
}

/// The item that a parent chain reaches after `n` links.
pub open spec fn ancestor(
    nodes: Map<Seq<char>, NodeModel>,
    id: Seq<char>,
    n: nat,
) -> Option<Seq<char>>
    decreases n,
{
    if n == 0 {
        Some(id)
    } else if nodes.dom().contains(id) && nodes[id].parent is Some {
        ancestor(nodes, nodes[id].parent->0, (n - 1) as nat)
    } else {
        None
    }
}

proof fn lemma_trail_goes_up(
    nodes: Map<Seq<char>, NodeModel>,
    id: Seq<char>,
    n: nat,
    fuel: nat,
)
    requires
        ancestor(nodes, id, n) is Some,
        forall|k: nat|
            k < n && (#[trigger] ancestor(nodes, id, k)) is Some ==> !(nodes[ancestor(
                nodes,
                id,
                k,
            )->0].kind is Root),
        namespace::trail(nodes, id, fuel) is Some,
    ensures
        n < fuel,
        namespace::trail(nodes, ancestor(nodes, id, n)->0, (fuel - n) as nat) is Some,
    decreases n,
{
    if n > 0 {
        assert(ancestor(nodes, id, 0) == Some(id));
        let p = nodes[id].parent->0;
        assert forall|k: nat|
            k < n - 1 && (#[trigger] ancestor(nodes, p, k)) is Some implies !(nodes[ancestor(
            nodes,
            p,
            k,
        )->0].kind is Root) by {
            assert(ancestor(nodes, id, k + 1) == ancestor(nodes, p, k));
        }
        lemma_trail_goes_up(nodes, p, (n - 1) as nat, (fuel - 1) as nat);
    }
}

/// An item whose parent chain comes back to it without meeting the root has
/// no path.
pub proof fn law_a_cycle_has_no_path(
    nodes: Map<Seq<char>, NodeModel>,
    id: Seq<char>,
    n: nat,
)
    requires
        n > 0,
        ancestor(nodes, id, n) == Some(id),
        forall|k: nat|
            k < n && (#[trigger] ancestor(nodes, id, k)) is Some ==> !(nodes[ancestor(
                nodes,
                id,
                k,
            )->0].kind is Root),
    ensures
        namespace::path_of(nodes, id) is None,
{
    lemma_cycle(nodes, id, n, MAX_DEPTH as nat);
}

proof fn lemma_cycle(nodes: Map<Seq<char>, NodeModel>, id: Seq<char>, n: nat, fuel: nat)
    requires
        n > 0,
        ancestor(nodes, id, n) == Some(id),
        forall|k: nat|
            k < n && (#[trigger] ancestor(nodes, id, k)) is Some ==> !(nodes[ancestor(
                nodes,
                id,
                k,
            )->0].kind is Root),
    ensures
        namespace::trail(nodes, id, fuel) is None,
    decreases fuel,
{
    if namespace::trail(nodes, id, fuel) is Some {
        lemma_trail_goes_up(nodes, id, n, fuel);
        lemma_cycle(nodes, id, n, (fuel - n) as nat);
    }
}

} // verus!
