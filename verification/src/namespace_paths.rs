//! What the path of an item is, and when it is reported.

use crate::delta::{Change, ChangeModel};
use crate::namespace::{self, ItemModel, KindModel, NodeModel, Tree, MAX_DEPTH};
use crate::namespace_laws::{self, ancestor};
use crate::sort;
use crate::text;
use vstd::prelude::*;

verus! {

/// Whether the parent chain of an item meets the root after `n` links, and not
/// before.
pub open spec fn meets_root(nodes: Map<Seq<char>, NodeModel>, id: Seq<char>, n: nat) -> bool {
    &&& ancestor(nodes, id, n) matches Some(top) && nodes.dom().contains(top)
        && nodes[top].kind is Root
    &&& forall|k: nat|
        k < n ==> !((#[trigger] ancestor(nodes, id, k)) matches Some(x) && nodes[x].kind is Root)
}

/// The chain of a parent is that of its child without the first link.
proof fn lemma_parent_meets_root(nodes: Map<Seq<char>, NodeModel>, id: Seq<char>, n: nat)
    requires
        meets_root(nodes, id, n),
    ensures
        nodes.dom().contains(id),
        n == 0 <==> nodes[id].kind is Root,
        n > 0 ==> nodes[id].parent is Some && meets_root(
            nodes,
            nodes[id].parent->0,
            (n - 1) as nat,
        ),
{
    assert(ancestor(nodes, id, 0) == Some(id));
    if n > 0 {
        let p = nodes[id].parent->0;
        assert forall|k: nat| k < n - 1 implies !((#[trigger] ancestor(nodes, p, k)) matches Some(x)
            && nodes[x].kind is Root) by {
            assert(ancestor(nodes, id, k + 1) == ancestor(nodes, p, k));
        }
    }
}

proof fn lemma_trail_length(
    nodes: Map<Seq<char>, NodeModel>,
    id: Seq<char>,
    n: nat,
    fuel: nat,
)
    requires
        meets_root(nodes, id, n),
        n < fuel,
    ensures
        namespace::trail(nodes, id, fuel) is Some,
        namespace::trail(nodes, id, fuel)->0.len() == n,
        namespace::trail(nodes, id, fuel) == namespace::trail(nodes, id, (n + 1) as nat),
    decreases n,
{
    lemma_parent_meets_root(nodes, id, n);
    if n > 0 {
        let p = nodes[id].parent->0;
        lemma_trail_length(nodes, p, (n - 1) as nat, (fuel - 1) as nat);
        assert(namespace::trail(nodes, id, (n + 1) as nat) == Some(
            namespace::trail(nodes, p, n)->0.push(nodes[id].name),
        ));
    }
}

proof fn lemma_trail_meets_root(nodes: Map<Seq<char>, NodeModel>, id: Seq<char>, fuel: nat) -> (n:
    nat)
    requires
        namespace::trail(nodes, id, fuel) is Some,
    ensures
        n < fuel,
        meets_root(nodes, id, n),
    decreases fuel,
{
    if nodes[id].kind is Root {
        0
    } else {
        let p = nodes[id].parent->0;
        let m = lemma_trail_meets_root(nodes, p, (fuel - 1) as nat);
        assert(ancestor(nodes, id, (m + 1) as nat) == ancestor(nodes, p, m));
        assert forall|k: nat| k < m + 1 implies !((#[trigger] ancestor(nodes, id, k)) matches Some(x)
            && nodes[x].kind is Root) by {
            if k > 0 {
                assert(ancestor(nodes, id, k) == ancestor(nodes, p, (k - 1) as nat));
            }
        }
        (m + 1) as nat
    }
}

/// An item has a path when its parent chain meets the root in fewer links than the
/// deepest that is followed, however many there are: the root's path is empty, a
/// child of the root has its own name as its path, and any other item has its
/// parent's path, a slash and its own name.
pub proof fn law_a_path_is_the_parents_path_and_the_name(
    nodes: Map<Seq<char>, NodeModel>,
    id: Seq<char>,
    n: nat,
)
    requires
        meets_root(nodes, id, n),
        n < 512,
    ensures
        namespace::path_of(nodes, id) is Some,
        n == 0 ==> namespace::path_of(nodes, id)->0 == Seq::<char>::empty(),
        n == 1 ==> namespace::path_of(nodes, id)->0 == nodes[id].name,
        n > 1 ==> nodes[id].parent is Some && namespace::path_of(nodes, nodes[id].parent->0) is Some
            && namespace::path_of(nodes, id)->0 == namespace::path_of(
            nodes,
            nodes[id].parent->0,
        )->0 + seq!['/'] + nodes[id].name,
{
    lemma_trail_length(nodes, id, n, MAX_DEPTH as nat);
    lemma_parent_meets_root(nodes, id, n);
    let t = namespace::trail(nodes, id, MAX_DEPTH as nat)->0;
    if n > 0 {
        let p = nodes[id].parent->0;
        lemma_trail_length(nodes, p, (n - 1) as nat, MAX_DEPTH as nat);
        lemma_trail_length(nodes, p, (n - 1) as nat, (MAX_DEPTH - 1) as nat);
        let up = namespace::trail(nodes, p, MAX_DEPTH as nat)->0;
        assert(t == up.push(nodes[id].name));
        assert(t.drop_last() =~= up);
    }
}

/// No other item has a path.
pub proof fn law_a_path_needs_a_root_near_enough(
    nodes: Map<Seq<char>, NodeModel>,
    id: Seq<char>,
)
    ensures
        namespace::path_of(nodes, id) is Some <==> exists|n: nat|
            n < 512 && #[trigger] meets_root(nodes, id, n),
{
    if namespace::path_of(nodes, id) is Some {
        let n = lemma_trail_meets_root(nodes, id, MAX_DEPTH as nat);
        assert(n < 512 && meets_root(nodes, id, n));
    }
    if exists|n: nat| n < 512 && #[trigger] meets_root(nodes, id, n) {
        let n = choose|n: nat| n < 512 && #[trigger] meets_root(nodes, id, n);
        lemma_trail_length(nodes, id, n, MAX_DEPTH as nat);
    }
}

/// The path of an item, cut at its slashes, is the names on the way down to it,
/// one for each link to the root, as long as no name holds a slash itself.
pub proof fn law_a_path_is_the_names_on_the_way(
    nodes: Map<Seq<char>, NodeModel>,
    id: Seq<char>,
    n: nat,
    k: nat,
)
    requires
        meets_root(nodes, id, n),
        0 < n < 512,
        k < n,
        forall|x: Seq<char>| #[trigger] nodes.dom().contains(x) ==> !nodes[x].name.contains('/'),
    ensures
        ({
            let names = text::split(namespace::path_of(nodes, id)->0, '/');
            &&& names.len() == n
            &&& ancestor(nodes, id, k) is Some
            &&& names[n - 1 - k] == nodes[ancestor(nodes, id, k)->0].name
        }),
{
    lemma_trail_length(nodes, id, n, MAX_DEPTH as nat);
    lemma_trail_names(nodes, id, n, MAX_DEPTH as nat);
    let t = namespace::trail(nodes, id, MAX_DEPTH as nat)->0;
    text::lemma_join_split(t, '/');
}

proof fn lemma_trail_names(
    nodes: Map<Seq<char>, NodeModel>,
    id: Seq<char>,
    n: nat,
    fuel: nat,
)
    requires
        meets_root(nodes, id, n),
        n < fuel,
        forall|x: Seq<char>| #[trigger] nodes.dom().contains(x) ==> !nodes[x].name.contains('/'),
    ensures
        namespace::trail(nodes, id, fuel) is Some,
        namespace::trail(nodes, id, fuel)->0.len() == n,
        forall|k: nat|
            k < n ==> (#[trigger] ancestor(nodes, id, k)) is Some && namespace::trail(
                nodes,
                id,
                fuel,
            )->0[n - 1 - k] == nodes[ancestor(nodes, id, k)->0].name,
        forall|i: int|
            0 <= i < n ==> !(#[trigger] namespace::trail(nodes, id, fuel)->0[i]).contains('/'),
    decreases n,
{
    lemma_trail_length(nodes, id, n, fuel);
    lemma_parent_meets_root(nodes, id, n);
    if n > 0 {
        let p = nodes[id].parent->0;
        lemma_trail_names(nodes, p, (n - 1) as nat, (fuel - 1) as nat);
        let up = namespace::trail(nodes, p, (fuel - 1) as nat)->0;
        let t = namespace::trail(nodes, id, fuel)->0;
        assert(t == up.push(nodes[id].name));
        assert forall|k: nat| k < n implies (#[trigger] ancestor(nodes, id, k)) is Some && t[n - 1
            - k] == nodes[ancestor(nodes, id, k)->0].name by {
            if k > 0 {
                assert(ancestor(nodes, id, k) == ancestor(nodes, p, (k - 1) as nat));
                assert(t[n - 1 - k] == up[n - 2 - (k - 1)]);
            }
        }
        assert forall|i: int| 0 <= i < n implies !(#[trigger] t[i]).contains('/') by {
            if i < n - 1 {
                assert(t[i] == up[i]);
            }
        }
    }
}

/// What is reported of an item is exactly this: a known file with a path, by its
/// identity, at that path, with its size and its content's tag. Folders and the
/// root are not reported.
pub proof fn law_every_file_with_a_path_is_reported(
    nodes: Map<Seq<char>, NodeModel>,
    id: Seq<char>,
)
    ensures
        namespace::report(nodes, id) is Some <==> nodes.dom().contains(id) && nodes[id].kind is File
            && namespace::path_of(nodes, id) is Some,
        namespace::report(nodes, id) matches Some(c) ==> c is Upserted && c->Upserted_cloud_id == id
            && Some(c->Upserted_path) == namespace::path_of(nodes, id) && nodes[id].kind
            == (KindModel::File { size: c->Upserted_size, ctag: c->Upserted_etag }),
{
}

/// The reports of several items come in the order of the items, one for each that
/// has one.
pub proof fn law_reports_come_in_order(
    nodes: Map<Seq<char>, NodeModel>,
    first: Seq<Seq<char>>,
    second: Seq<Seq<char>>,
    id: Seq<char>,
)
    ensures
        namespace::reports(nodes, first + second) == namespace::reports(nodes, first)
            + namespace::reports(nodes, second),
        namespace::reports(nodes, seq![id]) == match namespace::report(nodes, id) {
            Some(c) => seq![c],
            None => Seq::empty(),
        },
    decreases second.len(),
{
    let one = seq![id];
    assert(one.drop_last() =~= Seq::empty());
    assert(namespace::reports(nodes, one.drop_last()) =~= Seq::empty());
    assert(namespace::reports(nodes, one) =~= match namespace::report(nodes, id) {
        Some(c) => seq![c],
        None => Seq::empty(),
    });
    let both = first + second;
    if second.len() == 0 {
        assert(both =~= first);
        assert(namespace::reports(nodes, both) =~= namespace::reports(nodes, first)
            + namespace::reports(nodes, second));
    } else {
        let less = second.drop_last();
        law_reports_come_in_order(nodes, first, less, id);
        assert(both.drop_last() =~= first + less);
        assert(both.last() == second.last());
        assert(namespace::reports(nodes, both) =~= namespace::reports(nodes, first)
            + namespace::reports(nodes, second));
    }
}

/// A file that arrives under a known parent takes its place at once: it is known by
/// what the item says of it, every other item stays as it was, and the file is
/// reported at its path, if it has one, and nothing else is.
pub proof fn law_a_file_that_arrives_is_reported(
    t: Tree,
    id: Seq<char>,
    parent: Seq<char>,
    name: Seq<char>,
    size: u64,
    ctag: Option<Seq<char>>,
)
    requires
        t.wf(),
        namespace::ready(t).len() == 0,
        t.nodes.dom().contains(parent),
        t.nodes.dom().contains(id) || forall|x: Seq<char>| #[trigger]
            t.held.dom().contains(x) ==> t.held[x]->parent != Some(id),
    ensures
        ({
            let kind = KindModel::File { size, ctag };
            let item = ItemModel::Upsert { id, parent: Some(parent), name, kind };
            let (u, changes) = namespace::applied(t, item);
            &&& u.nodes == t.nodes.insert(id, NodeModel { parent: Some(parent), name, kind })
            &&& u.root == t.root
            &&& u.held == t.held
            &&& match namespace::path_of(u.nodes, id) {
                Some(path) => changes == seq![
                    ChangeModel::Upserted { cloud_id: id, path, size, etag: ctag },
                ],
                None => changes == Seq::<ChangeModel>::empty(),
            }
        }),
{
    let kind = KindModel::File { size, ctag };
    let empty = Seq::<ChangeModel>::empty();
    namespace::lemma_upserted_wf(t, id, Some(parent), name, kind, empty);
    let (u, o) = namespace::upserted(t, id, Some(parent), name, kind, empty);
    namespace::lemma_ready(t);
    assert forall|x: Seq<char>| !namespace::is_ready(u, x) by {
        if namespace::is_ready(u, x) {
            assert(t.held.dom().contains(x));
            assert(!namespace::ready(t).contains(x));
            assert(!namespace::is_ready(t, x));
        }
    }
    namespace_laws::lemma_not_ready(u);
    if let Some(path) = namespace::path_of(u.nodes, id) {
        let c = ChangeModel::Upserted { cloud_id: id, path, size, etag: ctag };
        assert(empty.push(c) =~= seq![c]);
    }
}

/// Replaying what waited never touches the root.
proof fn lemma_replay_keeps_root(t: Tree, ids: Seq<Seq<char>>, out: Seq<ChangeModel>)
    requires
        forall|x: Seq<char>| #[trigger]
            t.held.dom().contains(x) ==> namespace::is_held_form(x, t.held[x]),
    ensures
        namespace::replayed(t, ids, out).0.root == t.root,
        forall|x: Seq<char>| #[trigger]
            namespace::replayed(t, ids, out).0.held.dom().contains(x) ==> namespace::is_held_form(
                x,
                namespace::replayed(t, ids, out).0.held[x],
            ),
    decreases ids.len(),
{
    if ids.len() > 0 {
        lemma_replay_keeps_root(t, ids.drop_last(), out);
        let u = namespace::replayed(t, ids.drop_last(), out).0;
        if u.held.dom().contains(ids.last()) {
            assert(namespace::is_held_form(ids.last(), u.held[ids.last()]));
        }
    }
}

proof fn lemma_settling_keeps_root(t: Tree, out: Seq<ChangeModel>)
    requires
        t.wf(),
    ensures
        namespace::settled(t, out).0.root == t.root,
    decreases t.held.dom().len(),
{
    namespace::lemma_replay_shrinks(t, out);
    if namespace::ready(t).len() > 0 {
        let (u, o) = namespace::replayed(t, namespace::ready(t), out);
        lemma_replay_keeps_root(t, namespace::ready(t), out);
        lemma_settling_keeps_root(u, o);
    }
}

/// The root is the item that was last reported as one, until that is deleted: no
/// other item makes or unmakes it.
pub proof fn law_only_a_root_item_makes_the_root(t: Tree, item: ItemModel)
    requires
        t.wf(),
    ensures
        namespace::applied(t, item).0.root == match item {
            ItemModel::Upsert { id, kind: KindModel::Root, .. } => Some(id),
            ItemModel::Upsert { .. } => t.root,
            ItemModel::Delete { id } => if t.root == Some(id) && t.nodes.dom().contains(id) {
                None
            } else {
                t.root
            },
        },
{
    let empty = Seq::<ChangeModel>::empty();
    match item {
        ItemModel::Upsert { id, parent, name, kind } => {
            namespace::lemma_upserted_wf(t, id, parent, name, kind, empty);
        },
        ItemModel::Delete { id } => {
            namespace::lemma_deleted_wf(t, id, empty);
        },
    }
    let (u, o) = namespace::applied_one(t, item, empty);
    lemma_settling_keeps_root(u, o);
}

/// Changes are ordered by how deep their paths lie, and at one depth by the paths
/// themselves: what lies above comes before what lies below.
pub proof fn law_what_lies_above_comes_first(a: ChangeModel, b: ChangeModel)
    requires
        a is Upserted,
        b is Upserted,
    ensures
        text::count(a->Upserted_path, '/') < text::count(b->Upserted_path, '/')
            ==> sort::in_order::<Change>(seq![a, b]) && !sort::in_order::<Change>(seq![b, a]),
        text::count(a->Upserted_path, '/') == text::count(b->Upserted_path, '/') && text::before(
            a->Upserted_path,
            b->Upserted_path,
        ) ==> sort::in_order::<Change>(seq![a, b]) && !sort::in_order::<Change>(seq![b, a]),
{
    let s = seq![a, b];
    let r = seq![b, a];
    if sort::in_order::<Change>(r) {
        assert(!<Change as sort::Ranked>::ahead(r[1], r[0]));
    }
    assert(s[0] == a && s[1] == b && r[0] == b && r[1] == a);
    if text::before(a->Upserted_path, b->Upserted_path) {
        if text::before(b->Upserted_path, a->Upserted_path) {
            text::lemma_before_transitive(a->Upserted_path, b->Upserted_path, a->Upserted_path);
            text::lemma_before_irreflexive(a->Upserted_path);
        }
    }
}

/// A file is any known item of that kind, whatever its size or content tag.
pub proof fn law_what_a_file_is(
    nodes: Map<Seq<char>, NodeModel>,
    id: Seq<char>,
    size: u64,
    ctag: Option<Seq<char>>,
)
    ensures
        namespace::is_file(nodes, id) <==> nodes.dom().contains(id) && !(nodes[id].kind is Folder)
            && !(nodes[id].kind is Root),
        nodes.dom().contains(id) && nodes[id].kind == (KindModel::File { size, ctag })
            ==> namespace::is_file(nodes, id),
{
}

/// A known item whose parent or whose name is another than before has moved, and no
/// other item has.
pub proof fn law_what_a_move_is(t: Tree, id: Seq<char>, parent: Seq<char>, name: Seq<char>)
    ensures
        namespace::is_move(t, id, parent, name) <==> t.nodes.dom().contains(id) && !(
        t.nodes[id].parent == Some(parent) && t.nodes[id].name == name),
{
}

/// A folder that is called otherwise, or stands under another parent, reports each
/// of the files beneath it that have a path, at the path they have now.
pub proof fn law_a_folder_renamed_reports_its_files(
    t: Tree,
    id: Seq<char>,
    parent: Seq<char>,
    name: Seq<char>,
    file: Seq<char>,
    n: nat,
)
    requires
        t.wf(),
        t.nodes.dom().contains(parent),
        t.nodes.dom().contains(id),
        t.nodes[id].name != name || t.nodes[id].parent != Some(parent),
        ({
            let nodes = t.nodes.insert(
                id,
                NodeModel { parent: Some(parent), name, kind: KindModel::Folder },
            );
            &&& ancestor(nodes, file, n) == Some(id)
            &&& nodes.dom().contains(file)
            &&& nodes[file].kind is File
            &&& namespace::path_of(nodes, file) is Some
        }),
    ensures
        ({
            let nodes = t.nodes.insert(
                id,
                NodeModel { parent: Some(parent), name, kind: KindModel::Folder },
            );
            let item = ItemModel::Upsert {
                id,
                parent: Some(parent),
                name,
                kind: KindModel::Folder,
            };
            namespace::applied(t, item).1.contains(
                ChangeModel::Upserted {
                    cloud_id: file,
                    path: namespace::path_of(nodes, file)->0,
                    size: nodes[file].kind->size,
                    etag: nodes[file].kind->ctag,
                },
            )
        }),
{
    let nodes = t.nodes.insert(id, NodeModel { parent: Some(parent), name, kind: KindModel::Folder });
    lemma_ancestor_leads_up(nodes, file, id, n);
    namespace_laws::law_moving_a_folder_moves_its_files(t, id, parent, name, file, n);
}

proof fn lemma_ancestor_leads_up(
    nodes: Map<Seq<char>, NodeModel>,
    id: Seq<char>,
    top: Seq<char>,
    n: nat,
)
    requires
        ancestor(nodes, id, n) == Some(top),
    ensures
        namespace_laws::leads_up(nodes, id, top, n),
    decreases n,
{
    if n > 0 && id != top {
        lemma_ancestor_leads_up(nodes, nodes[id].parent->0, top, (n - 1) as nat);
    }
}

/// A deletion tells of every file beneath what was deleted, and of that itself where
/// it is one, and forgets them.
pub proof fn law_a_deletion_tells_of_every_file(t: Tree, id: Seq<char>, file: Seq<char>, n: nat)
    requires
        t.wf(),
        namespace::ready(t).len() == 0,
        t.nodes.dom().contains(id),
        t.nodes.dom().contains(file),
        ancestor(t.nodes, file, n) == Some(id),
    ensures
        !namespace::applied(t, ItemModel::Delete { id }).0.nodes.dom().contains(file),
        t.nodes[file].kind is File ==> namespace::applied(t, ItemModel::Delete { id }).1.contains(
            ChangeModel::Removed { cloud_id: file },
        ),
{
    lemma_ancestor_leads_up(t.nodes, file, id, n);
    namespace_laws::law_deleting_a_folder_removes_its_files(t, id, file, n);
}

/// Whether all that waited in one tree still waits in another, or stands there as it
/// said, and all that was known still is.
spec fn is_kept(before: Tree, after: Tree) -> bool {
    &&& forall|x: Seq<char>| #[trigger]
        before.held.dom().contains(x) ==> {
            ||| after.held.dom().contains(x) && after.held[x] == before.held[x]
            ||| !after.held.dom().contains(x) && after.nodes.dom().contains(x) && after.nodes[x]
                == (NodeModel {
                parent: before.held[x]->parent,
                name: before.held[x]->name,
                kind: before.held[x]->Upsert_kind,
            })
        }
    &&& forall|x: Seq<char>| #[trigger]
        before.nodes.dom().contains(x) ==> after.nodes.dom().contains(x)
}

spec fn holds_forms(t: Tree) -> bool {
    forall|x: Seq<char>| #[trigger]
        t.held.dom().contains(x) ==> namespace::is_held_form(x, t.held[x])
}

proof fn lemma_replay_keeps(before: Tree, t: Tree, ids: Seq<Seq<char>>, out: Seq<ChangeModel>)
    requires
        is_kept(before, t),
        holds_forms(before),
        holds_forms(t),
    ensures
        is_kept(before, namespace::replayed(t, ids, out).0),
        holds_forms(namespace::replayed(t, ids, out).0),
    decreases ids.len(),
{
    if ids.len() > 0 {
        lemma_replay_keeps(before, t, ids.drop_last(), out);
        let (u, o) = namespace::replayed(t, ids.drop_last(), out);
        let id = ids.last();
        if u.held.dom().contains(id) {
            assert(namespace::is_held_form(id, u.held[id]));
            let free = Tree { nodes: u.nodes, kids: u.kids, root: u.root, held: u.held.remove(id) };
            let v = namespace::applied_one(free, u.held[id], o).0;
            let item = u.held[id];
            assert(item is Upsert && item->Upsert_id == id);
            assert forall|x: Seq<char>| #[trigger] before.held.dom().contains(x) implies {
                ||| v.held.dom().contains(x) && v.held[x] == before.held[x]
                ||| !v.held.dom().contains(x) && v.nodes.dom().contains(x) && v.nodes[x] == (
                NodeModel {
                    parent: before.held[x]->parent,
                    name: before.held[x]->name,
                    kind: before.held[x]->Upsert_kind,
                })
            } by {
                assert(namespace::is_held_form(x, before.held[x]));
            }
        }
    }
}

proof fn lemma_settling_keeps(before: Tree, t: Tree, out: Seq<ChangeModel>)
    requires
        t.wf(),
        is_kept(before, t),
        holds_forms(before),
    ensures
        is_kept(before, namespace::settled(t, out).0),
    decreases t.held.dom().len(),
{
    namespace::lemma_replay_shrinks(t, out);
    if namespace::ready(t).len() > 0 {
        let (u, o) = namespace::replayed(t, namespace::ready(t), out);
        lemma_replay_keeps(before, t, namespace::ready(t), out);
        lemma_settling_keeps(before, u, o);
    }
}

/// What waits for an item is not lost when others arrive: it waits on, or it stands
/// where it said. It is placed as soon as the item that it waits for is known.
pub proof fn law_what_waits_is_placed(
    t: Tree,
    id: Seq<char>,
    parent: Option<Seq<char>>,
    name: Seq<char>,
    kind: KindModel,
    x: Seq<char>,
)
    requires
        t.wf(),
        t.held.dom().contains(x),
        x != id,
    ensures
        ({
            let u = namespace::applied(t, ItemModel::Upsert { id, parent, name, kind }).0;
            let placed = NodeModel {
                parent: t.held[x]->parent,
                name: t.held[x]->name,
                kind: t.held[x]->Upsert_kind,
            };
            &&& u.held.dom().contains(x) ==> u.held[x] == t.held[x]
            &&& !u.held.dom().contains(x) ==> u.nodes.dom().contains(x) && u.nodes[x] == placed
            &&& t.held[x]->parent == Some(id) && u.nodes.dom().contains(id)
                ==> u.nodes.dom().contains(x) && u.nodes[x] == placed
        }),
{
    let empty = Seq::<ChangeModel>::empty();
    let item = ItemModel::Upsert { id, parent, name, kind };
    namespace::lemma_upserted_wf(t, id, parent, name, kind, empty);
    let (v, o) = namespace::applied_one(t, item, empty);
    let before = Tree {
        nodes: t.nodes,
        kids: t.kids,
        root: t.root,
        held: t.held.remove(id),
    };
    assert(holds_forms(before));
    assert(is_kept(before, v));
    lemma_settling_keeps(before, v, o);
    assert(before.held.dom().contains(x));
    let u = namespace::settled(v, o).0;
    namespace_laws::law_nothing_held_has_a_known_parent(t, item, x);
    assert(namespace::is_held_form(x, t.held[x]));
}

/// A deletion takes back what waits under the same identity, and lets everything
/// else wait.
pub proof fn law_a_deletion_takes_back_what_waits(t: Tree, id: Seq<char>, other: Seq<char>)
    requires
        t.wf(),
        namespace::ready(t).len() == 0,
        other != id,
    ensures
        !namespace::applied(t, ItemModel::Delete { id }).0.held.dom().contains(id),
        namespace::applied(t, ItemModel::Delete { id }).0.held.dom().contains(other)
            <==> t.held.dom().contains(other),
        namespace::applied(t, ItemModel::Delete { id }).0.held[other] == t.held[other],
{
    let empty = Seq::<ChangeModel>::empty();
    namespace::lemma_deleted_wf(t, id, empty);
    let u = namespace::deleted(t, id, empty).0;
    namespace::lemma_ready(t);
    assert forall|x: Seq<char>| !namespace::is_ready(u, x) by {
        if namespace::is_ready(u, x) {
            assert(namespace::is_ready(t, x));
            assert(namespace::ready(t).contains(x));
        }
    }
    namespace_laws::lemma_not_ready(u);
}

} // verus!
