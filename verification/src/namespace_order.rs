//! What the order in which items arrive means, which is nothing, and what holds
//! whatever has arrived.

use crate::delta::{Change, ChangeModel};
use crate::namespace::{self, is_mirrored, uproots, ItemModel, KindModel, NodeModel, Tree};
use crate::namespace_laws::{self, ancestor};
use crate::namespace_subtrees::{self, is_under, names_under};
use crate::sort;
use vstd::prelude::*;

verus! {

/// A tree that holds nothing.
pub open spec fn bare() -> Tree {
    Tree { nodes: Map::empty(), kids: Map::empty(), root: None, held: Map::empty() }
}

/// The tree that items leave when they are applied one after another, from
/// nothing, and all the changes that they mean on the way.
pub open spec fn fed(items: Seq<ItemModel>) -> (Tree, Seq<ChangeModel>)
    decreases items.len(),
{
    if items.len() == 0 {
        (bare(), Seq::empty())
    } else {
        let (t, out) = fed(items.drop_last());
        let (u, more) = namespace::applied(t, items.last());
        (u, out + more)
    }
}

/// The items by their identities.
pub open spec fn plan(items: Seq<ItemModel>) -> Map<Seq<char>, ItemModel> {
    Map::new(
        |id: Seq<char>|
            exists|i: int|
                0 <= i < items.len() && items[i] is Upsert && #[trigger] items[i]->Upsert_id == id,
        |id: Seq<char>|
            items[choose|i: int|
                0 <= i < items.len() && items[i] is Upsert && #[trigger] items[i]->Upsert_id == id],
    )
}

/// The place that an item describes.
pub open spec fn place(item: ItemModel) -> NodeModel {
    NodeModel {
        parent: if item->Upsert_kind is Root {
            None
        } else {
            item->Upsert_parent
        },
        name: item->Upsert_name,
        kind: item->Upsert_kind,
    }
}

/// The places that items describe.
pub open spec fn places(items: Map<Seq<char>, ItemModel>) -> Map<Seq<char>, NodeModel> {
    items.map_values(|item: ItemModel| place(item))
}

/// Whether items report each item of one tree once: no two share an identity,
/// one of them at most is a root, and every parent chain leads to it.
pub open spec fn is_one_tree(items: Seq<ItemModel>) -> bool {
    &&& forall|i: int| 0 <= i < items.len() ==> #[trigger] items[i] is Upsert
    &&& forall|i: int, j: int|
        0 <= i < items.len() && 0 <= j < items.len() && i != j ==> (
        #[trigger] items[i])->Upsert_id != (#[trigger] items[j])->Upsert_id
    &&& forall|i: int, j: int|
        0 <= i < items.len() && 0 <= j < items.len() && (#[trigger] items[i])->Upsert_kind is Root
            && (#[trigger] items[j])->Upsert_kind is Root ==> i == j
    &&& forall|i: int|
        0 <= i < items.len() ==> reaches_root(places(plan(items)), (#[trigger] items[i])->Upsert_id)
}

/// Whether a parent chain leads to a root.
pub open spec fn reaches_root(nodes: Map<Seq<char>, NodeModel>, id: Seq<char>) -> bool {
    exists|n: nat| (#[trigger] namespace::trail(nodes, id, n)) is Some
}

/// Whether items are kept by their identities.
spec fn is_plan(all: Map<Seq<char>, ItemModel>) -> bool {
    &&& forall|id: Seq<char>| #[trigger]
        all.dom().contains(id) ==> all[id] is Upsert && all[id]->Upsert_id == id
    &&& forall|a: Seq<char>, b: Seq<char>| #[trigger]
        all.dom().contains(a) && #[trigger] all.dom().contains(b) && all[a]->Upsert_kind is Root
            && all[b]->Upsert_kind is Root ==> a == b
}

/// What holds once some of the planned items have arrived: each is in its
/// place, in which case it has been reported if it is a file, or it is held.
spec fn is_stage(
    all: Map<Seq<char>, ItemModel>,
    t: Tree,
    got: Set<Seq<char>>,
    order: Seq<Seq<char>>,
    out: Seq<ChangeModel>,
) -> bool {
    &&& t.wf()
    &&& is_mirrored(t)
    &&& forall|p: Seq<char>| #[trigger]
        t.kids.dom().contains(p) ==> exists|c: Seq<char>| t.kids[p].contains(c)
    &&& order.no_duplicates()
    &&& forall|x: Seq<char>| #[trigger] t.nodes.dom().contains(x) <==> order.contains(x)
    &&& forall|x: Seq<char>| #[trigger]
        got.contains(x) ==> all.dom().contains(x) && (t.nodes.dom().contains(x)
            || t.held.dom().contains(x))
    &&& forall|x: Seq<char>| #[trigger]
        t.nodes.dom().contains(x) ==> got.contains(x) && t.nodes[x] == place(all[x])
    &&& forall|x: Seq<char>| #[trigger]
        t.held.dom().contains(x) ==> got.contains(x) && t.held[x] == all[x]
            && !t.nodes.dom().contains(x)
    &&& forall|x: Seq<char>| #[trigger]
        t.nodes.dom().contains(x) && t.nodes[x].kind is Root ==> t.root == Some(x)
    &&& t.root is Some ==> t.nodes.dom().contains(t.root->0) && t.nodes[t.root->0].kind is Root
    &&& out == namespace::reports(places(all), order)
}

proof fn lemma_trail_of_part(
    all: Map<Seq<char>, ItemModel>,
    t: Tree,
    id: Seq<char>,
    fuel: nat,
)
    requires
        t.wf(),
        forall|x: Seq<char>| #[trigger]
            t.nodes.dom().contains(x) ==> all.dom().contains(x) && t.nodes[x] == place(all[x]),
        t.nodes.dom().contains(id),
    ensures
        namespace::trail(t.nodes, id, fuel) == namespace::trail(places(all), id, fuel),
    decreases fuel,
{
    assert(places(all)[id] == t.nodes[id]);
    if fuel > 0 && t.nodes[id].parent is Some {
        assert(t.is_linked(id));
        lemma_trail_of_part(all, t, t.nodes[id].parent->0, (fuel - 1) as nat);
    }
}

/// The order in which items have found their places, once one more is tried.
spec fn order_with(t: Tree, order: Seq<Seq<char>>, id: Seq<char>) -> Seq<Seq<char>> {
    if t.nodes.dom().contains(id) {
        order.push(id)
    } else {
        order
    }
}

proof fn lemma_arrival(
    all: Map<Seq<char>, ItemModel>,
    t: Tree,
    got: Set<Seq<char>>,
    order: Seq<Seq<char>>,
    base: Seq<ChangeModel>,
    out: Seq<ChangeModel>,
    id: Seq<char>,
)
    requires
        is_plan(all),
        is_stage(all, t, got, order, base + out),
        all.dom().contains(id),
        !got.contains(id),
    ensures
        ({
            let (u, o) = namespace::applied_one(t, all[id], out);
            is_stage(all, u, got.insert(id), order_with(u, order, id), base + o)
        }),
{
    let item = all[id];
    let (u, o) = namespace::applied_one(t, item, out);
    let next = order_with(u, order, id);
    let parent = item->Upsert_parent;
    let name = item->Upsert_name;
    let kind = item->Upsert_kind;
    assert(item == (ItemModel::Upsert { id, parent, name, kind }));
    assert(!t.nodes.dom().contains(id));
    assert(!t.held.dom().contains(id));
    assert(!order.contains(id));
    namespace::lemma_upserted_wf(t, id, parent, name, kind, out);
    namespace_subtrees::lemma_one_mirrored(t, item, out);
    if u.nodes.dom().contains(id) {
        assert(next.drop_last() =~= order);
        assert forall|x: Seq<char>| #[trigger] u.nodes.dom().contains(x) <==> next.contains(x) by {
            if next.contains(x) {
                let i = choose|i: int| 0 <= i < next.len() && next[i] == x;
                if i < order.len() {
                    assert(order[i] == x);
                    assert(order.contains(x));
                }
            }
            if u.nodes.dom().contains(x) {
                if x == id {
                    assert(next[order.len() as int] == id);
                } else {
                    assert(t.nodes.dom().contains(x));
                    let i = choose|i: int| 0 <= i < order.len() && order[i] == x;
                    assert(next[i] == x);
                }
            }
        }
        assert forall|i: int, j: int| 0 <= i < next.len() && 0 <= j < next.len() && i
            != j implies next[i] != next[j] by {
            if i < order.len() {
                assert(order[i] == next[i]);
                assert(order.contains(next[i]));
            }
            if j < order.len() {
                assert(order[j] == next[j]);
                assert(order.contains(next[j]));
            }
        }
    }
    assert forall|x: Seq<char>| #[trigger] u.nodes.dom().contains(x) implies got.insert(
        id,
    ).contains(x) && u.nodes[x] == place(all[x]) by {
        if x != id {
            assert(t.nodes.dom().contains(x));
        }
    }
    assert forall|x: Seq<char>| #[trigger] got.insert(id).contains(x) implies all.dom().contains(x)
        && (u.nodes.dom().contains(x) || u.held.dom().contains(x)) by {
        if x != id {
            assert(got.contains(x));
            assert(all.dom().contains(x));
        }
    }
    assert forall|p: Seq<char>| #[trigger] u.kids.dom().contains(p) implies exists|c: Seq<char>|
        u.kids[p].contains(c) by {
        if t.kids.dom().contains(p) {
            let c = choose|c: Seq<char>| t.kids[p].contains(c);
            assert(u.kids[p].contains(c));
        } else {
            assert(u.kids[p].contains(id));
        }
    }
    assert forall|x: Seq<char>| #[trigger]
        u.nodes.dom().contains(x) && u.nodes[x].kind is Root implies u.root == Some(x) by {
        assert(all.dom().contains(x));
        if x != id {
            assert(t.nodes.dom().contains(x) && t.nodes[x].kind is Root);
            assert(all[x]->Upsert_kind is Root);
        }
    }
    if u.nodes.dom().contains(id) {
        assert(places(all)[id] == place(all[id]));
        assert(u.nodes[id] == places(all)[id]);
        assert forall|x: Seq<char>| #[trigger] u.nodes.dom().contains(x) implies all.dom().contains(
            x,
        ) && u.nodes[x] == place(all[x]) by {
            assert(got.insert(id).contains(x));
        }
        lemma_trail_of_part(all, u, id, namespace::MAX_DEPTH as nat);
        assert(namespace::report(u.nodes, id) == namespace::report(places(all), id));
        assert(base + o =~= namespace::reports(places(all), next));
    }
}

proof fn lemma_replay_stage(
    all: Map<Seq<char>, ItemModel>,
    t: Tree,
    got: Set<Seq<char>>,
    order: Seq<Seq<char>>,
    base: Seq<ChangeModel>,
    out: Seq<ChangeModel>,
    ids: Seq<Seq<char>>,
) -> (next: Seq<Seq<char>>)
    requires
        is_plan(all),
        is_stage(all, t, got, order, base + out),
    ensures
        ({
            let (u, o) = namespace::replayed(t, ids, out);
            is_stage(all, u, got, next, base + o)
        }),
    decreases ids.len(),
{
    if ids.len() == 0 {
        order
    } else {
        let mid = lemma_replay_stage(all, t, got, order, base, out, ids.drop_last());
        let (u, o) = namespace::replayed(t, ids.drop_last(), out);
        let id = ids.last();
        if u.held.dom().contains(id) {
            let free = Tree { nodes: u.nodes, kids: u.kids, root: u.root, held: u.held.remove(id) };
            let less = got.remove(id);
            assert(is_stage(all, free, less, mid, base + o)) by {
                assert(free.wf()) by {
                    assert forall|c: Seq<char>| #[trigger]
                        free.nodes.dom().contains(c) implies free.is_linked(c) by {
                        assert(u.is_linked(c));
                    }
                }
                assert(is_mirrored(free)) by {
                    assert forall|p: Seq<char>, c: Seq<char>|
                        #![trigger free.kids[p].contains(c)]
                        free.kids.dom().contains(p) && free.kids[p].contains(
                            c,
                        ) implies free.nodes.dom().contains(c) && free.nodes[c].parent == Some(
                        p,
                    ) by {
                        assert(u.kids[p].contains(c));
                    }
                }
                assert(!u.nodes.dom().contains(id));
            }
            assert(got.contains(id));
            assert(all.dom().contains(id));
            lemma_arrival(all, free, less, mid, base, o, id);
            assert(less.insert(id) =~= got);
            order_with(namespace::applied_one(free, all[id], o).0, mid, id)
        } else {
            mid
        }
    }
}

proof fn lemma_settle_stage(
    all: Map<Seq<char>, ItemModel>,
    t: Tree,
    got: Set<Seq<char>>,
    order: Seq<Seq<char>>,
    base: Seq<ChangeModel>,
    out: Seq<ChangeModel>,
) -> (next: Seq<Seq<char>>)
    requires
        is_plan(all),
        is_stage(all, t, got, order, base + out),
    ensures
        ({
            let (u, o) = namespace::settled(t, out);
            is_stage(all, u, got, next, base + o)
        }),
    decreases t.held.dom().len(),
{
    namespace::lemma_replay_shrinks(t, out);
    if namespace::ready(t).len() > 0 {
        let ids = namespace::ready(t);
        let mid = lemma_replay_stage(all, t, got, order, base, out, ids);
        let (u, o) = namespace::replayed(t, ids, out);
        lemma_settle_stage(all, u, got, mid, base, o)
    } else {
        order
    }
}

/// The identities of the first items.
spec fn names(items: Seq<ItemModel>, n: int) -> Set<Seq<char>> {
    Set::new(
        |id: Seq<char>| exists|i: int| 0 <= i < n && #[trigger] items[i]->Upsert_id == id,
    )
}

proof fn lemma_plan(items: Seq<ItemModel>)
    requires
        is_one_tree(items),
    ensures
        is_plan(plan(items)),
        forall|i: int|
            0 <= i < items.len() ==> plan(items).dom().contains((#[trigger] items[i])->Upsert_id)
                && plan(items)[items[i]->Upsert_id] == items[i],
        forall|id: Seq<char>| #[trigger]
            plan(items).dom().contains(id) ==> exists|i: int|
                0 <= i < items.len() && #[trigger] items[i]->Upsert_id == id && plan(items)[id]
                    == items[i],
{
    let all = plan(items);
    assert forall|i: int| 0 <= i < items.len() implies all.dom().contains(
        (#[trigger] items[i])->Upsert_id,
    ) && all[items[i]->Upsert_id] == items[i] by {
        let id = items[i]->Upsert_id;
        assert(items[i] is Upsert);
        let k = choose|k: int|
            0 <= k < items.len() && items[k] is Upsert && #[trigger] items[k]->Upsert_id == id;
        assert(k == i);
    }
    assert forall|id: Seq<char>| #[trigger] all.dom().contains(id) implies exists|i: int|
        0 <= i < items.len() && #[trigger] items[i]->Upsert_id == id && all[id] == items[i] by {
        let i = choose|i: int|
            0 <= i < items.len() && items[i] is Upsert && #[trigger] items[i]->Upsert_id == id;
        assert(items[i]->Upsert_id == id && all[id] == items[i]);
    }
    assert forall|a: Seq<char>, b: Seq<char>| #[trigger]
        all.dom().contains(a) && #[trigger] all.dom().contains(b) && all[a]->Upsert_kind is Root
            && all[b]->Upsert_kind is Root implies a == b by {
        let i = choose|i: int|
            0 <= i < items.len() && #[trigger] items[i]->Upsert_id == a && all[a] == items[i];
        let j = choose|j: int|
            0 <= j < items.len() && #[trigger] items[j]->Upsert_id == b && all[b] == items[j];
        assert(i == j);
    }
}

proof fn lemma_fed_stage(items: Seq<ItemModel>, n: int) -> (order: Seq<Seq<char>>)
    requires
        is_one_tree(items),
        0 <= n <= items.len(),
    ensures
        is_stage(plan(items), fed(items.take(n)).0, names(items, n), order, fed(items.take(n)).1),
        namespace::ready(fed(items.take(n)).0).len() == 0,
    decreases n,
{
    let all = plan(items);
    lemma_plan(items);
    if n == 0 {
        let order = Seq::<Seq<char>>::empty();
        assert(items.take(0).len() == 0);
        assert(namespace::reports(places(all), order) =~= Seq::empty());
        assert(bare().wf());
        namespace::lemma_ready(bare());
        if namespace::ready(bare()).len() > 0 {
            assert(namespace::is_ready(bare(), namespace::ready(bare())[0]));
        }
        order
    } else {
        let order = lemma_fed_stage(items, n - 1);
        let (t, out) = fed(items.take(n - 1));
        let part = items.take(n);
        assert(part.drop_last() =~= items.take(n - 1));
        let item = items[n - 1];
        assert(part.last() == item);
        let id = item->Upsert_id;
        let got = names(items, n - 1);
        assert(!got.contains(id)) by {
            if got.contains(id) {
                let i = choose|i: int| 0 <= i < n - 1 && #[trigger] items[i]->Upsert_id == id;
                assert(items[i]->Upsert_id != items[n - 1]->Upsert_id);
            }
        }
        let empty = Seq::<ChangeModel>::empty();
        assert(out + empty =~= out);
        lemma_arrival(all, t, got, order, out, empty, id);
        let (u, o) = namespace::applied_one(t, item, empty);
        assert(got.insert(id) =~= names(items, n)) by {
            assert forall|x: Seq<char>| got.insert(id).contains(x) <==> names(items, n).contains(
                x,
            ) by {
                if names(items, n).contains(x) {
                    let i = choose|i: int| 0 <= i < n && #[trigger] items[i]->Upsert_id == x;
                    if i < n - 1 {
                        assert(got.contains(x));
                    }
                }
                if got.contains(x) {
                    let i = choose|i: int| 0 <= i < n - 1 && #[trigger] items[i]->Upsert_id == x;
                    assert(items[i]->Upsert_id == x);
                }
            }
        }
        namespace::lemma_settled(u, o);
        lemma_settle_stage(all, u, names(items, n), order_with(u, order, id), out, o)
    }
}

/// Once every item has arrived, none whose chain leads to the root is held.
proof fn lemma_none_held(
    all: Map<Seq<char>, ItemModel>,
    t: Tree,
    got: Set<Seq<char>>,
    order: Seq<Seq<char>>,
    out: Seq<ChangeModel>,
    id: Seq<char>,
    n: nat,
)
    requires
        is_plan(all),
        is_stage(all, t, got, order, out),
        namespace::ready(t).len() == 0,
        forall|x: Seq<char>| #[trigger] all.dom().contains(x) ==> got.contains(x),
        namespace::trail(places(all), id, n) is Some,
    ensures
        t.nodes.dom().contains(id),
        t.root is Some,
        namespace_laws::leads_up(t.nodes, id, t.root->0, n),
    decreases n,
{
    assert(places(all).dom().contains(id));
    assert(all.dom().contains(id));
    assert(got.contains(id));
    assert(places(all)[id] == place(all[id]));
    if places(all)[id].kind is Root {
        if t.held.dom().contains(id) {
            assert(namespace::is_held_form(id, t.held[id]));
        }
    } else {
        let p = places(all)[id].parent->0;
        lemma_none_held(all, t, got, order, out, p, (n - 1) as nat);
        if t.held.dom().contains(id) {
            assert(namespace::is_ready(t, id));
            namespace::lemma_ready(t);
            assert(namespace::ready(t).contains(id));
        }
    }
}

proof fn lemma_reports_add(
    nodes: Map<Seq<char>, NodeModel>,
    a: Seq<Seq<char>>,
    b: Seq<Seq<char>>,
)
    ensures
        namespace::reports(nodes, a + b) == namespace::reports(nodes, a) + namespace::reports(
            nodes,
            b,
        ),
    decreases b.len(),
{
    if b.len() == 0 {
        assert(a + b =~= a);
        assert(namespace::reports(nodes, a) + namespace::reports(nodes, b) =~= namespace::reports(
            nodes,
            a,
        ));
    } else {
        lemma_reports_add(nodes, a, b.drop_last());
        assert((a + b).drop_last() =~= a + b.drop_last());
        assert((a + b).last() == b.last());
        assert(namespace::reports(nodes, a + b) =~= namespace::reports(nodes, a)
            + namespace::reports(nodes, b));
    }
}

/// The same items in another order give the same reports, in some order.
proof fn lemma_reports_of_same(
    nodes: Map<Seq<char>, NodeModel>,
    a: Seq<Seq<char>>,
    b: Seq<Seq<char>>,
)
    requires
        a.no_duplicates(),
        b.no_duplicates(),
        forall|x: Seq<char>| #[trigger] a.contains(x) <==> b.contains(x),
    ensures
        namespace::reports(nodes, a).to_multiset() == namespace::reports(nodes, b).to_multiset(),
    decreases a.len(),
{
    broadcast use vstd::seq_lib::group_to_multiset_ensures;

    if a.len() == 0 {
        if b.len() > 0 {
            assert(b.contains(b[0]));
            assert(a.contains(b[0]));
        }
        assert(a =~= b);
    } else {
        let x = a.last();
        let front = a.drop_last();
        assert(a[a.len() - 1] == x);
        assert(a.contains(x));
        let j = choose|j: int| 0 <= j < b.len() && b[j] == x;
        let head = b.take(j);
        let tail = b.skip(j + 1);
        let rest = head + tail;
        assert(b =~= head + (seq![x] + tail));
        assert forall|i: int, k: int| 0 <= i < front.len() && 0 <= k < front.len() && i
            != k implies front[i] != front[k] by {
            assert(front[i] == a[i] && front[k] == a[k]);
        }
        assert forall|i: int| 0 <= i < rest.len() implies #[trigger] rest[i] == b[if i < j {
            i
        } else {
            i + 1
        }] by {}
        assert forall|i: int, k: int| 0 <= i < rest.len() && 0 <= k < rest.len() && i
            != k implies rest[i] != rest[k] by {}
        assert forall|y: Seq<char>| #[trigger] front.contains(y) <==> rest.contains(y) by {
            if front.contains(y) {
                let i = choose|i: int| 0 <= i < front.len() && front[i] == y;
                assert(a[i] == y && a[i] != a[a.len() - 1]);
                assert(a.contains(y));
                let k = choose|k: int| 0 <= k < b.len() && b[k] == y;
                if k < j {
                    assert(rest[k] == y);
                } else {
                    assert(rest[k - 1] == y);
                }
            }
            if rest.contains(y) {
                let i = choose|i: int| 0 <= i < rest.len() && rest[i] == y;
                let k = if i < j {
                    i
                } else {
                    i + 1
                };
                assert(b[k] == y && b[k] != b[j]);
                assert(b.contains(y));
                assert(a.contains(y));
                let l = choose|l: int| 0 <= l < a.len() && a[l] == y;
                assert(front[l] == y);
            }
        }
        lemma_reports_of_same(nodes, front, rest);
        lemma_reports_add(nodes, head, tail);
        lemma_reports_add(nodes, head, seq![x] + tail);
        lemma_reports_add(nodes, seq![x], tail);
        let h = namespace::reports(nodes, head);
        let m = namespace::reports(nodes, seq![x]);
        let l = namespace::reports(nodes, tail);
        let f = namespace::reports(nodes, front);
        assert(seq![x].drop_last() =~= Seq::<Seq<char>>::empty());
        assert(namespace::reports(nodes, seq![x].drop_last()) =~= Seq::empty());
        assert(namespace::reports(nodes, a) =~= f + m);
        vstd::seq_lib::lemma_multiset_commutative(f, m);
        vstd::seq_lib::lemma_multiset_commutative(h, l);
        vstd::seq_lib::lemma_multiset_commutative(h, m + l);
        vstd::seq_lib::lemma_multiset_commutative(m, l);
        assert(namespace::reports(nodes, a).to_multiset() =~= namespace::reports(
            nodes,
            b,
        ).to_multiset());
    }
}

/// Where the items of one tree end up: all in their places, and each file
/// reported once, as the listing has it.
proof fn lemma_fed(items: Seq<ItemModel>)
    requires
        is_one_tree(items),
    ensures
        ({
            let (t, out) = fed(items);
            &&& t.wf()
            &&& is_mirrored(t)
            &&& t.nodes == places(plan(items))
            &&& t.held == Map::<Seq<char>, ItemModel>::empty()
            &&& forall|p: Seq<char>| #[trigger]
                t.kids.dom().contains(p) ==> exists|c: Seq<char>| t.kids[p].contains(c)
            &&& forall|x: Seq<char>| #[trigger]
                t.nodes.dom().contains(x) && t.nodes[x].kind is Root ==> t.root == Some(x)
            &&& t.root is Some ==> t.nodes.dom().contains(t.root->0) && t.nodes[t.root->0].kind is Root
            &&& out.to_multiset() == namespace::listed(t).to_multiset()
            &&& forall|x: Seq<char>| #[trigger]
                t.nodes.dom().contains(x) ==> t.root is Some && namespace::walk(
                    t.kids,
                    seq![t.root->0],
                    Set::empty(),
                ).contains(x)
        }),
{
    let all = plan(items);
    let n = items.len() as int;
    lemma_plan(items);
    let order = lemma_fed_stage(items, n);
    assert(items.take(n) =~= items);
    let (t, out) = fed(items);
    let got = names(items, n);
    assert forall|x: Seq<char>| #[trigger] all.dom().contains(x) implies got.contains(x) by {
        let i = choose|i: int|
            0 <= i < items.len() && #[trigger] items[i]->Upsert_id == x && all[x] == items[i];
        assert(items[i]->Upsert_id == x);
    }
    assert forall|x: Seq<char>| all.dom().contains(x) implies #[trigger] t.nodes.dom().contains(x)
        && t.root is Some && namespace::walk(t.kids, seq![t.root->0], Set::empty()).contains(
        x,
    ) by {
        let i = choose|i: int|
            0 <= i < items.len() && #[trigger] items[i]->Upsert_id == x && all[x] == items[i];
        assert(reaches_root(places(all), items[i]->Upsert_id));
        let k = choose|k: nat| (#[trigger] namespace::trail(places(all), x, k)) is Some;
        lemma_none_held(all, t, got, order, out, x, k);
        namespace_laws::lemma_walk_reaches(t, x, t.root->0, k);
    }
    assert(t.nodes =~= places(all)) by {
        assert forall|x: Seq<char>| t.nodes.dom().contains(x) <==> #[trigger] places(
            all,
        ).dom().contains(x) by {
            if t.nodes.dom().contains(x) {
                assert(got.contains(x));
            }
        }
    }
    assert forall|x: Seq<char>| !#[trigger] t.held.dom().contains(x) by {
        if t.held.dom().contains(x) {
            assert(got.contains(x));
            assert(all.dom().contains(x));
            assert(t.nodes.dom().contains(x));
        }
    }
    assert(t.held =~= Map::empty());
    match t.root {
        Some(root) => {
            let ids = namespace::walk(t.kids, seq![root], Set::empty());
            namespace_subtrees::lemma_walk_once(t.kids, seq![root], Set::empty());
            assert forall|x: Seq<char>| #[trigger] seq![root].contains(x) implies t.nodes.dom().contains(
                x,
            ) by {
                assert(x == root);
            }
            namespace_subtrees::lemma_walk_within(t.kids, seq![root], Set::empty(), t.nodes.dom());
            assert forall|x: Seq<char>| #[trigger] order.contains(x) <==> ids.contains(x) by {
                if order.contains(x) {
                    assert(t.nodes.dom().contains(x));
                    assert(places(all).dom().contains(x));
                    assert(all.dom().contains(x));
                }
                if ids.contains(x) {
                    assert(t.nodes.dom().contains(x));
                }
            }
            lemma_reports_of_same(t.nodes, order, ids);
            sort::lemma_arranged::<Change>(namespace::reports(t.nodes, ids));
        },
        None => {
            if order.len() > 0 {
                assert(order.contains(order[0]));
                assert(t.nodes.dom().contains(order[0]));
                assert(places(all).dom().contains(order[0]));
                assert(all.dom().contains(order[0]));
            }
            assert(out =~= Seq::empty());
        },
    }
}

/// The same items in another order are one tree as well.
proof fn lemma_other_order(a: Seq<ItemModel>, b: Seq<ItemModel>)
    requires
        is_one_tree(a),
        a.to_multiset() == b.to_multiset(),
    ensures
        is_one_tree(b),
        plan(a) == plan(b),
{
    broadcast use vstd::seq_lib::group_to_multiset_ensures;

    assert forall|i: int, j: int| 0 <= i < a.len() && 0 <= j < a.len() && i != j implies a[i]
        != a[j] by {
        assert(a[i]->Upsert_id != a[j]->Upsert_id);
    }
    a.lemma_multiset_has_no_duplicates();
    b.lemma_multiset_has_no_duplicates_conv();
    assert forall|i: int| 0 <= i < b.len() implies a.contains(#[trigger] b[i]) by {
        assert(b.contains(b[i]));
        assert(b.to_multiset().count(b[i]) > 0);
        assert(a.to_multiset().count(b[i]) > 0);
    }
    assert forall|i: int| 0 <= i < a.len() implies b.contains(#[trigger] a[i]) by {
        assert(a.contains(a[i]));
        assert(a.to_multiset().count(a[i]) > 0);
        assert(b.to_multiset().count(a[i]) > 0);
    }
    lemma_plan(a);
    assert forall|i: int| 0 <= i < b.len() implies #[trigger] b[i] is Upsert by {
        let k = choose|k: int| 0 <= k < a.len() && a[k] == b[i];
        assert(a[k] is Upsert);
    }
    assert forall|i: int, j: int| 0 <= i < b.len() && 0 <= j < b.len() && i != j implies (
    #[trigger] b[i])->Upsert_id != (#[trigger] b[j])->Upsert_id by {
        let k = choose|k: int| 0 <= k < a.len() && a[k] == b[i];
        let l = choose|l: int| 0 <= l < a.len() && a[l] == b[j];
        assert(b[i] != b[j]);
        assert(k != l);
        assert(a[k]->Upsert_id != a[l]->Upsert_id);
    }
    assert forall|i: int, j: int|
        0 <= i < b.len() && 0 <= j < b.len() && (#[trigger] b[i])->Upsert_kind is Root
            && (#[trigger] b[j])->Upsert_kind is Root implies i == j by {
        let k = choose|k: int| 0 <= k < a.len() && a[k] == b[i];
        let l = choose|l: int| 0 <= l < a.len() && a[l] == b[j];
        assert(a[k]->Upsert_kind is Root && a[l]->Upsert_kind is Root);
        assert(k == l);
        assert(b[i] == b[j]);
    }
    assert(plan(a) =~= plan(b)) by {
        assert forall|id: Seq<char>|
            #![trigger plan(a).dom().contains(id)]
            #![trigger plan(b).dom().contains(id)]
            (plan(a).dom().contains(id) <==> plan(b).dom().contains(id)) && (plan(
                a,
            ).dom().contains(id) ==> plan(a)[id] == plan(b)[id]) by {
            if plan(b).dom().contains(id) {
                let i = choose|i: int|
                    0 <= i < b.len() && b[i] is Upsert && #[trigger] b[i]->Upsert_id == id;
                assert(plan(b)[id] == b[i]);
                let k = choose|k: int| 0 <= k < a.len() && a[k] == b[i];
                assert(plan(a).dom().contains(a[k]->Upsert_id));
                assert(plan(a)[id] == a[k]);
            }
            if plan(a).dom().contains(id) {
                let i = choose|i: int|
                    0 <= i < a.len() && #[trigger] a[i]->Upsert_id == id && plan(a)[id] == a[i];
                let k = choose|k: int| 0 <= k < b.len() && b[k] == a[i];
                assert(b[k] is Upsert && b[k]->Upsert_id == id);
            }
        }
    }
    assert forall|i: int| 0 <= i < b.len() implies reaches_root(
        places(plan(b)),
        (#[trigger] b[i])->Upsert_id,
    ) by {
        let k = choose|k: int| 0 <= k < a.len() && a[k] == b[i];
        assert(reaches_root(places(plan(a)), a[k]->Upsert_id));
    }
}

/// The order in which the items of one tree arrive does not matter: each order
/// ends in the same listing with nothing held, and the changes on the way are
/// exactly the files of that listing.
pub proof fn law_the_order_of_arrival_does_not_matter(a: Seq<ItemModel>, b: Seq<ItemModel>)
    requires
        is_one_tree(a),
        a.to_multiset() == b.to_multiset(),
    ensures
        namespace::listed(fed(a).0) == namespace::listed(fed(b).0),
        fed(a).0.held == Map::<Seq<char>, ItemModel>::empty(),
        fed(b).0.held == Map::<Seq<char>, ItemModel>::empty(),
        fed(a).1.to_multiset() == namespace::listed(fed(a).0).to_multiset(),
        fed(b).1.to_multiset() == namespace::listed(fed(b).0).to_multiset(),
{
    lemma_other_order(a, b);
    lemma_fed(a);
    lemma_fed(b);
    let t = fed(a).0;
    let u = fed(b).0;
    assert forall|p: Seq<char>|
        #![trigger t.kids.dom().contains(p)]
        #![trigger u.kids.dom().contains(p)]
        t.kids.dom().contains(p) <==> u.kids.dom().contains(p) by {
        if t.kids.dom().contains(p) {
            let c = choose|c: Seq<char>| t.kids[p].contains(c);
            assert(t.nodes.dom().contains(c) && t.nodes[c].parent == Some(p));
            assert(u.is_linked(c));
        }
        if u.kids.dom().contains(p) {
            let c = choose|c: Seq<char>| u.kids[p].contains(c);
            assert(u.nodes.dom().contains(c) && u.nodes[c].parent == Some(p));
            assert(t.is_linked(c));
        }
    }
    assert forall|p: Seq<char>| t.kids.dom().contains(p) implies #[trigger] t.kids[p]
        == u.kids[p] by {
        assert forall|c: Seq<char>| t.kids[p].contains(c) <==> u.kids[p].contains(c) by {
            if t.kids[p].contains(c) {
                assert(u.is_linked(c));
            }
            if u.kids[p].contains(c) {
                assert(t.is_linked(c));
            }
        }
        assert(t.kids[p] =~= u.kids[p]);
    }
    assert(t.kids =~= u.kids);
    if t.root is Some {
        assert(u.root == t.root);
    }
    if u.root is Some {
        assert(t.root == u.root);
    }
}

/// Whether no item, when its turn comes, makes a root of one that stands beneath
/// another.
pub open spec fn keeps_roots(items: Seq<ItemModel>) -> bool {
    forall|k: int|
        0 <= k < items.len() ==> !uproots(fed(#[trigger] items.take(k)).0, items[k])
}

/// Whatever has arrived, in whatever order, the tree is well formed, nothing is
/// held whose parent is known, and the record of children is in step with the
/// parents.
pub proof fn law_every_history_leaves_the_tree_in_step(items: Seq<ItemModel>)
    requires
        keeps_roots(items),
    ensures
        fed(items).0.wf(),
        namespace::ready(fed(items).0).len() == 0,
        is_mirrored(fed(items).0),
    decreases items.len(),
{
    if items.len() == 0 {
        assert(bare().wf());
        namespace::lemma_ready(bare());
        if namespace::ready(bare()).len() > 0 {
            assert(namespace::is_ready(bare(), namespace::ready(bare())[0]));
        }
    } else {
        let front = items.drop_last();
        let n = items.len() - 1;
        assert(front =~= items.take(n));
        assert forall|k: int| 0 <= k < front.len() implies !uproots(
            fed(#[trigger] front.take(k)).0,
            front[k],
        ) by {
            assert(front.take(k) =~= items.take(k));
        }
        law_every_history_leaves_the_tree_in_step(front);
        let t = fed(front).0;
        let item = items.last();
        assert(item == items[n]);
        namespace_subtrees::law_what_stands_beneath_is_kept_in_step(t, item);
        let empty = Seq::<ChangeModel>::empty();
        match item {
            ItemModel::Upsert { id, parent, name, kind } => {
                namespace::lemma_upserted_wf(t, id, parent, name, kind, empty);
            },
            ItemModel::Delete { id } => {
                namespace::lemma_deleted_wf(t, id, empty);
            },
        }
        let (u, o) = namespace::applied_one(t, item, empty);
        namespace::lemma_settled(u, o);
    }
}

/// Whatever has arrived before, deleting an item reports each known file at it
/// or beneath it as gone exactly once and nothing else, and the listing is the
/// old one without those files.
pub proof fn law_a_deletion_after_any_history(items: Seq<ItemModel>, id: Seq<char>)
    requires
        keeps_roots(items),
        forall|n: nat| n > 0 ==> #[trigger] ancestor(fed(items).0.nodes, id, n) != Some(id),
    ensures
        ({
            let t = fed(items).0;
            let u = fed(items.push(ItemModel::Delete { id })).0;
            let changes = namespace::applied(t, ItemModel::Delete { id }).1;
            &&& fed(items.push(ItemModel::Delete { id })).1 == fed(items).1 + changes
            &&& changes.no_duplicates()
            &&& forall|c: ChangeModel| #[trigger]
                changes.contains(c) <==> c is Removed && is_under(
                    t.nodes,
                    c->Removed_cloud_id,
                    id,
                ) && namespace::is_file(t.nodes, c->Removed_cloud_id)
            &&& forall|x: Seq<char>| #[trigger]
                u.nodes.dom().contains(x) <==> t.nodes.dom().contains(x) && !is_under(
                    t.nodes,
                    x,
                    id,
                )
            &&& namespace::listed(u) == namespace::listed(t).filter(
                |c: ChangeModel| !names_under(t.nodes, c, id),
            )
        }),
{
    law_every_history_leaves_the_tree_in_step(items);
    namespace_subtrees::law_a_deletion_goes_by_the_parents(fed(items).0, id);
    assert(items.push(ItemModel::Delete { id }).drop_last() =~= items);
}

/// A feed of one tree is kept whole: each item is known by what it said of itself,
/// nothing is left waiting, and each file is in the full listing and among the
/// changes that were reported on the way, at its path, wherever in the feed it
/// stood.
pub proof fn law_a_feed_is_kept_whole(items: Seq<ItemModel>, i: int)
    requires
        is_one_tree(items),
        0 <= i < items.len(),
    ensures
        ({
            let (t, out) = fed(items);
            let id = items[i]->Upsert_id;
            &&& t.held == Map::<Seq<char>, ItemModel>::empty()
            &&& t.nodes.dom().contains(id)
            &&& t.nodes[id].name == items[i]->Upsert_name
            &&& t.nodes[id].kind == items[i]->Upsert_kind
            &&& !(items[i]->Upsert_kind is Root) ==> t.nodes[id].parent == items[i]->Upsert_parent
            &&& items[i]->Upsert_kind is Root ==> t.root == Some(id)
            &&& items[i]->Upsert_kind matches KindModel::File { size, ctag } ==> (
            namespace::path_of(t.nodes, id) is Some ==> {
                let c = ChangeModel::Upserted {
                    cloud_id: id,
                    path: namespace::path_of(t.nodes, id)->0,
                    size,
                    etag: ctag,
                };
                namespace::listed(t).contains(c) && out.contains(c)
            })
        }),
{
    broadcast use vstd::seq_lib::group_to_multiset_ensures;

    lemma_fed(items);
    lemma_plan(items);
    let (t, out) = fed(items);
    let id = items[i]->Upsert_id;
    let all = plan(items);
    assert(items[i] is Upsert);
    assert(all.dom().contains(id));
    assert(all[id] == items[i]);
    assert(places(all)[id] == place(items[i]));
    assert(t.nodes.dom().contains(id));
    if let KindModel::File { size, ctag } = items[i]->Upsert_kind {
        if let Some(path) = namespace::path_of(t.nodes, id) {
            let c = ChangeModel::Upserted { cloud_id: id, path, size, etag: ctag };
            assert(namespace::report(t.nodes, id) == Some(c));
            let ids = namespace::walk(t.kids, seq![t.root->0], Set::empty());
            namespace_laws::lemma_reports(t.nodes, ids);
            assert(ids.contains(id));
            assert(namespace::reports(t.nodes, ids).contains(c));
            sort::lemma_arranged_contains::<Change>(namespace::reports(t.nodes, ids), c);
            assert(namespace::listed(t).contains(c));
            assert(namespace::listed(t).to_multiset().count(c) > 0);
            assert(out.to_multiset().count(c) > 0);
        }
    }
}

} // verus!
