//! What moving or deleting an item means for all that stands beneath it.

use crate::delta::{Change, ChangeModel};
use crate::namespace::{self, is_mirrored, uproots, ItemModel, KindModel, NodeModel, Tree};
use crate::namespace_laws::{self, ancestor};
use crate::sort;
use crate::table;
use crate::text;
use vstd::prelude::*;

verus! {

/// Whether a known item is another one or stands beneath it.
pub open spec fn is_under(
    nodes: Map<Seq<char>, NodeModel>,
    id: Seq<char>,
    top: Seq<char>,
) -> bool {
    nodes.dom().contains(id) && exists|n: nat| #[trigger] ancestor(nodes, id, n) == Some(top)
}

/// Whether the record of children leads from one item down to another in `n`
/// steps.
pub open spec fn is_reached(
    kids: Map<Seq<char>, Set<Seq<char>>>,
    top: Seq<char>,
    id: Seq<char>,
    n: nat,
) -> bool
    decreases n,
{
    if n == 0 {
        id == top
    } else {
        exists|p: Seq<char>|
            is_reached(kids, top, p, (n - 1) as nat) && kids.dom().contains(p)
                && #[trigger] kids[p].contains(id)
    }
}

/// Whether an item is a known one or is recorded beneath it.
pub open spec fn is_below(t: Tree, id: Seq<char>, top: Seq<char>) -> bool {
    t.nodes.dom().contains(top) && exists|n: nat| #[trigger] is_reached(t.kids, top, id, n)
}

/// Whether a report is about an item recorded at or beneath another.
pub open spec fn names_below(t: Tree, c: ChangeModel, top: Seq<char>) -> bool {
    match c {
        ChangeModel::Upserted { cloud_id, .. } => is_below(t, cloud_id, top),
        _ => false,
    }
}

/// Whether a report is about an item at or beneath another.
pub open spec fn names_under(
    nodes: Map<Seq<char>, NodeModel>,
    c: ChangeModel,
    top: Seq<char>,
) -> bool {
    match c {
        ChangeModel::Upserted { cloud_id, .. } => is_under(nodes, cloud_id, top),
        _ => false,
    }
}

pub(crate) proof fn lemma_walk_within(
    kids: Map<Seq<char>, Set<Seq<char>>>,
    stack: Seq<Seq<char>>,
    seen: Set<Seq<char>>,
    all: Set<Seq<char>>,
)
    requires
        kids.dom().finite(),
        forall|p: Seq<char>| kids.dom().contains(p) ==> (#[trigger] kids[p]).finite(),
        forall|x: Seq<char>| #[trigger] stack.contains(x) ==> all.contains(x),
        forall|p: Seq<char>, c: Seq<char>|
            #![trigger kids[p].contains(c)]
            all.contains(p) && kids.dom().contains(p) && kids[p].contains(c) ==> all.contains(c),
    ensures
        forall|x: Seq<char>| #[trigger]
            namespace::walk(kids, stack, seen).contains(x) ==> all.contains(x),
    decreases kids.dom().difference(seen).len(), stack.len(),
{
    if stack.len() > 0 {
        let top = stack.last();
        let rest = stack.drop_last();
        namespace::lemma_walk_measure(kids, seen, top);
        assert(stack[stack.len() - 1] == top);
        assert(stack.contains(top));
        assert forall|x: Seq<char>| rest.contains(x) implies #[trigger] all.contains(x) by {
            let i = choose|i: int| 0 <= i < rest.len() && rest[i] == x;
            assert(stack[i] == x);
            assert(stack.contains(x));
        }
        if seen.contains(top) {
            lemma_walk_within(kids, rest, seen, all);
            assert(namespace::walk(kids, stack, seen) == namespace::walk(kids, rest, seen));
        } else {
            let next = rest + namespace::kids_of(kids, top);
            assert forall|x: Seq<char>| #[trigger] next.contains(x) implies all.contains(x) by {
                let i = choose|i: int| 0 <= i < next.len() && next[i] == x;
                if i < rest.len() {
                    assert(rest[i] == x);
                    assert(rest.contains(x));
                } else {
                    assert(namespace::kids_of(kids, top)[i - rest.len()] == x);
                    assert(kids.dom().contains(top));
                    table::lemma_in_key_order::<String>(kids[top]);
                    assert(table::in_key_order::<String>(kids[top]).contains(x));
                    assert(kids[top].contains(x));
                }
            }
            lemma_walk_within(kids, next, seen.insert(top), all);
            let r = namespace::walk(kids, stack, seen);
            let r2 = namespace::walk(kids, next, seen.insert(top));
            assert(r == seq![top] + r2);
            assert forall|x: Seq<char>| #[trigger] r.contains(x) implies all.contains(x) by {
                let i = choose|i: int| 0 <= i < r.len() && r[i] == x;
                if i > 0 {
                    assert(r2[i - 1] == x);
                    assert(r2.contains(x));
                }
            }
        }
    }
}

/// What a walk meets it started from, or it stands beneath something that the
/// walk meets.
proof fn lemma_walk_steps(
    kids: Map<Seq<char>, Set<Seq<char>>>,
    stack: Seq<Seq<char>>,
    seen: Set<Seq<char>>,
    x: Seq<char>,
)
    requires
        kids.dom().finite(),
        forall|p: Seq<char>| kids.dom().contains(p) ==> (#[trigger] kids[p]).finite(),
        namespace::walk(kids, stack, seen).contains(x),
    ensures
        stack.contains(x) || exists|p: Seq<char>|
            namespace::walk(kids, stack, seen).contains(p) && kids.dom().contains(p)
                && #[trigger] kids[p].contains(x),
    decreases kids.dom().difference(seen).len(), stack.len(),
{
    let r = namespace::walk(kids, stack, seen);
    let top = stack.last();
    let rest = stack.drop_last();
    namespace::lemma_walk_measure(kids, seen, top);
    assert(stack[stack.len() - 1] == top);
    if seen.contains(top) {
        lemma_walk_steps(kids, rest, seen, x);
        if rest.contains(x) {
            let i = choose|i: int| 0 <= i < rest.len() && rest[i] == x;
            assert(stack[i] == x);
        }
    } else if x != top {
        let next = rest + namespace::kids_of(kids, top);
        let r2 = namespace::walk(kids, next, seen.insert(top));
        let k = choose|k: int| 0 <= k < r.len() && r[k] == x;
        assert(r2[k - 1] == x);
        assert(r2.contains(x));
        lemma_walk_steps(kids, next, seen.insert(top), x);
        assert(r[0] == top);
        assert(r.contains(top));
        if next.contains(x) {
            let i = choose|i: int| 0 <= i < next.len() && next[i] == x;
            if i < rest.len() {
                assert(stack[i] == x);
            } else {
                assert(namespace::kids_of(kids, top)[i - rest.len()] == x);
                assert(kids.dom().contains(top));
                table::lemma_in_key_order::<String>(kids[top]);
                assert(table::in_key_order::<String>(kids[top]).contains(x));
                assert(kids[top].contains(x));
            }
        } else {
            let p = choose|p: Seq<char>|
                r2.contains(p) && kids.dom().contains(p) && #[trigger] kids[p].contains(x);
            let j = choose|j: int| 0 <= j < r2.len() && r2[j] == p;
            assert(r[j + 1] == p);
            assert(r.contains(p));
        }
    }
}

/// A walk meets nothing twice.
pub(crate) proof fn lemma_walk_once(
    kids: Map<Seq<char>, Set<Seq<char>>>,
    stack: Seq<Seq<char>>,
    seen: Set<Seq<char>>,
)
    requires
        kids.dom().finite(),
    ensures
        namespace::walk(kids, stack, seen).no_duplicates(),
        forall|x: Seq<char>| #[trigger]
            namespace::walk(kids, stack, seen).contains(x) ==> !seen.contains(x),
    decreases kids.dom().difference(seen).len(), stack.len(),
{
    if stack.len() > 0 {
        let top = stack.last();
        let rest = stack.drop_last();
        namespace::lemma_walk_measure(kids, seen, top);
        if seen.contains(top) {
            lemma_walk_once(kids, rest, seen);
        } else {
            let next = rest + namespace::kids_of(kids, top);
            lemma_walk_once(kids, next, seen.insert(top));
            let r = namespace::walk(kids, stack, seen);
            let r2 = namespace::walk(kids, next, seen.insert(top));
            assert forall|i: int| 0 < i < r.len() implies r2.contains(#[trigger] r[i]) by {
                assert(r2[i - 1] == r[i]);
            }
            assert forall|i: int, j: int| 0 <= i < r.len() && 0 <= j < r.len() && i != j implies r[i]
                != r[j] by {
                if i > 0 && j > 0 {
                    assert(r2[i - 1] == r[i] && r2[j - 1] == r[j]);
                }
            }
        }
    }
}

proof fn lemma_reached_is_met(t: Tree, top: Seq<char>, id: Seq<char>, n: nat)
    requires
        t.wf(),
        n > 0,
        is_reached(t.kids, top, id, n),
    ensures
        namespace::beneath(t, top).contains(id),
    decreases n,
{
    let stack = namespace::kids_of(t.kids, top);
    namespace::lemma_walk_closed(t.kids, stack, Set::empty());
    let p = choose|p: Seq<char>|
        is_reached(t.kids, top, p, (n - 1) as nat) && t.kids.dom().contains(p)
            && #[trigger] t.kids[p].contains(id);
    if n == 1 {
        table::lemma_in_key_order::<String>(t.kids[top]);
        assert(stack.contains(id));
    } else {
        lemma_reached_is_met(t, top, p, (n - 1) as nat);
        assert(t.kids[p].contains(id));
    }
}

/// What goes with an item: the item and whatever is recorded beneath it, with no
/// item named twice.
proof fn lemma_gone(t: Tree, id: Seq<char>)
    requires
        t.wf(),
        t.nodes.dom().contains(id),
    ensures
        forall|x: Seq<char>| #[trigger]
            namespace::beneath(t, id).to_set().insert(id).contains(x) <==> is_below(t, x, id),
        namespace::beneath(t, id).no_duplicates(),
        forall|x: Seq<char>| #[trigger]
            namespace::beneath(t, id).contains(x) ==> exists|n: nat|
                n > 0 && #[trigger] is_reached(t.kids, id, x, n),
{
    let doomed = namespace::beneath(t, id);
    let gone = doomed.to_set().insert(id);
    let stack = namespace::kids_of(t.kids, id);
    lemma_walk_once(t.kids, stack, Set::empty());
    let all = Set::new(
        |x: Seq<char>| exists|n: nat| n > 0 && #[trigger] is_reached(t.kids, id, x, n),
    );
    assert(is_reached(t.kids, id, id, 0));
    assert forall|x: Seq<char>| #[trigger] stack.contains(x) implies all.contains(x) by {
        assert(t.kids.dom().contains(id));
        table::lemma_in_key_order::<String>(t.kids[id]);
        assert(t.kids[id].contains(x));
        assert(is_reached(t.kids, id, x, 1));
    }
    assert forall|p: Seq<char>, c: Seq<char>|
        #![trigger t.kids[p].contains(c)]
        all.contains(p) && t.kids.dom().contains(p) && t.kids[p].contains(c) implies all.contains(
        c,
    ) by {
        let n = choose|n: nat| n > 0 && #[trigger] is_reached(t.kids, id, p, n);
        assert(is_reached(t.kids, id, c, n + 1));
    }
    lemma_walk_within(t.kids, stack, Set::empty(), all);
    assert forall|x: Seq<char>| #[trigger] gone.contains(x) <==> is_below(t, x, id) by {
        if gone.contains(x) && x != id {
            assert(doomed.contains(x));
            assert(all.contains(x));
        }
        if is_below(t, x, id) && x != id {
            let n = choose|n: nat| #[trigger] is_reached(t.kids, id, x, n);
            lemma_reached_is_met(t, id, x, n);
        }
    }
    assert forall|x: Seq<char>| #[trigger] doomed.contains(x) implies exists|n: nat|
        n > 0 && #[trigger] is_reached(t.kids, id, x, n) by {
        assert(all.contains(x));
    }
}

proof fn lemma_reached_leads_up(t: Tree, top: Seq<char>, id: Seq<char>, n: nat)
    requires
        is_mirrored(t),
        t.nodes.dom().contains(top),
        is_reached(t.kids, top, id, n),
    ensures
        t.nodes.dom().contains(id),
        ancestor(t.nodes, id, n) == Some(top),
    decreases n,
{
    if n > 0 {
        let p = choose|p: Seq<char>|
            is_reached(t.kids, top, p, (n - 1) as nat) && t.kids.dom().contains(p)
                && #[trigger] t.kids[p].contains(id);
        assert(t.nodes.dom().contains(id) && t.nodes[id].parent == Some(p));
        lemma_reached_leads_up(t, top, p, (n - 1) as nat);
    }
}

proof fn lemma_ancestor_reaches(t: Tree, top: Seq<char>, id: Seq<char>, n: nat)
    requires
        t.wf(),
        t.nodes.dom().contains(id),
        ancestor(t.nodes, id, n) == Some(top),
    ensures
        is_reached(t.kids, top, id, n),
        t.nodes.dom().contains(top),
    decreases n,
{
    if n > 0 {
        let p = t.nodes[id].parent->0;
        assert(t.is_linked(id));
        lemma_ancestor_reaches(t, top, p, (n - 1) as nat);
        assert(t.kids[p].contains(id));
    }
}

/// Where the record of children is in step with the parents, what is recorded
/// beneath an item is what its parent chain leads up to it.
pub proof fn law_the_record_follows_the_parents(t: Tree, id: Seq<char>, top: Seq<char>)
    requires
        t.wf(),
        is_mirrored(t),
    ensures
        is_below(t, id, top) <==> is_under(t.nodes, id, top),
{
    if is_below(t, id, top) {
        let n = choose|n: nat| #[trigger] is_reached(t.kids, top, id, n);
        lemma_reached_leads_up(t, top, id, n);
    }
    if is_under(t.nodes, id, top) {
        let n = choose|n: nat| #[trigger] ancestor(t.nodes, id, n) == Some(top);
        lemma_ancestor_reaches(t, top, id, n);
    }
}

proof fn lemma_all_kept<A>(s: Seq<A>, keep: spec_fn(A) -> bool)
    requires
        forall|i: int| 0 <= i < s.len() ==> keep(#[trigger] s[i]),
    ensures
        s.filter(keep) == s,
    decreases s.len(),
{
    reveal(Seq::filter);
    if s.len() > 0 {
        let front = s.drop_last();
        assert forall|i: int| 0 <= i < front.len() implies keep(#[trigger] front[i]) by {
            assert(front[i] == s[i]);
        }
        lemma_all_kept(front, keep);
        assert(keep(s[s.len() - 1]));
        assert(front.push(s.last()) =~= s);
    }
}

proof fn lemma_ascending_filter(s: Seq<Seq<char>>, keep: spec_fn(Seq<char>) -> bool)
    requires
        table::ascending_keys::<String>(s),
    ensures
        table::ascending_keys::<String>(s.filter(keep)),
        forall|x: Seq<char>| #[trigger] s.filter(keep).contains(x) <==> s.contains(x) && keep(x),
    decreases s.len(),
{
    reveal(Seq::filter);
    if s.len() > 0 {
        let front = s.drop_last();
        assert forall|i: int, j: int| 0 <= i < j < front.len() implies text::before(
            #[trigger] front[i],
            #[trigger] front[j],
        ) by {
            assert(text::before(s[i], s[j]));
        }
        lemma_ascending_filter(front, keep);
        let f = front.filter(keep);
        let r = s.filter(keep);
        assert forall|i: int, j: int| 0 <= i < j < r.len() implies text::before(
            #[trigger] r[i],
            #[trigger] r[j],
        ) by {
            if j == f.len() {
                assert(f.contains(r[i]));
                let k = choose|k: int| 0 <= k < front.len() && front[k] == r[i];
                assert(text::before(s[k], s[s.len() - 1]));
            }
        }
        assert forall|x: Seq<char>| #[trigger] r.contains(x) <==> s.contains(x) && keep(x) by {
            if r.contains(x) {
                let k = choose|k: int| 0 <= k < r.len() && r[k] == x;
                if k < f.len() {
                    assert(f.contains(x));
                    let i = choose|i: int| 0 <= i < front.len() && front[i] == x;
                    assert(s[i] == x);
                } else {
                    assert(s[s.len() - 1] == x);
                }
            }
            if s.contains(x) && keep(x) {
                let i = choose|i: int| 0 <= i < s.len() && s[i] == x;
                if i < front.len() {
                    assert(front[i] == x);
                    assert(front.contains(x));
                    assert(f.contains(x));
                    let k = choose|k: int| 0 <= k < f.len() && f[k] == x;
                    assert(r[k] == x);
                } else {
                    assert(r[f.len() as int] == x);
                }
            }
        }
    } else {
        assert(s.filter(keep) =~= s);
    }
}

/// A walk past what has gone is the old walk without it.
proof fn lemma_walk_without(
    kids: Map<Seq<char>, Set<Seq<char>>>,
    left: Map<Seq<char>, Set<Seq<char>>>,
    gone: Set<Seq<char>>,
    stack: Seq<Seq<char>>,
    seen: Set<Seq<char>>,
    marks: Set<Seq<char>>,
)
    requires
        kids.dom().finite(),
        left.dom().finite(),
        forall|p: Seq<char>| kids.dom().contains(p) ==> (#[trigger] kids[p]).finite(),
        forall|p: Seq<char>, c: Seq<char>|
            #![trigger kids[p].contains(c)]
            gone.contains(p) && kids.dom().contains(p) && kids[p].contains(c) ==> gone.contains(c),
        forall|p: Seq<char>|
            !gone.contains(p) ==> (#[trigger] left.dom().contains(p) <==> kids.dom().contains(p)),
        forall|p: Seq<char>|
            !gone.contains(p) && kids.dom().contains(p) ==> #[trigger] left[p]
                == kids[p].difference(gone),
        forall|x: Seq<char>|
            !gone.contains(x) ==> (#[trigger] marks.contains(x) <==> seen.contains(x)),
    ensures
        namespace::walk(left, stack.filter(|x: Seq<char>| !gone.contains(x)), marks)
            == namespace::walk(kids, stack, seen).filter(|x: Seq<char>| !gone.contains(x)),
    decreases kids.dom().difference(seen).len(), stack.len(),
{
    broadcast use {Seq::lemma_filter_push, Seq::filter_distributes_over_add};

    let keep = |x: Seq<char>| !gone.contains(x);
    let kept = stack.filter(keep);
    let r = namespace::walk(kids, stack, seen);
    if stack.len() == 0 {
        reveal(Seq::filter);
        assert(kept =~= stack);
        assert(r.filter(keep) =~= r);
    } else {
        let top = stack.last();
        let rest = stack.drop_last();
        assert(stack =~= rest.push(top));
        namespace::lemma_walk_measure(kids, seen, top);
        if seen.contains(top) {
            lemma_walk_without(kids, left, gone, rest, seen, marks);
            if keep(top) {
                assert(kept.drop_last() =~= rest.filter(keep));
            }
        } else {
            let below = namespace::kids_of(kids, top);
            let next = rest + below;
            let r2 = namespace::walk(kids, next, seen.insert(top));
            assert(seq![top].filter(keep) =~= if keep(top) {
                seq![top]
            } else {
                Seq::empty()
            }) by {
                assert(seq![top] =~= Seq::empty().push(top));
                reveal(Seq::filter);
                assert(Seq::<Seq<char>>::empty().filter(keep) =~= Seq::empty());
            }
            if kids.dom().contains(top) {
                table::lemma_in_key_order::<String>(kids[top]);
                lemma_ascending_filter(below, keep);
            }
            if keep(top) {
                assert(namespace::kids_of(left, top) =~= below.filter(keep)) by {
                    assert(left.dom().contains(top) <==> kids.dom().contains(top));
                    if kids.dom().contains(top) {
                        let fewer = left[top];
                        assert forall|x: Seq<char>| below.filter(keep).contains(x)
                            <==> #[trigger] fewer.contains(x) by {
                            assert(below.contains(x) <==> kids[top].contains(x));
                        }
                        table::lemma_key_order_unique::<String>(below.filter(keep), fewer);
                    } else {
                        reveal(Seq::filter);
                    }
                }
                lemma_walk_without(kids, left, gone, next, seen.insert(top), marks.insert(top));
                assert(kept.last() == top);
                assert(kept.drop_last() =~= rest.filter(keep));
                assert(!marks.contains(top));
                namespace::lemma_walk_measure(left, marks, top);
            } else {
                assert(below.filter(keep) =~= Seq::empty()) by {
                    let f = below.filter(keep);
                    if f.len() > 0 {
                        assert(kids.dom().contains(top)) by {
                            reveal(Seq::filter);
                        }
                        assert(f.contains(f[0]));
                        assert(below.contains(f[0]) && keep(f[0]));
                        assert(kids[top].contains(f[0]));
                    }
                }
                lemma_walk_without(kids, left, gone, next, seen.insert(top), marks);
                assert(rest.filter(keep) + Seq::empty() =~= rest.filter(keep));
                assert(Seq::empty() + r2.filter(keep) =~= r2.filter(keep));
            }
        }
    }
}

proof fn lemma_trail_without(
    nodes: Map<Seq<char>, NodeModel>,
    gone: Set<Seq<char>>,
    id: Seq<char>,
    fuel: nat,
)
    requires
        !gone.contains(id),
        forall|x: Seq<char>| #[trigger]
            nodes.dom().contains(x) && !gone.contains(x) && nodes[x].parent is Some
                ==> !gone.contains(nodes[x].parent->0),
    ensures
        namespace::trail(nodes.remove_keys(gone), id, fuel) == namespace::trail(nodes, id, fuel),
    decreases fuel,
{
    if fuel > 0 && nodes.dom().contains(id) && nodes[id].parent is Some {
        lemma_trail_without(nodes, gone, nodes[id].parent->0, (fuel - 1) as nat);
    }
}

/// The reports on what is left are the old ones, without those on what has
/// gone.
proof fn lemma_reports_without(
    nodes: Map<Seq<char>, NodeModel>,
    gone: Set<Seq<char>>,
    ids: Seq<Seq<char>>,
    keep: spec_fn(ChangeModel) -> bool,
)
    requires
        forall|x: Seq<char>| #[trigger]
            nodes.dom().contains(x) && !gone.contains(x) && nodes[x].parent is Some
                ==> !gone.contains(nodes[x].parent->0),
        forall|c: ChangeModel| #[trigger] keep(c) <==> !(c is Upserted && gone.contains(c->Upserted_cloud_id)),
    ensures
        namespace::reports(nodes.remove_keys(gone), ids.filter(|x: Seq<char>| !gone.contains(x)))
            == namespace::reports(nodes, ids).filter(keep),
    decreases ids.len(),
{
    broadcast use Seq::lemma_filter_push;

    let stays = |x: Seq<char>| !gone.contains(x);
    if ids.len() == 0 {
        reveal(Seq::filter);
        assert(ids.filter(stays) =~= ids);
    } else {
        let front = ids.drop_last();
        let id = ids.last();
        assert(ids =~= front.push(id));
        lemma_reports_without(nodes, gone, front, keep);
        if stays(id) {
            lemma_trail_without(nodes, gone, id, namespace::MAX_DEPTH as nat);
            assert(namespace::report(nodes.remove_keys(gone), id) == namespace::report(nodes, id));
            assert(ids.filter(stays).drop_last() =~= front.filter(stays));
        }
    }
}

proof fn lemma_removals_exact(nodes: Map<Seq<char>, NodeModel>, ids: Seq<Seq<char>>)
    requires
        ids.no_duplicates(),
    ensures
        namespace::removals(nodes, ids).no_duplicates(),
        forall|c: ChangeModel| #[trigger]
            namespace::removals(nodes, ids).contains(c) ==> c is Removed && ids.contains(
                c->Removed_cloud_id,
            ) && namespace::is_file(nodes, c->Removed_cloud_id),
    decreases ids.len(),
{
    if ids.len() > 0 {
        let front = ids.drop_last();
        let id = ids.last();
        assert forall|i: int, j: int| 0 <= i < front.len() && 0 <= j < front.len() && i
            != j implies front[i] != front[j] by {
            assert(front[i] == ids[i] && front[j] == ids[j]);
        }
        lemma_removals_exact(nodes, front);
        let q = namespace::removals(nodes, front);
        let r = namespace::removals(nodes, ids);
        assert forall|c: ChangeModel| #[trigger] q.contains(c) implies ids.contains(
            c->Removed_cloud_id,
        ) && c->Removed_cloud_id != id by {
            let i = choose|i: int| 0 <= i < front.len() && front[i] == c->Removed_cloud_id;
            assert(ids[i] == c->Removed_cloud_id);
            assert(ids[i] != ids[ids.len() - 1]);
        }
        assert forall|i: int| 0 <= i < q.len() implies q.contains(#[trigger] r[i]) by {
            assert(q[i] == r[i]);
        }
        assert(ids[ids.len() - 1] == id);
        assert forall|c: ChangeModel| #[trigger] r.contains(c) implies c is Removed && ids.contains(
            c->Removed_cloud_id,
        ) && namespace::is_file(nodes, c->Removed_cloud_id) by {
            let k = choose|k: int| 0 <= k < r.len() && r[k] == c;
            if k < q.len() {
                assert(q.contains(r[k]));
            }
        }
        assert forall|i: int, j: int| 0 <= i < r.len() && 0 <= j < r.len() && i != j implies r[i]
            != r[j] by {
            if i < q.len() {
                assert(q.contains(r[i]));
            }
            if j < q.len() {
                assert(q.contains(r[j]));
            }
            if i < q.len() && j < q.len() {
                assert(q[i] == r[i] && q[j] == r[j]);
            }
        }
    }
}

/// A deletion leaves nothing that could be replayed.
proof fn lemma_deletion_settles(t: Tree, id: Seq<char>)
    requires
        t.wf(),
        namespace::ready(t).len() == 0,
    ensures
        namespace::applied(t, ItemModel::Delete { id }) == namespace::deleted(t, id, Seq::empty()),
        namespace::deleted(t, id, Seq::empty()).0.wf(),
        namespace::ready(namespace::deleted(t, id, Seq::empty()).0).len() == 0,
{
    let empty = Seq::<ChangeModel>::empty();
    namespace::lemma_deleted_wf(t, id, empty);
    let u = namespace::deleted(t, id, empty).0;
    namespace::lemma_ready(t);
    assert forall|x: Seq<char>| !namespace::is_ready(u, x) by {
        if namespace::is_ready(u, x) {
            assert(namespace::is_ready(t, x));
            assert(namespace::ready(t).contains(x));
        }
    }
    namespace_laws::lemma_not_ready(u);
}

/// Deleting an item forgets it and everything recorded beneath it, and nothing
/// else: each known file there is reported as gone exactly once, and the
/// listing loses exactly those files. Deleting what is not known means nothing.
pub proof fn law_a_deletion_takes_the_whole_subtree(t: Tree, id: Seq<char>)
    requires
        t.wf(),
        namespace::ready(t).len() == 0,
        forall|n: nat| n > 0 ==> !#[trigger] is_reached(t.kids, id, id, n),
    ensures
        ({
            let (u, changes) = namespace::applied(t, ItemModel::Delete { id });
            &&& changes.no_duplicates()
            &&& forall|c: ChangeModel| #[trigger]
                changes.contains(c) <==> c is Removed && is_below(t, c->Removed_cloud_id, id)
                    && namespace::is_file(t.nodes, c->Removed_cloud_id)
            &&& forall|x: Seq<char>| #[trigger]
                u.nodes.dom().contains(x) <==> t.nodes.dom().contains(x) && !is_below(t, x, id)
            &&& namespace::listed(u) == namespace::listed(t).filter(
                |c: ChangeModel| !names_below(t, c, id),
            )
        }),
{
    lemma_deletion_settles(t, id);
    let (u, changes) = namespace::applied(t, ItemModel::Delete { id });
    let keep = |c: ChangeModel| !names_below(t, c, id);
    if !t.nodes.dom().contains(id) {
        lemma_all_kept(namespace::listed(t), keep);
    } else {
        let doomed = namespace::beneath(t, id);
        let gone = doomed.to_set().insert(id);
        lemma_gone(t, id);
        if doomed.contains(id) {
            let n = choose|n: nat| n > 0 && #[trigger] is_reached(t.kids, id, id, n);
        }
        let ids = doomed.push(id);
        assert(ids.drop_last() =~= doomed);
        assert(seq![id].drop_last() =~= Seq::<Seq<char>>::empty());
        assert(namespace::removals(t.nodes, seq![id].drop_last()) =~= Seq::empty());
        assert(changes =~= namespace::removals(t.nodes, ids));
        assert forall|i: int, j: int| 0 <= i < ids.len() && 0 <= j < ids.len() && i
            != j implies ids[i] != ids[j] by {
            if i < doomed.len() {
                assert(doomed[i] == ids[i]);
                assert(doomed.contains(ids[i]));
            }
            if j < doomed.len() {
                assert(doomed[j] == ids[j]);
                assert(doomed.contains(ids[j]));
            }
        }
        lemma_removals_exact(t.nodes, ids);
        assert forall|x: Seq<char>| ids.contains(x) <==> #[trigger] gone.contains(x) by {
            if ids.contains(x) {
                let i = choose|i: int| 0 <= i < ids.len() && ids[i] == x;
                if i < doomed.len() {
                    assert(doomed[i] == x);
                    assert(doomed.contains(x));
                }
            }
            if doomed.contains(x) {
                let i = choose|i: int| 0 <= i < doomed.len() && doomed[i] == x;
                assert(ids[i] == x);
            }
            assert(ids[doomed.len() as int] == id);
        }
        assert forall|c: ChangeModel| #[trigger]
            changes.contains(c) <==> c is Removed && is_below(t, c->Removed_cloud_id, id)
                && namespace::is_file(t.nodes, c->Removed_cloud_id) by {
            let x = c->Removed_cloud_id;
            if changes.contains(c) {
                assert(ids.contains(x));
                assert(gone.contains(x));
            }
            if c is Removed && is_below(t, x, id) && namespace::is_file(t.nodes, x) {
                assert(gone.contains(x));
                assert(ids.contains(x));
                namespace_laws::lemma_removals(t.nodes, ids, x);
            }
        }
        assert forall|x: Seq<char>| #[trigger]
            u.nodes.dom().contains(x) <==> t.nodes.dom().contains(x) && !is_below(t, x, id) by {
            assert(gone.contains(x) <==> is_below(t, x, id));
        }
        lemma_listed_without(t, id, keep);
    }
}

proof fn lemma_reports_of_known(
    nodes: Map<Seq<char>, NodeModel>,
    gone: Set<Seq<char>>,
    ids: Seq<Seq<char>>,
)
    requires
        forall|x: Seq<char>| #[trigger] gone.contains(x) ==> !nodes.dom().contains(x),
    ensures
        namespace::reports(nodes, ids.filter(|x: Seq<char>| !gone.contains(x)))
            == namespace::reports(nodes, ids),
    decreases ids.len(),
{
    broadcast use Seq::lemma_filter_push;

    let stays = |x: Seq<char>| !gone.contains(x);
    if ids.len() == 0 {
        reveal(Seq::filter);
        assert(ids.filter(stays) =~= ids);
    } else {
        let front = ids.drop_last();
        assert(ids =~= front.push(ids.last()));
        lemma_reports_of_known(nodes, gone, front);
        if stays(ids.last()) {
            assert(ids.filter(stays).drop_last() =~= front.filter(stays));
        }
    }
}

proof fn lemma_listed_without(t: Tree, id: Seq<char>, keep: spec_fn(ChangeModel) -> bool)
    requires
        t.wf(),
        t.nodes.dom().contains(id),
        keep == (|c: ChangeModel| !names_below(t, c, id)),
    ensures
        namespace::listed(namespace::pruned(t, id)) == namespace::listed(t).filter(keep),
{
    let u = namespace::pruned(t, id);
    let doomed = namespace::beneath(t, id);
    let gone = doomed.to_set().insert(id);
    let stays = |x: Seq<char>| !gone.contains(x);
    lemma_gone(t, id);
    namespace::lemma_deleted_wf(t, id, Seq::empty());
    namespace::lemma_walk_closed(t.kids, namespace::kids_of(t.kids, id), Set::empty());
    assert(t.kids.remove_keys(gone).dom() =~= t.kids.dom().difference(gone));
    assert(u.kids.dom() =~= t.kids.dom().difference(gone));
    assert forall|p: Seq<char>, c: Seq<char>|
        #![trigger t.kids[p].contains(c)]
        gone.contains(p) && t.kids.dom().contains(p) && t.kids[p].contains(c) implies gone.contains(
        c,
    ) by {
        if p == id {
            table::lemma_in_key_order::<String>(t.kids[id]);
            assert(namespace::kids_of(t.kids, id).contains(c));
            assert(doomed.contains(c));
        } else {
            assert(doomed.contains(p));
            assert(doomed.contains(c));
        }
    }
    assert forall|x: Seq<char>| #[trigger]
        t.nodes.dom().contains(x) && !gone.contains(x) && t.nodes[x].parent is Some implies !gone.contains(
        t.nodes[x].parent->0,
    ) by {
        assert(t.is_linked(x));
        assert(t.kids[t.nodes[x].parent->0].contains(x));
    }
    let clean = Map::new(
        |p: Seq<char>| t.kids.dom().contains(p) && !gone.contains(p),
        |p: Seq<char>| t.kids[p].difference(gone),
    );
    assert(clean.dom() =~= t.kids.dom().difference(gone));
    assert forall|p: Seq<char>|
        !gone.contains(p) && u.kids.dom().contains(p) implies #[trigger] clean[p]
        == u.kids[p].difference(gone) by {
        assert(clean[p] =~= u.kids[p].difference(gone));
    }
    match t.root {
        None => {
            reveal(Seq::filter);
            assert(namespace::listed(t).filter(keep) =~= Seq::empty());
        },
        Some(root) => {
            let ids = namespace::walk(t.kids, seq![root], Set::empty());
            let left = namespace::walk(u.kids, seq![root], Set::empty());
            let all = namespace::reports(t.nodes, ids);
            assert forall|c: ChangeModel| #[trigger] keep(c) <==> !(c is Upserted && gone.contains(
                c->Upserted_cloud_id,
            )) by {
                if c is Upserted {
                    assert(gone.contains(c->Upserted_cloud_id) <==> is_below(
                        t,
                        c->Upserted_cloud_id,
                        id,
                    ));
                }
            }
            lemma_walk_without(t.kids, clean, gone, seq![root], Set::empty(), Set::empty());
            lemma_walk_without(u.kids, clean, gone, seq![root], Set::empty(), Set::empty());
            assert(left.filter(stays) == ids.filter(stays));
            lemma_reports_without(t.nodes, gone, ids, keep);
            lemma_reports_of_known(u.nodes, gone, left);
            assert(namespace::reports(u.nodes, left) == all.filter(keep));
            sort::lemma_arranged_filter::<Change>(all, keep);
            if u.root is None {
                assert(seq![root] =~= Seq::empty().push(root));
                Seq::<Seq<char>>::empty().lemma_filter_push(root, stays);
                assert(Seq::<Seq<char>>::empty().filter(stays) =~= Seq::empty()) by {
                    reveal(Seq::filter);
                }
                assert(ids.filter(stays) =~= Seq::empty());
                assert(all.filter(keep) =~= Seq::empty());
            }
        },
    }
}

/// The same by parents, where the record of children is in step with them: each
/// known file whose parent chain leads up to the deleted item is reported as
/// gone exactly once, and the listing loses exactly those files.
pub proof fn law_a_deletion_goes_by_the_parents(t: Tree, id: Seq<char>)
    requires
        t.wf(),
        is_mirrored(t),
        namespace::ready(t).len() == 0,
        forall|n: nat| n > 0 ==> #[trigger] ancestor(t.nodes, id, n) != Some(id),
    ensures
        ({
            let (u, changes) = namespace::applied(t, ItemModel::Delete { id });
            &&& changes.no_duplicates()
            &&& forall|c: ChangeModel| #[trigger]
                changes.contains(c) <==> c is Removed && is_under(
                    t.nodes,
                    c->Removed_cloud_id,
                    id,
                ) && namespace::is_file(t.nodes, c->Removed_cloud_id)
            &&& forall|x: Seq<char>| #[trigger]
                u.nodes.dom().contains(x) <==> t.nodes.dom().contains(x) && !is_under(
                    t.nodes,
                    x,
                    id,
                )
            &&& namespace::listed(u) == namespace::listed(t).filter(
                |c: ChangeModel| !names_under(t.nodes, c, id),
            )
            &&& is_mirrored(u)
        }),
{
    let (u, changes) = namespace::applied(t, ItemModel::Delete { id });
    law_what_stands_beneath_is_kept_in_step(t, ItemModel::Delete { id });
    assert forall|x: Seq<char>| #[trigger] is_below(t, x, id) <==> is_under(t.nodes, x, id) by {
        law_the_record_follows_the_parents(t, x, id);
    }
    let by_record = |c: ChangeModel| !names_below(t, c, id);
    let by_parents = |c: ChangeModel| !names_under(t.nodes, c, id);
    assert(by_record =~= by_parents);
    if t.nodes.dom().contains(id) {
        assert forall|n: nat| n > 0 implies !#[trigger] is_reached(t.kids, id, id, n) by {
            if is_reached(t.kids, id, id, n) {
                lemma_reached_leads_up(t, id, id, n);
            }
        }
        law_a_deletion_takes_the_whole_subtree(t, id);
    } else {
        lemma_deletion_settles(t, id);
        lemma_all_kept(namespace::listed(t), by_record);
    }
}

proof fn lemma_reports_once(nodes: Map<Seq<char>, NodeModel>, ids: Seq<Seq<char>>)
    requires
        ids.no_duplicates(),
    ensures
        namespace::reports(nodes, ids).no_duplicates(),
        forall|c: ChangeModel| #[trigger]
            namespace::reports(nodes, ids).contains(c) ==> c is Upserted && ids.contains(
                c->Upserted_cloud_id,
            ) && namespace::report(nodes, c->Upserted_cloud_id) == Some(c),
    decreases ids.len(),
{
    if ids.len() > 0 {
        let front = ids.drop_last();
        let id = ids.last();
        assert forall|i: int, j: int| 0 <= i < front.len() && 0 <= j < front.len() && i
            != j implies front[i] != front[j] by {
            assert(front[i] == ids[i] && front[j] == ids[j]);
        }
        lemma_reports_once(nodes, front);
        let q = namespace::reports(nodes, front);
        let r = namespace::reports(nodes, ids);
        assert forall|c: ChangeModel| #[trigger] q.contains(c) implies ids.contains(
            c->Upserted_cloud_id,
        ) && c->Upserted_cloud_id != id by {
            let i = choose|i: int| 0 <= i < front.len() && front[i] == c->Upserted_cloud_id;
            assert(ids[i] == c->Upserted_cloud_id);
            assert(ids[i] != ids[ids.len() - 1]);
        }
        assert forall|i: int| 0 <= i < q.len() implies q.contains(#[trigger] r[i]) by {
            assert(q[i] == r[i]);
        }
        assert(ids[ids.len() - 1] == id);
        assert forall|c: ChangeModel| #[trigger] r.contains(c) implies c is Upserted
            && ids.contains(c->Upserted_cloud_id) && namespace::report(nodes, c->Upserted_cloud_id)
            == Some(c) by {
            let k = choose|k: int| 0 <= k < r.len() && r[k] == c;
            if k < q.len() {
                assert(q.contains(r[k]));
            }
        }
        assert forall|i: int, j: int| 0 <= i < r.len() && 0 <= j < r.len() && i != j implies r[i]
            != r[j] by {
            if i < q.len() {
                assert(q.contains(r[i]));
            }
            if j < q.len() {
                assert(q.contains(r[j]));
            }
            if i < q.len() && j < q.len() {
                assert(q[i] == r[i] && q[j] == r[j]);
            }
        }
    }
}

/// What a walk from an item meets is what is recorded at it or beneath it.
proof fn lemma_walk_is_below(t: Tree, id: Seq<char>)
    requires
        t.wf(),
        t.nodes.dom().contains(id),
    ensures
        forall|x: Seq<char>| #[trigger]
            namespace::walk(t.kids, seq![id], Set::empty()).contains(x) <==> is_below(t, x, id),
{
    let ids = namespace::walk(t.kids, seq![id], Set::empty());
    let all = Set::new(|x: Seq<char>| is_below(t, x, id));
    assert forall|x: Seq<char>| #[trigger] seq![id].contains(x) implies all.contains(x) by {
        assert(x == id);
        assert(is_reached(t.kids, id, id, 0));
    }
    assert forall|p: Seq<char>, c: Seq<char>|
        #![trigger t.kids[p].contains(c)]
        all.contains(p) && t.kids.dom().contains(p) && t.kids[p].contains(c) implies all.contains(
        c,
    ) by {
        let n = choose|n: nat| #[trigger] is_reached(t.kids, id, p, n);
        assert(is_reached(t.kids, id, c, n + 1));
    }
    lemma_walk_within(t.kids, seq![id], Set::empty(), all);
    assert forall|x: Seq<char>| #[trigger] ids.contains(x) <==> is_below(t, x, id) by {
        if ids.contains(x) {
            assert(all.contains(x));
        }
        if is_below(t, x, id) {
            let n = choose|n: nat| #[trigger] is_reached(t.kids, id, x, n);
            lemma_reached_is_walked(t, id, x, n);
        }
    }
}

proof fn lemma_reached_is_walked(t: Tree, top: Seq<char>, id: Seq<char>, n: nat)
    requires
        t.wf(),
        is_reached(t.kids, top, id, n),
    ensures
        namespace::walk(t.kids, seq![top], Set::empty()).contains(id),
    decreases n,
{
    namespace::lemma_walk_closed(t.kids, seq![top], Set::empty());
    if n == 0 {
        assert(seq![top][0] == top);
        assert(seq![top].contains(top));
    } else {
        let p = choose|p: Seq<char>|
            is_reached(t.kids, top, p, (n - 1) as nat) && t.kids.dom().contains(p)
                && #[trigger] t.kids[p].contains(id);
        lemma_reached_is_walked(t, top, p, (n - 1) as nat);
        assert(t.kids[p].contains(id));
    }
}

/// Moving a known folder, or calling it otherwise, reports exactly the files
/// recorded beneath it that have a path, each once and at its new path, shallowest
/// first.
pub proof fn law_a_move_takes_the_whole_subtree(
    t: Tree,
    id: Seq<char>,
    parent: Seq<char>,
    name: Seq<char>,
)
    requires
        t.wf(),
        namespace::ready(t).len() == 0,
        t.nodes.dom().contains(parent),
        namespace::is_move(t, id, parent, name),
    ensures
        ({
            let item = ItemModel::Upsert {
                id,
                parent: Some(parent),
                name,
                kind: KindModel::Folder,
            };
            let (u, changes) = namespace::applied(t, item);
            &&& u == namespace::grown(t, id, parent, name, KindModel::Folder)
            &&& sort::in_order::<Change>(changes)
            &&& changes.no_duplicates()
            &&& forall|c: ChangeModel| #[trigger]
                changes.contains(c) <==> c is Upserted && is_below(u, c->Upserted_cloud_id, id) && namespace::report(u.nodes, c->Upserted_cloud_id) == Some(c)
        }),
{
    broadcast use vstd::seq_lib::group_to_multiset_ensures;

    let empty = Seq::<ChangeModel>::empty();
    let kind = KindModel::Folder;
    let item = ItemModel::Upsert { id, parent: Some(parent), name, kind };
    let u = namespace::grown(t, id, parent, name, kind);
    namespace::lemma_upserted_wf(t, id, Some(parent), name, kind, empty);
    let ids = namespace::walk(u.kids, seq![id], Set::empty());
    let all = namespace::reports(u.nodes, ids);
    assert(empty + all =~= all);
    namespace::lemma_ready(t);
    assert(u.nodes.dom() =~= t.nodes.dom());
    assert forall|x: Seq<char>| !namespace::is_ready(u, x) by {
        if namespace::is_ready(u, x) {
            assert(namespace::is_ready(t, x));
            assert(namespace::ready(t).contains(x));
        }
    }
    namespace_laws::lemma_not_ready(u);
    let changes = sort::arranged::<Change>(all);
    sort::lemma_arranged::<Change>(all);
    lemma_walk_is_below(u, id);
    lemma_walk_once(u.kids, seq![id], Set::empty());
    lemma_reports_once(u.nodes, ids);
    all.lemma_multiset_has_no_duplicates();
    changes.lemma_multiset_has_no_duplicates_conv();
    namespace_laws::lemma_reports(u.nodes, ids);
    assert forall|c: ChangeModel| #[trigger]
        changes.contains(c) <==> c is Upserted && is_below(u, c->Upserted_cloud_id, id)
            && namespace::report(u.nodes, c->Upserted_cloud_id) == Some(c) by {
        sort::lemma_arranged_contains::<Change>(all, c);
        if all.contains(c) {
            assert(ids.contains(c->Upserted_cloud_id));
        }
        if c is Upserted && is_below(u, c->Upserted_cloud_id, id) {
            assert(ids.contains(c->Upserted_cloud_id));
        }
    }
}

/// An item that names a deleted item, or anything that went with it, as its
/// parent is held.
pub proof fn law_what_names_a_deleted_parent_is_held(
    t: Tree,
    id: Seq<char>,
    new: Seq<char>,
    parent: Seq<char>,
    name: Seq<char>,
    kind: KindModel,
)
    requires
        t.wf(),
        namespace::ready(t).len() == 0,
        parent == id || is_below(t, parent, id),
        !(kind is Root),
    ensures
        ({
            let u = namespace::applied(t, ItemModel::Delete { id }).0;
            let item = ItemModel::Upsert { id: new, parent: Some(parent), name, kind };
            &&& namespace::applied(u, item).0.held == u.held.insert(new, item)
            &&& namespace::applied(u, item).1 == Seq::<ChangeModel>::empty()
        }),
{
    lemma_deletion_settles(t, id);
    let u = namespace::applied(t, ItemModel::Delete { id }).0;
    if t.nodes.dom().contains(id) {
        lemma_gone(t, id);
        let gone = namespace::beneath(t, id).to_set().insert(id);
        assert(gone.contains(parent));
    }
    namespace_laws::law_an_orphan_is_held(u, new, Some(parent), name, kind);
}

pub(crate) proof fn lemma_one_mirrored(t: Tree, item: ItemModel, out: Seq<ChangeModel>)
    requires
        t.wf(),
        is_mirrored(t),
        !uproots(t, item),
    ensures
        is_mirrored(namespace::applied_one(t, item, out).0),
{
    let u = namespace::applied_one(t, item, out).0;
    match item {
        ItemModel::Upsert { id, parent, name, kind } => {
            assert forall|p: Seq<char>, c: Seq<char>|
                #![trigger u.kids[p].contains(c)]
                u.kids.dom().contains(p) && u.kids[p].contains(c) implies u.nodes.dom().contains(c)
                && u.nodes[c].parent == Some(p) by {
                if t.kids.dom().contains(p) && t.kids[p].contains(c) {
                    assert(t.nodes.dom().contains(c) && t.nodes[c].parent == Some(p));
                }
            }
        },
        ItemModel::Delete { id } => {
            if t.nodes.dom().contains(id) {
                let doomed = namespace::beneath(t, id);
                let gone = doomed.to_set().insert(id);
                assert forall|p: Seq<char>, c: Seq<char>|
                    #![trigger u.kids[p].contains(c)]
                    u.kids.dom().contains(p) && u.kids[p].contains(
                        c,
                    ) implies u.nodes.dom().contains(c) && u.nodes[c].parent == Some(p) by {
                    assert(t.kids.dom().contains(p) && t.kids[p].contains(c));
                    if gone.contains(c) && c != id {
                        assert(doomed.contains(c));
                        let stack = namespace::kids_of(t.kids, id);
                        lemma_walk_steps(t.kids, stack, Set::empty(), c);
                        if stack.contains(c) {
                            assert(t.kids.dom().contains(id));
                            table::lemma_in_key_order::<String>(t.kids[id]);
                            assert(t.kids[id].contains(c));
                        } else {
                            let q = choose|q: Seq<char>|
                                doomed.contains(q) && t.kids.dom().contains(q)
                                    && #[trigger] t.kids[q].contains(c);
                            assert(p == q);
                            assert(gone.contains(q));
                        }
                        assert(gone.contains(p));
                    }
                }
            }
        },
    }
}

proof fn lemma_replayed_mirrored(t: Tree, ids: Seq<Seq<char>>, out: Seq<ChangeModel>)
    requires
        t.wf(),
        is_mirrored(t),
        ids.no_duplicates(),
        forall|i: int| 0 <= i < ids.len() ==> namespace::is_ready(t, #[trigger] ids[i]),
    ensures
        is_mirrored(namespace::replayed(t, ids, out).0),
    decreases ids.len(),
{
    if ids.len() > 0 {
        let front = ids.drop_last();
        let id = ids.last();
        assert forall|i: int| 0 <= i < front.len() implies namespace::is_ready(
            t,
            #[trigger] front[i],
        ) by {
            assert(front[i] == ids[i]);
        }
        lemma_replayed_mirrored(t, front, out);
        namespace::lemma_replayed(t, front, out);
        let (u, o) = namespace::replayed(t, front, out);
        if u.held.dom().contains(id) {
            let free = Tree { nodes: u.nodes, kids: u.kids, root: u.root, held: u.held.remove(id) };
            assert(namespace::is_held_form(id, u.held[id]));
            assert(free.wf()) by {
                assert forall|c: Seq<char>| #[trigger]
                    free.nodes.dom().contains(c) implies free.is_linked(c) by {
                    assert(u.is_linked(c));
                }
            }
            assert(is_mirrored(free)) by {
                assert forall|p: Seq<char>, c: Seq<char>|
                    #![trigger free.kids[p].contains(c)]
                    free.kids.dom().contains(p) && free.kids[p].contains(
                        c,
                    ) implies free.nodes.dom().contains(c) && free.nodes[c].parent == Some(p) by {
                    assert(u.kids[p].contains(c));
                }
            }
            lemma_one_mirrored(free, u.held[id], o);
        }
    }
}

proof fn lemma_settled_mirrored(t: Tree, out: Seq<ChangeModel>)
    requires
        t.wf(),
        is_mirrored(t),
    ensures
        is_mirrored(namespace::settled(t, out).0),
    decreases t.held.dom().len(),
{
    namespace::lemma_replay_shrinks(t, out);
    if namespace::ready(t).len() > 0 {
        namespace::lemma_ready(t);
        lemma_replayed_mirrored(t, namespace::ready(t), out);
        let (u, o) = namespace::replayed(t, namespace::ready(t), out);
        lemma_settled_mirrored(u, o);
    }
}

/// What is recorded beneath each item stays what names it as its parent,
/// unless an item that stands beneath another is called a root.
pub proof fn law_what_stands_beneath_is_kept_in_step(t: Tree, item: ItemModel)
    requires
        t.wf(),
        is_mirrored(t),
        !uproots(t, item),
    ensures
        is_mirrored(namespace::applied(t, item).0),
{
    let empty = Seq::<ChangeModel>::empty();
    match item {
        ItemModel::Upsert { id, parent, name, kind } => {
            namespace::lemma_upserted_wf(t, id, parent, name, kind, empty);
        },
        ItemModel::Delete { id } => {
            namespace::lemma_deleted_wf(t, id, empty);
        },
    }
    let (u, o) = namespace::applied_one(t, item, empty);
    lemma_one_mirrored(t, item, empty);
    lemma_settled_mirrored(u, o);
}

/// A full listing names each file beneath the root that has a path, once and at
/// that path, and nothing else; a tree without a root lists nothing.
pub proof fn law_a_listing_names_each_file_once(t: Tree)
    requires
        t.wf(),
        t.root matches Some(root) ==> t.nodes.dom().contains(root),
    ensures
        t.root is None ==> namespace::listed(t).len() == 0,
        namespace::listed(t).no_duplicates(),
        sort::in_order::<Change>(namespace::listed(t)),
        t.root matches Some(root) ==> forall|c: ChangeModel| #[trigger]
            namespace::listed(t).contains(c) <==> c is Upserted && is_below(
                t,
                c->Upserted_cloud_id,
                root,
            ) && namespace::report(t.nodes, c->Upserted_cloud_id) == Some(c),
{
    broadcast use vstd::seq_lib::group_to_multiset_ensures;

    if let Some(root) = t.root {
        let ids = namespace::walk(t.kids, seq![root], Set::empty());
        let all = namespace::reports(t.nodes, ids);
        let changes = namespace::listed(t);
        sort::lemma_arranged::<Change>(all);
        lemma_walk_is_below(t, root);
        lemma_walk_once(t.kids, seq![root], Set::empty());
        lemma_reports_once(t.nodes, ids);
        all.lemma_multiset_has_no_duplicates();
        changes.lemma_multiset_has_no_duplicates_conv();
        namespace_laws::lemma_reports(t.nodes, ids);
        assert forall|c: ChangeModel| #[trigger]
            changes.contains(c) <==> c is Upserted && is_below(t, c->Upserted_cloud_id, root)
                && namespace::report(t.nodes, c->Upserted_cloud_id) == Some(c) by {
            sort::lemma_arranged_contains::<Change>(all, c);
            if all.contains(c) {
                assert(ids.contains(c->Upserted_cloud_id));
            }
            if c is Upserted && is_below(t, c->Upserted_cloud_id, root) {
                assert(ids.contains(c->Upserted_cloud_id));
            }
        }
    }
}

} // verus!
