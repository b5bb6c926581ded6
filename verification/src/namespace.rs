//! The remote tree, and the changes it implies.
//!
//! A delta feed describes items, and the reconciler consumes file paths. A
//! service reports one change when a folder moves; it does not list again the
//! thousand files inside it. So the tree is kept here and paths are derived
//! from it: feed it items as they arrive, get back the changes they mean.

use crate::delta::{self, Change, ChangeModel};
use crate::namespace_subtrees;
use crate::sort::{self, Ranked};
use crate::table::{self, Key, Table};
use crate::text::{self, copy_maybe};
use vstd::prelude::*;

verus! {

/// What a service says about one item.
#[derive(Debug, PartialEq, Eq)]
pub enum Item {
    /// The item exists, with this parent, name and shape. Covers creation,
    /// rename, move and content change alike.
    Upsert {
        id: String,
        /// `None` only for the root itself.
        parent: Option<String>,
        name: String,
        kind: Kind,
    },
    /// The item is gone. For a folder this implies its whole subtree.
    Delete { id: String },
}

#[derive(Debug, PartialEq, Eq)]
pub enum Kind {
    File {
        size: u64,
        /// A content version, not a metadata one: it must not change when the
        /// item is merely renamed or moved.
        ctag: Option<String>,
    },
    Folder,
    /// The tree's anchor. Its name is not part of any path.
    Root,
}

/// A kind, over texts.
#[verifier::ext_equal]
pub enum KindModel {
    File { size: u64, ctag: Option<Seq<char>> },
    Folder,
    Root,
}

/// An item, over texts.
#[verifier::ext_equal]
pub enum ItemModel {
    Upsert { id: Seq<char>, parent: Option<Seq<char>>, name: Seq<char>, kind: KindModel },
    Delete { id: Seq<char> },
}

impl View for Kind {
    type V = KindModel;

    open spec fn view(&self) -> KindModel {
        match *self {
            Kind::File { size, ctag } => KindModel::File { size, ctag: text::maybe(ctag) },
            Kind::Folder => KindModel::Folder,
            Kind::Root => KindModel::Root,
        }
    }
}

impl View for Item {
    type V = ItemModel;

    open spec fn view(&self) -> ItemModel {
        match *self {
            Item::Upsert { id, parent, name, kind } => ItemModel::Upsert {
                id: id@,
                parent: text::maybe(parent),
                name: name@,
                kind: kind@,
            },
            Item::Delete { id } => ItemModel::Delete { id: id@ },
        }
    }
}

impl Clone for Kind {
    fn clone(&self) -> (r: Self)
        ensures
            r == *self,
    {
        match self {
            Kind::File { size, ctag } => Kind::File { size: *size, ctag: copy_maybe(ctag) },
            Kind::Folder => Kind::Folder,
            Kind::Root => Kind::Root,
        }
    }
}

impl Clone for Item {
    fn clone(&self) -> (r: Self)
        ensures
            r == *self,
    {
        match self {
            Item::Upsert { id, parent, name, kind } => Item::Upsert {
                id: id.clone(),
                parent: copy_maybe(parent),
                name: name.clone(),
                kind: kind.clone(),
            },
            Item::Delete { id } => Item::Delete { id: id.clone() },
        }
    }
}

struct Node {
    parent: Option<String>,
    name: String,
    kind: Kind,
}

/// A place in the tree, over texts.
#[verifier::ext_equal]
pub struct NodeModel {
    pub parent: Option<Seq<char>>,
    pub name: Seq<char>,
    pub kind: KindModel,
}

impl Node {
    spec fn model(self) -> NodeModel {
        NodeModel { parent: text::maybe(self.parent), name: self.name@, kind: self.kind@ }
    }
}

/// The remote tree as last reported.
#[verifier::ext_equal]
pub struct Tree {
    pub nodes: Map<Seq<char>, NodeModel>,
    /// What stands beneath each item.
    pub kids: Map<Seq<char>, Set<Seq<char>>>,
    pub root: Option<Seq<char>>,
    /// Items whose parent has not arrived yet. An item with no known parent
    /// has no path, so it is held and replayed when its parent shows up.
    pub held: Map<Seq<char>, ItemModel>,
}

/// The longest parent chain that is followed. A chain that loops would
/// otherwise never end.
pub const MAX_DEPTH: usize = 512;

/// The names on the way from the root down to an item, following at most
/// `fuel` links.
pub open spec fn trail(
    nodes: Map<Seq<char>, NodeModel>,
    id: Seq<char>,
    fuel: nat,
) -> Option<Seq<Seq<char>>>
    decreases fuel,
{
    if fuel == 0 || !nodes.dom().contains(id) {
        None
    } else if nodes[id].kind is Root {
        Some(Seq::empty())
    } else {
        match nodes[id].parent {
            None => None,
            Some(p) => match trail(nodes, p, (fuel - 1) as nat) {
                None => None,
                Some(t) => Some(t.push(nodes[id].name)),
            },
        }
    }
}

/// The root-relative path of an item, or nothing if its chain is broken.
pub open spec fn path_of(nodes: Map<Seq<char>, NodeModel>, id: Seq<char>) -> Option<Seq<char>> {
    match trail(nodes, id, MAX_DEPTH as nat) {
        None => None,
        Some(t) => Some(text::join(t, seq!['/'])),
    }
}

pub open spec fn kids_of(kids: Map<Seq<char>, Set<Seq<char>>>, id: Seq<char>) -> Seq<Seq<char>> {
    if kids.dom().contains(id) {
        table::in_key_order::<String>(kids[id])
    } else {
        Seq::empty()
    }
}

/// The order in which a depth-first walk visits the items on a stack and all
/// that stands beneath them, each once.
pub open spec fn walk(
    kids: Map<Seq<char>, Set<Seq<char>>>,
    stack: Seq<Seq<char>>,
    seen: Set<Seq<char>>,
) -> Seq<Seq<char>>
    decreases kids.dom().difference(seen).len(), stack.len(),
    when kids.dom().finite()
{
    if stack.len() == 0 {
        Seq::empty()
    } else {
        let top = stack.last();
        let rest = stack.drop_last();
        proof {
            lemma_walk_measure(kids, seen, top);
        }
        if seen.contains(top) {
            walk(kids, rest, seen)
        } else {
            seq![top] + walk(kids, rest + kids_of(kids, top), seen.insert(top))
        }
    }
}

/// A walk that visits a new item has fewer left to visit.
pub proof fn lemma_walk_measure(
    kids: Map<Seq<char>, Set<Seq<char>>>,
    seen: Set<Seq<char>>,
    top: Seq<char>,
)
    requires
        kids.dom().finite(),
    ensures
        !seen.contains(top) && kids.dom().contains(top) ==> kids.dom().difference(
            seen.insert(top),
        ).len() < kids.dom().difference(seen).len(),
        !seen.contains(top) && !kids.dom().contains(top) ==> kids.dom().difference(
            seen.insert(top),
        ).len() == kids.dom().difference(seen).len(),
{
    let a = kids.dom().difference(seen);
    let b = kids.dom().difference(seen.insert(top));
    if !seen.contains(top) {
        if kids.dom().contains(top) {
            assert(b =~= a.remove(top));
        } else {
            assert(b =~= a);
        }
    }
}

/// The change that reports a file at its current path.
pub open spec fn report(nodes: Map<Seq<char>, NodeModel>, id: Seq<char>) -> Option<ChangeModel> {
    if !nodes.dom().contains(id) {
        None
    } else {
        match nodes[id].kind {
            KindModel::File { size, ctag } => match path_of(nodes, id) {
                Some(path) => Some(ChangeModel::Upserted { cloud_id: id, path, size, etag: ctag }),
                None => None,
            },
            _ => None,
        }
    }
}

/// The files among some items, each reported at its current path.
pub open spec fn reports(
    nodes: Map<Seq<char>, NodeModel>,
    ids: Seq<Seq<char>>,
) -> Seq<ChangeModel>
    decreases ids.len(),
{
    if ids.len() == 0 {
        Seq::empty()
    } else {
        match report(nodes, ids.last()) {
            Some(c) => reports(nodes, ids.drop_last()).push(c),
            None => reports(nodes, ids.drop_last()),
        }
    }
}

pub open spec fn is_file(nodes: Map<Seq<char>, NodeModel>, id: Seq<char>) -> bool {
    nodes.dom().contains(id) && nodes[id].kind is File
}

/// The files among some items, each reported as gone.
pub open spec fn removals(
    nodes: Map<Seq<char>, NodeModel>,
    ids: Seq<Seq<char>>,
) -> Seq<ChangeModel>
    decreases ids.len(),
{
    if ids.len() == 0 {
        Seq::empty()
    } else if is_file(nodes, ids.last()) {
        removals(nodes, ids.drop_last()).push(ChangeModel::Removed { cloud_id: ids.last() })
    } else {
        removals(nodes, ids.drop_last())
    }
}

/// What a change is sorted by: its path, or the identity of what is gone.
pub open spec fn key_of(c: ChangeModel) -> Seq<char> {
    match c {
        ChangeModel::Upserted { path, .. } => path,
        ChangeModel::FolderUpserted { path, .. } => path,
        ChangeModel::Removed { cloud_id } => cloud_id,
        ChangeModel::FolderRemoved { path, .. } => path,
    }
}

/// How deep a change lies.
pub open spec fn depth(c: ChangeModel) -> nat {
    text::count(key_of(c), '/')
}

impl Ranked for Change {
    type M = ChangeModel;

    open spec fn model(&self) -> ChangeModel {
        self@
    }

    /// Shallowest first, then by key.
    open spec fn ahead(a: ChangeModel, b: ChangeModel) -> bool {
        depth(a) < depth(b) || (depth(a) == depth(b) && text::before(key_of(a), key_of(b)))
    }

    proof fn ahead_transitive(a: ChangeModel, b: ChangeModel, c: ChangeModel) {
        if depth(a) == depth(b) && depth(b) == depth(c) {
            text::lemma_before_transitive(key_of(a), key_of(b), key_of(c));
        }
    }

    proof fn ahead_cotransitive(a: ChangeModel, b: ChangeModel, c: ChangeModel) {
        if depth(a) == depth(b) && depth(b) == depth(c) {
            text::lemma_before_cotransitive(key_of(a), key_of(b), key_of(c));
        }
    }

    proof fn ahead_irreflexive(a: ChangeModel) {
        text::lemma_before_irreflexive(key_of(a));
    }

    fn is_ahead(&self, other: &Change) -> (b: bool) {
        let x = depth_of(self);
        let y = depth_of(other);
        x < y || (x == y && text::is_before(key(self), key(other)))
    }
}

fn key(c: &Change) -> (k: &str)
    ensures
        k@ == key_of(c@),
{
    match c {
        Change::Upserted { path, .. } => path.as_str(),
        Change::FolderUpserted { path, .. } => path.as_str(),
        Change::Removed { cloud_id } => cloud_id.as_str(),
        Change::FolderRemoved { path, .. } => path.as_str(),
    }
}

fn depth_of(c: &Change) -> (n: usize)
    ensures
        n == depth(c@),
{
    text::count_of(key(c), '/')
}

/// What stands beneath each item once an item has left its old parent.
pub open spec fn detached(t: Tree, id: Seq<char>) -> Map<Seq<char>, Set<Seq<char>>> {
    if t.nodes.dom().contains(id) {
        match t.nodes[id].parent {
            Some(old) => if t.kids.dom().contains(old) {
                t.kids.insert(old, t.kids[old].remove(id))
            } else {
                t.kids
            },
            None => t.kids,
        }
    } else {
        t.kids
    }
}

/// What stands beneath each item once an item has joined a parent.
pub open spec fn attached(
    kids: Map<Seq<char>, Set<Seq<char>>>,
    parent: Seq<char>,
    id: Seq<char>,
) -> Map<Seq<char>, Set<Seq<char>>> {
    if kids.dom().contains(parent) {
        kids.insert(parent, kids[parent].insert(id))
    } else {
        kids.insert(parent, set![id])
    }
}

/// The tree with an item under a known parent.
pub open spec fn grown(
    t: Tree,
    id: Seq<char>,
    parent: Seq<char>,
    name: Seq<char>,
    kind: KindModel,
) -> Tree {
    Tree {
        nodes: t.nodes.insert(id, NodeModel { parent: Some(parent), name, kind }),
        kids: attached(detached(t, id), parent, id),
        root: t.root,
        held: t.held,
    }
}

/// Whether a report puts a known item somewhere else, or calls it otherwise.
pub open spec fn is_move(t: Tree, id: Seq<char>, parent: Seq<char>, name: Seq<char>) -> bool {
    t.nodes.dom().contains(id) && (t.nodes[id].parent != Some(parent) || t.nodes[id].name != name)
}

/// The tree and the changes so far, once an item has been reported.
///
/// A folder is not a change by itself: directories are implied by the paths of
/// the files in them. But a folder that moved changes the path of everything
/// beneath it, and the service will not say so again.
pub open spec fn upserted(
    t: Tree,
    id: Seq<char>,
    parent: Option<Seq<char>>,
    name: Seq<char>,
    kind: KindModel,
    out: Seq<ChangeModel>,
) -> (Tree, Seq<ChangeModel>) {
    if kind is Root {
        (
            Tree {
                nodes: t.nodes.insert(id, NodeModel { parent: None, name, kind }),
                kids: t.kids,
                root: Some(id),
                held: t.held,
            },
            out,
        )
    } else if parent is None || !t.nodes.dom().contains(parent->0) {
        (
            Tree {
                nodes: t.nodes,
                kids: t.kids,
                root: t.root,
                held: t.held.insert(id, ItemModel::Upsert { id, parent, name, kind }),
            },
            out,
        )
    } else {
        let after = grown(t, id, parent->0, name, kind);
        if kind is File {
            match report(after.nodes, id) {
                Some(c) => (after, out.push(c)),
                None => (after, out),
            }
        } else if is_move(t, id, parent->0, name) {
            (
                after,
                sort::arranged::<Change>(
                    out + reports(after.nodes, walk(after.kids, seq![id], Set::empty())),
                ),
            )
        } else {
            (after, out)
        }
    }
}

/// Everything beneath an item, in the order in which a walk meets it.
pub open spec fn beneath(t: Tree, id: Seq<char>) -> Seq<Seq<char>> {
    walk(t.kids, kids_of(t.kids, id), Set::empty())
}

/// The tree once an item and all that stands beneath it have gone.
pub open spec fn pruned(t: Tree, id: Seq<char>) -> Tree {
    let gone = beneath(t, id).to_set().insert(id);
    let kids = t.kids.remove_keys(gone);
    Tree {
        nodes: t.nodes.remove_keys(gone),
        kids: match t.nodes[id].parent {
            Some(p) => if kids.dom().contains(p) {
                kids.insert(p, kids[p].remove(id))
            } else {
                kids
            },
            None => kids,
        },
        root: if t.root == Some(id) {
            None
        } else {
            t.root
        },
        held: t.held.remove(id),
    }
}

/// The tree and the changes so far, once an item has been reported gone.
pub open spec fn deleted(t: Tree, id: Seq<char>, out: Seq<ChangeModel>) -> (
    Tree,
    Seq<ChangeModel>,
) {
    if t.nodes.dom().contains(id) {
        (
            pruned(t, id),
            out + removals(t.nodes, beneath(t, id)) + removals(t.nodes, seq![id]),
        )
    } else {
        (Tree { nodes: t.nodes, kids: t.kids, root: t.root, held: t.held.remove(id) }, out)
    }
}

pub open spec fn applied_one(t: Tree, item: ItemModel, out: Seq<ChangeModel>) -> (
    Tree,
    Seq<ChangeModel>,
) {
    match item {
        ItemModel::Upsert { id, parent, name, kind } => upserted(t, id, parent, name, kind, out),
        ItemModel::Delete { id } => deleted(t, id, out),
    }
}

/// A held item can be replayed once its parent is known.
pub open spec fn is_ready(t: Tree, id: Seq<char>) -> bool {
    t.held.dom().contains(id) && match t.held[id] {
        ItemModel::Upsert { parent: Some(p), .. } => t.nodes.dom().contains(p),
        _ => false,
    }
}

/// The held items that can be replayed, in order of their identities.
pub open spec fn ready(t: Tree) -> Seq<Seq<char>> {
    table::in_key_order::<String>(Set::new(|id: Seq<char>| is_ready(t, id)))
}

/// The tree and the changes so far, once these held items have been replayed.
pub open spec fn replayed(t: Tree, ids: Seq<Seq<char>>, out: Seq<ChangeModel>) -> (
    Tree,
    Seq<ChangeModel>,
)
    decreases ids.len(),
{
    if ids.len() == 0 {
        (t, out)
    } else {
        let (u, o) = replayed(t, ids.drop_last(), out);
        let id = ids.last();
        if u.held.dom().contains(id) {
            let free = Tree {
                nodes: u.nodes,
                kids: u.kids,
                root: u.root,
                held: u.held.remove(id),
            };
            applied_one(free, u.held[id], o)
        } else {
            (u, o)
        }
    }
}

/// The tree and the changes so far, once nothing that is held can be replayed
/// any more. An arrival can unblock items that were waiting for it, and those
/// can unblock others.
pub open spec fn settled(t: Tree, out: Seq<ChangeModel>) -> (Tree, Seq<ChangeModel>)
    decreases t.held.dom().len(),
    when t.wf()
{
    if ready(t).len() == 0 {
        (t, out)
    } else {
        proof {
            lemma_replay_shrinks(t, out);
        }
        let (u, o) = replayed(t, ready(t), out);
        settled(u, o)
    }
}

/// The tree and the changes that one item means.
pub open spec fn applied(t: Tree, item: ItemModel) -> (Tree, Seq<ChangeModel>) {
    let (u, o) = applied_one(t, item, Seq::empty());
    settled(u, o)
}

impl Tree {
    /// What every tree keeps: an item stands beneath its parent, which is
    /// known, and only items of the tree's own kind are held.
    pub open spec fn wf(self) -> bool {
        &&& self.nodes.dom().finite()
        &&& self.kids.dom().finite()
        &&& self.held.dom().finite()
        &&& forall|p: Seq<char>| self.kids.dom().contains(p) ==> (#[trigger] self.kids[p]).finite()
        &&& forall|id: Seq<char>| #[trigger]
            self.held.dom().contains(id) ==> is_held_form(id, self.held[id])
        &&& forall|c: Seq<char>| #[trigger] self.nodes.dom().contains(c) ==> self.is_linked(c)
    }

    pub open spec fn is_linked(self, c: Seq<char>) -> bool {
        match self.nodes[c].parent {
            Some(p) => self.nodes.dom().contains(p) && self.kids.dom().contains(p)
                && self.kids[p].contains(c),
            None => true,
        }
    }
}

pub open spec fn is_held_form(id: Seq<char>, item: ItemModel) -> bool {
    match item {
        ItemModel::Upsert { id: named, kind, .. } => named == id && !(kind is Root),
        ItemModel::Delete { .. } => false,
    }
}

/// Whether what is recorded beneath each item is only what names it as its
/// parent.
pub open spec fn is_mirrored(t: Tree) -> bool {
    forall|p: Seq<char>, c: Seq<char>|
        #![trigger t.kids[p].contains(c)]
        t.kids.dom().contains(p) && t.kids[p].contains(c) ==> t.nodes.dom().contains(c)
            && t.nodes[c].parent == Some(p)
}

/// Whether an item makes a root of one that stands beneath another.
pub open spec fn uproots(t: Tree, item: ItemModel) -> bool {
    match item {
        ItemModel::Upsert { id, kind: KindModel::Root, .. } => t.nodes.dom().contains(id)
            && t.nodes[id].parent is Some,
        _ => false,
    }
}

/// A walk meets what it starts from and everything beneath what it meets.
pub proof fn lemma_walk_closed(
    kids: Map<Seq<char>, Set<Seq<char>>>,
    stack: Seq<Seq<char>>,
    seen: Set<Seq<char>>,
)
    requires
        kids.dom().finite(),
        forall|p: Seq<char>| kids.dom().contains(p) ==> (#[trigger] kids[p]).finite(),
    ensures
        forall|x: Seq<char>| #[trigger]
            stack.contains(x) ==> walk(kids, stack, seen).contains(x) || seen.contains(x),
        forall|x: Seq<char>, k: Seq<char>|
            #![trigger walk(kids, stack, seen).contains(x), kids[x].contains(k)]
            walk(kids, stack, seen).contains(x) && kids.dom().contains(x) && kids[x].contains(k)
                ==> walk(kids, stack, seen).contains(k) || seen.contains(k),
    decreases kids.dom().difference(seen).len(), stack.len(),
{
    let r = walk(kids, stack, seen);
    if stack.len() > 0 {
        let top = stack.last();
        let rest = stack.drop_last();
        lemma_walk_measure(kids, seen, top);
        assert forall|x: Seq<char>| stack.contains(x) implies x == top || #[trigger] rest.contains(
            x,
        ) by {
            let i = choose|i: int| 0 <= i < stack.len() && stack[i] == x;
            if i < rest.len() {
                assert(rest[i] == x);
            }
        }
        if seen.contains(top) {
            lemma_walk_closed(kids, rest, seen);
            assert(r == walk(kids, rest, seen));
            assert forall|x: Seq<char>| #[trigger] stack.contains(x) implies r.contains(x)
                || seen.contains(x) by {
                if x != top {
                    assert(rest.contains(x));
                }
            }
        } else {
            let next = rest + kids_of(kids, top);
            let r2 = walk(kids, next, seen.insert(top));
            lemma_walk_closed(kids, next, seen.insert(top));
            assert(r == seq![top] + r2);
            assert(r[0] == top);
            assert forall|x: Seq<char>| r2.contains(x) implies #[trigger] r.contains(x) by {
                let i = choose|i: int| 0 <= i < r2.len() && r2[i] == x;
                assert(r[i + 1] == x);
            }
            assert forall|x: Seq<char>| #[trigger] r.contains(x) implies x == top || r2.contains(
                x,
            ) by {
                let i = choose|i: int| 0 <= i < r.len() && r[i] == x;
                if i > 0 {
                    assert(r2[i - 1] == x);
                }
            }
            assert forall|x: Seq<char>| #[trigger] stack.contains(x) implies r.contains(x)
                || seen.contains(x) by {
                if x != top {
                    assert(rest.contains(x));
                    let i = choose|i: int| 0 <= i < rest.len() && rest[i] == x;
                    assert(next[i] == x);
                    assert(next.contains(x));
                }
            }
            assert forall|x: Seq<char>, k: Seq<char>|
                #![trigger r.contains(x), kids[x].contains(k)]
                r.contains(x) && kids.dom().contains(x) && kids[x].contains(k) implies r.contains(k)
                || seen.contains(k) by {
                if x == top {
                    table::lemma_in_key_order::<String>(kids[x]);
                    assert(table::in_key_order::<String>(kids[x]).contains(k));
                    let i = choose|i: int|
                        0 <= i < table::in_key_order::<String>(kids[x]).len()
                            && table::in_key_order::<String>(kids[x])[i] == k;
                    assert(next[rest.len() + i] == k);
                    assert(next.contains(k));
                } else {
                    assert(r2.contains(x));
                }
            }
        }
    }
}

/// Reporting an item keeps the tree well formed, and holds it back only if
/// its parent is not known.
pub proof fn lemma_upserted_wf(
    t: Tree,
    id: Seq<char>,
    parent: Option<Seq<char>>,
    name: Seq<char>,
    kind: KindModel,
    out: Seq<ChangeModel>,
)
    requires
        t.wf(),
    ensures
        upserted(t, id, parent, name, kind, out).0.wf(),
        forall|x: Seq<char>| #[trigger]
            t.nodes.dom().contains(x) ==> upserted(
                t,
                id,
                parent,
                name,
                kind,
                out,
            ).0.nodes.dom().contains(x),
        parent is Some && t.nodes.dom().contains(parent->0) ==> upserted(
            t,
            id,
            parent,
            name,
            kind,
            out,
        ).0.held == t.held,
{
    let u = upserted(t, id, parent, name, kind, out).0;
    assert forall|p: Seq<char>| u.kids.dom().contains(p) implies (#[trigger] u.kids[p]).finite() by {
    }
    assert forall|c: Seq<char>| #[trigger] u.nodes.dom().contains(c) implies u.is_linked(c) by {
        if c != id {
            assert(t.nodes.dom().contains(c));
            assert(t.is_linked(c));
        }
    }
    assert forall|i: Seq<char>| #[trigger] u.held.dom().contains(i) implies is_held_form(
        i,
        u.held[i],
    ) by {
        if t.held.dom().contains(i) {
            assert(is_held_form(i, t.held[i]));
        }
    }
}

/// Deleting an item keeps the tree well formed.
pub proof fn lemma_deleted_wf(t: Tree, id: Seq<char>, out: Seq<ChangeModel>)
    requires
        t.wf(),
    ensures
        deleted(t, id, out).0.wf(),
{
    let u = deleted(t, id, out).0;
    if t.nodes.dom().contains(id) {
        let doomed = beneath(t, id);
        let gone = doomed.to_set().insert(id);
        lemma_walk_closed(t.kids, kids_of(t.kids, id), Set::empty());
        assert(u.nodes.dom() =~= t.nodes.dom().difference(gone));
        assert(t.kids.remove_keys(gone).dom() =~= t.kids.dom().difference(gone));
        assert(u.kids.dom() =~= t.kids.dom().difference(gone));
        assert forall|c: Seq<char>| #[trigger] u.nodes.dom().contains(c) implies u.is_linked(c) by {
            assert(t.nodes.dom().contains(c));
            assert(t.is_linked(c));
            if t.nodes[c].parent is Some {
                let p = t.nodes[c].parent->0;
                if p == id {
                    table::lemma_in_key_order::<String>(t.kids[id]);
                    assert(kids_of(t.kids, id).contains(c));
                    assert(doomed.contains(c));
                    assert(gone.contains(c));
                } else if doomed.contains(p) {
                    assert(t.kids[p].contains(c));
                    assert(doomed.contains(c));
                    assert(gone.contains(c));
                }
                assert(!gone.contains(p));
            }
        }
    }
    assert forall|p: Seq<char>| u.kids.dom().contains(p) implies (#[trigger] u.kids[p]).finite() by {
        assert(t.kids[p].finite());
    }
    assert forall|i: Seq<char>| #[trigger] u.held.dom().contains(i) implies is_held_form(
        i,
        u.held[i],
    ) by {
        assert(t.held.dom().contains(i));
    }
}

/// Replaying held items whose parents are known keeps the tree well formed,
/// and each of them is held no longer.
pub proof fn lemma_replayed(t: Tree, ids: Seq<Seq<char>>, out: Seq<ChangeModel>)
    requires
        t.wf(),
        ids.no_duplicates(),
        forall|i: int| 0 <= i < ids.len() ==> is_ready(t, #[trigger] ids[i]),
    ensures
        replayed(t, ids, out).0.wf(),
        replayed(t, ids, out).0.held == t.held.remove_keys(ids.to_set()),
        forall|x: Seq<char>| #[trigger]
            t.nodes.dom().contains(x) ==> replayed(t, ids, out).0.nodes.dom().contains(x),
    decreases ids.len(),
{
    if ids.len() == 0 {
        assert(t.held.remove_keys(ids.to_set()) =~= t.held);
    } else {
        let front = ids.drop_last();
        let id = ids.last();
        assert forall|i: int| 0 <= i < front.len() implies is_ready(t, #[trigger] front[i]) by {
            assert(front[i] == ids[i]);
        }
        lemma_replayed(t, front, out);
        let (u, o) = replayed(t, front, out);
        assert(is_ready(t, ids[ids.len() - 1]));
        assert(!front.to_set().contains(id)) by {
            if front.contains(id) {
                let i = choose|i: int| 0 <= i < front.len() && front[i] == id;
                assert(ids[i] == ids[ids.len() - 1]);
            }
        }
        assert(u.held.dom().contains(id));
        assert(u.held[id] == t.held[id]);
        assert(is_held_form(id, t.held[id]));
        let free = Tree { nodes: u.nodes, kids: u.kids, root: u.root, held: u.held.remove(id) };
        assert(free.wf()) by {
            assert forall|i: Seq<char>| #[trigger] free.held.dom().contains(i) implies is_held_form(
                i,
                free.held[i],
            ) by {
                assert(u.held.dom().contains(i));
            }
            assert forall|c: Seq<char>| #[trigger]
                free.nodes.dom().contains(c) implies free.is_linked(c) by {
                assert(u.is_linked(c));
            }
        }
        match t.held[id] {
            ItemModel::Upsert { id: named, parent, name, kind } => {
                lemma_upserted_wf(free, named, parent, name, kind, o);
                assert(free.nodes.dom().contains(parent->0));
            },
            ItemModel::Delete { .. } => {},
        }
        assert(ids.to_set() =~= front.to_set().insert(id)) by {
            assert forall|x: Seq<char>| ids.to_set().contains(x) == front.to_set().insert(
                id,
            ).contains(x) by {
                if ids.contains(x) {
                    let i = choose|i: int| 0 <= i < ids.len() && ids[i] == x;
                    if i < front.len() {
                        assert(front[i] == x);
                    }
                }
                if front.contains(x) {
                    let i = choose|i: int| 0 <= i < front.len() && front[i] == x;
                    assert(ids[i] == x);
                }
                assert(ids[ids.len() - 1] == id);
            }
        }
        assert(free.held =~= t.held.remove_keys(ids.to_set()));
    }
}

/// The items that are ready, as a set and in order.
pub proof fn lemma_ready(t: Tree)
    requires
        t.wf(),
    ensures
        forall|id: Seq<char>| #[trigger] ready(t).contains(id) <==> is_ready(t, id),
        ready(t).no_duplicates(),
        forall|i: int| 0 <= i < ready(t).len() ==> is_ready(t, #[trigger] ready(t)[i]),
        table::ascending_keys::<String>(ready(t)),
{
    let set = Set::new(|id: Seq<char>| is_ready(t, id));
    assert(set.subset_of(t.held.dom()));
    vstd::set_lib::lemma_set_subset_finite(t.held.dom(), set);
    table::lemma_in_key_order::<String>(set);
    let ids = ready(t);
    assert forall|id: Seq<char>| #[trigger] ids.contains(id) <==> is_ready(t, id) by {
        assert(set.contains(id) <==> is_ready(t, id));
    }
    assert forall|i: int, j: int| 0 <= i < ids.len() && 0 <= j < ids.len() && i != j implies ids[i]
        != ids[j] by {
        text::lemma_before_irreflexive(ids[i]);
        if i < j {
            assert(text::before(ids[i], ids[j]));
        } else {
            assert(text::before(ids[j], ids[i]));
        }
    }
    assert forall|i: int| 0 <= i < ids.len() implies is_ready(t, #[trigger] ids[i]) by {
        assert(ids.contains(ids[i]));
    }
}

/// A round of replaying leaves fewer items held.
pub proof fn lemma_replay_shrinks(t: Tree, out: Seq<ChangeModel>)
    requires
        t.wf(),
    ensures
        replayed(t, ready(t), out).0.wf(),
        ready(t).len() > 0 ==> replayed(t, ready(t), out).0.held.dom().len() < t.held.dom().len(),
{
    lemma_ready(t);
    lemma_replayed(t, ready(t), out);
    let u = replayed(t, ready(t), out).0;
    if ready(t).len() > 0 {
        let id = ready(t)[0];
        assert(is_ready(t, id));
        assert(ready(t).to_set().contains(id)) by {
            assert(ready(t).contains(id));
        }
        assert(u.held.dom() =~= t.held.dom().difference(ready(t).to_set()));
        assert(u.held.dom().subset_of(t.held.dom().remove(id)));
        vstd::set_lib::lemma_len_subset(u.held.dom(), t.held.dom().remove(id));
    }
}

/// Once settled, the tree is well formed and nothing held can be replayed.
pub proof fn lemma_settled(t: Tree, out: Seq<ChangeModel>)
    requires
        t.wf(),
    ensures
        settled(t, out).0.wf(),
        ready(settled(t, out).0).len() == 0,
    decreases t.held.dom().len(),
{
    lemma_replay_shrinks(t, out);
    if ready(t).len() > 0 {
        let (u, o) = replayed(t, ready(t), out);
        lemma_settled(u, o);
    }
}

/// The remote tree as last reported, and the changes it implies.
pub struct Namespace {
    nodes: Table<String, Node>,
    children: Table<String, Table<String, ()>>,
    root: Option<String>,
    orphans: Table<String, Item>,
}

impl Namespace {
    /// What the tree holds.
    pub closed spec fn tree(self) -> Tree {
        Tree {
            nodes: self.nodes@.map_values(|n: Node| n.model()),
            kids: self.children@.map_values(|s: Table<String, ()>| s@.dom()),
            root: text::maybe(self.root),
            held: self.orphans@.map_values(|i: Item| i@),
        }
    }

    /// What every namespace keeps: a well-formed tree, and nothing held whose
    /// parent is known.
    pub open spec fn wf(self) -> bool {
        self.tree().wf() && ready(self.tree()).len() == 0
    }

    pub fn new() -> (n: Self)
        ensures
            n.wf(),
            is_mirrored(n.tree()),
            n.tree() == (Tree {
                nodes: Map::empty(),
                kids: Map::empty(),
                root: None,
                held: Map::empty(),
            }),
    {
        let n = Namespace {
            nodes: Table::new(),
            children: Table::new(),
            root: None,
            orphans: Table::new(),
        };
        proof {
            assert(n.tree().nodes =~= Map::empty());
            assert(n.tree().kids =~= Map::empty());
            assert(n.tree().held =~= Map::empty());
            lemma_ready(n.tree());
            if ready(n.tree()).len() > 0 {
                assert(is_ready(n.tree(), ready(n.tree())[0]));
            }
        }
        n
    }

    /// Apply one item and return the file changes it implies.
    pub fn apply(&mut self, item: Item) -> (out: Vec<Change>)
        requires
            old(self).wf(),
        ensures
            final(self).wf(),
            (final(self).tree(), delta::changes(out@)) == applied(old(self).tree(), item@),
            is_mirrored(old(self).tree()) && !uproots(old(self).tree(), item@) ==> is_mirrored(
                final(self).tree(),
            ),
    {
        let ghost t0 = self.tree();
        proof {
            if is_mirrored(t0) && !uproots(t0, item@) {
                namespace_subtrees::law_what_stands_beneath_is_kept_in_step(t0, item@);
            }
        }
        let mut out: Vec<Change> = Vec::new();
        assert(delta::changes(out@) =~= Seq::empty());
        out = self.apply_into(item, out);
        let ghost first = applied_one(t0, item@, Seq::empty());
        loop
            invariant
                self.tree().wf(),
                settled(first.0, first.1) == settled(self.tree(), delta::changes(out@)),
            ensures
                self.tree().wf(),
                ready(self.tree()).len() == 0,
                settled(first.0, first.1) == (self.tree(), delta::changes(out@)),
            decreases self.tree().held.dom().len(),
        {
            let ids = self.ready_ids();
            let ghost t = self.tree();
            let ghost o = delta::changes(out@);
            if ids.len() == 0 {
                assert(text::texts(ids@).len() == 0);
                break;
            }
            proof {
                lemma_ready(t);
                lemma_replay_shrinks(t, o);
            }
            let mut i: usize = 0;
            assert(text::texts(ids@).take(0) =~= Seq::empty());
            while i < ids.len()
                invariant
                    i <= ids@.len(),
                    text::texts(ids@) == ready(t),
                    t.wf(),
                    self.tree().wf(),
                    (self.tree(), delta::changes(out@)) == replayed(t, ready(t).take(i as int), o),
                decreases ids@.len() - i,
            {
                let ghost next = ready(t).take(i + 1);
                assert(next.drop_last() =~= ready(t).take(i as int));
                assert(next.last() == ids@[i as int]@);
                let ghost u = self.tree();
                let taken = self.orphans.remove(&ids[i]);
                match taken {
                    Some(held) => {
                        proof {
                            let id = ids@[i as int]@;
                            assert(u.held.dom().contains(id));
                            assert(held@ == u.held[id]);
                            assert(self.tree().held =~= u.held.remove(id));
                            assert(self.tree().nodes =~= u.nodes);
                            assert(self.tree().wf()) by {
                                assert forall|c: Seq<char>| #[trigger]
                                    self.tree().nodes.dom().contains(
                                        c,
                                    ) implies self.tree().is_linked(c) by {
                                    assert(u.is_linked(c));
                                }
                            }
                        }
                        out = self.apply_into(held, out);
                    },
                    None => {
                        proof {
                            let id = ids@[i as int]@;
                            assert(!u.held.dom().contains(id));
                            assert(self.tree().held =~= u.held);
                        }
                    },
                }
                i = i + 1;
            }
            proof {
                assert(ready(t).take(i as int) =~= ready(t));
            }
        }
        out
    }

    /// Everything currently known, as a full listing.
    pub fn listing(&self) -> (out: Vec<Change>)
        requires
            self.wf(),
        ensures
            delta::changes(out@) == listed(self.tree()),
    {
        let out: Vec<Change> = Vec::new();
        assert(delta::changes(out@) =~= Seq::empty());
        match &self.root {
            Some(root) => {
                proof {
                    let all = reports(
                        self.tree().nodes,
                        walk(self.tree().kids, seq![root@], Set::empty()),
                    );
                    assert(Seq::<ChangeModel>::empty() + all =~= all);
                }
                self.collect_files(root, out)
            },
            None => out,
        }
    }

    /// How many items are held waiting for a parent that has not arrived.
    pub fn pending(&self) -> (n: usize)
        ensures
            n == self.tree().held.dom().len(),
    {
        let n = self.orphans.len();
        assert(self.tree().held.dom() =~= self.orphans@.dom());
        n
    }

    pub fn is_empty(&self) -> (b: bool)
        ensures
            b == (self.tree().nodes.dom() == Set::<Seq<char>>::empty()),
    {
        let b = self.nodes.is_empty();
        proof {
            assert(self.tree().nodes.dom() =~= self.nodes@.dom());
            if self.nodes@.dom() == Set::<Seq<char>>::empty() {
                assert(self.nodes@ =~= Map::empty());
            }
        }
        b
    }

    fn parent_known(&self, item: &Item) -> (b: bool)
        ensures
            b == match item@ {
                ItemModel::Upsert { parent: Some(p), .. } => self.tree().nodes.dom().contains(p),
                _ => false,
            },
    {
        proof {
            assert(self.tree().nodes.dom() =~= self.nodes@.dom());
        }
        match item {
            Item::Upsert { parent, .. } => match parent {
                Some(p) => self.nodes.contains(p),
                None => false,
            },
            Item::Delete { .. } => false,
        }
    }

    /// The held items whose parents are known, in order.
    fn ready_ids(&self) -> (ids: Vec<String>)
        requires
            self.tree().wf(),
        ensures
            text::texts(ids@) == ready(self.tree()),
    {
        let ghost t = self.tree();
        let n = self.orphans.len();
        let mut ids: Vec<String> = Vec::new();
        let ghost mut from: Seq<int> = Seq::empty();
        let mut i: usize = 0;
        let ghost rows = self.orphans.rows();
        while i < n
            invariant
                i <= n,
                n == rows.len(),
                rows == self.orphans.rows(),
                table::ascending::<String, Item>(rows),
                t == self.tree(),
                from.len() == ids@.len(),
                forall|k: int| 0 <= k < from.len() ==> 0 <= #[trigger] from[k] < i,
                forall|k: int, l: int| 0 <= k < l < from.len() ==> from[k] < from[l],
                forall|k: int|
                    0 <= k < from.len() ==> text::texts(ids@)[k] == rows[#[trigger] from[k]].0,
                forall|k: int| 0 <= k < from.len() ==> is_ready(t, rows[#[trigger] from[k]].0),
                forall|j: int|
                    0 <= j < i && is_ready(t, (#[trigger] rows[j]).0) ==> from.contains(j),
            decreases n - i,
        {
            let id = self.orphans.key_at(i);
            let item = self.orphans.value_at(i);
            assert(t.held.dom().contains(id@));
            assert(t.held[id@] == item@);
            let ghost had = from;
            if self.parent_known(item) {
                ids.push(id.clone());
                proof {
                    from = from.push(i as int);
                    assert forall|j: int| 0 <= j < i + 1 && is_ready(
                        t,
                        (#[trigger] rows[j]).0,
                    ) implies from.contains(j) by {
                        if j < i {
                            let k = choose|k: int| 0 <= k < had.len() && had[k] == j;
                            assert(from[k] == j);
                        } else {
                            assert(from[had.len() as int] == j);
                        }
                    }
                }
            }
            i = i + 1;
        }
        proof {
            let got = text::texts(ids@);
            assert forall|k: int, l: int| 0 <= k < l < got.len() implies text::before(
                #[trigger] got[k],
                #[trigger] got[l],
            ) by {
                assert(String::below(rows[from[k]].0, rows[from[l]].0));
            }
            let set = Set::new(|id: Seq<char>| is_ready(t, id));
            assert forall|id: Seq<char>| got.contains(id) <==> #[trigger] set.contains(id) by {
                if got.contains(id) {
                    let k = choose|k: int| 0 <= k < got.len() && got[k] == id;
                    assert(is_ready(t, rows[from[k]].0));
                }
                if set.contains(id) {
                    assert(is_ready(t, id));
                    assert(self.orphans@.dom().contains(id));
                    let j = table::row_of(rows, id);
                    assert(exists|j: int| 0 <= j < rows.len() && #[trigger] rows[j].0 == id);
                    assert(rows[j].0 == id);
                    assert(from.contains(j));
                    let k = choose|k: int| 0 <= k < from.len() && from[k] == j;
                    assert(got[k] == id);
                }
            }
            table::lemma_key_order_unique::<String>(got, set);
        }
        ids
    }

    fn apply_into(&mut self, item: Item, out: Vec<Change>) -> (r: Vec<Change>)
        requires
            old(self).tree().wf(),
        ensures
            final(self).tree().wf(),
            (final(self).tree(), delta::changes(r@)) == applied_one(
                old(self).tree(),
                item@,
                delta::changes(out@),
            ),
    {
        match item {
            Item::Upsert { id, parent, name, kind } => self.upsert(id, parent, name, kind, out),
            Item::Delete { id } => self.delete(&id, out),
        }
    }

    fn upsert(
        &mut self,
        id: String,
        parent: Option<String>,
        name: String,
        kind: Kind,
        out: Vec<Change>,
    ) -> (r: Vec<Change>)
        requires
            old(self).tree().wf(),
        ensures
            final(self).tree().wf(),
            (final(self).tree(), delta::changes(r@)) == upserted(
                old(self).tree(),
                id@,
                text::maybe(parent),
                name@,
                kind@,
                delta::changes(out@),
            ),
    {
        let ghost t = self.tree();
        let ghost kd = kind@;
        let ghost nm = name@;
        let ghost pr = text::maybe(parent);
        let ghost had = delta::changes(out@);
        proof {
            lemma_upserted_wf(t, id@, pr, nm, kd, had);
            assert(t.nodes.dom() =~= self.nodes@.dom());
        }
        if let Kind::Root = kind {
            self.root = Some(id.clone());
            let ghost i = id@;
            self.nodes.insert(id, Node { parent: None, name, kind: Kind::Root });
            proof {
                assert(self.tree().nodes =~= t.nodes.insert(
                    i,
                    NodeModel { parent: None, name: nm, kind: kd },
                ));
            }
            return out;
        }
        let parent_id = match &parent {
            Some(p) => if self.nodes.contains(p) {
                Some(p.clone())
            } else {
                None
            },
            None => None,
        };
        let parent_id = match parent_id {
            Some(p) => p,
            None => {
                let ghost i = id@;
                self.orphans.insert(id.clone(), Item::Upsert { id, parent, name, kind });
                proof {
                    assert(self.tree().held =~= t.held.insert(
                        i,
                        ItemModel::Upsert { id: i, parent: pr, name: nm, kind: kd },
                    ));
                }
                return out;
            },
        };
        let ghost p = parent_id@;
        assert(pr == Some(p));
        let (moved, old_parent) = match self.nodes.get(&id) {
            Some(prev) => {
                assert(t.nodes[id@] == prev.model());
                let here = match &prev.parent {
                    Some(q) => text::same(q.as_str(), parent_id.as_str()),
                    None => false,
                };
                (
                    !here || !text::same(prev.name.as_str(), name.as_str()),
                    copy_maybe(&prev.parent),
                )
            },
            None => (false, None),
        };
        assert(moved == is_move(t, id@, p, nm));
        if let Some(q) = old_parent {
            let ghost k0 = self.tree().kids;
            let taken = self.children.remove(&q);
            if let Some(mut set) = taken {
                let ghost s0 = set@.dom();
                set.remove(&id);
                let ghost s1 = set@.dom();
                assert(s1 =~= s0.remove(id@));
                let ghost qq = q@;
                self.children.insert(q, set);
                assert(self.tree().kids =~= k0.insert(qq, k0[qq].remove(id@)));
            } else {
                assert(self.tree().kids =~= k0);
            }
        }
        assert(self.tree().kids =~= detached(t, id@));
        let ghost k1 = self.tree().kids;
        let taken = self.children.remove(&parent_id);
        let mut set = match taken {
            Some(s) => s,
            None => Table::new(),
        };
        let ghost s0 = set@.dom();
        set.insert(id.clone(), ());
        assert(set@.dom() =~= s0.insert(id@));
        let ghost s1 = set@.dom();
        self.children.insert(parent_id.clone(), set);
        proof {
            if k1.dom().contains(p) {
                assert(s0 =~= k1[p]);
            } else {
                assert(s1 =~= set![id@]);
            }
            assert(self.tree().kids =~= attached(k1, p, id@));
        }
        self.nodes.insert(id.clone(), Node { parent: Some(parent_id), name, kind: kind.clone() });
        let ghost after = grown(t, id@, p, nm, kd);
        proof {
            assert(self.tree().nodes =~= after.nodes);
            assert(self.tree() =~= after);
        }
        match kind {
            Kind::File { size, ctag } => {
                let mut out = out;
                match self.path_of(&id) {
                    Some(path) => {
                        out.push(Change::Upserted { cloud_id: id, path, size, etag: ctag });
                        proof {
                            assert(delta::changes(out@) =~= had.push(report(after.nodes, id@)->0));
                        }
                    },
                    None => {},
                }
                out
            },
            Kind::Folder => if moved {
                self.collect_files(&id, out)
            } else {
                out
            },
            Kind::Root => out,
        }
    }

    fn delete(&mut self, id: &String, out: Vec<Change>) -> (r: Vec<Change>)
        requires
            old(self).tree().wf(),
        ensures
            final(self).tree().wf(),
            (final(self).tree(), delta::changes(r@)) == deleted(old(self).tree(), id@, delta::changes(out@)),
    {
        let ghost t = self.tree();
        proof {
            lemma_deleted_wf(t, id@, delta::changes(out@));
            assert(t.nodes.dom() =~= self.nodes@.dom());
        }
        let mut out = out;
        let ghost had = delta::changes(out@);
        self.orphans.remove(id);
        assert(self.tree().held =~= t.held.remove(id@));
        let (is_a_file, parent) = match self.nodes.get(id) {
            None => {
                return out;
            },
            Some(node) => {
                assert(t.nodes[id@] == node.model());
                (matches!(node.kind, Kind::File { .. }), copy_maybe(&node.parent))
            },
        };
        let doomed = self.collect_ids(id);
        let ghost ids = text::texts(doomed@);
        assert(ids == beneath(t, id@));
        // Files first, gathered before anything is taken from the tree.
        let mut i: usize = 0;
        assert(had + removals(t.nodes, ids.take(0)) =~= had);
        while i < doomed.len()
            invariant
                i <= doomed@.len(),
                ids == text::texts(doomed@),
                self.tree().nodes == t.nodes,
                self.tree().kids == t.kids,
                self.tree().root == t.root,
                self.tree().held == t.held.remove(id@),
                delta::changes(out@) == had + removals(t.nodes, ids.take(i as int)),
            decreases doomed@.len() - i,
        {
            let ghost next = ids.take(i + 1);
            assert(next.drop_last() =~= ids.take(i as int));
            assert(next.last() == doomed@[i as int]@);
            assert(t.nodes.dom() =~= self.nodes@.dom());
            let ghost sofar = delta::changes(out@);
            if let Some(n) = self.nodes.get(&doomed[i]) {
                assert(t.nodes[next.last()] == n.model());
                if let Kind::File { .. } = n.kind {
                    out.push(Change::Removed { cloud_id: doomed[i].clone() });
                    proof {
                        let c = ChangeModel::Removed { cloud_id: next.last() };
                        assert(delta::changes(out@) =~= sofar.push(c));
                        assert(delta::changes(out@) =~= had + removals(t.nodes, next));
                    }
                }
            }
            i = i + 1;
        }
        assert(ids.take(i as int) =~= ids);
        let ghost most = delta::changes(out@);
        proof {
            let one = seq![id@];
            assert(one.drop_last() =~= Seq::<Seq<char>>::empty());
            assert(one.last() == id@);
            assert(removals(t.nodes, one.drop_last()) =~= Seq::empty());
        }
        if is_a_file {
            out.push(Change::Removed { cloud_id: id.clone() });
            proof {
                let c = ChangeModel::Removed { cloud_id: id@ };
                assert(removals(t.nodes, seq![id@]) =~= seq![c]);
                assert(delta::changes(out@) =~= most.push(c));
            }
        } else {
            assert(delta::changes(out@) =~= most + removals(t.nodes, seq![id@]));
        }
        assert(delta::changes(out@) =~= had + removals(t.nodes, ids) + removals(t.nodes, seq![id@]));
        let mut i: usize = 0;
        proof {
            assert(t.nodes.remove_keys(ids.take(0).to_set()) =~= t.nodes);
            assert(t.kids.remove_keys(ids.take(0).to_set()) =~= t.kids);
        }
        while i < doomed.len()
            invariant
                i <= doomed@.len(),
                ids == text::texts(doomed@),
                self.tree().nodes == t.nodes.remove_keys(ids.take(i as int).to_set()),
                self.tree().kids == t.kids.remove_keys(ids.take(i as int).to_set()),
                self.tree().root == t.root,
                self.tree().held == t.held.remove(id@),
            decreases doomed@.len() - i,
        {
            let ghost was = self.tree();
            let ghost x = ids[i as int];
            self.nodes.remove(&doomed[i]);
            self.children.remove(&doomed[i]);
            proof {
                lemma_take_set(ids, i as int);
                assert(self.tree().nodes =~= was.nodes.remove(x));
                assert(self.tree().kids =~= was.kids.remove(x));
                assert(self.tree().nodes =~= t.nodes.remove_keys(ids.take(i + 1).to_set()));
                assert(self.tree().kids =~= t.kids.remove_keys(ids.take(i + 1).to_set()));
            }
            i = i + 1;
        }
        let ghost was = self.tree();
        let ghost gone = ids.to_set().insert(id@);
        self.nodes.remove(id);
        self.children.remove(id);
        proof {
            assert(self.tree().nodes =~= was.nodes.remove(id@));
            assert(self.tree().kids =~= was.kids.remove(id@));
            assert(self.tree().nodes =~= t.nodes.remove_keys(gone));
            assert(self.tree().kids =~= t.kids.remove_keys(gone));
        }
        let ghost k1 = self.tree().kids;
        if let Some(p) = parent {
            let taken = self.children.remove(&p);
            if let Some(mut set) = taken {
                let ghost s0 = set@.dom();
                set.remove(id);
                assert(set@.dom() =~= s0.remove(id@));
                let ghost pp = p@;
                self.children.insert(p, set);
                assert(self.tree().kids =~= k1.insert(pp, k1[pp].remove(id@)));
            } else {
                assert(self.tree().kids =~= k1);
            }
        }
        let was_root = match &self.root {
            Some(r) => text::same(r.as_str(), id.as_str()),
            None => false,
        };
        if was_root {
            self.root = None;
        }
        proof {
            assert(self.tree() =~= pruned(t, id@));
        }
        out
    }

    /// Every file at or beneath `id`, at its current path, sorted in with the
    /// changes so far.
    fn collect_files(&self, id: &String, out: Vec<Change>) -> (r: Vec<Change>)
        requires
            self.tree().wf(),
        ensures
            delta::changes(r@) == sort::arranged::<Change>(
                delta::changes(out@) + reports(
                    self.tree().nodes,
                    walk(self.tree().kids, seq![id@], Set::empty()),
                ),
            ),
    {
        let ghost t = self.tree();
        let mut out = out;
        let ghost had = delta::changes(out@);
        let mut stack: Vec<String> = Vec::new();
        stack.push(id.clone());
        assert(text::texts(stack@) =~= seq![id@]);
        let visited = self.visit(stack);
        let ghost ids = text::texts(visited@);
        let mut i: usize = 0;
        assert(had + reports(t.nodes, ids.take(0)) =~= had);
        while i < visited.len()
            invariant
                i <= visited@.len(),
                ids == text::texts(visited@),
                t == self.tree(),
                delta::changes(out@) == had + reports(t.nodes, ids.take(i as int)),
            decreases visited@.len() - i,
        {
            let ghost next = ids.take(i + 1);
            assert(next.drop_last() =~= ids.take(i as int));
            assert(next.last() == visited@[i as int]@);
            assert(t.nodes.dom() =~= self.nodes@.dom());
            let ghost sofar = delta::changes(out@);
            if let Some(node) = self.nodes.get(&visited[i]) {
                assert(t.nodes[next.last()] == node.model());
                if let Kind::File { size, ctag } = &node.kind {
                    if let Some(path) = self.path_of(&visited[i]) {
                        out.push(
                            Change::Upserted {
                                cloud_id: visited[i].clone(),
                                path,
                                size: *size,
                                etag: copy_maybe(ctag),
                            },
                        );
                        proof {
                            let c = report(t.nodes, next.last())->0;
                            assert(delta::changes(out@) =~= sofar.push(c));
                            assert(delta::changes(out@) =~= had + reports(t.nodes, next));
                        }
                    }
                }
            }
            i = i + 1;
        }
        assert(ids.take(i as int) =~= ids);
        // Shallowest first, so that a caller creating directories as it goes
        // sees parents before children.
        let ghost flat = out@;
        let r = sort::arrange(out);
        proof {
            assert(sort::models(flat) =~= delta::changes(flat));
            assert(sort::models(r@) =~= delta::changes(r@));
        }
        r
    }

    /// Every item beneath `id`.
    fn collect_ids(&self, id: &String) -> (ids: Vec<String>)
        requires
            self.tree().wf(),
        ensures
            text::texts(ids@) == beneath(self.tree(), id@),
    {
        let mut stack: Vec<String> = Vec::new();
        assert(text::texts(stack@) =~= Seq::empty());
        assert(self.tree().kids.dom() =~= self.children@.dom());
        if let Some(set) = self.children.get(id) {
            stack = Self::push_keys(stack, set);
        }
        assert(text::texts(stack@) =~= kids_of(self.tree().kids, id@));
        self.visit(stack)
    }

    fn push_keys(stack: Vec<String>, set: &Table<String, ()>) -> (r: Vec<String>)
        ensures
            text::texts(r@) == text::texts(stack@) + table::in_key_order::<String>(set@.dom()),
    {
        let mut stack = stack;
        let ghost had = text::texts(stack@);
        let ghost keys = table::keys_of(set.rows());
        let n = set.len();
        let mut i: usize = 0;
        assert(had + keys.take(0) =~= had);
        while i < n
            invariant
                i <= n,
                n == set.rows().len(),
                keys == table::keys_of(set.rows()),
                text::texts(stack@) == had + keys.take(i as int),
            decreases n - i,
        {
            let ghost sofar = text::texts(stack@);
            let k = set.key_at(i);
            stack.push(k.clone());
            i = i + 1;
            proof {
                assert(text::texts(stack@) =~= sofar.push(k@));
                assert(keys[i - 1] == k@);
                assert(keys.take(i as int) =~= keys.take(i - 1).push(k@));
            }
        }
        assert(keys.take(i as int) =~= keys);
        stack
    }

    /// Walk depth first from the items on the stack.
    fn visit(&self, stack: Vec<String>) -> (out: Vec<String>)
        requires
            self.tree().wf(),
        ensures
            text::texts(out@) == walk(self.tree().kids, text::texts(stack@), Set::empty()),
    {
        let ghost kids = self.tree().kids;
        let ghost start = text::texts(stack@);
        let mut stack = stack;
        let mut seen: Table<String, ()> = Table::new();
        let mut out: Vec<String> = Vec::new();
        proof {
            assert(seen@.dom() =~= Set::empty());
            assert(text::texts(out@) + walk(kids, start, Set::empty()) =~= walk(
                kids,
                start,
                Set::empty(),
            ));
        }
        while stack.len() > 0
            invariant
                kids == self.tree().kids,
                kids.dom().finite(),
                walk(kids, start, Set::empty()) == text::texts(out@) + walk(
                    kids,
                    text::texts(stack@),
                    seen@.dom(),
                ),
            decreases kids.dom().difference(seen@.dom()).len(), stack@.len(),
        {
            let ghost before = text::texts(stack@);
            let ghost marks = seen@.dom();
            let ghost sofar = text::texts(out@);
            let top = match stack.pop() {
                Some(top) => top,
                None => {
                    return out;
                },
            };
            let ghost rest = text::texts(stack@);
            let ghost x = top@;
            proof {
                assert(before.last() == x);
                assert(before.drop_last() =~= rest);
                lemma_walk_measure(kids, marks, x);
            }
            let known = seen.insert(top.clone(), ()).is_some();
            assert(seen@.dom() =~= marks.insert(x));
            if known {
                assert(marks.insert(x) =~= marks);
                continue;
            }
            assert(kids.dom() =~= self.children@.dom());
            if let Some(set) = self.children.get(&top) {
                stack = Self::push_keys(stack, set);
            }
            proof {
                assert(text::texts(stack@) =~= rest + kids_of(kids, x));
            }
            out.push(top);
            proof {
                assert(text::texts(out@) =~= sofar.push(x));
                let more = walk(kids, text::texts(stack@), seen@.dom());
                assert(sofar + (seq![x] + more) =~= sofar.push(x) + more);
            }
        }
        assert(text::texts(stack@) =~= Seq::empty());
        assert(text::texts(out@) + Seq::empty() =~= text::texts(out@));
        out
    }

    /// The root-relative path of an item, or `None` if the chain is broken or
    /// deeper than any real one.
    fn path_of(&self, id: &String) -> (r: Option<String>)
        ensures
            text::maybe(r) == path_of(self.tree().nodes, id@),
    {
        let ghost nodes = self.tree().nodes;
        let mut names: Vec<String> = Vec::new();
        let mut cur: String = id.clone();
        let mut left: usize = MAX_DEPTH;
        let ghost whole = trail(nodes, id@, MAX_DEPTH as nat);
        proof {
            let t = trail(nodes, cur@, left as nat);
            if t is Some {
                assert(t->0 + text::texts(names@) =~= t->0);
            }
        }
        while left > 0
            invariant
                nodes == self.tree().nodes,
                whole == trail(nodes, id@, MAX_DEPTH as nat),
                whole == match trail(nodes, cur@, left as nat) {
                    Some(t) => Some(t + text::texts(names@)),
                    None => None,
                },
            decreases left,
        {
            assert(nodes.dom() =~= self.nodes@.dom());
            let node = match self.nodes.get(&cur) {
                Some(node) => node,
                None => {
                    return None;
                },
            };
            assert(nodes[cur@] == node.model());
            if let Kind::Root = node.kind {
                let path = text::join_with(&names, "/");
                proof {
                    reveal_strlit("/");
                    assert("/"@ =~= seq!['/']);
                    assert(Seq::<Seq<char>>::empty() + text::texts(names@) =~= text::texts(names@));
                }
                return Some(path);
            }
            let up = match &node.parent {
                Some(p) => p.clone(),
                None => {
                    return None;
                },
            };
            let ghost had = text::texts(names@);
            names.insert(0, node.name.clone());
            proof {
                assert(text::texts(names@) =~= seq![node.name@] + had);
                let t = trail(nodes, up@, (left - 1) as nat);
                if t is Some {
                    assert(t->0.push(node.name@) + had =~= t->0 + text::texts(names@));
                }
            }
            cur = up;
            left = left - 1;
        }
        None
    }
}

/// Every file of the tree at its current path, shallowest first.
pub open spec fn listed(t: Tree) -> Seq<ChangeModel> {
    match t.root {
        Some(root) => sort::arranged::<Change>(
            reports(t.nodes, walk(t.kids, seq![root], Set::empty())),
        ),
        None => Seq::empty(),
    }
}

proof fn lemma_take_set(s: Seq<Seq<char>>, i: int)
    requires
        0 <= i < s.len(),
    ensures
        s.take(i + 1).to_set() == s.take(i).to_set().insert(s[i]),
{
    let a = s.take(i + 1);
    let b = s.take(i);
    assert(a =~= b.push(s[i]));
    assert forall|x: Seq<char>| a.to_set().contains(x) == b.to_set().insert(s[i]).contains(x) by {
        if a.contains(x) {
            let k = choose|k: int| 0 <= k < a.len() && a[k] == x;
            if k < i {
                assert(b[k] == x);
            }
        }
        if b.contains(x) {
            let k = choose|k: int| 0 <= k < b.len() && b[k] == x;
            assert(a[k] == x);
        }
        assert(a[i] == s[i]);
    }
    assert(a.to_set() =~= b.to_set().insert(s[i]));
}

} // verus!
