//! Ordered tables: maps and sets whose rows stay sorted by key.

use crate::text::{self, Place};
use vstd::prelude::*;

verus! {

/// A type whose values can serve as keys, compared through a model on which a
/// strict total order is given.
pub trait Key: Sized {
    type M;

    spec fn model(&self) -> Self::M;

    spec fn below(a: Self::M, b: Self::M) -> bool;

    proof fn below_irreflexive(a: Self::M)
        ensures
            !Self::below(a, a),
    ;

    proof fn below_transitive(a: Self::M, b: Self::M, c: Self::M)
        requires
            Self::below(a, b),
            Self::below(b, c),
        ensures
            Self::below(a, c),
    ;

    proof fn below_total(a: Self::M, b: Self::M)
        ensures
            a == b || Self::below(a, b) || Self::below(b, a),
    ;

    fn locate(&self, other: &Self) -> (p: Place)
        ensures
            p == (if self.model() == other.model() {
                Place::Same
            } else if Self::below(self.model(), other.model()) {
                Place::Before
            } else {
                Place::After
            }),
    ;

    fn duplicate(&self) -> (k: Self)
        ensures
            k.model() == self.model(),
    ;
}

impl Key for String {
    type M = Seq<char>;

    open spec fn model(&self) -> Seq<char> {
        self@
    }

    open spec fn below(a: Seq<char>, b: Seq<char>) -> bool {
        text::before(a, b)
    }

    proof fn below_irreflexive(a: Seq<char>) {
        text::lemma_before_irreflexive(a);
    }

    proof fn below_transitive(a: Seq<char>, b: Seq<char>, c: Seq<char>) {
        text::lemma_before_transitive(a, b, c);
    }

    proof fn below_total(a: Seq<char>, b: Seq<char>) {
        text::lemma_before_total(a, b);
    }

    fn locate(&self, other: &String) -> (p: Place) {
        text::compare(self.as_str(), other.as_str())
    }

    fn duplicate(&self) -> (k: String) {
        self.clone()
    }
}

impl Key for u32 {
    type M = u32;

    open spec fn model(&self) -> u32 {
        *self
    }

    open spec fn below(a: u32, b: u32) -> bool {
        a < b
    }

    proof fn below_irreflexive(a: u32) {
    }

    proof fn below_transitive(a: u32, b: u32, c: u32) {
    }

    proof fn below_total(a: u32, b: u32) {
    }

    fn locate(&self, other: &u32) -> (p: Place) {
        if *self == *other {
            Place::Same
        } else if *self < *other {
            Place::Before
        } else {
            Place::After
        }
    }

    fn duplicate(&self) -> (k: u32) {
        *self
    }
}

impl Key for u64 {
    type M = u64;

    open spec fn model(&self) -> u64 {
        *self
    }

    open spec fn below(a: u64, b: u64) -> bool {
        a < b
    }

    proof fn below_irreflexive(a: u64) {
    }

    proof fn below_transitive(a: u64, b: u64, c: u64) {
    }

    proof fn below_total(a: u64, b: u64) {
    }

    fn locate(&self, other: &u64) -> (p: Place) {
        if *self == *other {
            Place::Same
        } else if *self < *other {
            Place::Before
        } else {
            Place::After
        }
    }

    fn duplicate(&self) -> (k: u64) {
        *self
    }
}

impl Key for i32 {
    type M = i32;

    open spec fn model(&self) -> i32 {
        *self
    }

    open spec fn below(a: i32, b: i32) -> bool {
        a < b
    }

    proof fn below_irreflexive(a: i32) {
    }

    proof fn below_transitive(a: i32, b: i32, c: i32) {
    }

    proof fn below_total(a: i32, b: i32) {
    }

    fn locate(&self, other: &i32) -> (p: Place) {
        if *self == *other {
            Place::Same
        } else if *self < *other {
            Place::Before
        } else {
            Place::After
        }
    }

    fn duplicate(&self) -> (k: i32) {
        *self
    }
}

/// Which file an event names: the filesystem it lives on and its inode there.
#[derive(Debug, Clone, Copy, PartialEq, Eq, Structural, Hash, PartialOrd, Ord)]
pub struct FileId {
    pub fsid: u64,
    pub ino: u64,
}

impl Key for FileId {
    type M = FileId;

    open spec fn model(&self) -> FileId {
        *self
    }

    open spec fn below(a: FileId, b: FileId) -> bool {
        a.fsid < b.fsid || (a.fsid == b.fsid && a.ino < b.ino)
    }

    proof fn below_irreflexive(a: FileId) {
    }

    proof fn below_transitive(a: FileId, b: FileId, c: FileId) {
    }

    proof fn below_total(a: FileId, b: FileId) {
    }

    fn locate(&self, other: &FileId) -> (p: Place) {
        if self.fsid == other.fsid && self.ino == other.ino {
            Place::Same
        } else if self.fsid < other.fsid || (self.fsid == other.fsid && self.ino < other.ino) {
            Place::Before
        } else {
            Place::After
        }
    }

    fn duplicate(&self) -> (k: FileId) {
        *self
    }
}

/// The map that a list of rows stands for.
pub open spec fn map_of<M, V>(rows: Seq<(M, V)>) -> Map<M, V> {
    Map::new(
        |m: M| exists|i: int| 0 <= i < rows.len() && #[trigger] rows[i].0 == m,
        |m: M| rows[row_of(rows, m)].1,
    )
}

/// Some row with this key.
pub open spec fn row_of<M, V>(rows: Seq<(M, V)>, m: M) -> int {
    choose|i: int| 0 <= i < rows.len() && #[trigger] rows[i].0 == m
}

/// Rows in strictly ascending order of their keys.
pub open spec fn ascending<K: Key, V>(rows: Seq<(K::M, V)>) -> bool {
    forall|i: int, j: int|
        0 <= i < j < rows.len() ==> K::below(#[trigger] rows[i].0, #[trigger] rows[j].0)
}

/// A map kept as rows in ascending order of their keys.
pub struct Table<K: Key, V> {
    entries: Vec<(K, V)>,
}

pub open spec fn models<K: Key, V>(entries: Seq<(K, V)>) -> Seq<(K::M, V)> {
    entries.map_values(|e: (K, V)| (e.0.model(), e.1))
}

impl<K: Key, V> View for Table<K, V> {
    type V = Map<K::M, V>;

    open spec fn view(&self) -> Map<K::M, V> {
        map_of(self.rows())
    }
}

/// In ascending rows a key stands at one place only.
pub proof fn lemma_row<K: Key, V>(rows: Seq<(K::M, V)>, i: int)
    requires
        ascending::<K, V>(rows),
        0 <= i < rows.len(),
    ensures
        row_of(rows, rows[i].0) == i,
        map_of(rows).dom().contains(rows[i].0),
        map_of(rows)[rows[i].0] == rows[i].1,
{
    let m = rows[i].0;
    let k = row_of(rows, m);
    assert(0 <= k < rows.len() && rows[k].0 == m);
    if k < i {
        assert(K::below(rows[k].0, rows[i].0));
        K::below_irreflexive(m);
    } else if i < k {
        assert(K::below(rows[i].0, rows[k].0));
        K::below_irreflexive(m);
    }
}

/// The rows of a table are as many as its keys.
pub proof fn lemma_rows_len<K: Key, V>(rows: Seq<(K::M, V)>)
    requires
        ascending::<K, V>(rows),
    ensures
        map_of(rows).dom().finite(),
        map_of(rows).dom().len() == rows.len(),
    decreases rows.len(),
{
    if rows.len() == 0 {
        assert(map_of(rows).dom() =~= Set::empty());
    } else {
        let front = rows.drop_last();
        let last = rows.last().0;
        lemma_rows_len::<K, V>(front);
        assert forall|m: K::M| #[trigger] map_of(rows).dom().contains(m) == map_of(front).dom().insert(
            last,
        ).contains(m) by {
            if map_of(rows).dom().contains(m) {
                let i = choose|i: int| 0 <= i < rows.len() && #[trigger] rows[i].0 == m;
                if i < front.len() {
                    assert(front[i].0 == m);
                }
            }
            if map_of(front).dom().contains(m) {
                let i = choose|i: int| 0 <= i < front.len() && #[trigger] front[i].0 == m;
                assert(rows[i].0 == m);
            }
            assert(rows[rows.len() - 1].0 == last);
        }
        assert(map_of(rows).dom() =~= map_of(front).dom().insert(last));
        if map_of(front).dom().contains(last) {
            let i = choose|i: int| 0 <= i < front.len() && #[trigger] front[i].0 == last;
            assert(K::below(rows[i].0, rows[rows.len() - 1].0));
            K::below_irreflexive(last);
        }
    }
}

/// A map has one ascending list of rows only.
pub proof fn lemma_rows_unique<K: Key, V>(a: Seq<(K::M, V)>, b: Seq<(K::M, V)>)
    requires
        ascending::<K, V>(a),
        ascending::<K, V>(b),
        map_of(a) == map_of(b),
    ensures
        a == b,
{
    lemma_rows_len::<K, V>(a);
    lemma_rows_len::<K, V>(b);
    lemma_rows_prefix::<K, V>(a, b, a.len() as int);
    assert(a =~= b);
}

proof fn lemma_rows_prefix<K: Key, V>(a: Seq<(K::M, V)>, b: Seq<(K::M, V)>, n: int)
    requires
        ascending::<K, V>(a),
        ascending::<K, V>(b),
        map_of(a) == map_of(b),
        a.len() == b.len(),
        0 <= n <= a.len(),
    ensures
        forall|i: int| 0 <= i < n ==> a[i] == b[i],
    decreases n,
{
    if n > 0 {
        lemma_rows_prefix::<K, V>(a, b, n - 1);
        let k = n - 1;
        lemma_row::<K, V>(a, k);
        lemma_row::<K, V>(b, k);
        // The key that stands at `k` in one list stands no earlier in the other.
        let p = choose|p: int| 0 <= p < b.len() && #[trigger] b[p].0 == a[k].0;
        let q = choose|q: int| 0 <= q < a.len() && #[trigger] a[q].0 == b[k].0;
        assert(map_of(b).dom().contains(a[k].0));
        assert(map_of(a).dom().contains(b[k].0));
        if p < k {
            assert(K::below(a[p].0, a[k].0));
            K::below_irreflexive(a[k].0);
        }
        if q < k {
            assert(K::below(b[q].0, b[k].0));
            K::below_irreflexive(b[k].0);
        }
        if p > k {
            assert(K::below(b[k].0, b[p].0));
            if q > k {
                assert(K::below(a[k].0, a[q].0));
                K::below_transitive(a[k].0, b[k].0, a[k].0);
                K::below_irreflexive(a[k].0);
            }
        }
        lemma_row::<K, V>(b, p);
    }
}

/// Keys in strictly ascending order.
pub open spec fn ascending_keys<K: Key>(keys: Seq<K::M>) -> bool {
    forall|i: int, j: int|
        0 <= i < j < keys.len() ==> K::below(#[trigger] keys[i], #[trigger] keys[j])
}

/// The members of a set of keys, in ascending order.
pub open spec fn in_key_order<K: Key>(keys: Set<K::M>) -> Seq<K::M> {
    choose|s: Seq<K::M>| ascending_keys::<K>(s) && #[trigger] s.to_set() == keys
}

/// The keys of a list of rows.
pub open spec fn keys_of<M, V>(rows: Seq<(M, V)>) -> Seq<M> {
    rows.map_values(|r: (M, V)| r.0)
}

/// A key put in its place among ascending ones.
spec fn key_placed<K: Key>(keys: Seq<K::M>, m: K::M) -> Seq<K::M>
    decreases keys.len(),
{
    if keys.len() == 0 {
        seq![m]
    } else if K::below(m, keys[0]) {
        seq![m] + keys
    } else {
        seq![keys[0]] + key_placed::<K>(keys.drop_first(), m)
    }
}

proof fn lemma_key_placed<K: Key>(keys: Seq<K::M>, m: K::M)
    requires
        ascending_keys::<K>(keys),
        !keys.contains(m),
    ensures
        ascending_keys::<K>(key_placed::<K>(keys, m)),
        key_placed::<K>(keys, m).to_set() == keys.to_set().insert(m),
        forall|x: K::M| #[trigger]
            key_placed::<K>(keys, m).contains(x) <==> keys.contains(x) || x == m,
    decreases keys.len(),
{
    let r = key_placed::<K>(keys, m);
    if keys.len() == 0 {
        assert(r =~= seq![m]);
        assert(r[0] == m);
    } else if K::below(m, keys[0]) {
        assert forall|i: int, j: int| 0 <= i < j < r.len() implies K::below(
            #[trigger] r[i],
            #[trigger] r[j],
        ) by {
            if i > 0 {
                assert(r[i] == keys[i - 1] && r[j] == keys[j - 1]);
            } else if j > 1 {
                assert(r[j] == keys[j - 1]);
                K::below_transitive(m, keys[0], keys[j - 1]);
            }
        }
        assert forall|x: K::M| #[trigger] r.contains(x) <==> keys.contains(x) || x == m by {
            if keys.contains(x) {
                let i = choose|i: int| 0 <= i < keys.len() && keys[i] == x;
                assert(r[i + 1] == x);
            }
            assert(r[0] == m);
        }
    } else {
        let rest = keys.drop_first();
        assert forall|i: int, j: int| 0 <= i < j < rest.len() implies K::below(
            #[trigger] rest[i],
            #[trigger] rest[j],
        ) by {
            assert(rest[i] == keys[i + 1] && rest[j] == keys[j + 1]);
        }
        if rest.contains(m) {
            let i = choose|i: int| 0 <= i < rest.len() && rest[i] == m;
            assert(keys[i + 1] == m);
        }
        lemma_key_placed::<K>(rest, m);
        let p = key_placed::<K>(rest, m);
        K::below_total(m, keys[0]);
        assert(keys[0] != m) by {
            assert(keys.contains(keys[0]));
        }
        assert forall|i: int, j: int| 0 <= i < j < r.len() implies K::below(
            #[trigger] r[i],
            #[trigger] r[j],
        ) by {
            if i > 0 {
                assert(r[i] == p[i - 1] && r[j] == p[j - 1]);
            } else {
                let x = p[j - 1];
                assert(r[j] == x);
                assert(p.contains(x));
                if x != m {
                    let k = choose|k: int| 0 <= k < rest.len() && rest[k] == x;
                    assert(keys[k + 1] == x);
                }
            }
        }
        assert forall|x: K::M| #[trigger] r.contains(x) <==> keys.contains(x) || x == m by {
            if r.contains(x) {
                let i = choose|i: int| 0 <= i < r.len() && r[i] == x;
                if i > 0 {
                    assert(p[i - 1] == x);
                    assert(p.contains(x));
                    if rest.contains(x) {
                        let k = choose|k: int| 0 <= k < rest.len() && rest[k] == x;
                        assert(keys[k + 1] == x);
                    }
                } else {
                    assert(keys[0] == x);
                }
            }
            if keys.contains(x) || x == m {
                if keys.contains(x) {
                    let k = choose|k: int| 0 <= k < keys.len() && keys[k] == x;
                    if k == 0 {
                        assert(r[0] == x);
                    } else {
                        assert(rest[k - 1] == x);
                        assert(p.contains(x));
                        let i = choose|i: int| 0 <= i < p.len() && p[i] == x;
                        assert(r[i + 1] == x);
                    }
                } else {
                    assert(p.contains(x));
                    let i = choose|i: int| 0 <= i < p.len() && p[i] == x;
                    assert(r[i + 1] == x);
                }
            }
        }
    }
    assert(r.to_set() =~= keys.to_set().insert(m));
}

/// A finite set of keys has an ascending order.
pub proof fn lemma_in_key_order<K: Key>(keys: Set<K::M>)
    requires
        keys.finite(),
    ensures
        ascending_keys::<K>(in_key_order::<K>(keys)),
        in_key_order::<K>(keys).to_set() == keys,
        forall|m: K::M| #[trigger] in_key_order::<K>(keys).contains(m) <==> keys.contains(m),
{
    lemma_key_order_exists::<K>(keys);
    let s = in_key_order::<K>(keys);
    assert forall|m: K::M| #[trigger] s.contains(m) <==> keys.contains(m) by {
        assert(s.to_set().contains(m) <==> s.contains(m));
    }
}

proof fn lemma_key_order_exists<K: Key>(keys: Set<K::M>)
    requires
        keys.finite(),
    ensures
        exists|s: Seq<K::M>| ascending_keys::<K>(s) && #[trigger] s.to_set() == keys,
    decreases keys.len(),
{
    if keys.len() == 0 {
        let s = Seq::<K::M>::empty();
        assert(s.to_set() =~= keys);
        assert(ascending_keys::<K>(s));
    } else {
        let m = keys.choose();
        lemma_key_order_exists::<K>(keys.remove(m));
        let s = choose|s: Seq<K::M>|
            ascending_keys::<K>(s) && #[trigger] s.to_set() == keys.remove(m);
        assert(!s.contains(m)) by {
            assert(s.to_set().contains(m) <==> s.contains(m));
        }
        lemma_key_placed::<K>(s, m);
        assert(key_placed::<K>(s, m).to_set() =~= keys);
    }
}

/// The keys of ascending rows are the map's keys in ascending order.
pub proof fn lemma_keys_of<K: Key, V>(rows: Seq<(K::M, V)>)
    requires
        ascending::<K, V>(rows),
    ensures
        keys_of(rows) == in_key_order::<K>(map_of(rows).dom()),
{
    let keys = keys_of(rows);
    let dom = map_of(rows).dom();
    assert forall|i: int, j: int| 0 <= i < j < keys.len() implies K::below(
        #[trigger] keys[i],
        #[trigger] keys[j],
    ) by {
        assert(keys[i] == rows[i].0 && keys[j] == rows[j].0);
    }
    assert forall|m: K::M| keys.to_set().contains(m) == dom.contains(m) by {
        if keys.contains(m) {
            let i = choose|i: int| 0 <= i < keys.len() && keys[i] == m;
            assert(rows[i].0 == m);
        }
        if dom.contains(m) {
            let i = choose|i: int| 0 <= i < rows.len() && #[trigger] rows[i].0 == m;
            assert(keys[i] == m);
        }
    }
    assert(keys.to_set() =~= dom);
    let other = in_key_order::<K>(dom);
    assert(ascending_keys::<K>(other) && other.to_set() == dom);
    let a = keys.map_values(|m: K::M| (m, ()));
    let b = other.map_values(|m: K::M| (m, ()));
    assert(ascending::<K, ()>(a));
    assert(ascending::<K, ()>(b));
    assert forall|m: K::M| map_of(a).dom().contains(m) == map_of(b).dom().contains(m) by {
        assert(keys.to_set().contains(m) == keys.contains(m));
        assert(other.to_set().contains(m) == other.contains(m));
        if map_of(a).dom().contains(m) {
            let i = choose|i: int| 0 <= i < a.len() && #[trigger] a[i].0 == m;
            assert(keys[i] == m);
            let j = choose|j: int| 0 <= j < other.len() && other[j] == m;
            assert(b[j].0 == m);
        }
        if map_of(b).dom().contains(m) {
            let i = choose|i: int| 0 <= i < b.len() && #[trigger] b[i].0 == m;
            assert(other[i] == m);
            let j = choose|j: int| 0 <= j < keys.len() && keys[j] == m;
            assert(a[j].0 == m);
        }
    }
    assert(map_of(a) =~= map_of(b));
    lemma_rows_unique::<K, ()>(a, b);
    assert forall|i: int| 0 <= i < keys.len() implies keys[i] == other[i] by {
        assert(a[i] == b[i]);
        assert(a[i].0 == keys[i]);
        assert(b[i].0 == other[i]);
    }
    assert(a.len() == keys.len() && b.len() == other.len());
    assert(keys =~= other);
}

/// A set of keys has one ascending order only.
pub proof fn lemma_key_order_unique<K: Key>(s: Seq<K::M>, keys: Set<K::M>)
    requires
        ascending_keys::<K>(s),
        forall|m: K::M| s.contains(m) <==> #[trigger] keys.contains(m),
    ensures
        s == in_key_order::<K>(keys),
{
    let rows = s.map_values(|m: K::M| (m, ()));
    assert(ascending::<K, ()>(rows));
    assert forall|m: K::M| map_of(rows).dom().contains(m) == keys.contains(m) by {
        if map_of(rows).dom().contains(m) {
            let i = choose|i: int| 0 <= i < rows.len() && #[trigger] rows[i].0 == m;
            assert(s[i] == m);
            assert(s.contains(m));
        }
        if keys.contains(m) {
            let i = choose|i: int| 0 <= i < s.len() && s[i] == m;
            assert(rows[i].0 == m);
        }
    }
    assert(map_of(rows).dom() =~= keys);
    lemma_keys_of::<K, ()>(rows);
    assert(keys_of(rows) =~= s);
}

impl<K: Key, V> Table<K, V> {
    /// The rows of the table, in ascending order of their keys.
    pub closed spec fn rows(self) -> Seq<(K::M, V)> {
        models(self.entries@)
    }

    #[verifier::type_invariant]
    spec fn inv(self) -> bool {
        ascending::<K, V>(self.rows())
    }

    pub fn new() -> (t: Self)
        ensures
            t.rows() == Seq::<(K::M, V)>::empty(),
            t@ == Map::<K::M, V>::empty(),
    {
        let t = Table { entries: Vec::new() };
        assert(t.rows() =~= Seq::empty());
        assert(t@ =~= Map::empty());
        t
    }

    pub fn len(&self) -> (n: usize)
        ensures
            n == self.rows().len(),
            n == self@.dom().len(),
            self@.dom().finite(),
            ascending::<K, V>(self.rows()),
            keys_of(self.rows()) == in_key_order::<K>(self@.dom()),
    {
        proof {
            use_type_invariant(self);
            lemma_rows_len::<K, V>(self.rows());
            lemma_keys_of::<K, V>(self.rows());
        }
        self.entries.len()
    }

    pub fn is_empty(&self) -> (b: bool)
        ensures
            b == (self@ == Map::<K::M, V>::empty()),
            b == (self.rows().len() == 0),
    {
        proof {
            use_type_invariant(self);
            lemma_rows_len::<K, V>(self.rows());
            if self.rows().len() == 0 {
                assert(self@ =~= Map::empty());
            }
        }
        self.entries.len() == 0
    }

    /// Where the key stands, or where it would be put.
    fn search(&self, key: &K) -> (r: (usize, bool))
        ensures
            r.0 <= self.entries@.len(),
            forall|i: int| 0 <= i < r.0 ==> K::below(#[trigger] self.rows()[i].0, key.model()),
            r.1 ==> r.0 < self.entries@.len() && self.rows()[r.0 as int].0 == key.model(),
            !r.1 ==> forall|i: int|
                r.0 <= i < self.rows().len() ==> K::below(key.model(), #[trigger] self.rows()[i].0),
    {
        proof {
            use_type_invariant(self);
        }
        let ghost rows = self.rows();
        let ghost m = key.model();
        let mut lo: usize = 0;
        let mut hi: usize = self.entries.len();
        while lo < hi
            invariant
                lo <= hi <= self.entries@.len(),
                rows == self.rows(),
                rows.len() == self.entries@.len(),
                m == key.model(),
                ascending::<K, V>(rows),
                forall|i: int| 0 <= i < lo ==> K::below(#[trigger] rows[i].0, m),
                forall|i: int| hi <= i < rows.len() ==> K::below(m, #[trigger] rows[i].0),
            decreases hi - lo,
        {
            let mid: usize = lo + (hi - lo) / 2;
            let place = key.locate(&self.entries[mid].0);
            assert(rows[mid as int].0 == self.entries@[mid as int].0.model());
            proof {
                assert forall|i: int| 0 <= i < mid && !(place is Before) implies K::below(
                    #[trigger] rows[i].0,
                    m,
                ) by {
                    K::below_total(rows[mid as int].0, m);
                    if K::below(rows[mid as int].0, m) {
                        K::below_transitive(rows[i].0, rows[mid as int].0, m);
                    }
                }
                assert forall|i: int| mid < i < rows.len() && place is Before implies K::below(
                    m,
                    #[trigger] rows[i].0,
                ) by {
                    K::below_transitive(m, rows[mid as int].0, rows[i].0);
                }
            }
            match place {
                Place::Same => {
                    return (mid, true);
                },
                Place::Before => {
                    hi = mid;
                },
                Place::After => {
                    proof {
                        K::below_total(rows[mid as int].0, m);
                    }
                    lo = mid + 1;
                },
            }
        }
        (lo, false)
    }

    pub fn get(&self, key: &K) -> (r: Option<&V>)
        ensures
            r is Some <==> self@.dom().contains(key.model()),
            r matches Some(v) ==> *v == self@[key.model()],
    {
        proof {
            use_type_invariant(self);
        }
        let (at, found) = self.search(key);
        if found {
            proof {
                lemma_row::<K, V>(self.rows(), at as int);
            }
            Some(&self.entries[at].1)
        } else {
            proof {
                assert forall|i: int| 0 <= i < self.rows().len() implies #[trigger] self.rows()[i].0
                    != key.model() by {
                    K::below_irreflexive(key.model());
                }
            }
            None
        }
    }

    pub fn contains(&self, key: &K) -> (b: bool)
        ensures
            b == self@.dom().contains(key.model()),
    {
        self.get(key).is_some()
    }

    /// The key of the row at this place.
    pub fn key_at(&self, i: usize) -> (k: &K)
        requires
            i < self.rows().len(),
        ensures
            k.model() == self.rows()[i as int].0,
            self@.dom().contains(k.model()),
    {
        proof {
            use_type_invariant(self);
            lemma_row::<K, V>(self.rows(), i as int);
        }
        &self.entries[i].0
    }

    /// The value of the row at this place.
    pub fn value_at(&self, i: usize) -> (v: &V)
        requires
            i < self.rows().len(),
        ensures
            *v == self.rows()[i as int].1,
            self@[self.rows()[i as int].0] == *v,
    {
        proof {
            use_type_invariant(self);
            lemma_row::<K, V>(self.rows(), i as int);
        }
        &self.entries[i].1
    }

    /// Put a value under a key, in place of what stood there.
    pub fn insert(&mut self, key: K, value: V) -> (replaced: Option<V>)
        ensures
            final(self)@ == old(self)@.insert(key.model(), value),
            replaced is Some <==> old(self)@.dom().contains(key.model()),
            replaced matches Some(v) ==> v == old(self)@[key.model()],
    {
        proof {
            use_type_invariant(&*self);
        }
        let ghost before = self.rows();
        let ghost m = key.model();
        let (at, found) = self.search(&key);
        let mut entries: Vec<(K, V)> = Vec::new();
        std::mem::swap(&mut self.entries, &mut entries);
        let replaced = if found {
            let row = entries.remove(at);
            Some(row.1)
        } else {
            None
        };
        entries.insert(at, (key, value));
        let ghost after = models(entries@);
        proof {
            if found {
                assert(after =~= before.update(at as int, (m, value)));
                lemma_row::<K, V>(before, at as int);
            } else {
                assert(after =~= before.insert(at as int, (m, value)));
                assert forall|i: int| 0 <= i < before.len() implies #[trigger] before[i].0 != m by {
                    K::below_irreflexive(m);
                }
            }
            assert(ascending::<K, V>(after));
            assert(after[at as int] == (m, value));
            lemma_row::<K, V>(after, at as int);
            assert forall|k: K::M| #[trigger] map_of(after).dom().contains(k) == map_of(
                before,
            ).dom().insert(m).contains(k) by {
                if map_of(after).dom().contains(k) && k != m {
                    let i = choose|i: int| 0 <= i < after.len() && #[trigger] after[i].0 == k;
                    if i < at || found {
                        assert(before[i].0 == k);
                    } else {
                        assert(before[i - 1].0 == k);
                    }
                }
                if map_of(before).dom().contains(k) && k != m {
                    let i = choose|i: int| 0 <= i < before.len() && #[trigger] before[i].0 == k;
                    if i < at || found {
                        assert(after[i].0 == k);
                    } else {
                        assert(after[i + 1].0 == k);
                    }
                }
            }
            assert forall|k: K::M| k != m && #[trigger] map_of(before).dom().contains(k) implies map_of(
                after,
            )[k] == map_of(before)[k] by {
                let i = choose|i: int| 0 <= i < before.len() && #[trigger] before[i].0 == k;
                lemma_row::<K, V>(before, i);
                if i < at || found {
                    assert(after[i] == before[i]);
                    lemma_row::<K, V>(after, i);
                } else {
                    assert(after[i + 1] == before[i]);
                    lemma_row::<K, V>(after, i + 1);
                }
            }
            assert(map_of(after).dom() =~= map_of(before).insert(m, value).dom());
            assert(map_of(after) =~= map_of(before).insert(m, value));
        }
        self.entries = entries;
        replaced
    }

    /// Take a key out, and hand back what stood there.
    pub fn remove(&mut self, key: &K) -> (removed: Option<V>)
        ensures
            final(self)@ == old(self)@.remove(key.model()),
            removed is Some <==> old(self)@.dom().contains(key.model()),
            removed matches Some(v) ==> v == old(self)@[key.model()],
    {
        proof {
            use_type_invariant(&*self);
        }
        let ghost before = self.rows();
        let ghost m = key.model();
        let (at, found) = self.search(key);
        if !found {
            proof {
                assert forall|i: int| 0 <= i < before.len() implies #[trigger] before[i].0 != m by {
                    K::below_irreflexive(m);
                }
                assert(map_of(before) =~= map_of(before).remove(m));
            }
            return None;
        }
        let mut entries: Vec<(K, V)> = Vec::new();
        std::mem::swap(&mut self.entries, &mut entries);
        let row = entries.remove(at);
        let ghost after = models(entries@);
        proof {
            assert(after =~= before.remove(at as int));
            lemma_row::<K, V>(before, at as int);
            assert forall|i: int| 0 <= i < after.len() implies #[trigger] after[i].0 != m by {
                let j = if i < at {
                    i
                } else {
                    i + 1
                };
                assert(after[i] == before[j]);
                lemma_row::<K, V>(before, j);
            }
            assert forall|k: K::M| k != m && #[trigger] map_of(before).dom().contains(k) implies map_of(
                after,
            ).dom().contains(k) && map_of(after)[k] == map_of(before)[k] by {
                let i = choose|i: int| 0 <= i < before.len() && #[trigger] before[i].0 == k;
                lemma_row::<K, V>(before, i);
                let j = if i < at {
                    i
                } else {
                    i - 1
                };
                assert(after[j] == before[i]);
                lemma_row::<K, V>(after, j);
            }
            assert forall|k: K::M| #[trigger] map_of(after).dom().contains(k) implies map_of(
                before,
            ).dom().contains(k) by {
                let i = choose|i: int| 0 <= i < after.len() && #[trigger] after[i].0 == k;
                let j = if i < at {
                    i
                } else {
                    i + 1
                };
                assert(before[j].0 == k);
            }
            assert(map_of(after) =~= map_of(before).remove(m));
        }
        self.entries = entries;
        Some(row.1)
    }

    /// Take every row out.
    pub fn clear(&mut self)
        ensures
            final(self)@ == Map::<K::M, V>::empty(),
            final(self).rows() == Seq::<(K::M, V)>::empty(),
    {
        self.entries = Vec::new();
        assert(self.rows() =~= Seq::empty());
        assert(self@ =~= Map::empty());
    }
}

/// A set of keys, put in order, has each of its members once.
pub proof fn law_each_key_comes_once<K: Key>(keys: Set<K::M>)
    requires
        keys.finite(),
    ensures
        in_key_order::<K>(keys).no_duplicates(),
        in_key_order::<K>(keys).len() == keys.len(),
{
    lemma_in_key_order::<K>(keys);
    let s = in_key_order::<K>(keys);
    assert forall|i: int, j: int| 0 <= i < s.len() && 0 <= j < s.len() && i != j implies s[i]
        != s[j] by {
        K::below_irreflexive(s[i]);
        if i < j {
            assert(K::below(s[i], s[j]));
        } else {
            assert(K::below(s[j], s[i]));
        }
    }
    s.unique_seq_to_set();
}

/// In which order keys come: texts as in a dictionary, numbers from the least, and
/// files by their filesystem and then by their inode.
pub proof fn law_in_which_order_keys_come(
    texts: Set<Seq<char>>,
    numbers: Set<u64>,
    cookies: Set<u32>,
    files: Set<FileId>,
    i: int,
    j: int,
)
    requires
        texts.finite(),
        numbers.finite(),
        cookies.finite(),
        files.finite(),
        0 <= i < j,
    ensures
        j < in_key_order::<String>(texts).len() ==> text::before(
            in_key_order::<String>(texts)[i],
            in_key_order::<String>(texts)[j],
        ),
        j < in_key_order::<u64>(numbers).len() ==> in_key_order::<u64>(numbers)[i] < in_key_order::<
            u64,
        >(numbers)[j],
        j < in_key_order::<u32>(cookies).len() ==> in_key_order::<u32>(cookies)[i] < in_key_order::<
            u32,
        >(cookies)[j],
        j < in_key_order::<FileId>(files).len() ==> {
            let a = in_key_order::<FileId>(files)[i];
            let b = in_key_order::<FileId>(files)[j];
            a.fsid <= b.fsid && (a.fsid == b.fsid ==> a.ino < b.ino)
        },
{
    lemma_in_key_order::<String>(texts);
    lemma_in_key_order::<u64>(numbers);
    lemma_in_key_order::<u32>(cookies);
    lemma_in_key_order::<FileId>(files);
}

} // verus!
