//! Paths as text: what they are made of, and what stays inside a root.

use crate::text;
use vstd::prelude::*;
use vstd::string::*;

verus! {

/// One part of a path.
#[derive(Debug, PartialEq, Eq)]
pub enum Part {
    /// The leading `/`.
    Root,
    /// A leading `.`.
    Here,
    /// A `..`.
    Up,
    /// An ordinary name.
    Name(String),
}

/// A part, over texts.
#[verifier::ext_equal]
pub enum PartModel {
    Root,
    Here,
    Up,
    Name(Seq<char>),
}

impl View for Part {
    type V = PartModel;

    open spec fn view(&self) -> PartModel {
        match *self {
            Part::Root => PartModel::Root,
            Part::Here => PartModel::Here,
            Part::Up => PartModel::Up,
            Part::Name(n) => PartModel::Name(n@),
        }
    }
}

pub open spec fn is_absolute(s: Seq<char>) -> bool {
    s.len() > 0 && s[0] == '/'
}

/// The part that a piece between separators stands for. An empty piece is no
/// part, and neither is a `.` that does not lead the path.
pub open spec fn part(piece: Seq<char>, leading: bool) -> Option<PartModel> {
    if piece.len() == 0 {
        None
    } else if piece == seq!['.'] {
        if leading {
            Some(PartModel::Here)
        } else {
            None
        }
    } else if piece == seq!['.', '.'] {
        Some(PartModel::Up)
    } else {
        Some(PartModel::Name(piece))
    }
}

pub open spec fn parts_from(pieces: Seq<Seq<char>>, relative: bool) -> Seq<PartModel>
    decreases pieces.len(),
{
    if pieces.len() == 0 {
        Seq::empty()
    } else {
        let before = parts_from(pieces.drop_last(), relative);
        match part(pieces.last(), relative && pieces.len() == 1) {
            Some(p) => before.push(p),
            None => before,
        }
    }
}

/// What a path is made of.
pub open spec fn parts(s: Seq<char>) -> Seq<PartModel> {
    let pieces = text::split(s, '/');
    if is_absolute(s) {
        seq![PartModel::Root] + parts_from(pieces, false)
    } else {
        parts_from(pieces, true)
    }
}

/// Whether a path lies at or below another, part by part.
pub open spec fn starts_with(path: Seq<char>, base: Seq<char>) -> bool {
    parts(base).is_prefix_of(parts(path))
}

/// A relative path put below another.
pub open spec fn joined(root: Seq<char>, rel: Seq<char>) -> Seq<char> {
    if root.len() == 0 || root.last() == '/' {
        root + rel
    } else {
        root + seq!['/'] + rel
    }
}

/// Whether a path is made of ordinary names alone.
pub open spec fn is_plain(s: Seq<char>) -> bool {
    forall|i: int| 0 <= i < parts(s).len() ==> (#[trigger] parts(s)[i]) is Name
}

/// The first piece at or behind `i` that is a part, or the number of pieces.
pub open spec fn real_from(pieces: Seq<Seq<char>>, relative: bool, i: int) -> int
    decreases pieces.len() - i,
{
    if i < 0 || i >= pieces.len() {
        pieces.len() as int
    } else if part(pieces[i], relative && i == 0) is Some {
        i
    } else {
        real_from(pieces, relative, i + 1)
    }
}

/// The piece that is the `k`th part, counting from none, or the number of
/// pieces.
pub open spec fn nth_real(pieces: Seq<Seq<char>>, relative: bool, k: nat) -> int
    decreases k,
{
    if k == 0 {
        real_from(pieces, relative, 0)
    } else {
        real_from(pieces, relative, nth_real(pieces, relative, (k - 1) as nat) + 1)
    }
}

/// The last piece before `n` that is a part, or -1.
pub open spec fn real_before(pieces: Seq<Seq<char>>, relative: bool, n: int) -> int
    decreases n,
{
    if n <= 0 || n > pieces.len() {
        -1
    } else if part(pieces[n - 1], relative && n == 1) is Some {
        n - 1
    } else {
        real_before(pieces, relative, n - 1)
    }
}

/// The text of a path behind its first `k` parts, without separators at its
/// end.
pub open spec fn behind(path: Seq<char>, k: nat) -> Seq<char> {
    let pieces = text::split(path, '/');
    let relative = !is_absolute(path);
    let last = real_before(pieces, relative, pieces.len() as int);
    if k == 0 {
        if !relative && last < 0 {
            seq!['/']
        } else {
            text::join(pieces.take(last + 1), seq!['/'])
        }
    } else {
        let first = nth_real(pieces, relative, if relative {
            k
        } else {
            (k - 1) as nat
        });
        if first > last {
            Seq::empty()
        } else {
            text::join(pieces.subrange(first, last + 1), seq!['/'])
        }
    }
}

/// A path below a root, as text relative to it; nothing for a path that is
/// not below the root.
pub open spec fn relative_to(root: Seq<char>, path: Seq<char>) -> Option<Seq<char>> {
    if starts_with(path, root) {
        Some(behind(path, parts(root).len()))
    } else {
        None
    }
}

/// The path one part up, for a path that ends in a part other than the root.
pub open spec fn parent_of(path: Seq<char>) -> Option<Seq<char>> {
    let pieces = text::split(path, '/');
    let relative = !is_absolute(path);
    let last = real_before(pieces, relative, pieces.len() as int);
    if last < 0 {
        None
    } else {
        let up = real_before(pieces, relative, last);
        if up < 0 && !relative {
            Some(seq!['/'])
        } else {
            Some(text::join(pieces.take(up + 1), seq!['/']))
        }
    }
}

/// The parts that a list holds, over texts.
pub open spec fn part_models(v: Seq<Part>) -> Seq<PartModel> {
    v.map_values(|p: Part| p@)
}

pub fn absolute(s: &str) -> (r: bool)
    ensures
        r == is_absolute(s@),
{
    let chars = text::chars_of(s);
    chars.len() > 0 && chars[0] == '/'
}

fn part_of(piece: &str, leading: bool) -> (r: Option<Part>)
    ensures
        match r {
            Some(p) => Some(p@),
            None => None,
        } == part(piece@, leading),
{
    proof {
        reveal_strlit(".");
        reveal_strlit("..");
        assert("."@ =~= seq!['.']);
        assert(".."@ =~= seq!['.', '.']);
    }
    if piece.is_empty() {
        None
    } else if text::same(piece, ".") {
        if leading {
            Some(Part::Here)
        } else {
            None
        }
    } else if text::same(piece, "..") {
        Some(Part::Up)
    } else {
        Some(Part::Name(piece.to_owned()))
    }
}

/// Take a path apart.
pub fn parts_of(s: &str) -> (out: Vec<Part>)
    ensures
        part_models(out@) == parts(s@),
{
    let pieces = text::split_at(s, '/');
    let rooted = absolute(s);
    let mut out: Vec<Part> = Vec::new();
    if rooted {
        out.push(Part::Root);
    }
    let ghost head = part_models(out@);
    let ghost all = text::texts(pieces@);
    let mut i: usize = 0;
    assert(head + parts_from(all.take(0), !rooted) =~= head);
    while i < pieces.len()
        invariant
            i <= pieces@.len(),
            all == text::texts(pieces@),
            part_models(out@) == head + parts_from(all.take(i as int), !rooted),
        decreases pieces@.len() - i,
    {
        let ghost next = all.take(i + 1);
        assert(next.drop_last() =~= all.take(i as int));
        assert(next.last() == pieces@[i as int]@);
        let ghost sofar = part_models(out@);
        if let Some(p) = part_of(pieces[i].as_str(), !rooted && i == 0) {
            let ghost m = p@;
            out.push(p);
            proof {
                assert(part_models(out@) =~= sofar.push(m));
                assert(part_models(out@) =~= head + parts_from(next, !rooted));
            }
        }
        i = i + 1;
    }
    proof {
        assert(all.take(i as int) =~= all);
        if rooted {
            assert(head =~= seq![PartModel::Root]);
        } else {
            assert(head + parts_from(all, true) =~= parts_from(all, true));
        }
    }
    out
}

fn same_part(a: &Part, b: &Part) -> (r: bool)
    ensures
        r == (a@ == b@),
{
    match (a, b) {
        (Part::Root, Part::Root) => true,
        (Part::Here, Part::Here) => true,
        (Part::Up, Part::Up) => true,
        (Part::Name(x), Part::Name(y)) => text::same(x.as_str(), y.as_str()),
        _ => false,
    }
}

/// Whether two texts name the same path, part by part.
pub fn same_path(a: &str, b: &str) -> (r: bool)
    ensures
        r == (parts(a@) == parts(b@)),
{
    let x = parts_of(a);
    let y = parts_of(b);
    assert(parts(a@).len() == x@.len() && parts(b@).len() == y@.len());
    if x.len() != y.len() {
        return false;
    }
    let ghost pa = parts(a@);
    let ghost pb = parts(b@);
    let mut i: usize = 0;
    while i < x.len()
        invariant
            i <= x@.len() == y@.len(),
            pa == part_models(x@),
            pb == part_models(y@),
            pa == parts(a@),
            pb == parts(b@),
            forall|j: int| 0 <= j < i ==> pa[j] == pb[j],
        decreases x@.len() - i,
    {
        if !same_part(&x[i], &y[i]) {
            assert(pa[i as int] != pb[i as int]);
            return false;
        }
        assert(pa[i as int] == pb[i as int]);
        i = i + 1;
    }
    assert(pa =~= pb);
    true
}

/// Whether a path lies at or below another, part by part.
pub fn lies_under(path: &str, base: &str) -> (r: bool)
    ensures
        r == starts_with(path@, base@),
{
    let a = parts_of(path);
    let b = parts_of(base);
    if b.len() > a.len() {
        return false;
    }
    let ghost pa = parts(path@);
    let ghost pb = parts(base@);
    let mut i: usize = 0;
    while i < b.len()
        invariant
            i <= b@.len() <= a@.len(),
            pa == part_models(a@),
            pb == part_models(b@),
            pa == parts(path@),
            pb == parts(base@),
            forall|j: int| 0 <= j < i ==> pa[j] == pb[j],
        decreases b@.len() - i,
    {
        if !same_part(&a[i], &b[i]) {
            assert(pa[i as int] != pb[i as int]);
            assert(pb.is_prefix_of(pa) ==> pa.subrange(0, pb.len() as int)[i as int]
                == pb[i as int]);
            return false;
        }
        assert(pa[i as int] == pb[i as int]);
        i = i + 1;
    }
    assert(pa.subrange(0, pb.len() as int) =~= pb);
    true
}

/// Put a relative path below another.
pub fn join(root: &str, rel: &str) -> (out: String)
    ensures
        out@ == joined(root@, rel@),
{
    let chars = text::chars_of(root);
    let mut out = root.to_owned();
    if chars.len() > 0 && chars[chars.len() - 1] != '/' {
        out.push('/');
        assert(out@ =~= root@ + seq!['/']);
    }
    out.append(rel);
    out
}

fn find_real_from(pieces: &Vec<String>, relative: bool, i: usize) -> (r: usize)
    requires
        i <= pieces@.len(),
    ensures
        r == real_from(text::texts(pieces@), relative, i as int),
        r <= pieces@.len(),
    decreases pieces@.len() - i,
{
    let ghost all = text::texts(pieces@);
    if i >= pieces.len() {
        return pieces.len();
    }
    assert(all[i as int] == pieces@[i as int]@);
    if part_of(pieces[i].as_str(), relative && i == 0).is_some() {
        i
    } else {
        find_real_from(pieces, relative, i + 1)
    }
}

/// One more than the place of the last part before `n`, or none.
fn find_real_before(pieces: &Vec<String>, relative: bool, n: usize) -> (r: usize)
    requires
        n <= pieces@.len(),
    ensures
        r - 1 == real_before(text::texts(pieces@), relative, n as int),
        r <= n,
    decreases n,
{
    let ghost all = text::texts(pieces@);
    if n == 0 {
        return 0;
    }
    assert(all[n - 1] == pieces@[n - 1]@);
    if part_of(pieces[n - 1].as_str(), relative && n == 1).is_some() {
        n
    } else {
        find_real_before(pieces, relative, n - 1)
    }
}

proof fn lemma_real_bounds(pieces: Seq<Seq<char>>, relative: bool, i: int)
    requires
        0 <= i,
    ensures
        i < pieces.len() ==> i <= real_from(pieces, relative, i) <= pieces.len(),
        i >= pieces.len() ==> real_from(pieces, relative, i) == pieces.len(),
    decreases pieces.len() - i,
{
    if i < pieces.len() && part(pieces[i], relative && i == 0) is None {
        lemma_real_bounds(pieces, relative, i + 1);
    }
}

fn pieces_between(pieces: &Vec<String>, from: usize, to: usize) -> (out: String)
    requires
        from <= to <= pieces@.len(),
    ensures
        out@ == text::join(text::texts(pieces@).subrange(from as int, to as int), seq!['/']),
{
    let mut some: Vec<String> = Vec::new();
    let mut i: usize = from;
    while i < to
        invariant
            from <= i <= to <= pieces@.len(),
            text::texts(some@) == text::texts(pieces@).subrange(from as int, i as int),
        decreases to - i,
    {
        let ghost had = text::texts(some@);
        some.push(pieces[i].clone());
        proof {
            assert(text::texts(some@) =~= had.push(pieces@[i as int]@));
            assert(text::texts(some@) =~= text::texts(pieces@).subrange(from as int, i + 1));
        }
        i = i + 1;
    }
    proof {
        reveal_strlit("/");
        assert("/"@ =~= seq!['/']);
    }
    text::join_with(&some, "/")
}

/// A path below a root, as text relative to it; `None` for a path that is not
/// below the root.
pub fn relative(root: &str, path: &str) -> (r: Option<String>)
    ensures
        text::maybe(r) == relative_to(root@, path@),
{
    if !lies_under(path, root) {
        return None;
    }
    let k = parts_of(root).len();
    let rooted = absolute(path);
    let pieces = text::split_at(path, '/');
    let ghost all = text::texts(pieces@);
    let end = find_real_before(&pieces, !rooted, pieces.len());
    if k == 0 {
        if rooted && end == 0 {
            let r = "/".to_owned();
            proof {
                reveal_strlit("/");
                assert(r@ =~= seq!['/']);
            }
            return Some(r);
        }
        assert(all.subrange(0, end as int) =~= all.take(end as int));
        return Some(pieces_between(&pieces, 0, end));
    }
    let skip: usize = if rooted {
        k - 1
    } else {
        k
    };
    let mut at: usize = find_real_from(&pieces, !rooted, 0);
    let mut i: usize = 0;
    while i < skip
        invariant
            i <= skip,
            all == text::texts(pieces@),
            at <= pieces@.len(),
            at == nth_real(all, !rooted, i as nat),
        decreases skip - i,
    {
        proof {
            lemma_real_bounds(all, !rooted, at + 1);
        }
        at = if at < pieces.len() {
            find_real_from(&pieces, !rooted, at + 1)
        } else {
            at
        };
        i = i + 1;
    }
    if at >= end {
        let r = String::new();
        return Some(r);
    }
    Some(pieces_between(&pieces, at, end))
}

/// The path one part up; `None` for a path that has no part but the root.
pub fn parent(path: &str) -> (r: Option<String>)
    ensures
        text::maybe(r) == parent_of(path@),
{
    let rooted = absolute(path);
    let pieces = text::split_at(path, '/');
    let ghost all = text::texts(pieces@);
    let end = find_real_before(&pieces, !rooted, pieces.len());
    if end == 0 {
        return None;
    }
    let up = find_real_before(&pieces, !rooted, end - 1);
    if up == 0 && rooted {
        let r = "/".to_owned();
        proof {
            reveal_strlit("/");
            assert(r@ =~= seq!['/']);
        }
        return Some(r);
    }
    assert(all.subrange(0, up as int) =~= all.take(up as int));
    Some(pieces_between(&pieces, 0, up))
}

proof fn lemma_parts_append(p: Seq<Seq<char>>, q: Seq<Seq<char>>, relative: bool)
    requires
        p.len() > 0,
    ensures
        parts_from(p + q, relative) == parts_from(p, relative) + parts_from(q, false),
    decreases q.len(),
{
    if q.len() == 0 {
        assert(p + q =~= p);
        assert(parts_from(p, relative) + parts_from(q, false) =~= parts_from(p, relative));
    } else {
        lemma_parts_append(p, q.drop_last(), relative);
        let all = p + q;
        assert(all.drop_last() =~= p + q.drop_last());
        assert(all.last() == q.last());
        match part(q.last(), false) {
            Some(x) => {
                assert(parts_from(p, relative) + parts_from(q.drop_last(), false).push(x)
                    =~= (parts_from(p, relative) + parts_from(q.drop_last(), false)).push(x));
            },
            None => {},
        }
    }
}

proof fn lemma_parts_leading(pieces: Seq<Seq<char>>)
    requires
        pieces.len() > 0,
        forall|i: int|
            0 <= i < parts_from(pieces, true).len() ==> (#[trigger] parts_from(pieces, true)[i])
                is Name,
    ensures
        parts_from(pieces, true) == parts_from(pieces, false),
    decreases pieces.len(),
{
    let front = pieces.drop_last();
    let all = parts_from(pieces, true);
    let before = parts_from(front, true);
    assert forall|i: int| 0 <= i < before.len() implies (#[trigger] before[i]) is Name by {
        assert(all[i] == before[i]);
    }
    if front.len() > 0 {
        lemma_parts_leading(front);
    } else {
        assert(part(pieces.last(), true) is Some ==> all[0] == part(pieces.last(), true)->0);
        assert(parts_from(front, false) =~= before);
    }
}

/// A plain relative path put below a root lies below it, and adds its own
/// names and no other part.
pub proof fn law_a_plain_path_stays_below_its_root(root: Seq<char>, rel: Seq<char>)
    requires
        is_plain(rel),
        !is_absolute(rel),
    ensures
        parts(joined(root, rel)) == parts(root) + parts(rel),
        starts_with(joined(root, rel), root),
{
    let q = text::split(rel, '/');
    text::lemma_position(rel, '/');
    assert(q.len() > 0);
    assert(parts(rel) == parts_from(q, true));
    lemma_parts_leading(q);
    let whole = joined(root, rel);
    if root.len() == 0 {
        assert(whole =~= rel);
        text::lemma_split_whole(root, '/');
        assert(text::split(root, '/') =~= seq![root]);
        assert(seq![root].drop_last() =~= Seq::<Seq<char>>::empty());
        assert(parts_from(Seq::<Seq<char>>::empty(), true) =~= Seq::empty());
        assert(seq![root].last() == root);
        assert(parts_from(seq![root], true) =~= Seq::empty());
        assert(parts(root) + parts(rel) =~= parts(rel));
    } else {
        let base = if root.last() == '/' {
            root.drop_last()
        } else {
            root
        };
        let relative = !is_absolute(root);
        let p = text::split(base, '/');
        text::lemma_position(base, '/');
        assert(p.len() > 0);
        assert(whole =~= base + seq!['/'] + rel);
        assert(whole[0] == root[0]);
        text::lemma_split_append(base, '/', rel);
        lemma_parts_append(p, q, relative);
        if root.last() == '/' {
            let none = Seq::<char>::empty();
            assert(root =~= base + seq!['/'] + none);
            text::lemma_split_append(base, '/', none);
            text::lemma_split_whole(none, '/');
            lemma_parts_append(p, seq![none], relative);
            assert(seq![none].drop_last() =~= Seq::<Seq<char>>::empty());
            assert(parts_from(Seq::<Seq<char>>::empty(), false) =~= Seq::empty());
            assert(seq![none].last() == none);
            assert(parts_from(seq![none], false) =~= Seq::empty());
            assert(parts_from(p, relative) + Seq::empty() =~= parts_from(p, relative));
        }
        if !relative {
            assert(seq![PartModel::Root] + (parts_from(p, false) + parts_from(q, false))
                =~= seq![PartModel::Root] + parts_from(p, false) + parts_from(q, false));
        }
    }
    assert(parts(whole).subrange(0, parts(root).len() as int) =~= parts(root));
}

/// What the pieces of a path are like.
pub proof fn lemma_split_pieces(s: Seq<char>)
    ensures
        text::split(s, '/').len() > 0,
        forall|i: int|
            0 <= i < text::split(s, '/').len() ==> !(#[trigger] text::split(s, '/')[i]).contains(
                '/',
            ),
        is_absolute(s) ==> text::split(s, '/').len() > 1,
        is_absolute(s) ==> text::split(s, '/')[0].len() == 0,
        !is_absolute(s) && s.len() > 0 ==> text::split(s, '/')[0].len() > 0,
    decreases s.len(),
{
    text::lemma_position(s, '/');
    let k = text::position(s, '/') as int;
    let all = text::split(s, '/');
    if k < s.len() {
        let head = s.take(k);
        let rest = s.skip(k + 1);
        lemma_split_pieces(rest);
        assert(all == seq![head] + text::split(rest, '/'));
        assert forall|i: int| 0 <= i < all.len() implies !(#[trigger] all[i]).contains('/') by {
            if i == 0 {
                if head.contains('/') {
                    let j = choose|j: int| 0 <= j < head.len() && head[j] == '/';
                    assert(s[j] == '/');
                }
            } else {
                assert(all[i] == text::split(rest, '/')[i - 1]);
            }
        }
    } else {
        text::lemma_split_whole(s, '/');
    }
}

proof fn lemma_real_before(pieces: Seq<Seq<char>>, relative: bool, n: int)
    requires
        0 <= n <= pieces.len(),
    ensures
        -1 <= real_before(pieces, relative, n) < n || (n == 0 && real_before(pieces, relative, n)
            == -1),
        ({
            let k = real_before(pieces, relative, n);
            parts_from(pieces.take(n), relative) == if k < 0 {
                Seq::empty()
            } else {
                parts_from(pieces.take(k), relative).push(part(pieces[k], relative && k == 0)->0)
            }
        }),
        ({
            let k = real_before(pieces, relative, n);
            &&& k >= 0 ==> part(pieces[k], relative && k == 0) is Some
            &&& parts_from(pieces.take(n), relative) == parts_from(pieces.take(k + 1), relative)
        }),
    decreases n,
{
    let some = pieces.take(n);
    if n == 0 {
        assert(pieces.take(0) =~= Seq::empty());
        assert(parts_from(some, relative) =~= Seq::empty());
    } else {
        assert(some.drop_last() =~= pieces.take(n - 1));
        assert(some.last() == pieces[n - 1]);
        if part(pieces[n - 1], relative && n == 1) is None {
            lemma_real_before(pieces, relative, n - 1);
        }
    }
}

/// The path one part up is made of the same parts but for the last.
pub proof fn law_a_parent_is_one_part_up(path: Seq<char>)
    ensures
        parent_of(path) matches Some(up) ==> parts(path).len() > 0 && parts(up) == parts(
            path,
        ).drop_last(),
        parent_of(path) is None ==> parts(path).len() == 0 || parts(path) == seq![PartModel::Root],
{
    let pieces = text::split(path, '/');
    let relative = !is_absolute(path);
    let n = pieces.len() as int;
    let last = real_before(pieces, relative, n);
    lemma_split_pieces(path);
    lemma_real_before(pieces, relative, n);
    assert(pieces.take(n) =~= pieces);
    if last < 0 {
        assert(seq![PartModel::Root] + Seq::empty() =~= seq![PartModel::Root]);
    } else {
        let up = real_before(pieces, relative, last);
        lemma_real_before(pieces, relative, last);
        let parent = parent_of(path)->0;
        let x = part(pieces[last], relative && last == 0)->0;
        let below = parts_from(pieces.take(last), relative);
        assert(parts_from(pieces, relative) == below.push(x));
        if relative {
            assert(parts(path).drop_last() =~= below);
        } else {
            assert(parts(path).drop_last() =~= seq![PartModel::Root] + below);
        }
        if up < 0 && !relative {
            assert(below =~= Seq::empty());
            let root = seq!['/'];
            text::lemma_position(root, '/');
            assert(root.take(0) =~= Seq::empty());
            assert(root.skip(1) =~= Seq::empty());
            text::lemma_split_whole(Seq::empty(), '/');
            assert(text::split(root, '/') =~= seq![Seq::empty(), Seq::empty()]);
            let two = text::split(root, '/');
            assert(two.drop_last() =~= seq![Seq::<char>::empty()]);
            assert(two.drop_last().drop_last() =~= Seq::empty());
            assert(two.drop_last().last().len() == 0);
            assert(parts_from(two.drop_last().drop_last(), false) =~= Seq::empty());
            assert(parts_from(two.drop_last(), false) =~= Seq::empty());
            assert(parts_from(two, false) =~= Seq::empty());
            assert(parts(root) =~= seq![PartModel::Root]);
        } else if up < 0 {
            assert(pieces.take(up + 1) =~= Seq::empty());
            assert(parent =~= Seq::empty());
            text::lemma_split_whole(parent, '/');
            assert(text::split(parent, '/').drop_last() =~= Seq::empty());
            assert(parts(parent) =~= Seq::empty());
            assert(below =~= Seq::empty());
        } else {
            let kept = pieces.take(up + 1);
            assert forall|i: int| 0 <= i < kept.len() implies !(#[trigger] kept[i]).contains(
                '/',
            ) by {
                assert(kept[i] == pieces[i]);
            }
            text::lemma_join_split(kept, '/');
            lemma_split_pieces(parent);
            assert(text::split(parent, '/') == kept);
            assert(kept[0] == pieces[0]);
            if relative {
                assert(path.len() > 0) by {
                    if path.len() == 0 {
                        text::lemma_split_whole(path, '/');
                    }
                }
                assert(!is_absolute(parent));
            } else {
                if !is_absolute(parent) {
                    assert(parent.len() == 0);
                    text::lemma_split_whole(parent, '/');
                    assert(up == 0);
                    assert(part(pieces[0], false) is None);
                }
            }
            assert(parts_from(kept, relative) == below);
        }
    }
}

/// Which pieces of a path count, and as what: a piece between slashes that is empty
/// does not, and a dot only at the start of a relative path; two dots lead up, and
/// any other piece is a name. The parts of a path are those, and no others.
pub proof fn law_parts_are_the_pieces_that_count(pieces: Seq<Seq<char>>, relative: bool)
    ensures
        forall|p: PartModel| #[trigger]
            parts_from(pieces, relative).contains(p) <==> exists|i: int|
                0 <= i < pieces.len() && part(#[trigger] pieces[i], relative && i == 0) == Some(p),
        forall|piece: Seq<char>, leading: bool|
            #![trigger part(piece, leading)]
            {
                &&& piece.len() == 0 ==> part(piece, leading) is None
                &&& piece == seq!['.'] ==> part(piece, true) == Some(PartModel::Here) && part(
                    piece,
                    false,
                ) is None
                &&& piece == seq!['.', '.'] ==> part(piece, leading) == Some(PartModel::Up)
                &&& piece.len() > 0 && piece != seq!['.'] && piece != seq!['.', '.'] ==> part(
                    piece,
                    leading,
                ) == Some(PartModel::Name(piece))
            },
    decreases pieces.len(),
{
    assert(seq!['.'].len() == 1 && seq!['.', '.'].len() == 2);
    assert(seq!['.'] != seq!['.', '.']);
    if pieces.len() > 0 {
        let less = pieces.drop_last();
        law_parts_are_the_pieces_that_count(less, relative);
        let all = parts_from(pieces, relative);
        let before = parts_from(less, relative);
        let n = pieces.len() - 1;
        assert forall|p: PartModel| #[trigger] all.contains(p) <==> exists|i: int|
            0 <= i < pieces.len() && part(#[trigger] pieces[i], relative && i == 0) == Some(p) by {
            if all.contains(p) {
                let k = choose|k: int| 0 <= k < all.len() && all[k] == p;
                if k < before.len() {
                    assert(before[k] == p);
                    assert(before.contains(p));
                    let i = choose|i: int|
                        0 <= i < less.len() && part(#[trigger] less[i], relative && i == 0)
                            == Some(p);
                    assert(pieces[i] == less[i]);
                } else {
                    assert(part(pieces[n], relative && n == 0) == Some(p));
                }
            }
            if exists|i: int|
                0 <= i < pieces.len() && part(#[trigger] pieces[i], relative && i == 0) == Some(
                    p,
                ) {
                let i = choose|i: int|
                    0 <= i < pieces.len() && part(#[trigger] pieces[i], relative && i == 0)
                        == Some(p);
                if i < n {
                    assert(less[i] == pieces[i]);
                    assert(before.contains(p));
                    let k = choose|k: int| 0 <= k < before.len() && before[k] == p;
                    assert(all[k] == p);
                } else {
                    assert(all[before.len() as int] == p);
                }
            }
        }
    } else {
        assert(parts_from(pieces, relative) =~= Seq::empty());
    }
}

/// Names strung together with slashes are a path whose parts are those names, in
/// their order; with a slash before them, they stand below the root.
pub proof fn law_names_make_a_path(names: Seq<Seq<char>>)
    requires
        names.len() > 0,
        forall|i: int|
            0 <= i < names.len() ==> (#[trigger] names[i]).len() > 0 && names[i] != seq!['.']
                && names[i] != seq!['.', '.'] && !names[i].contains('/'),
    ensures
        parts(text::join(names, seq!['/'])) == names.map_values(
            |n: Seq<char>| PartModel::Name(n),
        ),
        parts(seq!['/'] + text::join(names, seq!['/'])) == seq![PartModel::Root]
            + names.map_values(|n: Seq<char>| PartModel::Name(n)),
{
    let s = text::join(names, seq!['/']);
    let empty = Seq::<char>::empty();
    text::lemma_join_split(names, '/');
    lemma_split_pieces(s);
    assert(s.len() > 0) by {
        if s.len() == 0 {
            text::lemma_split_whole(s, '/');
            assert(names[0].len() == 0);
        }
    }
    assert(names[0].len() > 0);
    assert(!is_absolute(s));
    lemma_parts_of_names(names, true);
    lemma_parts_of_names(names, false);
    let t = seq!['/'] + s;
    assert(empty + seq!['/'] + s =~= t);
    text::lemma_split_append(empty, '/', s);
    text::lemma_split_whole(empty, '/');
    let head = seq![empty];
    lemma_parts_append(head, names, false);
    assert(head.drop_last() =~= Seq::empty());
    assert(parts_from(head.drop_last(), false) =~= Seq::empty());
    assert(parts_from(head, false) =~= Seq::empty());
    assert(parts_from(head + names, false) =~= parts_from(names, false));
}

proof fn lemma_parts_of_names(names: Seq<Seq<char>>, relative: bool)
    requires
        forall|i: int|
            0 <= i < names.len() ==> (#[trigger] names[i]).len() > 0 && names[i] != seq!['.']
                && names[i] != seq!['.', '.'],
    ensures
        parts_from(names, relative) == names.map_values(|n: Seq<char>| PartModel::Name(n)),
    decreases names.len(),
{
    if names.len() > 0 {
        let less = names.drop_last();
        assert forall|i: int| 0 <= i < less.len() implies (#[trigger] less[i]).len() > 0 && less[i]
            != seq!['.'] && less[i] != seq!['.', '.'] by {
            assert(less[i] == names[i]);
        }
        lemma_parts_of_names(less, relative);
        assert(names[names.len() - 1].len() > 0);
    }
    assert(parts_from(names, relative) =~= names.map_values(|n: Seq<char>| PartModel::Name(n)));
}

/// A slash more, a dot between slashes and a slash at the end do not change which
/// parts a path has.
pub proof fn law_slashes_and_dots_do_not_count(a: Seq<char>, b: Seq<char>)
    requires
        a.len() > 0,
    ensures
        parts(a + seq!['/'] + (seq!['/'] + b)) == parts(a + seq!['/'] + b),
        parts(a + seq!['/'] + (seq!['.', '/'] + b)) == parts(a + seq!['/'] + b),
        parts(a + seq!['/']) == parts(a),
{
    let empty = Seq::<char>::empty();
    let dot = seq!['.'];
    let pa = text::split(a, '/');
    let pb = text::split(b, '/');
    let relative = !is_absolute(a);
    lemma_split_pieces(a);
    assert(empty + seq!['/'] + b =~= seq!['/'] + b);
    assert(dot + seq!['/'] + b =~= seq!['.', '/'] + b);
    text::lemma_split_append(a, '/', b);
    text::lemma_split_append(a, '/', seq!['/'] + b);
    text::lemma_split_append(empty, '/', b);
    text::lemma_split_append(a, '/', seq!['.', '/'] + b);
    text::lemma_split_append(dot, '/', b);
    text::lemma_split_append(a, '/', empty);
    text::lemma_split_whole(empty, '/');
    assert(!dot.contains('/'));
    text::lemma_split_whole(dot, '/');
    lemma_parts_append(pa, pb, relative);
    lemma_parts_append(pa, seq![empty] + pb, relative);
    lemma_parts_append(pa, seq![dot] + pb, relative);
    lemma_parts_append(pa, seq![empty], relative);
    lemma_parts_append(seq![empty], pb, false);
    lemma_parts_append(seq![dot], pb, false);
    assert(seq![empty].drop_last() =~= Seq::empty());
    assert(seq![dot].drop_last() =~= Seq::empty());
    assert(parts_from(Seq::empty(), false) =~= Seq::empty());
    assert(parts_from(seq![empty], false) =~= Seq::empty());
    assert(parts_from(seq![dot], false) =~= Seq::empty());
    assert(parts_from(seq![empty] + pb, false) =~= parts_from(pb, false));
    assert(parts_from(seq![dot] + pb, false) =~= parts_from(pb, false));
    assert(parts_from(pa, relative) + parts_from(seq![empty], false) =~= parts_from(pa, relative));
    assert(a + seq!['/'] + empty =~= a + seq!['/']);
    let x = a + seq!['/'] + b;
    let y = a + seq!['/'] + (seq!['/'] + b);
    let z = a + seq!['/'] + (seq!['.', '/'] + b);
    let w = a + seq!['/'];
    assert(x[0] == a[0] && y[0] == a[0] && z[0] == a[0] && w[0] == a[0]);
}

/// Which of the pieces after `i` counts first, and that those before it do not.
proof fn lemma_real_from(pieces: Seq<Seq<char>>, relative: bool, i: int)
    requires
        0 <= i <= pieces.len(),
    ensures
        i <= real_from(pieces, relative, i) <= pieces.len(),
        real_from(pieces, relative, i) < pieces.len() ==> part(
            pieces[real_from(pieces, relative, i)],
            relative && real_from(pieces, relative, i) == 0,
        ) is Some,
        parts_from(pieces.take(i), relative) == parts_from(
            pieces.take(real_from(pieces, relative, i)),
            relative,
        ),
    decreases pieces.len() - i,
{
    if i < pieces.len() && part(pieces[i], relative && i == 0) is None {
        lemma_real_from(pieces, relative, i + 1);
        let more = pieces.take(i + 1);
        assert(more.drop_last() =~= pieces.take(i));
        assert(more.last() == pieces[i]);
    }
}

/// As many parts stand before the piece that counts after `k` others.
proof fn lemma_nth_real(pieces: Seq<Seq<char>>, relative: bool, k: nat)
    requires
        k <= parts_from(pieces, relative).len(),
    ensures
        0 <= nth_real(pieces, relative, k) <= pieces.len(),
        parts_from(pieces.take(nth_real(pieces, relative, k)), relative).len() == k,
        nth_real(pieces, relative, k) < pieces.len() ==> part(
            pieces[nth_real(pieces, relative, k)],
            relative && nth_real(pieces, relative, k) == 0,
        ) is Some,
        k > 0 ==> nth_real(pieces, relative, k) > 0,
    decreases k,
{
    assert(pieces.take(0) =~= Seq::empty());
    assert(parts_from(pieces.take(0), relative) =~= Seq::empty());
    assert(pieces.take(pieces.len() as int) =~= pieces);
    if k == 0 {
        lemma_real_from(pieces, relative, 0);
    } else {
        lemma_nth_real(pieces, relative, (k - 1) as nat);
        let j = nth_real(pieces, relative, (k - 1) as nat);
        assert(j < pieces.len());
        let more = pieces.take(j + 1);
        assert(more.drop_last() =~= pieces.take(j));
        assert(more.last() == pieces[j]);
        lemma_real_from(pieces, relative, j + 1);
    }
}

/// Nothing that counts stands behind the last piece that does.
proof fn lemma_last_real(pieces: Seq<Seq<char>>, relative: bool, n: int, i: int)
    requires
        0 <= i < n <= pieces.len(),
        part(pieces[i], relative && i == 0) is Some,
    ensures
        i <= real_before(pieces, relative, n),
    decreases n,
{
    if part(pieces[n - 1], relative && n == 1) is None {
        lemma_last_real(pieces, relative, n - 1, i);
    }
}

proof fn lemma_leading_plain(pieces: Seq<Seq<char>>)
    requires
        pieces.len() > 0,
        pieces[0] != seq!['.'],
    ensures
        parts_from(pieces, true) == parts_from(pieces, false),
    decreases pieces.len(),
{
    let less = pieces.drop_last();
    if less.len() > 0 {
        assert(less[0] == pieces[0]);
        lemma_leading_plain(less);
    } else {
        assert(parts_from(less, true) =~= parts_from(less, false));
    }
}

/// A path is told from a base exactly when the base's parts are its first ones, and
/// what is told are the parts that follow them.
pub proof fn law_what_is_behind_a_base(root: Seq<char>, path: Seq<char>)
    ensures
        relative_to(root, path) is Some <==> parts(root).len() <= parts(path).len() && parts(
            path,
        ).take(parts(root).len() as int) == parts(root),
        relative_to(root, path) matches Some(rel) ==> parts(rel) == parts(path).skip(
            parts(root).len() as int,
        ),
{
    let k = parts(root).len();
    if parts(root).is_prefix_of(parts(path)) {
        assert(parts(path).take(k as int) =~= parts(root));
        lemma_behind(path, k);
    }
    if k <= parts(path).len() && parts(path).take(k as int) == parts(root) {
        assert(parts(root).is_prefix_of(parts(path)));
    }
}

proof fn lemma_behind(path: Seq<char>, k: nat)
    requires
        k <= parts(path).len(),
    ensures
        parts(behind(path, k)) == parts(path).skip(k as int),
{
    let pieces = text::split(path, '/');
    let relative = !is_absolute(path);
    let n = pieces.len() as int;
    let last = real_before(pieces, relative, n);
    let out = behind(path, k);
    let empty = Seq::<char>::empty();
    lemma_split_pieces(path);
    lemma_real_before(pieces, relative, n);
    assert(pieces.take(n) =~= pieces);
    text::lemma_split_whole(empty, '/');
    assert(text::split(empty, '/').drop_last() =~= Seq::empty());
    assert(parts_from(text::split(empty, '/').drop_last(), true) =~= Seq::empty());
    assert(parts_from(text::split(empty, '/'), true) =~= Seq::empty());
    assert(parts(empty) =~= Seq::empty());
    let kept = pieces.take(last + 1);
    assert(parts_from(kept, relative) == parts_from(pieces, relative));
    if k == 0 {
        assert(parts(path).skip(0) =~= parts(path));
        if last < 0 {
            assert(kept =~= Seq::empty());
            assert(parts_from(kept, relative) =~= Seq::empty());
            if relative {
                assert(out =~= empty);
            } else {
                let root = seq!['/'];
                assert(empty + seq!['/'] + empty =~= root);
                text::lemma_split_append(empty, '/', empty);
                let two = text::split(root, '/');
                assert(two =~= seq![empty, empty]);
                assert(two.drop_last() =~= seq![empty]);
                assert(two.drop_last().drop_last() =~= Seq::empty());
                assert(parts_from(two.drop_last().drop_last(), false) =~= Seq::empty());
                assert(parts_from(two.drop_last(), false) =~= Seq::empty());
                assert(parts_from(two, false) =~= Seq::empty());
            }
        } else {
            assert forall|i: int| 0 <= i < kept.len() implies !(#[trigger] kept[i]).contains(
                '/',
            ) by {
                assert(kept[i] == pieces[i]);
            }
            text::lemma_join_split(kept, '/');
            lemma_split_pieces(out);
            assert(kept[0] == pieces[0]);
            if relative {
                assert(path.len() > 0) by {
                    if path.len() == 0 {
                        text::lemma_split_whole(path, '/');
                    }
                }
                assert(!is_absolute(out));
            } else if !is_absolute(out) {
                assert(out.len() == 0);
                text::lemma_split_whole(out, '/');
                assert(last == 0);
                assert(part(pieces[0], false) is None);
            }
        }
    } else {
        let m: nat = if relative {
            k
        } else {
            (k - 1) as nat
        };
        let first = nth_real(pieces, relative, m);
        lemma_nth_real(pieces, relative, m);
        if !relative && m == 0 {
            assert(part(pieces[0], false) is None);
            assert(first > 0) by {
                lemma_real_from(pieces, relative, 1);
            }
        }
        if first < n {
            lemma_last_real(pieces, relative, n, first);
            let some = pieces.subrange(first, last + 1);
            assert(kept =~= pieces.take(first) + some);
            lemma_parts_append(pieces.take(first), some, relative);
            assert forall|i: int| 0 <= i < some.len() implies !(#[trigger] some[i]).contains(
                '/',
            ) by {
                assert(some[i] == pieces[first + i]);
            }
            text::lemma_join_split(some, '/');
            lemma_split_pieces(out);
            assert(some[0] == pieces[first]);
            assert(pieces[first].len() > 0);
            assert(pieces[first] != seq!['.']);
            assert(!is_absolute(out));
            lemma_leading_plain(some);
            assert(parts(path).skip(k as int) =~= parts_from(some, false));
        } else {
            assert(first > last);
            assert(pieces.take(first) =~= pieces);
            assert(parts(path).skip(k as int) =~= Seq::empty());
        }
    }
}

/// Every path has a parent but the root and one without parts.
pub proof fn law_every_path_below_has_a_parent(path: Seq<char>)
    ensures
        parent_of(path) is None <==> parts(path).len() == 0 || parts(path) == seq![PartModel::Root],
{
    law_a_parent_is_one_part_up(path);
    let pieces = text::split(path, '/');
    let relative = !is_absolute(path);
    let n = pieces.len() as int;
    lemma_split_pieces(path);
    lemma_real_before(pieces, relative, n);
    assert(pieces.take(n) =~= pieces);
    if parent_of(path) is Some && parts(path) == seq![PartModel::Root] {
        let found = parts_from(pieces, relative);
        assert(found.len() > 0);
        if relative {
            let last = real_before(pieces, relative, n);
            assert(found.last() == part(pieces[last], relative && last == 0)->0);
            assert(found.last() == PartModel::Root);
        } else {
            assert(parts(path).len() == 1 + found.len());
        }
    }
}

/// A path below a base is the base's path, a slash unless one stands there, and the
/// rest.
pub proof fn law_how_a_path_is_joined(root: Seq<char>, rel: Seq<char>)
    ensures
        root.len() == 0 ==> joined(root, rel) == rel,
        root.len() > 0 && root.last() == '/' ==> joined(root, rel) == root + rel,
        root.len() > 0 && root.last() != '/' ==> joined(root, rel) == root + seq!['/'] + rel,
{
    if root.len() == 0 {
        assert(root + rel =~= rel);
    }
}

} // verus!
