//! Is the sync root actually a mount?
//!
//! A placeholder that cannot be hydrated is not a file with its content
//! elsewhere, it is a file that reads as zeros; and only a mount of its own can
//! be protected. The mount table is the one place that says so without
//! ambiguity.

use crate::text;
use vstd::prelude::*;
use vstd::string::*;

verus! {

/// Where a space, a hyphen and a space first stand in a row.
pub open spec fn separator(s: Seq<char>) -> Option<nat>
    decreases s.len(),
{
    if s.len() < 3 {
        None
    } else if s[0] == ' ' && s[1] == '-' && s[2] == ' ' {
        Some(0)
    } else {
        match separator(s.drop_first()) {
            Some(i) => Some(i + 1),
            None => None,
        }
    }
}

/// The fields of a part of a line: what stands between its white space.
pub open spec fn fields(s: Seq<char>) -> Seq<Seq<char>>
    decreases s.len(),
{
    if s.len() == 0 {
        Seq::empty()
    } else {
        let front = s.drop_last();
        let c = s.last();
        if text::is_space(c) {
            fields(front)
        } else if front.len() == 0 || text::is_space(front.last()) {
            fields(front).push(seq![c])
        } else {
            fields(front).drop_last().push(fields(front).last().push(c))
        }
    }
}

/// The number that three octal digits write, if it fits a byte. The first may be
/// a plus sign.
pub open spec fn octal(a: u8, b: u8, c: u8) -> Option<u8> {
    if !(0x30 <= b <= 0x37 && 0x30 <= c <= 0x37) {
        None
    } else if a == PLUS {
        Some(((b - 0x30) * 8 + (c - 0x30)) as u8)
    } else if 0x30 <= a <= 0x33 {
        Some(((a - 0x30) * 64 + (b - 0x30) * 8 + (c - 0x30)) as u8)
    } else {
        None
    }
}

/// The plus sign.
pub const PLUS: u8 = 0x2b;

/// The backslash.
pub const BACKSLASH: u8 = 0x5c;

/// The bytes of a field of the mount table with its octal escapes resolved.
pub open spec fn resolved(b: Seq<u8>) -> Seq<u8>
    decreases b.len(),
{
    if b.len() == 0 {
        Seq::empty()
    } else if b[0] == BACKSLASH && b.len() > 3 && octal(b[1], b[2], b[3]) is Some {
        seq![octal(b[1], b[2], b[3])->0] + resolved(b.skip(4))
    } else {
        seq![b[0]] + resolved(b.drop_first())
    }
}

/// What a field of the mount table stands for: the text that its bytes are once
/// the escapes are resolved.
pub open spec fn unescaped(field: Seq<char>) -> Seq<char> {
    text::decoded(resolved(text::bytes(field)))
}

/// The mount point field of one line: the fifth one before the separator.
///
/// The optional fields are variable in number, which is why the separator
/// exists.
pub open spec fn point_of(line: Seq<char>) -> Option<Seq<char>> {
    match separator(line) {
        None => None,
        Some(i) => {
            let f = fields(line.take(i as int));
            if f.len() > 4 {
                Some(unescaped(f[4]))
            } else {
                None
            }
        },
    }
}

fn octal_of(a: u8, b: u8, c: u8) -> (r: Option<u8>)
    ensures
        r == octal(a, b, c),
{
    if b < 0x30 || b > 0x37 || c < 0x30 || c > 0x37 {
        None
    } else if a == PLUS {
        Some((b - 0x30) * 8 + (c - 0x30))
    } else if 0x30 <= a && a <= 0x33 {
        Some((a - 0x30) * 64 + (b - 0x30) * 8 + (c - 0x30))
    } else {
        None
    }
}

/// Bytes without a backslash hold no escape.
proof fn lemma_plain_bytes(b: Seq<u8>)
    requires
        !b.contains(BACKSLASH),
    ensures
        resolved(b) == b,
    decreases b.len(),
{
    if b.len() > 0 {
        let rest = b.drop_first();
        assert(b.contains(b[0]));
        assert forall|i: int| 0 <= i < rest.len() implies rest[i] != BACKSLASH by {
            assert(b.contains(b[i + 1]));
        }
        lemma_plain_bytes(rest);
        assert(seq![b[0]] + rest =~= b);
    } else {
        assert(resolved(b) =~= b);
    }
}

/// A field without a backslash stands for itself.
pub proof fn law_a_plain_field_is_unchanged(field: Seq<char>)
    requires
        !field.contains('\\'),
    ensures
        unescaped(field) == field,
{
    text::lemma_only_a_character_gives_its_byte(field, '\\');
    lemma_plain_bytes(text::bytes(field));
    vstd::utf8::encode_utf8_valid_utf8(field);
    vstd::utf8::encode_utf8_decode_utf8(field);
}

/// Resolve the octal escapes of a field.
pub fn unescape(s: &str) -> (out: String)
    ensures
        out@ == unescaped(s@),
        !s@.contains('\\') ==> out@ == s@,
{
    let b = s.as_bytes();
    let ghost all = text::bytes(s@);
    let mut out: Vec<u8> = Vec::new();
    let mut i: usize = 0;
    assert(all.skip(0) =~= all);
    assert(out@ + resolved(all) =~= resolved(all));
    while i < b.len()
        invariant
            i <= b@.len(),
            b@ == all,
            out@ + resolved(all.skip(i as int)) == resolved(all),
        decreases b@.len() - i,
    {
        let ghost rest = all.skip(i as int);
        let ghost had = out@;
        let total = b.len();
        assert(rest[0] == b@[i as int]);
        let code: Option<u8> = if b[i] == BACKSLASH && total - i > 3 {
            octal_of(b[i + 1], b[i + 2], b[i + 3])
        } else {
            None
        };
        proof {
            if total - i > 3 {
                assert(rest[1] == b@[i + 1] && rest[2] == b@[i + 2] && rest[3] == b@[i + 3]);
            }
        }
        match code {
            Some(v) => {
                out.push(v);
                proof {
                    assert(out@ =~= had + seq![v]);
                    assert(rest.skip(4) =~= all.skip(i + 4));
                    assert(had + (seq![v] + resolved(rest.skip(4))) =~= out@ + resolved(
                        rest.skip(4),
                    ));
                }
                i = i + 4;
            },
            None => {
                let v: u8 = b[i];
                out.push(v);
                proof {
                    assert(out@ =~= had + seq![v]);
                    assert(rest.drop_first() =~= all.skip(i + 1));
                    assert(had + (seq![v] + resolved(rest.drop_first())) =~= out@ + resolved(
                        rest.drop_first(),
                    ));
                }
                i = i + 1;
            },
        }
    }
    proof {
        assert(out@ + resolved(all.skip(i as int)) =~= out@);
        if !s@.contains('\\') {
            law_a_plain_field_is_unchanged(s@);
        }
    }
    text::from_lossy(&out)
}

fn separator_of(s: &Vec<char>) -> (r: Option<usize>)
    ensures
        match r {
            Some(i) => Some(i as nat),
            None => None,
        } == separator(s@),
        r matches Some(i) ==> i < s@.len(),
{
    let total = s.len();
    let mut i: usize = 0;
    assert(s@.skip(0) =~= s@);
    while i < total && total - i >= 3
        invariant
            i <= s@.len(),
            total == s@.len(),
            separator(s@) == match separator(s@.skip(i as int)) {
                Some(k) => Some((k + i) as nat),
                None => None,
            },
        decreases total - i,
    {
        let ghost rest = s@.skip(i as int);
        assert(rest[0] == s@[i as int] && rest[1] == s@[i + 1] && rest[2] == s@[i + 2]);
        if s[i] == ' ' && s[i + 1] == '-' && s[i + 2] == ' ' {
            return Some(i);
        }
        assert(rest.drop_first() =~= s@.skip(i + 1));
        i = i + 1;
    }
    None
}

/// The fields so far, with one that has not ended yet.
spec fn with_open(done: Seq<Seq<char>>, cur: Seq<char>) -> Seq<Seq<char>> {
    if cur.len() == 0 {
        done
    } else {
        done.push(cur)
    }
}

fn fields_of(s: &Vec<char>) -> (found: Vec<String>)
    ensures
        text::texts(found@) == fields(s@),
{
    let mut found: Vec<String> = Vec::new();
    let mut cur: Vec<char> = Vec::new();
    let mut i: usize = 0;
    assert(text::texts(found@) =~= Seq::empty());
    while i < s.len()
        invariant
            i <= s@.len(),
            fields(s@.take(i as int)) == with_open(text::texts(found@), cur@),
            cur@.len() == 0 <==> (i == 0 || text::is_space(s@[i - 1])),
        decreases s@.len() - i,
    {
        let ghost part = s@.take(i + 1);
        let ghost done = text::texts(found@);
        let ghost was = cur@;
        let c = s[i];
        proof {
            assert(part.drop_last() =~= s@.take(i as int));
            assert(part.last() == c);
            if i > 0 {
                assert(s@.take(i as int).last() == s@[i - 1]);
            }
        }
        if text::space(c) {
            if cur.len() > 0 {
                found.push(text::text_of(&cur));
                cur = Vec::new();
                assert(text::texts(found@) =~= done.push(was));
            }
        } else {
            cur.push(c);
            proof {
                if was.len() == 0 {
                    assert(cur@ =~= seq![c]);
                } else {
                    assert(done.push(was).drop_last() =~= done);
                }
            }
        }
        i = i + 1;
    }
    assert(s@.take(i as int) =~= s@);
    if cur.len() > 0 {
        let ghost done = text::texts(found@);
        found.push(text::text_of(&cur));
        assert(text::texts(found@) =~= done.push(cur@));
    }
    found
}

/// The mount point field of one line of the mount table, unescaped.
pub fn mount_point_of(line: &str) -> (r: Option<String>)
    ensures
        text::maybe(r) == point_of(line@),
{
    let chars = text::chars_of(line);
    let at = match separator_of(&chars) {
        Some(at) => at,
        None => {
            return None;
        },
    };
    let mut left = chars;
    left.truncate(at);
    assert(left@ =~= line@.take(at as int));
    let found = fields_of(&left);
    assert(text::texts(found@).len() == found@.len());
    if found.len() > 4 {
        Some(unescape(found[4].as_str()))
    } else {
        None
    }
}

/// Whether something is mounted at exactly this path, according to the text of
/// the mount table.
pub fn is_mount_point(table: &str, path: &str) -> (b: bool)
    ensures
        b == exists|i: int|
            0 <= i < text::lines(table@).len() && point_of(#[trigger] text::lines(table@)[i])
                == Some(path@),
{
    let lines = text::lines_of(table);
    let ghost all = text::lines(table@);
    let mut i: usize = 0;
    while i < lines.len()
        invariant
            i <= lines@.len(),
            all == text::lines(table@),
            all == text::texts(lines@),
            forall|j: int| 0 <= j < i ==> point_of(#[trigger] all[j]) != Some(path@),
        decreases lines@.len() - i,
    {
        assert(all[i as int] == lines@[i as int]@);
        if let Some(point) = mount_point_of(lines[i].as_str()) {
            if text::same(point.as_str(), path) {
                return true;
            }
        }
        i = i + 1;
    }
    false
}

/// The separator is the first place where a dash stands between two spaces, and is
/// missing only where none does.
pub proof fn law_the_separator_is_the_first(s: Seq<char>, i: int)
    requires
        0 <= i,
        i + 3 <= s.len(),
    ensures
        s[i] == ' ' && s[i + 1] == '-' && s[i + 2] == ' ' ==> separator(s) is Some && separator(s)->0
            <= i,
        separator(s) == Some(i as nat) ==> s[i] == ' ' && s[i + 1] == '-' && s[i + 2] == ' ',
        separator(s) matches Some(k) ==> k + 3 <= s.len(),
    decreases s.len(),
{
    if !(s[0] == ' ' && s[1] == '-' && s[2] == ' ') {
        let t = s.drop_first();
        if i > 0 {
            law_the_separator_is_the_first(t, i - 1);
            assert(t[i - 1] == s[i] && t[i] == s[i + 1] && t[i + 1] == s[i + 2]);
        } else if t.len() >= 3 {
            law_the_separator_is_the_first(t, 0);
        }
    }
}

/// White space parts a text into fields: what stands on either side of it is parted
/// by itself, white space is no field, and a word without any is one field.
pub proof fn law_white_space_parts_fields(a: Seq<char>, c: char, b: Seq<char>)
    requires
        text::is_space(c),
    ensures
        fields(a + seq![c] + b) == fields(a) + fields(b),
        fields(seq![c]).len() == 0,
        fields(Seq::empty()).len() == 0,
        a.len() > 0 && (forall|i: int| 0 <= i < a.len() ==> !text::is_space(#[trigger] a[i]))
            ==> fields(a) == seq![a],
    decreases b.len(),
{
    let s = a + seq![c] + b;
    assert(seq![c].drop_last() =~= Seq::empty());
    assert(seq![c].last() == c);
    assert(fields(Seq::empty()) =~= Seq::empty());
    if a.len() > 0 && forall|i: int| 0 <= i < a.len() ==> !text::is_space(#[trigger] a[i]) {
        lemma_one_field(a);
    }
    if b.len() == 0 {
        assert(s.drop_last() =~= a);
        assert(s.last() == c);
        assert(fields(s) =~= fields(a) + fields(b));
    } else {
        let less = b.drop_last();
        law_white_space_parts_fields(a, c, less);
        assert(s.drop_last() =~= a + seq![c] + less);
        assert(s.last() == b.last());
        let front = s.drop_last();
        if less.len() == 0 {
            assert(front.last() == c);
        } else {
            assert(front.last() == less.last());
            lemma_fields_open(less);
        }
        assert(fields(s) =~= fields(a) + fields(b));
    }
}

proof fn lemma_one_field(a: Seq<char>)
    requires
        a.len() > 0,
        forall|i: int| 0 <= i < a.len() ==> !text::is_space(#[trigger] a[i]),
    ensures
        fields(a) == seq![a],
    decreases a.len(),
{
    let less = a.drop_last();
    assert(!text::is_space(a[a.len() - 1]));
    if less.len() > 0 {
        assert forall|i: int| 0 <= i < less.len() implies !text::is_space(#[trigger] less[i]) by {
            assert(less[i] == a[i]);
        }
        lemma_one_field(less);
        assert(!text::is_space(less[less.len() - 1]));
        assert(less.push(a.last()) =~= a);
        assert(fields(a) =~= seq![a]);
    } else {
        assert(fields(less) =~= Seq::empty());
        assert(seq![a.last()] =~= a);
        assert(fields(a) =~= seq![a]);
    }
}

/// A text that does not end in white space has a field.
proof fn lemma_fields_open(s: Seq<char>)
    ensures
        s.len() > 0 && !text::is_space(s.last()) ==> fields(s).len() > 0,
{
}

/// Three octal digits stand for the byte that they write, the first of them no
/// more than three.
pub proof fn law_octal_digits_write_a_byte(a: u8, b: u8, c: u8)
    requires
        a <= 3,
        b <= 7,
        c <= 7,
    ensures
        octal((0x30 + a) as u8, (0x30 + b) as u8, (0x30 + c) as u8) == Some(
            (64 * a + 8 * b + c) as u8,
        ),
{
}

/// Anything else is no byte, but for a sign before two digits.
pub proof fn law_what_is_no_octal_byte(a: u8, b: u8, c: u8)
    ensures
        octal(a, b, c) is Some <==> (a == 0x2b || 0x30 <= a <= 0x33) && 0x30 <= b <= 0x37 && 0x30
            <= c <= 0x37,
{
}

/// An escape is read as the byte that it writes, wherever it stands, and all other
/// bytes are read as they are.
pub proof fn law_an_escape_is_read_as_its_byte(
    plain: Seq<u8>,
    a: u8,
    b: u8,
    c: u8,
    rest: Seq<u8>,
)
    requires
        !plain.contains(BACKSLASH),
        octal(a, b, c) is Some,
    ensures
        resolved(plain + (seq![BACKSLASH, a, b, c] + rest)) == plain + (seq![octal(a, b, c)->0]
            + resolved(rest)),
        resolved(plain + rest) == plain + resolved(rest),
        resolved(plain) == plain,
    decreases plain.len(),
{
    let esc = seq![BACKSLASH, a, b, c];
    if plain.len() == 0 {
        let s = esc + rest;
        assert(plain + s =~= s);
        assert(plain + rest =~= rest);
        assert(s.skip(4) =~= rest);
        assert(resolved(s) =~= seq![octal(a, b, c)->0] + resolved(rest));
        assert(resolved(plain) =~= plain);
        assert(plain + (seq![octal(a, b, c)->0] + resolved(rest)) =~= seq![octal(a, b, c)->0]
            + resolved(rest));
        assert(plain + resolved(rest) =~= resolved(rest));
    } else {
        let t = plain.drop_first();
        assert(!t.contains(BACKSLASH)) by {
            if t.contains(BACKSLASH) {
                let i = choose|i: int| 0 <= i < t.len() && t[i] == BACKSLASH;
                assert(plain[i + 1] == BACKSLASH);
            }
        }
        assert(plain[0] != BACKSLASH) by {
            assert(plain.contains(plain[0]));
        }
        law_an_escape_is_read_as_its_byte(t, a, b, c, rest);
        let s = plain + (esc + rest);
        assert(s.drop_first() =~= t + (esc + rest));
        assert((plain + rest).drop_first() =~= t + rest);
        assert(s[0] == plain[0]);
        assert(resolved(s) =~= plain + (seq![octal(a, b, c)->0] + resolved(rest)));
        assert(resolved(plain + rest) =~= plain + resolved(rest));
        assert(resolved(plain) =~= plain);
    }
}

/// A line of the mount table names its mount point in the fifth field, before the
/// separator; a line without a separator or with fewer fields before it names none.
pub proof fn law_the_mount_point_is_the_fifth_field(line: Seq<char>, left: Seq<char>)
    requires
        separator(line) == Some(left.len()),
        left.len() <= line.len(),
        line.take(left.len() as int) == left,
    ensures
        fields(left).len() >= 5 ==> point_of(line) == Some(unescaped(fields(left)[4])),
        fields(left).len() < 5 ==> point_of(line) is None,
{
}

} // verus!
