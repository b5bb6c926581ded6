//! Text as sequences of characters.

use vstd::prelude::*;
use vstd::std_specs::iter::IteratorSpec;
use vstd::string::*;

verus! {

/// `String::push` appends one character to the end of the string.
pub assume_specification[ String::push ](s: &mut String, c: char)
    ensures
        final(s)@ == old(s)@.push(c),
;

/// Where one text stands relative to another.
#[derive(Debug, Clone, Copy, PartialEq, Eq, Structural)]
pub enum Place {
    Before,
    Same,
    After,
}

/// Strict lexicographic order by code point, which is also the order of the
/// UTF-8 bytes.
pub open spec fn before(a: Seq<char>, b: Seq<char>) -> bool
    decreases a.len(),
{
    if b.len() == 0 {
        false
    } else if a.len() == 0 {
        true
    } else if a[0] == b[0] {
        before(a.drop_first(), b.drop_first())
    } else {
        a[0] < b[0]
    }
}

pub open spec fn place(a: Seq<char>, b: Seq<char>) -> Place {
    if a == b {
        Place::Same
    } else if before(a, b) {
        Place::Before
    } else {
        Place::After
    }
}

/// Nothing comes before itself.
pub proof fn lemma_before_irreflexive(a: Seq<char>)
    ensures
        !before(a, a),
    decreases a.len(),
{
    if a.len() > 0 {
        lemma_before_irreflexive(a.drop_first());
    }
}

/// The order of texts is transitive.
pub proof fn lemma_before_transitive(a: Seq<char>, b: Seq<char>, c: Seq<char>)
    requires
        before(a, b),
        before(b, c),
    ensures
        before(a, c),
    decreases a.len(),
{
    if a.len() > 0 && a[0] == b[0] && b[0] == c[0] {
        lemma_before_transitive(a.drop_first(), b.drop_first(), c.drop_first());
    }
}

/// Of two different texts one comes before the other.
pub proof fn lemma_before_total(a: Seq<char>, b: Seq<char>)
    ensures
        a == b || before(a, b) || before(b, a),
    decreases a.len(),
{
    if a.len() > 0 && b.len() > 0 {
        if a[0] == b[0] {
            lemma_before_total(a.drop_first(), b.drop_first());
            assert(a =~= seq![a[0]] + a.drop_first());
            assert(b =~= seq![b[0]] + b.drop_first());
        }
    } else {
        assert(a.len() == 0 && b.len() == 0 ==> a =~= b);
    }
}

/// What is not before a second text, when that is not before a third, is not
/// before the third.
pub proof fn lemma_before_cotransitive(a: Seq<char>, b: Seq<char>, c: Seq<char>)
    requires
        !before(a, b),
        !before(b, c),
    ensures
        !before(a, c),
{
    lemma_before_total(a, b);
    lemma_before_total(b, c);
    if before(a, c) {
        if before(b, a) {
            lemma_before_transitive(b, a, c);
        }
        if before(c, b) {
            lemma_before_transitive(a, c, b);
        }
        lemma_before_irreflexive(a);
    }
}

/// The characters of a string, in order.
pub fn chars_of(s: &str) -> (out: Vec<char>)
    ensures
        out@ == s@,
{
    let mut out: Vec<char> = Vec::new();
    for c in it: s.chars()
        invariant
            it.seq() == s@,
            out@ == s@.take(it.index() as int),
    {
        out.push(c);
    }
    out
}

/// Compare two texts in lexicographic order.
pub fn compare(a: &str, b: &str) -> (r: Place)
    ensures
        r == place(a@, b@),
{
    let mut x = a.chars();
    let mut y = b.chars();
    loop
        invariant
            place(a@, b@) == place(x.remaining(), y.remaining()),
            x.decrease() is Some,
        decreases x.decrease()->0,
    {
        let ghost u = x.remaining();
        let ghost v = y.remaining();
        let p = x.next();
        let q = y.next();
        match (p, q) {
            (None, None) => {
                proof {
                    assert(u =~= v);
                }
                return Place::Same;
            },
            (None, Some(_)) => {
                return Place::Before;
            },
            (Some(_), None) => {
                return Place::After;
            },
            (Some(c), Some(d)) => {
                if c == d {
                    proof {
                        assert(u =~= seq![u[0]] + u.drop_first());
                        assert(v =~= seq![v[0]] + v.drop_first());
                    }
                } else if c < d {
                    return Place::Before;
                } else {
                    return Place::After;
                }
            },
        }
    }
}

/// The texts that a list of strings holds.
pub open spec fn texts(v: Seq<String>) -> Seq<Seq<char>> {
    v.map_values(|s: String| s@)
}

/// The text that an optional string holds.
pub open spec fn maybe(s: Option<String>) -> Option<Seq<char>> {
    match s {
        Some(t) => Some(t@),
        None => None,
    }
}

/// A copy of an optional string.
pub fn copy_maybe(s: &Option<String>) -> (r: Option<String>)
    ensures
        r == *s,
{
    match s {
        Some(t) => Some(t.clone()),
        None => None,
    }
}

/// Whether two optional strings hold the same.
pub fn same_maybe(a: &Option<String>, b: &Option<String>) -> (r: bool)
    ensures
        r == (maybe(*a) == maybe(*b)),
{
    match (a, b) {
        (Some(x), Some(y)) => same(x.as_str(), y.as_str()),
        (None, None) => true,
        _ => false,
    }
}

/// A string from its characters.
pub fn text_of(chars: &Vec<char>) -> (out: String)
    ensures
        out@ == chars@,
{
    let mut out: String = String::new();
    let mut i: usize = 0;
    while i < chars.len()
        invariant
            i <= chars@.len(),
            out@ == chars@.take(i as int),
        decreases chars@.len() - i,
    {
        out.push(chars[i]);
        i = i + 1;
        assert(chars@.take(i as int) =~= chars@.take(i - 1).push(chars@[i - 1]));
    }
    assert(chars@.take(chars@.len() as int) =~= chars@);
    out
}

/// Whether one text comes before another.
pub fn is_before(a: &str, b: &str) -> (r: bool)
    ensures
        r == before(a@, b@),
{
    match compare(a, b) {
        Place::Before => true,
        Place::Same => {
            proof {
                lemma_before_irreflexive(a@);
            }
            false
        },
        Place::After => false,
    }
}

/// Whether two texts are equal.
pub fn same(a: &str, b: &str) -> (r: bool)
    ensures
        r == (a@ == b@),
{
    match compare(a, b) {
        Place::Same => true,
        Place::Before => {
            proof {
                lemma_before_irreflexive(a@);
            }
            false
        },
        Place::After => false,
    }
}

/// Whether a list holds a text.
pub fn holds(list: &Vec<String>, s: &str) -> (r: bool)
    ensures
        r == texts(list@).contains(s@),
{
    let mut i: usize = 0;
    while i < list.len()
        invariant
            i <= list@.len(),
            forall|j: int| 0 <= j < i ==> texts(list@)[j] != s@,
        decreases list@.len() - i,
    {
        if same(list[i].as_str(), s) {
            assert(texts(list@)[i as int] == s@);
            return true;
        }
        i = i + 1;
    }
    false
}

/// The UTF-8 bytes of a text.
pub open spec fn bytes(s: Seq<char>) -> Seq<u8> {
    vstd::utf8::encode_utf8(s)
}

/// Bytes as text, with a mark in place of what is no text.
pub uninterp spec fn lossy(bytes: Seq<u8>) -> Seq<char>;

/// `String::from_utf8_lossy`, which `lossy` names. Bytes that are valid UTF-8
/// give the text that they encode; how many marks stand for the others is left
/// unsaid.
#[verifier::external_body]
pub(crate) fn from_lossy(bytes: &Vec<u8>) -> (s: String)
    ensures
        s@ == lossy(bytes@),
        vstd::utf8::valid_utf8(bytes@) ==> s@ == vstd::utf8::decode_utf8(bytes@),
{
    String::from_utf8_lossy(bytes).into_owned()
}

/// The text that some bytes are: what they encode where they are valid UTF-8.
pub open spec fn decoded(b: Seq<u8>) -> Seq<char> {
    if vstd::utf8::valid_utf8(b) {
        vstd::utf8::decode_utf8(b)
    } else {
        lossy(b)
    }
}

/// Whether a character is white space.
pub open spec fn is_space(c: char) -> bool {
    ('\u{9}' <= c <= '\u{d}') || c == ' ' || c == '\u{85}' || c == '\u{a0}' || c == '\u{1680}' || (
    '\u{2000}' <= c <= '\u{200a}') || c == '\u{2028}' || c == '\u{2029}' || c == '\u{202f}' || c
        == '\u{205f}' || c == '\u{3000}'
}

/// Tell whether a character is white space.
pub fn space(c: char) -> (b: bool)
    ensures
        b == is_space(c),
{
    ('\u{9}' <= c && c <= '\u{d}') || c == ' ' || c == '\u{85}' || c == '\u{a0}' || c
        == '\u{1680}' || ('\u{2000}' <= c && c <= '\u{200a}') || c == '\u{2028}' || c
        == '\u{2029}' || c == '\u{202f}' || c == '\u{205f}' || c == '\u{3000}'
}

/// How many characters at the front are white space.
pub open spec fn spaces(s: Seq<char>) -> nat
    decreases s.len(),
{
    if s.len() > 0 && is_space(s[0]) {
        1 + spaces(s.drop_first())
    } else {
        0
    }
}

/// The white space at the front is followed by none.
pub proof fn lemma_spaces(s: Seq<char>)
    ensures
        spaces(s) <= s.len(),
        forall|i: int| 0 <= i < spaces(s) ==> is_space(s[i]),
        spaces(s) < s.len() ==> !is_space(s[spaces(s) as int]),
    decreases s.len(),
{
    if s.len() > 0 {
        let rest = s.drop_first();
        lemma_spaces(rest);
        if is_space(s[0]) {
            assert forall|i: int| 0 <= i < spaces(s) implies is_space(s[i]) by {
                if i > 0 {
                    assert(rest[i - 1] == s[i]);
                }
            }
        }
    }
}

/// The byte of an ASCII character is in a text only where the character is.
pub proof fn lemma_only_a_character_gives_its_byte(s: Seq<char>, c: char)
    requires
        c <= '\u{7f}',
        !s.contains(c),
    ensures
        !bytes(s).contains(c as u8),
    decreases s.len(),
{
    if s.len() > 0 {
        let rest = s.drop_first();
        assert(s.contains(s[0]));
        assert forall|i: int| 0 <= i < rest.len() implies rest[i] != c by {
            assert(s.contains(s[i + 1]));
        }
        lemma_only_a_character_gives_its_byte(rest, c);
        let head = vstd::utf8::encode_scalar(s[0] as u32);
        lemma_bytes_of(s[0], c);
        assert forall|i: int| 0 <= i < bytes(s).len() implies bytes(s)[i] != c as u8 by {
            if i < head.len() {
                assert(bytes(s)[i] == head[i]);
            } else {
                assert(bytes(s)[i] == bytes(rest)[i - head.len()]);
                assert(bytes(rest).contains(bytes(rest)[i - head.len()]));
            }
        }
    }
}

proof fn lemma_bytes_of(d: char, c: char)
    requires
        c <= '\u{7f}',
        d != c,
    ensures
        forall|i: int|
            0 <= i < vstd::utf8::encode_scalar(d as u32).len()
                ==> #[trigger] vstd::utf8::encode_scalar(d as u32)[i] != c as u8,
{
    vstd::utf8::char_u32_cast(d, d as u32);
    vstd::utf8::char_u32_cast(c, c as u32);
    assert(c as u32 == c as u8 as u32);
    lemma_byte_of(d as u32, c as u8);
}

proof fn lemma_byte_of(v: u32, b: u8)
    requires
        b <= 0x7f,
        v != b as u32,
    ensures
        forall|i: int|
            0 <= i < vstd::utf8::encode_scalar(v).len() ==> #[trigger] vstd::utf8::encode_scalar(
                v,
            )[i] != b,
{
    assert(v <= 0x7f ==> (v & 0x7f) as u8 == v as u8) by (bit_vector);
    assert(0xC0u8 | ((v >> 6) & 0x1F) as u8 >= 0x80) by (bit_vector);
    assert(0xE0u8 | ((v >> 12) & 0x0F) as u8 >= 0x80) by (bit_vector);
    assert(0xF0u8 | ((v >> 18) & 0x7) as u8 >= 0x80) by (bit_vector);
    assert(0x80u8 | (v & 0x3F) as u8 >= 0x80) by (bit_vector);
    assert(0x80u8 | ((v >> 6) & 0x3F) as u8 >= 0x80) by (bit_vector);
    assert(0x80u8 | ((v >> 12) & 0x3F) as u8 >= 0x80) by (bit_vector);
    assert(v <= 0x7f && v != b as u32 ==> v as u8 != b) by (bit_vector)
        requires
            b <= 0x7f,
    ;
}

/// `String::from_utf8`: the string that some bytes are the UTF-8 encoding of,
/// and nothing when they are not valid UTF-8.
#[verifier::external_body]
pub(crate) fn from_bytes(v: Vec<u8>) -> (r: Option<String>)
    ensures
        r is Some <==> vstd::utf8::valid_utf8(v@),
        r matches Some(s) ==> s@ == vstd::utf8::decode_utf8(v@),
{
    String::from_utf8(v).ok()
}

/// Whether some bytes are those of a text.
pub fn same_bytes(v: &Vec<u8>, s: &str) -> (r: bool)
    ensures
        r == (v@ == bytes(s@)),
{
    let b = s.as_bytes();
    if v.len() != b.len() {
        return false;
    }
    let mut i: usize = 0;
    while i < v.len()
        invariant
            i <= v@.len() == b@.len(),
            b@ == bytes(s@),
            forall|j: int| 0 <= j < i ==> v@[j] == b@[j],
        decreases v@.len() - i,
    {
        if v[i] != b[i] {
            return false;
        }
        i = i + 1;
    }
    assert(v@ =~= b@);
    true
}

/// Bytes with the same contents.
pub fn copy_bytes(v: &Vec<u8>) -> (out: Vec<u8>)
    ensures
        out@ == v@,
{
    let mut out: Vec<u8> = Vec::new();
    let mut i: usize = 0;
    while i < v.len()
        invariant
            i <= v@.len(),
            out@ == v@.take(i as int),
        decreases v@.len() - i,
    {
        out.push(v[i]);
        i = i + 1;
        assert(out@ =~= v@.take(i as int));
    }
    assert(v@.take(i as int) =~= v@);
    out
}

/// Whether two rows of bytes are the same.
pub fn equal_bytes(a: &Vec<u8>, b: &Vec<u8>) -> (r: bool)
    ensures
        r == (a@ == b@),
{
    if a.len() != b.len() {
        return false;
    }
    let mut i: usize = 0;
    while i < a.len()
        invariant
            i <= a@.len(),
            a@.len() == b@.len(),
            forall|j: int| 0 <= j < i ==> a@[j] == b@[j],
        decreases a@.len() - i,
    {
        if a[i] != b[i] {
            return false;
        }
        i = i + 1;
    }
    assert(a@ =~= b@);
    true
}

/// Whether a text begins with another.
pub open spec fn begins(s: Seq<char>, prefix: Seq<char>) -> bool {
    prefix.len() <= s.len() && s.take(prefix.len() as int) == prefix
}

/// Whether a text ends with another.
pub open spec fn ends(s: Seq<char>, suffix: Seq<char>) -> bool {
    suffix.len() <= s.len() && s.skip(s.len() - suffix.len()) == suffix
}

/// Whether some characters begin with a text.
pub fn has_prefix(s: &Vec<char>, prefix: &str) -> (b: bool)
    ensures
        b == begins(s@, prefix@),
{
    let p = chars_of(prefix);
    if p.len() > s.len() {
        return false;
    }
    let mut i: usize = 0;
    while i < p.len()
        invariant
            i <= p@.len() <= s@.len(),
            p@ == prefix@,
            forall|j: int| 0 <= j < i ==> s@[j] == p@[j],
        decreases p@.len() - i,
    {
        if s[i] != p[i] {
            assert(s@.take(p@.len() as int)[i as int] != p@[i as int]);
            return false;
        }
        i = i + 1;
    }
    assert(s@.take(p@.len() as int) =~= p@);
    true
}

/// Whether some characters end with a text.
pub fn has_suffix(s: &Vec<char>, suffix: &str) -> (b: bool)
    ensures
        b == ends(s@, suffix@),
{
    let p = chars_of(suffix);
    if p.len() > s.len() {
        return false;
    }
    let total = s.len();
    let from: usize = total - p.len();
    let mut i: usize = 0;
    while i < p.len()
        invariant
            i <= p@.len() <= s@.len(),
            total == s@.len(),
            from == total - p@.len(),
            p@ == suffix@,
            forall|j: int| 0 <= j < i ==> s@[from + j] == p@[j],
        decreases p@.len() - i,
    {
        if s[from + i] != p[i] {
            assert(s@.skip(from as int)[i as int] != p@[i as int]);
            return false;
        }
        i = i + 1;
    }
    assert(s@.skip(from as int) =~= p@);
    true
}

/// Where a character first stands in a text, or the text's length.
pub open spec fn position(s: Seq<char>, c: char) -> nat
    decreases s.len(),
{
    if s.len() == 0 || s[0] == c {
        0
    } else {
        1 + position(s.drop_first(), c)
    }
}

/// A text cut at every occurrence of a character.
pub open spec fn split(s: Seq<char>, c: char) -> Seq<Seq<char>>
    decreases s.len(),
{
    if position(s, c) < s.len() {
        seq![s.take(position(s, c) as int)] + split(s.skip(position(s, c) as int + 1), c)
    } else {
        seq![s]
    }
}

/// A line without the carriage return that may end it.
pub open spec fn chomp(s: Seq<char>) -> Seq<char> {
    if s.len() > 0 && s.last() == '\r' {
        s.drop_last()
    } else {
        s
    }
}

/// The lines of a text. A line ends at a line feed, with or without a carriage
/// return before it; the last line needs no ending.
pub open spec fn lines(s: Seq<char>) -> Seq<Seq<char>>
    decreases s.len(),
{
    if position(s, '\n') < s.len() {
        seq![chomp(s.take(position(s, '\n') as int))] + lines(
            s.skip(position(s, '\n') as int + 1),
        )
    } else if s.len() == 0 {
        Seq::empty()
    } else {
        seq![s]
    }
}

/// Texts strung together with a separator between them.
pub open spec fn join(parts: Seq<Seq<char>>, sep: Seq<char>) -> Seq<char>
    decreases parts.len(),
{
    if parts.len() == 0 {
        Seq::empty()
    } else if parts.len() == 1 {
        parts[0]
    } else {
        join(parts.drop_last(), sep) + sep + parts.last()
    }
}

/// How often a character occurs.
pub open spec fn count(s: Seq<char>, c: char) -> nat
    decreases s.len(),
{
    if s.len() == 0 {
        0
    } else {
        count(s.drop_last(), c) + if s.last() == c {
            1nat
        } else {
            0nat
        }
    }
}

/// Where a character first stands: no earlier place holds it.
pub proof fn lemma_position(s: Seq<char>, c: char)
    ensures
        0 <= position(s, c) <= s.len(),
        position(s, c) < s.len() ==> s[position(s, c) as int] == c,
        forall|i: int| 0 <= i < position(s, c) ==> s[i] != c,
        position(s, c) == s.len() <==> !s.contains(c),
    decreases s.len(),
{
    if s.len() > 0 && s[0] != c {
        lemma_position(s.drop_first(), c);
        let p = position(s, c);
        assert forall|i: int| 0 <= i < p implies s[i] != c by {
            if i > 0 {
                assert(s.drop_first()[i - 1] != c);
            }
        }
        if s.contains(c) {
            let i = choose|i: int| 0 <= i < s.len() && s[i] == c;
            assert(s.drop_first()[i - 1] == c);
        }
        if s.drop_first().contains(c) {
            let i = choose|i: int| 0 <= i < s.len() - 1 && s.drop_first()[i] == c;
            assert(s[i + 1] == c);
        }
    }
}

/// The first place of a character, from where it is known to stand.
pub proof fn lemma_position_at(s: Seq<char>, c: char, at: int)
    requires
        0 <= at <= s.len(),
        forall|i: int| 0 <= i < at ==> s[i] != c,
        at < s.len() ==> s[at] == c,
    ensures
        position(s, c) == at,
{
    lemma_position(s, c);
    let p = position(s, c);
    if p < at {
        assert(s[p as int] == c);
    }
    if p > at {
        assert(s[at] == c);
    }
}

/// Cutting behind a part that does not hold the character.
pub proof fn lemma_split_cons(part: Seq<char>, c: char, rest: Seq<char>)
    requires
        !part.contains(c),
    ensures
        split(part + seq![c] + rest, c) == seq![part] + split(rest, c),
{
    let s = part + seq![c] + rest;
    assert forall|i: int| 0 <= i < part.len() implies s[i] != c by {
        assert(part[i] == s[i]);
    }
    lemma_position_at(s, c, part.len() as int);
    lemma_position(rest, c);
    assert(s.take(part.len() as int) =~= part);
    assert(s.skip(part.len() as int + 1) =~= rest);
}

/// A text without the character is one part.
pub proof fn lemma_split_whole(s: Seq<char>, c: char)
    requires
        !s.contains(c),
    ensures
        split(s, c) == seq![s],
{
    lemma_position(s, c);
}

/// Cutting two texts with a separator between them cuts each.
pub proof fn lemma_split_append(a: Seq<char>, c: char, b: Seq<char>)
    ensures
        split(a + seq![c] + b, c) == split(a, c) + split(b, c),
    decreases a.len(),
{
    lemma_position(a, c);
    let k = position(a, c) as int;
    let whole = a + seq![c] + b;
    if k < a.len() {
        let head = a.take(k);
        let tail = a.skip(k + 1);
        assert(!head.contains(c)) by {
            if head.contains(c) {
                let i = choose|i: int| 0 <= i < head.len() && head[i] == c;
                assert(a[i] == c);
            }
        }
        lemma_split_append(tail, c, b);
        assert(a =~= head + seq![c] + tail);
        assert(whole =~= head + seq![c] + (tail + seq![c] + b));
        lemma_split_cons(head, c, tail);
        lemma_split_cons(head, c, tail + seq![c] + b);
        assert(seq![head] + (split(tail, c) + split(b, c)) =~= (seq![head] + split(tail, c))
            + split(b, c));
    } else {
        lemma_split_whole(a, c);
        lemma_split_cons(a, c, b);
    }
}

/// Cutting at a separator undoes stringing together with it.
pub proof fn lemma_join_split(parts: Seq<Seq<char>>, c: char)
    requires
        parts.len() > 0,
        forall|i: int| 0 <= i < parts.len() ==> !(#[trigger] parts[i]).contains(c),
    ensures
        split(join(parts, seq![c]), c) == parts,
    decreases parts.len(),
{
    if parts.len() == 1 {
        lemma_split_whole(parts[0], c);
        assert(parts =~= seq![parts[0]]);
    } else {
        let front = parts.drop_last();
        assert forall|i: int| 0 <= i < front.len() implies !(#[trigger] front[i]).contains(c) by {
            assert(front[i] == parts[i]);
        }
        lemma_join_split(front, c);
        let last = parts.last();
        assert(!parts[parts.len() - 1].contains(c));
        lemma_split_append(join(front, seq![c]), c, last);
        lemma_split_whole(last, c);
        assert(front + seq![last] =~= parts);
    }
}

/// Stringing together behind a first part.
pub proof fn lemma_join_cons(a: Seq<char>, rest: Seq<Seq<char>>, sep: Seq<char>)
    requires
        rest.len() > 0,
    ensures
        join(seq![a] + rest, sep) == a + sep + join(rest, sep),
    decreases rest.len(),
{
    let all = seq![a] + rest;
    assert(all.drop_last() =~= seq![a] + rest.drop_last());
    assert(all.last() == rest.last());
    if rest.len() == 1 {
        assert(rest.drop_last() =~= Seq::empty());
        assert(all.drop_last() =~= seq![a]);
        assert(join(all.drop_last(), sep) == a);
    } else {
        lemma_join_cons(a, rest.drop_last(), sep);
        assert(a + sep + (join(rest.drop_last(), sep) + sep + rest.last()) =~= a + sep + join(
            rest.drop_last(),
            sep,
        ) + sep + rest.last());
    }
}

/// Stringing together with a separator undoes cutting at it.
pub proof fn lemma_split_join(s: Seq<char>, c: char)
    ensures
        split(s, c).len() > 0,
        join(split(s, c), seq![c]) == s,
    decreases s.len(),
{
    lemma_position(s, c);
    let k = position(s, c) as int;
    if k < s.len() {
        let rest = s.skip(k + 1);
        lemma_split_join(rest, c);
        lemma_join_cons(s.take(k), split(rest, c), seq![c]);
        assert(s.take(k) + seq![c] + rest =~= s);
    }
}

/// The first line of a text.
pub proof fn lemma_lines_cons(line: Seq<char>, rest: Seq<char>)
    requires
        !line.contains('\n'),
    ensures
        lines(line + seq!['\n'] + rest) == seq![chomp(line)] + lines(rest),
{
    let s = line + seq!['\n'] + rest;
    assert forall|i: int| 0 <= i < line.len() implies s[i] != '\n' by {
        assert(line[i] == s[i]);
    }
    lemma_position_at(s, '\n', line.len() as int);
    lemma_position(rest, '\n');
    assert(s.take(line.len() as int) =~= line);
    assert(s.skip(line.len() as int + 1) =~= rest);
}

/// Cut a text at every occurrence of a character.
pub fn split_at(s: &str, c: char) -> (out: Vec<String>)
    ensures
        texts(out@) == split(s@, c),
{
    let mut out: Vec<String> = Vec::new();
    let mut part: String = String::new();
    let chars = chars_of(s);
    let mut i: usize = 0;
    assert(part@ + s@.skip(0) =~= s@);
    assert(texts(out@) + split(s@, c) =~= split(s@, c));
    while i < chars.len()
        invariant
            i <= chars@.len(),
            chars@ == s@,
            !part@.contains(c),
            split(s@, c) == texts(out@) + split(part@ + s@.skip(i as int), c),
        decreases chars@.len() - i,
    {
        let d = chars[i];
        let ghost rest = s@.skip(i + 1);
        if d == c {
            proof {
                assert(part@ + s@.skip(i as int) =~= part@ + seq![c] + rest);
                lemma_split_cons(part@, c, rest);
            }
            let ghost had = texts(out@);
            let ghost cut = part@;
            out.push(part);
            part = String::new();
            proof {
                assert(texts(out@) =~= had.push(cut));
                assert(part@ + rest =~= rest);
                assert(had + (seq![cut] + split(rest, c)) =~= had.push(cut) + split(rest, c));
            }
        } else {
            let ghost had = part@;
            part.push(d);
            proof {
                assert(part@ + rest =~= had + s@.skip(i as int));
                assert forall|j: int| 0 <= j < part@.len() implies part@[j] != c by {
                    if j < had.len() {
                        assert(had.contains(had[j]));
                    }
                }
            }
        }
        i = i + 1;
    }
    proof {
        assert(part@ + s@.skip(i as int) =~= part@);
        lemma_split_whole(part@, c);
    }
    let ghost had = texts(out@);
    let ghost last = part@;
    out.push(part);
    assert(texts(out@) =~= had + seq![last]);
    out
}

/// The lines of a text.
pub fn lines_of(s: &str) -> (out: Vec<String>)
    ensures
        texts(out@) == lines(s@),
{
    let mut out: Vec<String> = Vec::new();
    let mut line: Vec<char> = Vec::new();
    let chars = chars_of(s);
    let mut i: usize = 0;
    assert(line@ + s@.skip(0) =~= s@);
    assert(texts(out@) + lines(s@) =~= lines(s@));
    while i < chars.len()
        invariant
            i <= chars@.len(),
            chars@ == s@,
            !line@.contains('\n'),
            lines(s@) == texts(out@) + lines(line@ + s@.skip(i as int)),
        decreases chars@.len() - i,
    {
        let d = chars[i];
        let ghost rest = s@.skip(i + 1);
        if d == '\n' {
            proof {
                assert(line@ + s@.skip(i as int) =~= line@ + seq!['\n'] + rest);
                lemma_lines_cons(line@, rest);
            }
            let ghost had = texts(out@);
            let ghost cut = chomp(line@);
            if line.len() > 0 && line[line.len() - 1] == '\r' {
                line.pop();
            }
            assert(line@ =~= cut);
            let text = text_of(&line);
            out.push(text);
            line = Vec::new();
            proof {
                assert(texts(out@) =~= had.push(cut));
                assert(line@ + rest =~= rest);
                assert(had + (seq![cut] + lines(rest)) =~= had.push(cut) + lines(rest));
            }
        } else {
            let ghost had = line@;
            line.push(d);
            proof {
                assert(line@ + rest =~= had + s@.skip(i as int));
                assert forall|j: int| 0 <= j < line@.len() implies line@[j] != '\n' by {
                    if j < had.len() {
                        assert(had.contains(had[j]));
                    }
                }
            }
        }
        i = i + 1;
    }
    proof {
        assert(line@ + s@.skip(i as int) =~= line@);
        lemma_position(line@, '\n');
    }
    if line.len() > 0 {
        let ghost had = texts(out@);
        let text = text_of(&line);
        out.push(text);
        assert(texts(out@) =~= had + seq![line@]);
    } else {
        assert(texts(out@) =~= texts(out@) + Seq::empty());
    }
    out
}

/// String texts together with a separator between them.
pub fn join_with(parts: &Vec<String>, sep: &str) -> (out: String)
    ensures
        out@ == join(texts(parts@), sep@),
{
    let mut out: String = String::new();
    let mut i: usize = 0;
    assert(texts(parts@).take(0) =~= Seq::empty());
    while i < parts.len()
        invariant
            i <= parts@.len(),
            out@ == join(texts(parts@).take(i as int), sep@),
        decreases parts@.len() - i,
    {
        let ghost done = texts(parts@).take(i as int);
        let ghost next = texts(parts@).take(i + 1);
        assert(next.drop_last() =~= done);
        assert(next.last() == parts@[i as int]@);
        if i > 0 {
            out.append(sep);
        }
        out.append(parts[i].as_str());
        assert(i == 0 ==> out@ =~= next[0]);
        i = i + 1;
    }
    assert(texts(parts@).take(i as int) =~= texts(parts@));
    out
}

/// Count how often a character occurs.
pub fn count_of(s: &str, c: char) -> (n: usize)
    ensures
        n == count(s@, c),
{
    let chars = chars_of(s);
    let mut n: usize = 0;
    let mut i: usize = 0;
    while i < chars.len()
        invariant
            i <= chars@.len(),
            chars@ == s@,
            n == count(s@.take(i as int), c),
            n <= i,
        decreases chars@.len() - i,
    {
        assert(s@.take(i + 1).drop_last() =~= s@.take(i as int));
        if chars[i] == c {
            n = n + 1;
        }
        i = i + 1;
    }
    assert(s@.take(i as int) =~= s@);
    n
}

/// Texts written out one to a line.
pub open spec fn lined(parts: Seq<Seq<char>>) -> Seq<char>
    decreases parts.len(),
{
    if parts.len() == 0 {
        Seq::empty()
    } else {
        parts[0] + seq!['\n'] + lined(parts.drop_first())
    }
}

/// A text that stays one line when it is written on one.
pub open spec fn is_line(s: Seq<char>) -> bool {
    !s.contains('\n') && chomp(s) == s
}

/// What is written one to a line is read back line by line, but for carriage
/// returns at the ends.
pub proof fn lemma_lined_chomped(parts: Seq<Seq<char>>)
    requires
        forall|i: int| 0 <= i < parts.len() ==> !(#[trigger] parts[i]).contains('\n'),
    ensures
        lines(lined(parts)) == parts.map_values(|s: Seq<char>| chomp(s)),
    decreases parts.len(),
{
    if parts.len() > 0 {
        let rest = parts.drop_first();
        assert forall|i: int| 0 <= i < rest.len() implies !(#[trigger] rest[i]).contains('\n') by {
            assert(rest[i] == parts[i + 1]);
        }
        lemma_lined_chomped(rest);
        lemma_lines_cons(parts[0], lined(rest));
        assert(seq![chomp(parts[0])] + rest.map_values(|s: Seq<char>| chomp(s))
            =~= parts.map_values(|s: Seq<char>| chomp(s)));
    } else {
        lemma_position(lined(parts), '\n');
        assert(lines(lined(parts)) =~= parts.map_values(|s: Seq<char>| chomp(s)));
    }
}

/// What is written one to a line is read back line by line.
pub proof fn lemma_lined(parts: Seq<Seq<char>>)
    requires
        forall|i: int| 0 <= i < parts.len() ==> is_line(#[trigger] parts[i]),
    ensures
        lines(lined(parts)) == parts,
{
    lemma_lined_chomped(parts);
    assert(parts.map_values(|s: Seq<char>| chomp(s)) =~= parts) by {
        assert forall|i: int| 0 <= i < parts.len() implies chomp(parts[i]) == parts[i] by {
            assert(is_line(parts[i]));
        }
    }
}

/// Writing more lines behind others.
pub proof fn lemma_lined_push(parts: Seq<Seq<char>>, s: Seq<char>)
    ensures
        lined(parts.push(s)) == lined(parts) + s + seq!['\n'],
    decreases parts.len(),
{
    let all = parts.push(s);
    if parts.len() == 0 {
        assert(all.drop_first() =~= Seq::empty());
        assert(lined(all.drop_first()) =~= Seq::empty());
        assert(lined(parts) =~= Seq::empty());
        assert(lined(all) =~= lined(parts) + s + seq!['\n']);
    } else {
        assert(all.drop_first() =~= parts.drop_first().push(s));
        lemma_lined_push(parts.drop_first(), s);
        assert(lined(all) =~= lined(parts) + s + seq!['\n']);
    }
}

/// Write texts out one to a line.
pub fn write_lines(parts: &Vec<String>) -> (out: String)
    ensures
        out@ == lined(texts(parts@)),
{
    let mut out: String = String::new();
    let ghost all = texts(parts@);
    let mut i: usize = 0;
    assert(lined(all.take(0)) =~= Seq::empty());
    while i < parts.len()
        invariant
            i <= parts@.len(),
            all == texts(parts@),
            out@ == lined(all.take(i as int)),
        decreases parts@.len() - i,
    {
        proof {
            lemma_lined_push(all.take(i as int), all[i as int]);
            assert(all.take(i + 1) =~= all.take(i as int).push(all[i as int]));
        }
        out.append(parts[i].as_str());
        out.push('\n');
        assert(out@ =~= lined(all.take(i as int)) + all[i as int] + seq!['\n']);
        i = i + 1;
    }
    assert(all.take(i as int) =~= all);
    out
}

/// A text as `Debug` shows it: in double quotes, with what would not print
/// escaped.
pub uninterp spec fn quoted(s: Seq<char>) -> Seq<char>;

/// `str`'s `Debug` formatting, which `quoted` names: the text depends on the
/// string alone. How each character is escaped is left unsaid.
#[verifier::external_body]
pub(crate) fn quote(s: &str) -> (r: String)
    ensures
        r@ == quoted(s@),
{
    format!("{s:?}")
}

/// A path as `Debug` shows it: in double quotes, with what would not print
/// escaped.
pub uninterp spec fn path_quoted(s: Seq<char>) -> Seq<char>;

/// `std::path::Path`'s `Debug` formatting, which `path_quoted` names: the text
/// depends on the path alone. How each character is escaped is left unsaid.
#[verifier::external_body]
pub(crate) fn quote_path(s: &str) -> (r: String)
    ensures
        r@ == path_quoted(s@),
{
    format!("{:?}", std::path::Path::new(s))
}

/// The order of texts is that of a dictionary by characters: the first character in
/// which two texts differ decides, and a text comes before every text that goes on
/// where it ends.
pub proof fn law_the_first_difference_decides(
    same: Seq<char>,
    x: char,
    a: Seq<char>,
    y: char,
    b: Seq<char>,
)
    ensures
        x != y ==> (before(same + (seq![x] + a), same + (seq![y] + b)) <==> x < y),
        before(same, same + (seq![y] + b)),
        !before(same + (seq![y] + b), same),
        !before(same, same),
    decreases same.len(),
{
    let s = same + (seq![x] + a);
    let t = same + (seq![y] + b);
    if same.len() == 0 {
        assert(s[0] == x && t[0] == y);
        assert(s =~= seq![x] + a);
        assert(t =~= seq![y] + b);
    } else {
        let rest = same.drop_first();
        law_the_first_difference_decides(rest, x, a, y, b);
        assert(s.drop_first() =~= rest + (seq![x] + a));
        assert(t.drop_first() =~= rest + (seq![y] + b));
        assert(s[0] == same[0] && t[0] == same[0]);
    }
}

/// How often a character stands in two texts together is how often it stands in
/// each.
pub proof fn law_occurrences_add_up(a: Seq<char>, b: Seq<char>, c: char, x: char)
    ensures
        count(a + b, c) == count(a, c) + count(b, c),
        count(seq![x], c) == if x == c {
            1nat
        } else {
            0nat
        },
        count(Seq::empty(), c) == 0,
    decreases b.len(),
{
    let one = seq![x];
    assert(one.drop_last() =~= Seq::empty());
    assert(count(one.drop_last(), c) == 0);
    assert(one.last() == x);
    if b.len() == 0 {
        assert(a + b =~= a);
    } else {
        law_occurrences_add_up(a, b.drop_last(), c, x);
        assert((a + b).drop_last() =~= a + b.drop_last());
        assert((a + b).last() == b.last());
    }
}

/// A text begins with what stands at its front and ends with what stands at its
/// back, whatever is in between.
pub proof fn law_fronts_and_backs(a: Seq<char>, b: Seq<char>)
    ensures
        begins(a + b, a),
        ends(a + b, b),
        begins(a, b) ==> a == b + a.skip(b.len() as int),
        ends(a, b) ==> a == a.take(a.len() - b.len()) + b,
{
    assert((a + b).take(a.len() as int) =~= a);
    assert((a + b).skip((a + b).len() - b.len()) =~= b);
    if begins(a, b) {
        assert(a =~= b + a.skip(b.len() as int));
    }
    if ends(a, b) {
        assert(a =~= a.take(a.len() - b.len()) + b);
    }
}

/// A line ends at a line feed, and a carriage return before it belongs to the
/// ending. What follows is read as if it stood alone, and a last line needs no
/// ending.
pub proof fn law_lines_end_at_line_feeds(line: Seq<char>, rest: Seq<char>)
    requires
        !line.contains('\n'),
    ensures
        lines(line + seq!['\n'] + rest) == seq![
            if line.len() > 0 && line.last() == '\r' {
                line.drop_last()
            } else {
                line
            },
        ] + lines(rest),
        line.len() > 0 ==> lines(line) == seq![line],
        lines(Seq::empty()).len() == 0,
{
    lemma_lines_cons(line, rest);
    lemma_position(line, '\n');
    lemma_position(Seq::empty(), '\n');
}

/// Bytes that are a text are read as that text.
pub proof fn law_the_bytes_of_a_text_are_read_back(s: Seq<char>)
    ensures
        decoded(bytes(s)) == s,
{
    broadcast use vstd::utf8::group_utf8_lib;

}

} // verus!
