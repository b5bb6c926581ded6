//! Paths on the watch line.
//!
//! The watch line is a single line of `key=value` tokens, so a value may never
//! contain white space, `=` or a line break. Paths can contain all of them, so
//! they are escaped before they go on the line and unescaped on the way out.

use crate::text;
use vstd::prelude::*;
use vstd::string::*;

verus! {

/// The letter that stands behind a backslash for a character that cannot go on
/// the line as it is: the backslash itself, the equals sign, and every white
/// space.
pub open spec fn letter(c: char) -> Option<char> {
    if c == '\\' {
        Some('\\')
    } else if c == ' ' {
        Some('s')
    } else if c == '=' {
        Some('e')
    } else if c == '\n' {
        Some('n')
    } else if c == '\r' {
        Some('r')
    } else if c == '\t' {
        Some('t')
    } else if c == '\u{b}' {
        Some('v')
    } else if c == '\u{c}' {
        Some('f')
    } else if c == '\u{85}' {
        Some('A')
    } else if c == '\u{a0}' {
        Some('B')
    } else if c == '\u{1680}' {
        Some('C')
    } else if c == '\u{2000}' {
        Some('D')
    } else if c == '\u{2001}' {
        Some('E')
    } else if c == '\u{2002}' {
        Some('F')
    } else if c == '\u{2003}' {
        Some('G')
    } else if c == '\u{2004}' {
        Some('H')
    } else if c == '\u{2005}' {
        Some('I')
    } else if c == '\u{2006}' {
        Some('J')
    } else if c == '\u{2007}' {
        Some('K')
    } else if c == '\u{2008}' {
        Some('L')
    } else if c == '\u{2009}' {
        Some('M')
    } else if c == '\u{200a}' {
        Some('N')
    } else if c == '\u{2028}' {
        Some('O')
    } else if c == '\u{2029}' {
        Some('P')
    } else if c == '\u{202f}' {
        Some('Q')
    } else if c == '\u{205f}' {
        Some('R')
    } else if c == '\u{3000}' {
        Some('S')
    } else {
        None
    }
}

/// The character that a letter behind a backslash stands for.
pub open spec fn meant(c: char) -> Option<char> {
    if c == '\\' {
        Some('\\')
    } else if c == 's' {
        Some(' ')
    } else if c == 'e' {
        Some('=')
    } else if c == 'n' {
        Some('\n')
    } else if c == 'r' {
        Some('\r')
    } else if c == 't' {
        Some('\t')
    } else if c == 'v' {
        Some('\u{b}')
    } else if c == 'f' {
        Some('\u{c}')
    } else if c == 'A' {
        Some('\u{85}')
    } else if c == 'B' {
        Some('\u{a0}')
    } else if c == 'C' {
        Some('\u{1680}')
    } else if c == 'D' {
        Some('\u{2000}')
    } else if c == 'E' {
        Some('\u{2001}')
    } else if c == 'F' {
        Some('\u{2002}')
    } else if c == 'G' {
        Some('\u{2003}')
    } else if c == 'H' {
        Some('\u{2004}')
    } else if c == 'I' {
        Some('\u{2005}')
    } else if c == 'J' {
        Some('\u{2006}')
    } else if c == 'K' {
        Some('\u{2007}')
    } else if c == 'L' {
        Some('\u{2008}')
    } else if c == 'M' {
        Some('\u{2009}')
    } else if c == 'N' {
        Some('\u{200a}')
    } else if c == 'O' {
        Some('\u{2028}')
    } else if c == 'P' {
        Some('\u{2029}')
    } else if c == 'Q' {
        Some('\u{202f}')
    } else if c == 'R' {
        Some('\u{205f}')
    } else if c == 'S' {
        Some('\u{3000}')
    } else {
        None
    }
}

/// What a character becomes on the line.
pub open spec fn escape(c: char) -> Seq<char> {
    match letter(c) {
        Some(l) => seq!['\\', l],
        None => seq![c],
    }
}

fn letter_for(c: char) -> (r: Option<char>)
    ensures
        r == letter(c),
{
    if c == '\\' {
        Some('\\')
    } else if c == ' ' {
        Some('s')
    } else if c == '=' {
        Some('e')
    } else if c == '\n' {
        Some('n')
    } else if c == '\r' {
        Some('r')
    } else if c == '\t' {
        Some('t')
    } else if c == '\u{b}' {
        Some('v')
    } else if c == '\u{c}' {
        Some('f')
    } else if c == '\u{85}' {
        Some('A')
    } else if c == '\u{a0}' {
        Some('B')
    } else if c == '\u{1680}' {
        Some('C')
    } else if c == '\u{2000}' {
        Some('D')
    } else if c == '\u{2001}' {
        Some('E')
    } else if c == '\u{2002}' {
        Some('F')
    } else if c == '\u{2003}' {
        Some('G')
    } else if c == '\u{2004}' {
        Some('H')
    } else if c == '\u{2005}' {
        Some('I')
    } else if c == '\u{2006}' {
        Some('J')
    } else if c == '\u{2007}' {
        Some('K')
    } else if c == '\u{2008}' {
        Some('L')
    } else if c == '\u{2009}' {
        Some('M')
    } else if c == '\u{200a}' {
        Some('N')
    } else if c == '\u{2028}' {
        Some('O')
    } else if c == '\u{2029}' {
        Some('P')
    } else if c == '\u{202f}' {
        Some('Q')
    } else if c == '\u{205f}' {
        Some('R')
    } else if c == '\u{3000}' {
        Some('S')
    } else {
        None
    }
}

fn meaning(c: char) -> (r: Option<char>)
    ensures
        r == meant(c),
{
    if c == '\\' {
        Some('\\')
    } else if c == 's' {
        Some(' ')
    } else if c == 'e' {
        Some('=')
    } else if c == 'n' {
        Some('\n')
    } else if c == 'r' {
        Some('\r')
    } else if c == 't' {
        Some('\t')
    } else if c == 'v' {
        Some('\u{b}')
    } else if c == 'f' {
        Some('\u{c}')
    } else if c == 'A' {
        Some('\u{85}')
    } else if c == 'B' {
        Some('\u{a0}')
    } else if c == 'C' {
        Some('\u{1680}')
    } else if c == 'D' {
        Some('\u{2000}')
    } else if c == 'E' {
        Some('\u{2001}')
    } else if c == 'F' {
        Some('\u{2002}')
    } else if c == 'G' {
        Some('\u{2003}')
    } else if c == 'H' {
        Some('\u{2004}')
    } else if c == 'I' {
        Some('\u{2005}')
    } else if c == 'J' {
        Some('\u{2006}')
    } else if c == 'K' {
        Some('\u{2007}')
    } else if c == 'L' {
        Some('\u{2008}')
    } else if c == 'M' {
        Some('\u{2009}')
    } else if c == 'N' {
        Some('\u{200a}')
    } else if c == 'O' {
        Some('\u{2028}')
    } else if c == 'P' {
        Some('\u{2029}')
    } else if c == 'Q' {
        Some('\u{202f}')
    } else if c == 'R' {
        Some('\u{205f}')
    } else if c == 'S' {
        Some('\u{3000}')
    } else {
        None
    }
}

/// What a path becomes on the line.
pub open spec fn encoded(s: Seq<char>) -> Seq<char>
    decreases s.len(),
{
    if s.len() == 0 {
        Seq::empty()
    } else {
        escape(s[0]) + encoded(s.drop_first())
    }
}

/// What a backslash and the character behind it stand for. A character that is
/// never escaped keeps its backslash.
pub open spec fn unescape(c: char) -> Seq<char> {
    match meant(c) {
        Some(d) => seq![d],
        None => seq!['\\', c],
    }
}

/// What a token on the line stands for. A backslash at its end stands for
/// itself.
pub open spec fn decoded(s: Seq<char>) -> Seq<char>
    decreases s.len(),
{
    if s.len() == 0 {
        Seq::empty()
    } else if s[0] != '\\' || s.len() == 1 {
        seq![s[0]] + decoded(s.drop_first())
    } else {
        unescape(s[1]) + decoded(s.skip(2))
    }
}

/// Encode one path for the watch line.
pub fn encode_path(path: &str) -> (out: String)
    ensures
        out@ == encoded(path@),
{
    let chars = text::chars_of(path);
    let mut out: String = String::new();
    let mut i: usize = 0;
    assert(path@.skip(0) =~= path@);
    assert(out@ + encoded(path@) =~= encoded(path@));
    while i < chars.len()
        invariant
            i <= chars@.len(),
            chars@ == path@,
            out@ + encoded(path@.skip(i as int)) == encoded(path@),
        decreases chars@.len() - i,
    {
        let c = chars[i];
        let ghost rest = path@.skip(i as int);
        let ghost had = out@;
        match letter_for(c) {
            Some(l) => {
                out.push('\\');
                out.push(l);
            },
            None => {
                out.push(c);
            },
        }
        proof {
            assert(out@ =~= had + escape(c));
            assert(rest[0] == c);
            assert(rest.drop_first() =~= path@.skip(i + 1));
            assert(had + (escape(c) + encoded(rest.drop_first())) =~= out@ + encoded(
                rest.drop_first(),
            ));
        }
        i = i + 1;
    }
    assert(out@ + encoded(path@.skip(i as int)) =~= out@);
    out
}

/// Decode one path token from the watch line.
pub fn decode_path(token: &str) -> (out: String)
    ensures
        out@ == decoded(token@),
{
    let chars = text::chars_of(token);
    let mut out: String = String::new();
    let mut i: usize = 0;
    assert(token@.skip(0) =~= token@);
    assert(out@ + decoded(token@) =~= decoded(token@));
    while i < chars.len()
        invariant
            i <= chars@.len(),
            chars@ == token@,
            out@ + decoded(token@.skip(i as int)) == decoded(token@),
        decreases chars@.len() - i,
    {
        let c = chars[i];
        let ghost rest = token@.skip(i as int);
        let ghost had = out@;
        assert(rest[0] == c);
        if c == '\\' && i + 1 < chars.len() {
            let d = chars[i + 1];
            match meaning(d) {
                Some(m) => {
                    out.push(m);
                },
                None => {
                    out.push('\\');
                    out.push(d);
                },
            }
            proof {
                assert(rest[1] == d);
                assert(out@ =~= had + unescape(d));
                assert(rest.skip(2) =~= token@.skip(i + 2));
                assert(had + (unescape(d) + decoded(rest.skip(2))) =~= out@ + decoded(
                    rest.skip(2),
                ));
            }
            i = i + 2;
        } else {
            out.push(c);
            proof {
                assert(out@ =~= had + seq![c]);
                assert(rest.drop_first() =~= token@.skip(i + 1));
                assert(had + (seq![c] + decoded(rest.drop_first())) =~= out@ + decoded(
                    rest.drop_first(),
                ));
            }
            i = i + 1;
        }
    }
    assert(out@ + decoded(token@.skip(i as int)) =~= out@);
    out
}

/// Decoding an encoded path gives the path back.
pub proof fn law_paths_round_trip(s: Seq<char>)
    ensures
        decoded(encoded(s)) == s,
    decreases s.len(),
{
    if s.len() > 0 {
        let c = s[0];
        let rest = s.drop_first();
        law_paths_round_trip(rest);
        let e = encoded(s);
        let tail = encoded(rest);
        assert(e == escape(c) + tail);
        lemma_letters(c);
        if escape(c).len() == 2 {
            assert(e[0] == '\\');
            assert(e[1] == escape(c)[1]);
            assert(e.skip(2) =~= tail);
            assert(unescape(e[1]) =~= seq![c]);
        } else {
            assert(e[0] == c);
            assert(e.drop_first() =~= tail);
        }
        assert(seq![c] + rest =~= s);
    } else {
        assert(encoded(s) =~= Seq::empty());
        assert(decoded(encoded(s)) =~= s);
    }
}

/// A letter says which character it stands for, and is not one that has to be
/// escaped itself, but for the backslash.
proof fn lemma_letters(c: char)
    ensures
        text::is_space(c) ==> letter(c) is Some,
        letter(c) matches Some(l) ==> meant(l) == Some(c) && !text::is_space(l) && l != '=',
{
}

/// An encoded path holds no white space, line breaks included, and no equals
/// sign: it is a single value on the line.
pub proof fn law_an_encoded_path_is_one_token(s: Seq<char>)
    ensures
        forall|i: int| 0 <= i < encoded(s).len() ==> !text::is_space(#[trigger] encoded(s)[i]),
        forall|i: int| 0 <= i < encoded(s).len() ==> #[trigger] encoded(s)[i] != '=',
        !encoded(s).contains(' '),
        !encoded(s).contains('='),
        !encoded(s).contains('\n'),
        !encoded(s).contains('\r'),
    decreases s.len(),
{
    if s.len() > 0 {
        let rest = s.drop_first();
        law_an_encoded_path_is_one_token(rest);
        let e = encoded(s);
        let head = escape(s[0]);
        lemma_letters(s[0]);
        assert forall|i: int| 0 <= i < e.len() implies !text::is_space(#[trigger] e[i]) && e[i]
            != '=' by {
            if i < head.len() {
                assert(e[i] == head[i]);
            } else {
                assert(e[i] == encoded(rest)[i - head.len()]);
            }
        }
    }
}

/// A token without a backslash stands for itself.
pub proof fn law_a_plain_token_is_unchanged(s: Seq<char>)
    requires
        !s.contains('\\'),
    ensures
        decoded(s) == s,
    decreases s.len(),
{
    if s.len() > 0 {
        let rest = s.drop_first();
        assert(!rest.contains('\\')) by {
            if rest.contains('\\') {
                let i = choose|i: int| 0 <= i < rest.len() && rest[i] == '\\';
                assert(s[i + 1] == '\\');
            }
        }
        law_a_plain_token_is_unchanged(rest);
        assert(s.contains(s[0]));
        assert(seq![s[0]] + rest =~= s);
    } else {
        assert(decoded(s) =~= s);
    }
}

/// A path is written character by character: what two texts are written as
/// together is what each is written as, one behind the other.
pub proof fn law_each_character_is_written_by_itself(a: Seq<char>, b: Seq<char>)
    ensures
        encoded(a + b) == encoded(a) + encoded(b),
    decreases a.len(),
{
    if a.len() == 0 {
        assert(a + b =~= b);
        assert(encoded(a) + encoded(b) =~= encoded(b));
    } else {
        law_each_character_is_written_by_itself(a.drop_first(), b);
        assert((a + b).drop_first() =~= a.drop_first() + b);
        assert(encoded(a + b) =~= encoded(a) + encoded(b));
    }
}

/// Only white space, the equals sign and the backslash are written otherwise than
/// they are: each of them as a backslash and one letter.
pub proof fn law_only_special_characters_are_escaped(c: char)
    ensures
        encoded(seq![c]) == seq![c] <==> !(text::is_space(c) || c == '=' || c == '\\'),
        encoded(seq![c]) != seq![c] ==> encoded(seq![c]).len() == 2 && encoded(seq![c])[0] == '\\',
{
    let s = seq![c];
    assert(s.drop_first() =~= Seq::empty());
    assert(encoded(s.drop_first()) =~= Seq::empty());
    assert(encoded(s) =~= escape(c));
    assert(escape(c).len() == 2 ==> escape(c) != s);
}

/// An escape that means nothing, and a backslash that nothing follows, are read as
/// they stand.
pub proof fn law_an_unknown_escape_is_read_as_it_stands(c: char, rest: Seq<char>)
    requires
        meant(c) is None,
    ensures
        decoded(seq!['\\', c] + rest) == seq!['\\', c] + decoded(rest),
        decoded(seq!['\\']) == seq!['\\'],
{
    let s = seq!['\\', c] + rest;
    assert(s.skip(2) =~= rest);
    let t = seq!['\\'];
    assert(t.drop_first() =~= Seq::empty());
    assert(decoded(t.drop_first()) =~= Seq::empty());
    assert(decoded(t) =~= t);
}

} // verus!
