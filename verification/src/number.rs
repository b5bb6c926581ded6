//! Numbers in decimal notation.

use crate::text;
use vstd::prelude::*;

verus! {

/// The character for a digit.
pub open spec fn digit(d: nat) -> char {
    if d == 0 {
        '0'
    } else if d == 1 {
        '1'
    } else if d == 2 {
        '2'
    } else if d == 3 {
        '3'
    } else if d == 4 {
        '4'
    } else if d == 5 {
        '5'
    } else if d == 6 {
        '6'
    } else if d == 7 {
        '7'
    } else if d == 8 {
        '8'
    } else {
        '9'
    }
}

/// A number written in decimal digits, without leading zeros.
pub open spec fn digits(n: nat) -> Seq<char>
    decreases n,
{
    if n < 10 {
        seq![digit(n)]
    } else {
        digits(n / 10).push(digit(n % 10))
    }
}

/// What a character is worth as a digit.
pub open spec fn digit_value(c: char) -> Option<nat> {
    if '0' <= c <= '9' {
        Some((c as nat - '0' as nat) as nat)
    } else {
        None
    }
}

/// What a row of digits is worth; nothing for an empty row or one that holds
/// anything else.
pub open spec fn value(s: Seq<char>) -> Option<nat>
    decreases s.len(),
{
    if s.len() == 0 {
        None
    } else {
        match (digit_value(s.last()), value(s.drop_last())) {
            (Some(d), Some(v)) => Some(v * 10 + d),
            (Some(d), None) => if s.len() == 1 {
                Some(d)
            } else {
                None
            },
            (None, _) => None,
        }
    }
}

/// A row of digits, with or without a leading plus sign, that is worth no more
/// than `max`.
pub open spec fn parsed(s: Seq<char>, max: nat) -> Option<nat> {
    let body = if s.len() > 0 && s[0] == '+' {
        s.drop_first()
    } else {
        s
    };
    match value(body) {
        Some(v) => if v <= max {
            Some(v)
        } else {
            None
        },
        None => None,
    }
}

fn digit_char(d: u64) -> (c: char)
    requires
        d < 10,
    ensures
        c == digit(d as nat),
{
    if d == 0 {
        '0'
    } else if d == 1 {
        '1'
    } else if d == 2 {
        '2'
    } else if d == 3 {
        '3'
    } else if d == 4 {
        '4'
    } else if d == 5 {
        '5'
    } else if d == 6 {
        '6'
    } else if d == 7 {
        '7'
    } else if d == 8 {
        '8'
    } else {
        '9'
    }
}

fn char_digit(c: char) -> (r: Option<u64>)
    ensures
        match r {
            Some(d) => Some(d as nat),
            None => None,
        } == digit_value(c),
        r matches Some(d) ==> d < 10,
{
    match c {
        '0' => Some(0),
        '1' => Some(1),
        '2' => Some(2),
        '3' => Some(3),
        '4' => Some(4),
        '5' => Some(5),
        '6' => Some(6),
        '7' => Some(7),
        '8' => Some(8),
        '9' => Some(9),
        _ => None,
    }
}

/// Write a number in decimal digits.
pub fn decimal(n: u64) -> (s: String)
    ensures
        s@ == digits(n as nat),
    decreases n,
{
    let mut s = if n < 10 {
        String::new()
    } else {
        decimal(n / 10)
    };
    let ghost had = s@;
    s.push(digit_char(n % 10));
    assert(n < 10 ==> s@ =~= seq![digit(n as nat)]);
    s
}

/// Read a row of digits, with or without a leading plus sign, as a number no
/// larger than `max`.
pub fn parse(s: &str, max: u64) -> (r: Option<u64>)
    ensures
        match r {
            Some(v) => Some(v as nat),
            None => None,
        } == parsed(s@, max as nat),
{
    let chars = text::chars_of(s);
    let start: usize = if chars.len() > 0 && chars[0] == '+' {
        1
    } else {
        0
    };
    let ghost body = chars@.skip(start as int);
    proof {
        if start == 1 {
            assert(body =~= s@.drop_first());
        } else {
            assert(body =~= s@);
        }
    }
    if start >= chars.len() {
        assert(body.len() == 0);
        return None;
    }
    let mut total: u128 = 0;
    let mut i: usize = start;
    let mut over = false;
    while i < chars.len()
        invariant
            start <= i <= chars@.len(),
            start < chars@.len(),
            body == chars@.skip(start as int),
            body == (if s@[0] == '+' {
                s@.drop_first()
            } else {
                s@
            }),
            i > start ==> value(body.take(i - start)) is Some,
            i > start && !over ==> value(body.take(i - start)) == Some(total as nat),
            i > start && over ==> value(body.take(i - start))->0 > max,
            !over ==> total <= max,
            i == start ==> total == 0 && !over,
        decreases chars@.len() - i,
    {
        let ghost k = i - start;
        let ghost next = body.take(k + 1);
        proof {
            assert(next.drop_last() =~= body.take(k));
            assert(next.last() == chars@[i as int]);
        }
        match char_digit(chars[i]) {
            None => {
                proof {
                    lemma_value_none(body, k);
                }
                return None;
            },
            Some(d) => {
                if !over {
                    total = total * 10 + d as u128;
                    if total > max as u128 {
                        over = true;
                    }
                }
            },
        }
        i = i + 1;
    }
    assert(body.take(i - start) =~= body);
    if over {
        None
    } else {
        Some(total as u64)
    }
}

proof fn lemma_value_none(s: Seq<char>, k: int)
    requires
        0 <= k < s.len(),
        digit_value(s[k]) is None,
    ensures
        value(s) is None,
    decreases s.len(),
{
    if k < s.len() - 1 {
        lemma_value_none(s.drop_last(), k);
        if s.len() == 1 {
            assert(false);
        }
    }
}

/// A number written in decimal is a row of digits.
pub proof fn lemma_digits(n: nat)
    ensures
        digits(n).len() > 0,
        forall|i: int| 0 <= i < digits(n).len() ==> '0' <= #[trigger] digits(n)[i] <= '9',
    decreases n,
{
    if n >= 10 {
        lemma_digits(n / 10);
    }
}

/// Reading what was written gives the number back.
pub proof fn law_decimal_round_trips(n: nat)
    ensures
        value(digits(n)) == Some(n),
    decreases n,
{
    let d = n % 10;
    assert(digit_value(digit(d)) == Some(d));
    if n >= 10 {
        law_decimal_round_trips(n / 10);
        assert(digits(n).drop_last() =~= digits(n / 10));
        assert(digits(n).last() == digit(d));
    } else {
        assert(digits(n).drop_last() =~= Seq::<char>::empty());
        assert(value(Seq::<char>::empty()) is None);
        assert(digits(n).last() == digit(d));
        assert(d == n);
    }
}

/// A text is a number exactly when it has digits and nothing else, and a digit more
/// makes it ten times as much and that digit. Zeros in front do not matter.
pub proof fn law_digits_make_a_number(s: Seq<char>, c: char)
    ensures
        value(s) is Some <==> s.len() > 0 && forall|i: int|
            0 <= i < s.len() ==> '0' <= #[trigger] s[i] <= '9',
        value(Seq::empty()) is None,
        '0' <= c <= '9' ==> value(seq![c]) == Some((c as nat - '0' as nat) as nat),
        value(s) matches Some(v) ==> ('0' <= c <= '9' ==> value(s.push(c)) == Some(
            v * 10 + (c as nat - '0' as nat) as nat,
        )),
        value(s) matches Some(v) ==> value(seq!['0'] + s) == Some(v),
    decreases s.len(),
{
    assert(s.push(c).drop_last() =~= s);
    assert(seq![c].drop_last() =~= Seq::empty());
    let z = seq!['0'] + s;
    if s.len() > 0 {
        let less = s.drop_last();
        law_digits_make_a_number(less, c);
        assert(z.drop_last() =~= seq!['0'] + less);
        assert(z.last() == s.last());
        if value(s) is Some {
            assert forall|i: int| 0 <= i < s.len() implies '0' <= #[trigger] s[i] <= '9' by {
                if i < less.len() {
                    assert(less[i] == s[i]);
                }
            }
        }
        if forall|i: int| 0 <= i < s.len() ==> '0' <= #[trigger] s[i] <= '9' {
            assert forall|i: int| 0 <= i < less.len() implies '0' <= #[trigger] less[i] <= '9' by {
                assert(less[i] == s[i]);
            }
            assert('0' <= s[s.len() - 1] <= '9');
        }
        if less.len() == 0 {
            assert(seq!['0'] + less =~= seq!['0']);
            assert(seq!['0'].drop_last() =~= Seq::empty());
            assert(value(seq!['0']) == Some(0nat));
        }
    } else {
        assert(z =~= seq!['0']);
    }
}

/// A number is read back from its digits, with or without a sign in front, up to
/// the greatest that is allowed; past it nothing is read.
pub proof fn law_a_number_is_read_back(n: nat, max: nat)
    ensures
        n <= max ==> parsed(digits(n), max) == Some(n) && parsed(seq!['+'] + digits(n), max)
            == Some(n),
        n > max ==> parsed(digits(n), max) is None && parsed(seq!['+'] + digits(n), max) is None,
{
    law_decimal_round_trips(n);
    lemma_digits(n);
    let s = seq!['+'] + digits(n);
    assert(s.drop_first() =~= digits(n));
    assert('0' <= digits(n)[0] <= '9');
}

/// What is read is no more than is allowed, and a text with anything but digits
/// behind a sign is not read.
pub proof fn law_only_a_number_in_range_is_read(s: Seq<char>, max: nat)
    ensures
        parsed(s, max) matches Some(v) ==> v <= max,
        s.len() == 0 ==> parsed(s, max) is None,
        s == seq!['+'] ==> parsed(s, max) is None,
        (exists|i: int| 0 < i < s.len() && !('0' <= #[trigger] s[i] <= '9')) ==> parsed(s, max)
            is None,
{
    let body = if s.len() > 0 && s[0] == '+' {
        s.drop_first()
    } else {
        s
    };
    law_digits_make_a_number(body, '0');
    if exists|i: int| 0 < i < s.len() && !('0' <= #[trigger] s[i] <= '9') {
        let i = choose|i: int| 0 < i < s.len() && !('0' <= #[trigger] s[i] <= '9');
        if s[0] == '+' {
            assert(body[i - 1] == s[i]);
        } else {
            assert(body[i] == s[i]);
        }
    }
}

} // verus!
