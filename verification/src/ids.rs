//! Unit ids: the part a unit was read from, a `#`, a kind prefix and a
//! 1-based ordinal — `ppt/slides/slide1.xml#p3`, `word/document.xml#tbl1`.
//!
//! Every adapter issues ids in this shape and parses back only the ids it
//! issued. `#` cannot occur in an OPC part name, so the last `#` in an id is
//! the separator; the ordinal is written in decimal and read back as `usize`'s
//! own parser reads it, and an ordinal of zero is never issued.
use vstd::prelude::*;
use crate::strs::{chars_eq, chars_of, has_prefix, push_all, slice_chars, string_of, starts_with};

verus! {

broadcast use vstd::string::group_string_axioms;

/// The character of one decimal digit.
pub open spec fn digit_char(d: nat) -> char {
    if d == 0 { '0' } else if d == 1 { '1' } else if d == 2 { '2' } else if d == 3 { '3' } else if d == 4 { '4' }
    else if d == 5 { '5' } else if d == 6 { '6' } else if d == 7 { '7' } else if d == 8 { '8' } else { '9' }
}

/// The value of one decimal digit character.
pub open spec fn digit_value(c: char) -> Option<nat> {
    if c == '0' { Some(0) } else if c == '1' { Some(1) } else if c == '2' { Some(2) } else if c == '3' { Some(3) }
    else if c == '4' { Some(4) } else if c == '5' { Some(5) } else if c == '6' { Some(6) } else if c == '7' { Some(7) }
    else if c == '8' { Some(8) } else if c == '9' { Some(9) } else { None }
}

/// `n` written in decimal, without leading zeros.
pub open spec fn decimal(n: nat) -> Seq<char>
    decreases n,
{
    if n < 10 {
        seq![digit_char(n)]
    } else {
        decimal(n / 10).push(digit_char(n % 10))
    }
}

/// Whether every character is a decimal digit.
pub open spec fn all_digits(s: Seq<char>) -> bool {
    forall|i: int| 0 <= i < s.len() ==> #[trigger] digit_value(s[i]) is Some
}

/// The value a run of decimal digits spells.
pub open spec fn digits_value(s: Seq<char>) -> nat
    decreases s.len(),
{
    if s.len() == 0 {
        0
    } else {
        digits_value(s.drop_last()) * 10 + digit_value(s.last()).unwrap_or(0)
    }
}

/// What `usize::from_str` makes of a string: an optional `+` and one or more
/// decimal digits, whose value must fit in a `usize`.
pub open spec fn parse_usize(s: Seq<char>) -> Option<nat> {
    let d = if s.len() > 0 && s[0] == '+' { s.drop_first() } else { s };
    if d.len() == 0 || !all_digits(d) || digits_value(d) > usize::MAX {
        None
    } else {
        Some(digits_value(d))
    }
}

fn digit_char_exec(d: usize) -> (c: char)
    requires
        d < 10,
    ensures
        c == digit_char(d as nat),
{
    if d == 0 { '0' } else if d == 1 { '1' } else if d == 2 { '2' } else if d == 3 { '3' } else if d == 4 { '4' }
    else if d == 5 { '5' } else if d == 6 { '6' } else if d == 7 { '7' } else if d == 8 { '8' } else { '9' }
}

fn digit_value_exec(c: char) -> (r: Option<usize>)
    ensures
        r matches Some(d) ==> digit_value(c) == Some(d as nat) && d < 10,
        r is None ==> digit_value(c) is None,
{
    if c == '0' { Some(0) } else if c == '1' { Some(1) } else if c == '2' { Some(2) } else if c == '3' { Some(3) }
    else if c == '4' { Some(4) } else if c == '5' { Some(5) } else if c == '6' { Some(6) } else if c == '7' { Some(7) }
    else if c == '8' { Some(8) } else if c == '9' { Some(9) } else { None }
}

/// The decimal digits of `n`.
fn decimal_chars(n: usize) -> (r: Vec<char>)
    ensures
        r@ == decimal(n as nat),
    decreases n,
{
    if n < 10 {
        let mut r: Vec<char> = Vec::new();
        r.push(digit_char_exec(n));
        assert(r@ =~= seq![digit_char(n as nat)]);
        r
    } else {
        let mut r = decimal_chars(n / 10);
        r.push(digit_char_exec(n % 10));
        r
    }
}

/// `n` in decimal.
pub fn decimal_of(n: usize) -> (r: String)
    ensures
        r@ == decimal(n as nat),
{
    string_of(&decimal_chars(n))
}

/// Read an ordinal the way `usize::from_str` does.
pub fn parse_ordinal(s: &[char]) -> (r: Option<usize>)
    ensures
        r matches Some(n) ==> parse_usize(s@) == Some(n as nat),
        r is None ==> parse_usize(s@) is None,
{
    let start: usize = if s.len() > 0 && s[0] == '+' { 1 } else { 0 };
    let ghost d = if s@.len() > 0 && s@[0] == '+' { s@.drop_first() } else { s@ };
    assert(d =~= s@.skip(start as int));
    assert(parse_usize(s@) == (if d.len() == 0 || !all_digits(d) || digits_value(d) > usize::MAX { None } else { Some(digits_value(d)) }));
    if start == s.len() {
        return None;
    }
    let mut value: usize = 0;
    let mut i = start;
    while i < s.len()
        invariant
            start <= i <= s@.len(),
            d == s@.skip(start as int),
            parse_usize(s@) == (if d.len() == 0 || !all_digits(d) || digits_value(d) > usize::MAX { None } else { Some(digits_value(d)) }),
            all_digits(s@.subrange(start as int, i as int)),
            value as nat == digits_value(s@.subrange(start as int, i as int)),
        decreases s@.len() - i,
    {
        let ghost before = s@.subrange(start as int, i as int);
        let ghost after = s@.subrange(start as int, i + 1);
        assert(after.drop_last() =~= before);
        match digit_value_exec(s[i]) {
            Some(digit) => {
                if value > (usize::MAX - digit) / 10 {
                    proof {
                        assert(after.last() == s@[i as int]);
                        assert(digits_value(after) == digits_value(before) * 10 + digit);
                        assert(digits_value(after) > usize::MAX) by (nonlinear_arith)
                            requires
                                value > (usize::MAX - digit) / 10,
                                digits_value(after) == value * 10 + digit,
                                digit < 10;
                        lemma_digits_value_prefix(d, i - start + 1);
                        assert(d.take(i - start + 1) =~= after);
                        assert(digits_value(d) > usize::MAX);
                        assert(parse_usize(s@) is None);
                    }
                    return None;
                }
                assert(value * 10 + digit <= usize::MAX) by (nonlinear_arith)
                    requires
                        value <= (usize::MAX - digit) / 10,
                        digit < 10;
                value = value * 10 + digit;
                assert forall|k: int| 0 <= k < after.len() implies #[trigger] digit_value(after[k]) is Some by {
                    if k < before.len() {
                        assert(after[k] == before[k]);
                    }
                }
            },
            None => {
                proof {
                    assert(d[i - start] == s@[i as int]);
                    assert(digit_value(d[i - start]) is None);
                    assert(!all_digits(d));
                    assert(parse_usize(s@) is None);
                }
                return None;
            },
        }
        i += 1;
    }
    assert(s@.subrange(start as int, i as int) =~= d);
    Some(value)
}

/// A longer run of digits is worth at least as much as its prefix.
proof fn lemma_digits_value_prefix(d: Seq<char>, n: int)
    requires
        0 <= n <= d.len(),
    ensures
        digits_value(d.take(n)) <= digits_value(d),
    decreases d.len() - n,
{
    if n < d.len() {
        lemma_digits_value_prefix(d, n + 1);
        assert(d.take(n + 1).drop_last() =~= d.take(n));
    } else {
        assert(d.take(n) =~= d);
    }
}

proof fn lemma_digit_round_trip(d: nat)
    requires
        d < 10,
    ensures
        digit_value(digit_char(d)) == Some(d),
{
}

proof fn lemma_decimal_digits(n: nat)
    ensures
        decimal(n).len() > 0,
        decimal(n)[0] != '+',
        all_digits(decimal(n)),
        digits_value(decimal(n)) == n,
    decreases n,
{
    lemma_digit_round_trip(n % 10);
    if n < 10 {
        assert(n % 10 == n);
        let s = decimal(n);
        assert(s.drop_last() =~= Seq::<char>::empty());
        assert(s.last() == digit_char(n));
        assert(digits_value(s) == digits_value(s.drop_last()) * 10 + digit_value(s.last()).unwrap_or(0));
    }
    if n >= 10 {
        lemma_decimal_digits(n / 10);
        assert(n == (n / 10) * 10 + n % 10);
        let s = decimal(n);
        assert(s.drop_last() =~= decimal(n / 10));
        assert(s.last() == digit_char(n % 10));
        assert(digits_value(s) == digits_value(decimal(n / 10)) * 10 + (n % 10));
        assert forall|i: int| 0 <= i < s.len() implies #[trigger] digit_value(s[i]) is Some by {
            if i < s.len() - 1 {
                assert(s[i] == decimal(n / 10)[i]);
            }
        }
    }
}

/// Reading back an ordinal written in decimal gives the ordinal.
pub proof fn lemma_parse_decimal(n: nat)
    requires
        n <= usize::MAX,
    ensures
        parse_usize(decimal(n)) == Some(n),
        !signed(decimal(n)),
        numeral(decimal(n)),
{
    lemma_decimal_digits(n);
}

/// An id: the part, `#`, a prefix and the ordinal in decimal.
pub open spec fn spec_id(part: Seq<char>, prefix: Seq<char>, index: nat) -> Seq<char> {
    part + seq!['#'] + prefix + decimal(index)
}

/// Build an id from its part, prefix and ordinal.
pub fn make_id(part: &str, prefix: &str, index: usize) -> (r: String)
    ensures
        r@ == spec_id(part@, prefix@, index as nat),
{
    let mut out = chars_of(part);
    out.push('#');
    push_all(&mut out, &chars_of(prefix));
    push_all(&mut out, &decimal_chars(index));
    string_of(&out)
}

/// The last position of `c` in `s`.
pub open spec fn last_pos(s: Seq<char>, c: char) -> Option<int>
    decreases s.len(),
{
    if s.len() == 0 {
        None
    } else if s.last() == c {
        Some(s.len() - 1)
    } else {
        last_pos(s.drop_last(), c)
    }
}

/// An id split at its last `#`: the part, and what follows.
pub open spec fn split_id(id: Seq<char>) -> Option<(Seq<char>, Seq<char>)> {
    match last_pos(id, '#') {
        Some(i) => Some((id.take(i), id.skip(i + 1))),
        None => None,
    }
}

proof fn lemma_last_pos_bounds(s: Seq<char>, c: char)
    ensures
        last_pos(s, c) matches Some(i) ==> 0 <= i < s.len() && s[i] == c,
    decreases s.len(),
{
    if s.len() > 0 && s.last() != c {
        lemma_last_pos_bounds(s.drop_last(), c);
    }
}

/// Split an id at its last `#`.
pub fn split_at_last_hash(id: &str) -> (r: Option<(Vec<char>, Vec<char>)>)
    ensures
        r matches Some(p) ==> split_id(id@) == Some((p.0@, p.1@)),
        r is None ==> split_id(id@) is None,
{
    let c = chars_of(id);
    let mut i = c.len();
    assert(c@.take(i as int) =~= c@);
    while i > 0
        invariant
            i <= c@.len(),
            c@ == id@,
            last_pos(c@, '#') == last_pos(c@.take(i as int), '#'),
        decreases i,
    {
        assert(c@.take(i as int).drop_last() =~= c@.take(i - 1));
        if c[i - 1] == '#' {
            return Some((slice_chars(&c, 0, i - 1), slice_chars(&c, i, c.len())));
        }
        i -= 1;
    }
    None
}

/// Splitting an issued id at its last `#` gives back its part and the rest.
pub proof fn lemma_split_issued(part: Seq<char>, prefix: Seq<char>, index: nat)
    requires
        !prefix.contains('#'),
    ensures
        split_id(spec_id(part, prefix, index)) == Some((part, prefix + decimal(index))),
{
    lemma_decimal_digits(index);
    let tail = prefix + decimal(index);
    let id = spec_id(part, prefix, index);
    assert(id =~= part.push('#') + tail);
    assert(!tail.contains('#')) by {
        if tail.contains('#') {
            let k = choose|k: int| 0 <= k < tail.len() && tail[k] == '#';
            if k < prefix.len() {
                assert(prefix[k] == '#');
            } else {
                assert(digit_value(decimal(index)[k - prefix.len()]) is Some);
            }
        }
    }
    lemma_last_pos_suffix(part.push('#'), tail, '#');
    assert(id.take(part.len() as int) =~= part);
    assert(id.skip(part.len() as int + 1) =~= tail);
}

proof fn lemma_last_pos_suffix(a: Seq<char>, b: Seq<char>, c: char)
    requires
        a.len() > 0,
        a.last() == c,
        !b.contains(c),
    ensures
        last_pos(a + b, c) == Some(a.len() - 1),
    decreases b.len(),
{
    if b.len() == 0 {
        assert(a + b =~= a);
    } else {
        assert((a + b).drop_last() =~= a + b.drop_last());
        assert((a + b).last() == b.last());
        assert(b.drop_last().contains(c) ==> b.contains(c)) by {
            if b.drop_last().contains(c) {
                let k = choose|k: int| 0 <= k < b.drop_last().len() && b.drop_last()[k] == c;
                assert(b[k] == c);
            }
        }
        assert(b.last() != c) by {
            assert(b[b.len() - 1] == b.last());
        }
        lemma_last_pos_suffix(a, b.drop_last(), c);
    }
}

/// The ordinal after `prefix` in what follows an id's `#`, if that is how it
/// starts and the ordinal reads as a positive `usize`.
pub open spec fn ordinal_after(rest: Seq<char>, prefix: Seq<char>) -> Option<nat> {
    if has_prefix(rest, prefix) && !signed(rest.skip(prefix.len() as int)) {
        match parse_usize(rest.skip(prefix.len() as int)) {
            Some(n) => if n > 0 { Some(n) } else { None },
            None => None,
        }
    } else {
        None
    }
}

/// Whether a numeral starts with a `+` sign, which no issued id writes.
pub open spec fn signed(s: Seq<char>) -> bool {
    s.len() > 0 && s[0] == '+'
}

/// The positive ordinal after `prefix`, in digits alone.
pub fn ordinal_after_exec(rest: &[char], prefix: &str) -> (r: Option<usize>)
    ensures
        r matches Some(n) ==> ordinal_after(rest@, prefix@) == Some(n as nat),
        r is None ==> ordinal_after(rest@, prefix@) is None,
{
    let p = chars_of(prefix);
    if !starts_with(rest, &p) {
        return None;
    }
    if rest.len() > p.len() && rest[p.len()] == '+' {
        assert(rest@.skip(p@.len() as int)[0] == rest@[p.len() as int]);
        return None;
    }
    assert(rest@.len() > p@.len() ==> rest@.skip(p@.len() as int)[0] == rest@[p.len() as int]);
    match parse_ordinal(&slice_chars(rest, p.len(), rest.len())) {
        Some(n) => if n > 0 { Some(n) } else { None },
        None => None,
    }
}

/// Reading the ordinal back out of an issued id's tail gives the ordinal.
pub proof fn lemma_ordinal_after_issued(prefix: Seq<char>, index: nat)
    requires
        0 < index <= usize::MAX,
    ensures
        ordinal_after(prefix + decimal(index), prefix) == Some(index),
{
    let rest = prefix + decimal(index);
    assert(rest.take(prefix.len() as int) =~= prefix);
    assert(rest.skip(prefix.len() as int) =~= decimal(index));
    lemma_parse_decimal(index);
}

/// Whether a string is an optional `+` and one or more decimal digits,
/// whether or not their value fits in a `usize`.
pub open spec fn numeral(s: Seq<char>) -> bool {
    let d = if s.len() > 0 && s[0] == '+' { s.drop_first() } else { s };
    d.len() > 0 && all_digits(d)
}

/// Whether a string is an optional `+` and one or more decimal digits.
pub fn is_numeral(s: &[char]) -> (r: bool)
    ensures
        r == numeral(s@),
{
    let start: usize = if s.len() > 0 && s[0] == '+' { 1 } else { 0 };
    let ghost d = if s@.len() > 0 && s@[0] == '+' { s@.drop_first() } else { s@ };
    assert(d =~= s@.skip(start as int));
    if start == s.len() {
        return false;
    }
    let mut i = start;
    while i < s.len()
        invariant
            start <= i <= s@.len(),
            d == s@.skip(start as int),
            d == (if s@.len() > 0 && s@[0] == '+' { s@.drop_first() } else { s@ }),
            d.len() > 0,
            forall|j: int| 0 <= j < i - start ==> #[trigger] digit_value(d[j]) is Some,
        decreases s@.len() - i,
    {
        if digit_value_exec(s[i]).is_none() {
            assert(d[i - start] == s@[i as int]);
            assert(digit_value(d[i - start]) is None);
            assert(!all_digits(d));
            return false;
        }
        assert(d[i - start] == s@[i as int]);
        i += 1;
    }
    true
}

/// What `u32::from_str` makes of a string: as `usize` reads it, within
/// `u32`'s range.
pub open spec fn parse_u32(s: Seq<char>) -> Option<nat> {
    match parse_usize(s) {
        Some(n) => if n <= u32::MAX { Some(n) } else { None },
        None => None,
    }
}

/// Read a `u32` the way `u32::from_str` does.
pub fn parse_u32_exec(s: &[char]) -> (r: Option<u32>)
    ensures
        r matches Some(n) ==> parse_u32(s@) == Some(n as nat),
        r is None ==> parse_u32(s@) is None,
{
    match parse_ordinal(s) {
        Some(n) => if n <= 0xFFFF_FFFF { Some(n as u32) } else { None },
        None => None,
    }
}

} // verus!
