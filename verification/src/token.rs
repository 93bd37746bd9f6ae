//! The token-rewrite scaffold: edit a named element or attribute and leave
//! every other token of the part exactly as it was.
//!
//! Nothing here names an element. `a:t` and `w:t` are both "the element whose
//! content is run text", and a caller says which it means; `a:pPr` and `w:pPr`
//! are both "a child that goes in schema position", and a caller supplies the
//! sequence.
//!
//! **Attributes are edited in their raw characters, never rebuilt**: a value
//! is spliced in place, or appended, and the rest of the tag is left alone.
//! **Inserted children are placed by schema rank** against the sequence the
//! caller passes.
use vstd::prelude::*;
use crate::strs::{chars_eq, chars_of, push_all, slice_chars, string_of};
use crate::xml::{escape, escaped, lemma_escaped_has_no_quote, Kind, Token};

verus! {

// ------------------------------------------------------------ value lexemes

/// The three spellings of a true `ST_OnOff`.
pub open spec fn spec_is_true(v: Seq<char>) -> bool {
    v == seq!['1'] || v == seq!['t', 'r', 'u', 'e'] || v == seq!['o', 'n']
}

/// Whether an `ST_OnOff` lexical value is true.
///
/// This reads a value that is *present*. Whether an absent one means true is
/// a question about the element carrying it, not about the lexical space.
pub fn is_true(value: &str) -> (r: bool)
    ensures
        r == spec_is_true(value@),
{
    let v = chars_of(value);
    let one = vec!['1'];
    let t = vec!['t', 'r', 'u', 'e'];
    let on = vec!['o', 'n'];
    assert(one@ =~= seq!['1']);
    assert(t@ =~= seq!['t', 'r', 'u', 'e']);
    assert(on@ =~= seq!['o', 'n']);
    chars_eq(&v, &one) || chars_eq(&v, &t) || chars_eq(&v, &on)
}

// ------------------------------------------------------------ raw attributes

/// ASCII whitespace, as the raw attribute scanner splits on it.
pub open spec fn is_ascii_ws(c: char) -> bool {
    c == ' ' || c == '\t' || c == '\n' || c == '\x0C' || c == '\r'
}

fn ascii_ws(c: char) -> (r: bool)
    ensures
        r == is_ascii_ws(c),
{
    c == ' ' || c == '\t' || c == '\n' || c == '\x0C' || c == '\r'
}

/// The first position at or after `i` that is not ASCII whitespace.
pub open spec fn skip_ws(c: Seq<char>, i: int) -> int
    decreases c.len() - i,
{
    if 0 <= i < c.len() && is_ascii_ws(c[i]) {
        skip_ws(c, i + 1)
    } else {
        i
    }
}

/// The first position at or after `i` holding ASCII whitespace.
pub open spec fn skip_word(c: Seq<char>, i: int) -> int
    decreases c.len() - i,
{
    if 0 <= i < c.len() && !is_ascii_ws(c[i]) {
        skip_word(c, i + 1)
    } else {
        i
    }
}

/// The first position at or after `i` holding `=` or ASCII whitespace.
pub open spec fn skip_name(c: Seq<char>, i: int) -> int
    decreases c.len() - i,
{
    if 0 <= i < c.len() && c[i] != '=' && !is_ascii_ws(c[i]) {
        skip_name(c, i + 1)
    } else {
        i
    }
}

/// The first position at or after `i` holding `q`.
pub open spec fn skip_to(c: Seq<char>, i: int, q: char) -> int
    decreases c.len() - i,
{
    if 0 <= i < c.len() && c[i] != q {
        skip_to(c, i + 1, q)
    } else {
        i
    }
}

/// One attribute as the raw scanner finds it: its name and the half-open
/// character range of its (still-escaped) value in the tag's content.
pub type RawAttr = (Seq<char>, int, int);

/// The attributes the raw scanner reads from position `i` of a tag's content.
///
/// Whitespace separates attributes; a `/` or the end of the content ends the
/// scan; a name not followed by `=` and a quoted value is skipped rather than
/// allowed to misread everything after it; a value runs to the matching quote
/// or, unterminated, to the end.
pub open spec fn scan_from(c: Seq<char>, i: int) -> Seq<RawAttr>
    decreases c.len() + 1 - i,
{
    if i < 0 || i > c.len() {
        seq![]
    } else {
        let a = skip_ws(c, i);
        if a >= c.len() || c[a] == '/' {
            seq![]
        } else {
            let ne = skip_name(c, a);
            let b = skip_ws(c, ne);
            if b >= c.len() || c[b] != '=' {
                if i < b <= c.len() { scan_from(c, b) } else { seq![] }
            } else {
                let d = skip_ws(c, b + 1);
                if d >= c.len() || (c[d] != '"' && c[d] != '\'') {
                    if i < d <= c.len() { scan_from(c, d) } else { seq![] }
                } else {
                    let ve = skip_to(c, d + 1, c[d]);
                    seq![(c.subrange(a, ne), d + 1, ve)] + (if i < ve + 1 && ve <= c.len() {
                        scan_from(c, ve + 1)
                    } else {
                        seq![]
                    })
                }
            }
        }
    }
}

/// Every attribute of a start or empty tag's content, name skipped.
pub open spec fn scan(c: Seq<char>) -> Seq<RawAttr> {
    scan_from(c, skip_word(c, 0))
}

proof fn lemma_skip_ws(c: Seq<char>, i: int)
    requires
        0 <= i,
    ensures
        i <= skip_ws(c, i),
        i <= c.len() ==> skip_ws(c, i) <= c.len(),
        skip_ws(c, i) < c.len() ==> !is_ascii_ws(c[skip_ws(c, i)]),
        forall|j: int| i <= j < skip_ws(c, i) ==> is_ascii_ws(#[trigger] c[j]),
    decreases c.len() - i,
{
    if 0 <= i < c.len() && is_ascii_ws(c[i]) {
        lemma_skip_ws(c, i + 1);
    }
}

proof fn lemma_skip_name(c: Seq<char>, i: int)
    requires
        0 <= i,
    ensures
        i <= skip_name(c, i),
        i <= c.len() ==> skip_name(c, i) <= c.len(),
        skip_name(c, i) < c.len() ==> (c[skip_name(c, i)] == '=' || is_ascii_ws(c[skip_name(c, i)])),
        forall|j: int| i <= j < skip_name(c, i) ==> c[j] != '=' && !is_ascii_ws(#[trigger] c[j]),
    decreases c.len() - i,
{
    if 0 <= i < c.len() && c[i] != '=' && !is_ascii_ws(c[i]) {
        lemma_skip_name(c, i + 1);
    }
}

proof fn lemma_skip_to(c: Seq<char>, i: int, q: char)
    requires
        0 <= i,
    ensures
        i <= skip_to(c, i, q),
        i <= c.len() ==> skip_to(c, i, q) <= c.len(),
        skip_to(c, i, q) < c.len() ==> c[skip_to(c, i, q)] == q,
        forall|j: int| i <= j < skip_to(c, i, q) ==> #[trigger] c[j] != q,
    decreases c.len() - i,
{
    if 0 <= i < c.len() && c[i] != q {
        lemma_skip_to(c, i + 1, q);
    }
}

proof fn lemma_skip_word(c: Seq<char>, i: int)
    requires
        0 <= i <= c.len(),
    ensures
        i <= skip_word(c, i) <= c.len(),
    decreases c.len() - i,
{
    if 0 <= i < c.len() && !is_ascii_ws(c[i]) {
        lemma_skip_word(c, i + 1);
    }
}

fn skip_ws_exec(c: &[char], i: usize) -> (r: usize)
    requires
        i <= c@.len(),
    ensures
        r == skip_ws(c@, i as int),
{
    let mut j = i;
    while j < c.len() && ascii_ws(c[j])
        invariant
            i <= j <= c@.len(),
            skip_ws(c@, i as int) == skip_ws(c@, j as int),
        decreases c@.len() - j,
    {
        j += 1;
    }
    j
}

fn skip_word_exec(c: &[char], i: usize) -> (r: usize)
    requires
        i <= c@.len(),
    ensures
        r == skip_word(c@, i as int),
{
    let mut j = i;
    while j < c.len() && !ascii_ws(c[j])
        invariant
            i <= j <= c@.len(),
            skip_word(c@, i as int) == skip_word(c@, j as int),
        decreases c@.len() - j,
    {
        j += 1;
    }
    j
}

fn skip_name_exec(c: &[char], i: usize) -> (r: usize)
    requires
        i <= c@.len(),
    ensures
        r == skip_name(c@, i as int),
{
    let mut j = i;
    while j < c.len() && c[j] != '=' && !ascii_ws(c[j])
        invariant
            i <= j <= c@.len(),
            skip_name(c@, i as int) == skip_name(c@, j as int),
        decreases c@.len() - j,
    {
        j += 1;
    }
    j
}

fn skip_to_exec(c: &[char], i: usize, q: char) -> (r: usize)
    requires
        i <= c@.len(),
    ensures
        r == skip_to(c@, i as int, q),
{
    let mut j = i;
    while j < c.len() && c[j] != q
        invariant
            i <= j <= c@.len(),
            skip_to(c@, i as int, q) == skip_to(c@, j as int, q),
        decreases c@.len() - j,
    {
        j += 1;
    }
    j
}

/// One attribute's name and the range of its value inside a tag's content.
struct RawAttribute {
    name: Vec<char>,
    start: usize,
    end: usize,
}

spec fn raw_views(v: Seq<RawAttribute>) -> Seq<RawAttr> {
    v.map_values(|a: RawAttribute| (a.name@, a.start as int, a.end as int))
}

/// Scan a start tag's raw content into attribute names and value ranges.
///
/// Hand-written rather than delegated to quick-xml's attribute parser because
/// the ranges are the whole point: they are what makes an in-place value
/// splice possible.
fn scan_attributes(content: &[char]) -> (out: Vec<RawAttribute>)
    ensures
        raw_views(out@) == scan(content@),
        forall|k: int| 0 <= k < out@.len() ==> 0 <= (#[trigger] out@[k]).start <= out@[k].end <= content@.len(),
{
    let c = content;
    let mut out: Vec<RawAttribute> = Vec::new();
    let mut i = skip_word_exec(c, 0);
    let mut done = false;
    proof {
        lemma_skip_word(c@, 0);
    }
    while !done && i < c.len()
        invariant
            i <= c@.len(),
            done ==> scan_from(c@, i as int) =~= Seq::<RawAttr>::empty(),
            raw_views(out@) + scan_from(c@, i as int) == scan(c@),
            forall|k: int| 0 <= k < out@.len() ==> 0 <= (#[trigger] out@[k]).start <= out@[k].end <= c@.len(),
        decreases c@.len() + 1 - i, (if done { 0int } else { 1int }),
    {
        let ghost i0 = i as int;
        proof {
            lemma_skip_ws(c@, i0);
        }
        let a = skip_ws_exec(c, i);
        if a >= c.len() || c[a] == '/' {
            done = true;
            assert(scan_from(c@, i0) =~= Seq::<RawAttr>::empty());
            continue;
        }
        let ne = skip_name_exec(c, a);
        proof {
            lemma_skip_name(c@, a as int);
            lemma_skip_ws(c@, ne as int);
        }
        let name = slice_chars(c, a, ne);
        let b = skip_ws_exec(c, ne);
        if b >= c.len() || c[b] != '=' {
            i = b;
            continue;
        }
        proof {
            lemma_skip_ws(c@, b + 1);
        }
        let d = skip_ws_exec(c, b + 1);
        if d >= c.len() || (c[d] != '"' && c[d] != '\'') {
            i = d;
            continue;
        }
        let q = c[d];
        proof {
            lemma_skip_to(c@, d + 1, q);
        }
        let ve = skip_to_exec(c, d + 1, q);
        let ghost before = raw_views(out@);
        out.push(RawAttribute { name, start: d + 1, end: ve });
        assert(raw_views(out@) =~= before.push((c@.subrange(a as int, ne as int), d + 1, ve as int)));
        assert(scan_from(c@, i0) == seq![(c@.subrange(a as int, ne as int), d + 1, ve as int)]
            + scan_from(c@, ve + 1));
        if ve == c.len() {
            done = true;
            i = ve;
            assert(scan_from(c@, ve + 1) =~= Seq::<RawAttr>::empty());
        } else {
            i = ve + 1;
        }
    }
    proof {
        if !done {
            lemma_skip_ws(c@, i as int);
            assert(scan_from(c@, i as int) =~= Seq::<RawAttr>::empty());
        }
    }
    assert(raw_views(out@) =~= scan(c@));
    out
}

} // verus!

verus! {

/// The first raw attribute called `name`.
pub open spec fn first_named(attrs: Seq<RawAttr>, name: Seq<char>) -> Option<RawAttr>
    decreases attrs.len(),
{
    if attrs.len() == 0 {
        None
    } else if attrs[0].0 == name {
        Some(attrs[0])
    } else {
        first_named(attrs.drop_first(), name)
    }
}

/// An attribute's raw, still-escaped value in a tag's content.
pub open spec fn spec_get_attribute(c: Seq<char>, name: Seq<char>) -> Option<Seq<char>> {
    match first_named(scan(c), name) {
        Some(a) => Some(c.subrange(a.1, a.2)),
        None => None,
    }
}

/// One past the last character of `c` that is not ASCII whitespace, or 0.
pub open spec fn last_non_ws(c: Seq<char>) -> int
    decreases c.len(),
{
    if c.len() == 0 {
        0
    } else if !is_ascii_ws(c.last()) {
        c.len() as int
    } else {
        last_non_ws(c.drop_last())
    }
}

/// Where an appended attribute goes: after the last character that is not
/// ASCII whitespace, or at the very end when there is no such character.
pub open spec fn content_end(c: Seq<char>) -> int {
    if last_non_ws(c) == 0 {
        c.len() as int
    } else {
        last_non_ws(c)
    }
}

/// ` name="value"`, the text an appended attribute takes.
pub open spec fn appended(name: Seq<char>, value: Seq<char>) -> Seq<char> {
    seq![' '] + name + seq!['=', '"'] + escaped(value) + seq!['"']
}

/// A tag's content with `name` set to `value`: the old value replaced in
/// place when the attribute is present, or the attribute appended before any
/// trailing whitespace when it is not.
pub open spec fn spec_set_attribute(c: Seq<char>, name: Seq<char>, value: Seq<char>) -> Seq<char> {
    match first_named(scan(c), name) {
        Some(a) => c.take(a.1) + escaped(value) + c.skip(a.2),
        None => c.take(content_end(c)) + appended(name, value) + c.skip(content_end(c)),
    }
}

fn first_named_exec(attrs: &Vec<RawAttribute>, name: &[char]) -> (r: Option<usize>)
    ensures
        r matches Some(k) ==> k < attrs@.len() && first_named(raw_views(attrs@), name@) == Some(
            raw_views(attrs@)[k as int],
        ),
        r is None ==> first_named(raw_views(attrs@), name@) is None,
{
    let mut k: usize = 0;
    assert(raw_views(attrs@).skip(0) =~= raw_views(attrs@));
    while k < attrs.len()
        invariant
            k <= attrs@.len(),
            first_named(raw_views(attrs@), name@) == first_named(raw_views(attrs@).skip(k as int), name@),
        decreases attrs@.len() - k,
    {
        let ghost rest = raw_views(attrs@).skip(k as int);
        assert(rest[0] == raw_views(attrs@)[k as int]);
        if chars_eq(&attrs[k].name, name) {
            return Some(k);
        }
        assert(rest.drop_first() =~= raw_views(attrs@).skip(k + 1));
        k += 1;
    }
    None
}

/// Read an attribute's raw (still-escaped) value.
pub fn get_attribute(tag: &Token, name: &str) -> (r: Option<String>)
    ensures
        r matches Some(v) ==> spec_get_attribute(tag.text@, name@) == Some(v@),
        r is None ==> spec_get_attribute(tag.text@, name@) is None,
{
    let c = chars_of(tag.text.as_str());
    let attrs = scan_attributes(&c);
    let want = chars_of(name);
    match first_named_exec(&attrs, &want) {
        Some(k) => {
            assert(raw_views(attrs@)[k as int] == (attrs@[k as int].name@, attrs@[k as int].start as int,
                attrs@[k as int].end as int));
            Some(string_of(&slice_chars(&c, attrs[k].start, attrs[k].end)))
        },
        None => None,
    }
}

fn content_end_exec(c: &[char]) -> (r: usize)
    ensures
        r == content_end(c@),
        r <= c@.len(),
{
    let mut n = c.len();
    assert(c@.take(n as int) =~= c@);
    while n > 0 && ascii_ws(c[n - 1])
        invariant
            n <= c@.len(),
            last_non_ws(c@) == last_non_ws(c@.take(n as int)),
        decreases n,
    {
        assert(c@.take(n as int).drop_last() =~= c@.take(n - 1));
        n -= 1;
    }
    if n == 0 {
        c.len()
    } else {
        n
    }
}

/// Set an attribute, replacing its value in place if present or appending it
/// if not, and leaving every other character of the tag untouched. The value
/// is escaped for XML on the way in.
pub fn set_attribute(tag: &Token, name: &str, value: &str) -> (r: Token)
    ensures
        r.kind == tag.kind,
        r.text@ == spec_set_attribute(tag.text@, name@, value@),
{
    let c = chars_of(tag.text.as_str());
    let attrs = scan_attributes(&c);
    let want = chars_of(name);
    let esc = chars_of(escape(value).as_str());
    let mut out: Vec<char> = Vec::new();
    match first_named_exec(&attrs, &want) {
        Some(k) => {
            assert(raw_views(attrs@)[k as int] == (attrs@[k as int].name@, attrs@[k as int].start as int,
                attrs@[k as int].end as int));
            push_all(&mut out, &slice_chars(&c, 0, attrs[k].start));
            push_all(&mut out, &esc);
            push_all(&mut out, &slice_chars(&c, attrs[k].end, c.len()));
        },
        None => {
            let end = content_end_exec(&c);
            push_all(&mut out, &slice_chars(&c, 0, end));
            out.push(' ');
            push_all(&mut out, &want);
            out.push('=');
            out.push('"');
            push_all(&mut out, &esc);
            out.push('"');
            push_all(&mut out, &slice_chars(&c, end, c.len()));
        },
    }
    assert(out@ =~= spec_set_attribute(tag.text@, name@, value@));
    Token { kind: tag.kind, text: string_of(&out) }
}

} // verus!

verus! {

// Two contents that agree below `s` are scanned alike up to `s`.

proof fn lemma_skip_ws_agree(c: Seq<char>, c2: Seq<char>, i: int, s: int)
    requires
        0 <= i,
        skip_ws(c, i) < s <= c.len(),
        s <= c2.len(),
        forall|j: int| 0 <= j < s ==> c[j] == c2[j],
    ensures
        skip_ws(c2, i) == skip_ws(c, i),
    decreases c.len() - i,
{
    lemma_skip_ws(c, i);
    if i < c.len() {
        assert(c2[i] == c[i]);
    }
    if 0 <= i < c.len() && is_ascii_ws(c[i]) {
        lemma_skip_ws_agree(c, c2, i + 1, s);
    }
}

proof fn lemma_skip_word_agree(c: Seq<char>, c2: Seq<char>, i: int, s: int)
    requires
        0 <= i,
        skip_word(c, i) < s <= c.len(),
        s <= c2.len(),
        forall|j: int| 0 <= j < s ==> c[j] == c2[j],
    ensures
        skip_word(c2, i) == skip_word(c, i),
    decreases c.len() - i,
{
    lemma_skip_word_le(c, i);
    if i < c.len() {
        assert(c2[i] == c[i]);
    }
    if 0 <= i < c.len() && !is_ascii_ws(c[i]) {
        lemma_skip_word_agree(c, c2, i + 1, s);
    }
}

proof fn lemma_skip_name_agree(c: Seq<char>, c2: Seq<char>, i: int, s: int)
    requires
        0 <= i,
        skip_name(c, i) < s <= c.len(),
        s <= c2.len(),
        forall|j: int| 0 <= j < s ==> c[j] == c2[j],
    ensures
        skip_name(c2, i) == skip_name(c, i),
    decreases c.len() - i,
{
    lemma_skip_name(c, i);
    if i < c.len() {
        assert(c2[i] == c[i]);
    }
    if 0 <= i < c.len() && c[i] != '=' && !is_ascii_ws(c[i]) {
        lemma_skip_name_agree(c, c2, i + 1, s);
    }
}

proof fn lemma_skip_to_agree(c: Seq<char>, c2: Seq<char>, i: int, q: char, s: int)
    requires
        0 <= i,
        skip_to(c, i, q) < s <= c.len(),
        s <= c2.len(),
        forall|j: int| 0 <= j < s ==> c[j] == c2[j],
    ensures
        skip_to(c2, i, q) == skip_to(c, i, q),
    decreases c.len() - i,
{
    lemma_skip_to(c, i, q);
    if i < c.len() {
        assert(c2[i] == c[i]);
    }
    if 0 <= i < c.len() && c[i] != q {
        lemma_skip_to_agree(c, c2, i + 1, q, s);
    }
}

proof fn lemma_skip_word_le(c: Seq<char>, i: int)
    requires
        0 <= i,
    ensures
        i <= skip_word(c, i),
    decreases c.len() - i,
{
    if 0 <= i < c.len() && !is_ascii_ws(c[i]) {
        lemma_skip_word_le(c, i + 1);
    }
}

/// A quote-free stretch is crossed in one go.
proof fn lemma_skip_to_over(c: Seq<char>, i: int, n: int, q: char)
    requires
        0 <= i,
        0 <= n,
        i + n <= c.len(),
        forall|j: int| i <= j < i + n ==> c[j] != q,
    ensures
        skip_to(c, i, q) == skip_to(c, i + n, q),
    decreases n,
{
    if n > 0 {
        lemma_skip_to_over(c, i + 1, n - 1, q);
    }
}

/// Every value the scan finds starts after the whitespace the scan starts at.
proof fn lemma_scan_starts_after(c: Seq<char>, i: int)
    requires
        0 <= i <= c.len(),
    ensures
        forall|k: int| 0 <= k < scan_from(c, i).len() ==> skip_ws(c, i) < (#[trigger] scan_from(c, i)[k]).1,
    decreases c.len() + 1 - i,
{
    lemma_skip_ws(c, i);
    let a = skip_ws(c, i);
    if a >= c.len() || c[a] == '/' {
        assert(scan_from(c, i) =~= Seq::<RawAttr>::empty());
    } else {
        let ne = skip_name(c, a);
        lemma_skip_name(c, a);
        let b = skip_ws(c, ne);
        lemma_skip_ws(c, ne);
        if b >= c.len() || c[b] != '=' {
            if i < b <= c.len() {
                lemma_scan_starts_after(c, b);
                lemma_skip_ws(c, b);
                assert(scan_from(c, i) == scan_from(c, b));
            } else {
                assert(scan_from(c, i) =~= Seq::<RawAttr>::empty());
            }
        } else {
            let d = skip_ws(c, b + 1);
            lemma_skip_ws(c, b + 1);
            if d >= c.len() || (c[d] != '"' && c[d] != '\'') {
                if i < d <= c.len() {
                    lemma_scan_starts_after(c, d);
                    lemma_skip_ws(c, d);
                    assert(scan_from(c, i) == scan_from(c, d));
                } else {
                    assert(scan_from(c, i) =~= Seq::<RawAttr>::empty());
                }
            } else {
                let ve = skip_to(c, d + 1, c[d]);
                lemma_skip_to(c, d + 1, c[d]);
                if i < ve + 1 && ve <= c.len() {
                    if ve + 1 <= c.len() {
                        lemma_scan_starts_after(c, ve + 1);
                        lemma_skip_ws(c, ve + 1);
                    }
                }
                let tail = if i < ve + 1 && ve <= c.len() {
                    scan_from(c, ve + 1)
                } else {
                    seq![]
                };
                assert(scan_from(c, i) == seq![(c.subrange(a, ne), d + 1, ve)] + tail);
                assert forall|k: int| 0 <= k < scan_from(c, i).len() implies skip_ws(c, i) < (
                #[trigger] scan_from(c, i)[k]).1 by {
                    if k > 0 {
                        assert(scan_from(c, i)[k] == tail[k - 1]);
                        if ve + 1 > c.len() {
                            assert(scan_from(c, ve + 1) =~= Seq::<RawAttr>::empty());
                        }
                    }
                }
            }
        }
    }
}

/// The scan of a content whose value at `[s, e)` was replaced by a quote-free
/// `rep` finds the same first attribute of that name, now spanning `rep`.
#[verifier::spinoff_prover]
#[verifier::rlimit(40)]
proof fn lemma_scan_after_splice(c: Seq<char>, c2: Seq<char>, i: int, name: Seq<char>, s: int, e: int, rep: Seq<char>)
    requires
        0 <= i <= c.len(),
        c2 == c.take(s) + rep + c.skip(e),
        forall|j: int| 0 <= j < rep.len() ==> rep[j] != '"' && rep[j] != '\'',
        first_named(scan_from(c, i), name) == Some((name, s, e)),
    ensures
        first_named(scan_from(c2, i), name) == Some((name, s, s + rep.len())),
    decreases c.len() + 1 - i,
{
    lemma_skip_ws(c, i);
    lemma_scan_starts_after(c, i);
    lemma_first_named_in(scan_from(c, i), name);
    let a = skip_ws(c, i);
    let found = first_named(scan_from(c, i), name).unwrap();
    assert(a < s);
    assert(s <= e <= c.len()) by {
        lemma_scan_bounds(c, i);
    }
    assert forall|j: int| 0 <= j < s implies c[j] == c2[j] by {
        assert(c2[j] == c.take(s)[j]);
    }
    assert(c2.len() == s + rep.len() + (c.len() - e));
    lemma_skip_ws_agree(c, c2, i, s);
    assert(!(a >= c.len() || c[a] == '/'));
    let ne = skip_name(c, a);
    lemma_skip_name(c, a);
    let b = skip_ws(c, ne);
    lemma_skip_ws(c, ne);
    if b >= c.len() || c[b] != '=' {
        lemma_scan_starts_after(c, b);
        lemma_skip_ws(c, b);
        assert(i < b <= c.len());
        assert(scan_from(c, i) == scan_from(c, b));
        lemma_first_named_in(scan_from(c, b), name);
        lemma_skip_name_agree(c, c2, a, s);
        lemma_skip_ws_agree(c, c2, ne, s);
        lemma_scan_after_splice(c, c2, b, name, s, e, rep);
    } else {
        let d = skip_ws(c, b + 1);
        lemma_skip_ws(c, b + 1);
        if d >= c.len() || (c[d] != '"' && c[d] != '\'') {
            lemma_scan_starts_after(c, d);
            lemma_skip_ws(c, d);
            assert(i < d <= c.len());
            assert(scan_from(c, i) == scan_from(c, d));
            lemma_first_named_in(scan_from(c, d), name);
            lemma_skip_name_agree(c, c2, a, s);
            lemma_skip_ws_agree(c, c2, ne, s);
            lemma_skip_ws_agree(c, c2, b + 1, s);
            lemma_scan_after_splice(c, c2, d, name, s, e, rep);
        } else {
            let q = c[d];
            let ve = skip_to(c, d + 1, q);
            lemma_skip_to(c, d + 1, q);
            let tail = if i < ve + 1 && ve <= c.len() {
                scan_from(c, ve + 1)
            } else {
                seq![]
            };
            assert(scan_from(c, i) == seq![(c.subrange(a, ne), d + 1, ve)] + tail);
            if i < ve + 1 && ve + 1 <= c.len() {
                lemma_scan_starts_after(c, ve + 1);
                lemma_skip_ws(c, ve + 1);
            }
            if ve + 1 > c.len() {
                assert(scan_from(c, ve + 1) =~= Seq::<RawAttr>::empty());
            }
            assert(d + 1 <= s) by {
                let k = choose|k: int| 0 <= k < scan_from(c, i).len() && scan_from(c, i)[k] == found;
                if k > 0 {
                    assert(scan_from(c, i)[k] == tail[k - 1]);
                }
            }
            lemma_skip_name_agree(c, c2, a, s);
            lemma_skip_ws_agree(c, c2, ne, s);
            lemma_skip_ws_agree(c, c2, b + 1, s);
            assert(c2[d] == q);
            assert(c2.subrange(a, ne) == c.subrange(a, ne));
            if c.subrange(a, ne) == name {
                assert(found == (c.subrange(a, ne), d + 1, ve));
                assert(s == d + 1 && e == ve);
                assert forall|j: int| s <= j < s + rep.len() implies c2[j] != q by {
                    assert(c2[j] == rep[j - s]);
                }
                lemma_skip_to_over(c2, s, rep.len() as int, q);
                if e < c.len() {
                    assert(c2[s + rep.len()] == c[e]);
                }
                let ve2 = skip_to(c2, d + 1, q);
                assert(ve2 == s + rep.len());
                let tail2 = if i < ve2 + 1 && ve2 <= c2.len() {
                    scan_from(c2, ve2 + 1)
                } else {
                    seq![]
                };
                assert(scan_from(c2, i) == seq![(c2.subrange(a, ne), d + 1, ve2)] + tail2);
                assert((seq![(c2.subrange(a, ne), d + 1, ve2)] + tail2)[0] == (name, s, s + rep.len()));
            } else {
                assert(first_named(scan_from(c, i), name) == first_named(tail, name)) by {
                    assert((seq![(c.subrange(a, ne), d + 1, ve)] + tail).drop_first() =~= tail);
                }
                assert(tail.len() > 0);
                assert(i < ve + 1 && ve <= c.len());
                if ve + 1 > c.len() {
                    assert(scan_from(c, ve + 1) =~= Seq::<RawAttr>::empty());
                }
                lemma_scan_starts_after(c, ve + 1);
                lemma_skip_ws(c, ve + 1);
                lemma_first_named_in(tail, name);
                assert(ve < s);
                lemma_skip_to_agree(c, c2, d + 1, q, s);
                lemma_scan_after_splice(c, c2, ve + 1, name, s, e, rep);
                let tail2 = scan_from(c2, ve + 1);
                assert(scan_from(c2, i) == seq![(c2.subrange(a, ne), d + 1, ve)] + tail2);
                assert((seq![(c2.subrange(a, ne), d + 1, ve)] + tail2).drop_first() =~= tail2);
            }
        }
    }
}

/// The first attribute of a name is one of the attributes.
proof fn lemma_first_named_in(attrs: Seq<RawAttr>, name: Seq<char>)
    ensures
        first_named(attrs, name) matches Some(x) ==> x.0 == name && exists|k: int| 0 <= k < attrs.len() && attrs[k] == x,
    decreases attrs.len(),
{
    if attrs.len() > 0 && attrs[0].0 != name {
        lemma_first_named_in(attrs.drop_first(), name);
        if let Some(x) = first_named(attrs, name) {
            let k = choose|k: int| 0 <= k < attrs.drop_first().len() && attrs.drop_first()[k] == x;
            assert(attrs[k + 1] == x);
        }
    } else if attrs.len() > 0 {
        assert(attrs[0] == first_named(attrs, name).unwrap());
    }
}

/// Every value range the scan reports lies inside the content.
proof fn lemma_scan_bounds(c: Seq<char>, i: int)
    requires
        0 <= i <= c.len(),
    ensures
        forall|k: int| 0 <= k < scan_from(c, i).len() ==> 0 <= (#[trigger] scan_from(c, i)[k]).1 <= scan_from(c, i)[k].2 <= c.len(),
    decreases c.len() + 1 - i,
{
    lemma_skip_ws(c, i);
    let a = skip_ws(c, i);
    if a >= c.len() || c[a] == '/' {
        assert(scan_from(c, i) =~= Seq::<RawAttr>::empty());
    } else {
        let ne = skip_name(c, a);
        lemma_skip_name(c, a);
        let b = skip_ws(c, ne);
        lemma_skip_ws(c, ne);
        if b >= c.len() || c[b] != '=' {
            if i < b <= c.len() {
                lemma_scan_bounds(c, b);
                assert(scan_from(c, i) == scan_from(c, b));
            } else {
                assert(scan_from(c, i) =~= Seq::<RawAttr>::empty());
            }
        } else {
            let d = skip_ws(c, b + 1);
            lemma_skip_ws(c, b + 1);
            if d >= c.len() || (c[d] != '"' && c[d] != '\'') {
                if i < d <= c.len() {
                    lemma_scan_bounds(c, d);
                    assert(scan_from(c, i) == scan_from(c, d));
                } else {
                    assert(scan_from(c, i) =~= Seq::<RawAttr>::empty());
                }
            } else {
                let ve = skip_to(c, d + 1, c[d]);
                lemma_skip_to(c, d + 1, c[d]);
                let tail = if i < ve + 1 && ve <= c.len() {
                    scan_from(c, ve + 1)
                } else {
                    seq![]
                };
                if i < ve + 1 && ve <= c.len() && ve + 1 <= c.len() {
                    lemma_scan_bounds(c, ve + 1);
                }
                if ve + 1 > c.len() {
                    assert(scan_from(c, ve + 1) =~= Seq::<RawAttr>::empty());
                }
                assert(scan_from(c, i) == seq![(c.subrange(a, ne), d + 1, ve)] + tail);
                assert forall|k: int| 0 <= k < scan_from(c, i).len() implies 0 <= (#[trigger] scan_from(
                    c,
                    i,
                )[k]).1 <= scan_from(c, i)[k].2 <= c.len() by {
                    if k > 0 {
                        assert(scan_from(c, i)[k] == tail[k - 1]);
                    }
                }
            }
        }
    }
}

/// What a write puts in place is what a read gives back: once an attribute
/// present in a tag has been set, reading it yields the new value, escaped.
pub proof fn lemma_get_after_set_present(c: Seq<char>, name: Seq<char>, value: Seq<char>)
    requires
        spec_get_attribute(c, name) is Some,
    ensures
        spec_get_attribute(spec_set_attribute(c, name, value), name) == Some(escaped(value)),
{
    let w = skip_word(c, 0);
    lemma_skip_word(c, 0);
    let found = first_named(scan(c), name).unwrap();
    let (s, e) = (found.1, found.2);
    let e2 = escaped(value);
    let c2 = spec_set_attribute(c, name, value);
    lemma_escaped_has_no_quote(value);
    lemma_scan_starts_after(c, w);
    lemma_scan_bounds(c, w);
    lemma_first_named_in(scan(c), name);
    lemma_skip_ws(c, w);
    assert(w < s);
    assert(c2 == c.take(s) + e2 + c.skip(e));
    assert forall|j: int| 0 <= j < s implies c[j] == c2[j] by {
        assert(c2[j] == c.take(s)[j]);
    }
    lemma_skip_word_agree(c, c2, 0, s);
    lemma_scan_after_splice(c, c2, w, name, s, e, e2);
    assert(c2.subrange(s, s + e2.len()) =~= e2);
}

/// Setting an attribute to the value a tag already states for it, escaped,
/// leaves the tag's content as it was, character for character.
pub proof fn lemma_set_unchanged(c: Seq<char>, name: Seq<char>, value: Seq<char>)
    requires
        spec_get_attribute(c, name) == Some(escaped(value)),
    ensures
        spec_set_attribute(c, name, value) == c,
{
    let w = skip_word(c, 0);
    lemma_skip_word(c, 0);
    lemma_scan_bounds(c, w);
    lemma_first_named_in(scan(c), name);
    let found = first_named(scan(c), name).unwrap();
    assert(0 <= found.1 <= found.2 <= c.len());
    assert(c.take(found.1) + c.subrange(found.1, found.2) + c.skip(found.2) =~= c);
}

/// Setting an attribute a tag already states, and then setting it again to
/// the same value, gives the content the first setting gave.
pub proof fn lemma_set_present_twice(c: Seq<char>, name: Seq<char>, value: Seq<char>)
    requires
        spec_get_attribute(c, name) is Some,
    ensures
        spec_set_attribute(spec_set_attribute(c, name, value), name, value) == spec_set_attribute(c, name, value),
{
    lemma_get_after_set_present(c, name, value);
    lemma_set_unchanged(spec_set_attribute(c, name, value), name, value);
}

} // verus!

verus! {

// ------------------------------------------------------------------- elements

/// The direct children of a container, scanning from `i` at nesting `depth`
/// below it: a start or empty tag at depth zero is a child, and an end tag at
/// depth zero closes the container.
pub open spec fn children_from(ev: Seq<Token>, i: int, depth: nat) -> Seq<int>
    decreases ev.len() - i,
{
    if i < 0 || i >= ev.len() {
        seq![]
    } else if ev[i].kind == Kind::Start {
        (if depth == 0 { seq![i] } else { seq![] }) + children_from(ev, i + 1, depth + 1)
    } else if ev[i].kind == Kind::Empty {
        (if depth == 0 { seq![i] } else { seq![] }) + children_from(ev, i + 1, depth)
    } else if ev[i].kind == Kind::End {
        if depth == 0 {
            seq![]
        } else {
            children_from(ev, i + 1, (depth - 1) as nat)
        }
    } else {
        children_from(ev, i + 1, depth)
    }
}

/// The direct children of the element whose start is `ev[0]`.
pub open spec fn spec_direct_children(ev: Seq<Token>) -> Seq<int> {
    children_from(ev, 1, 0)
}

proof fn lemma_children_from_bounds(ev: Seq<Token>, i: int, depth: nat)
    requires
        0 <= i,
    ensures
        forall|k: int| 0 <= k < children_from(ev, i, depth).len() ==> i <= #[trigger] children_from(ev, i, depth)[k] < ev.len(),
    decreases ev.len() - i,
{
    if i < ev.len() {
        let cf = children_from(ev, i, depth);
        if ev[i].kind == Kind::Start || ev[i].kind == Kind::Empty {
            let d2: nat = if ev[i].kind == Kind::Start { depth + 1 } else { depth };
            lemma_children_from_bounds(ev, i + 1, d2);
            let head: Seq<int> = if depth == 0 { seq![i] } else { seq![] };
            let rest = children_from(ev, i + 1, d2);
            if ev[i].kind == Kind::Start {
                assert(cf == head + rest);
            } else {
                assert(cf == head + rest);
            }
            assert forall|k: int| 0 <= k < cf.len() implies i <= #[trigger] cf[k] < ev.len() by {
                if k >= head.len() {
                    assert(cf[k] == rest[k - head.len()]);
                } else {
                    assert(cf[k] == i);
                }
            }
        } else if ev[i].kind == Kind::End {
            if depth > 0 {
                lemma_children_from_bounds(ev, i + 1, (depth - 1) as nat);
                assert(cf == children_from(ev, i + 1, (depth - 1) as nat));
            } else {
                assert(cf =~= Seq::<int>::empty());
            }
        } else {
            lemma_children_from_bounds(ev, i + 1, depth);
            assert(cf == children_from(ev, i + 1, depth));
        }
    }
}

/// Indices of the direct element children of `events[0]`, which must be the
/// container's start tag.
pub fn direct_children(events: &[Token]) -> (out: Vec<usize>)
    ensures
        out@.map_values(|k: usize| k as int) == spec_direct_children(events@),
        forall|k: int| 0 <= k < out@.len() ==> 1 <= #[trigger] out@[k] < events@.len(),
{
    let mut out: Vec<usize> = Vec::new();
    let mut depth: usize = 0;
    let mut i: usize = 1;
    let mut done = false;
    proof {
        lemma_children_from_bounds(events@, 1, 0);
    }
    while !done && i < events.len()
        invariant
            1 <= i,
            depth < i,
            out@.map_values(|k: usize| k as int) + (if done { seq![] } else { children_from(events@, i as int, depth as nat) }) == spec_direct_children(events@),
            forall|k: int| 0 <= k < out@.len() ==> 1 <= #[trigger] out@[k] < events@.len(),
            forall|k: int| 0 <= k < out@.len() ==> #[trigger] out@[k] < i,
        decreases events@.len() - i, (if done { 0int } else { 1int }),
    {
        let ghost before = out@.map_values(|k: usize| k as int);
        let kind = events[i].kind;
        if kind == Kind::Start {
            if depth == 0 {
                out.push(i);
            }
            depth += 1;
        } else if kind == Kind::Empty {
            if depth == 0 {
                out.push(i);
            }
        } else if kind == Kind::End {
            if depth == 0 {
                done = true;
            } else {
                depth -= 1;
            }
        }
        proof {
            if kind == Kind::Start || kind == Kind::Empty {
                if depth == 0 || (kind == Kind::Start && depth == 1) {
                    assert(out@.map_values(|k: usize| k as int) =~= before + seq![i as int]);
                } else {
                    assert(out@.map_values(|k: usize| k as int) =~= before);
                }
            } else {
                assert(out@.map_values(|k: usize| k as int) =~= before);
            }
        }
        if !done {
            i += 1;
        }
    }
    proof {
        if !done {
            assert(children_from(events@, i as int, depth as nat) =~= Seq::<int>::empty());
        }
        assert(out@.map_values(|k: usize| k as int) =~= spec_direct_children(events@));
    }
    out
}

/// Where the element starting at `i - 1` closes, scanning from `i` at nesting
/// `depth` inside it: one past its matching end tag, or the end of the stream.
pub open spec fn close_of(ev: Seq<Token>, i: int, depth: nat) -> int
    decreases ev.len() - i,
{
    if i < 0 || i >= ev.len() {
        ev.len() as int
    } else if ev[i].kind == Kind::Start {
        close_of(ev, i + 1, depth + 1)
    } else if ev[i].kind == Kind::End {
        if depth <= 1 {
            i + 1
        } else {
            close_of(ev, i + 1, (depth - 1) as nat)
        }
    } else {
        close_of(ev, i + 1, depth)
    }
}

/// Whether `ev[at]` opens an element: a start tag or an empty one.
pub open spec fn opens_element(ev: Seq<Token>, at: int) -> bool {
    0 <= at < ev.len() && (ev[at].kind == Kind::Start || ev[at].kind == Kind::Empty)
}

/// One past the last event of the element starting at `at`.
pub open spec fn element_end(ev: Seq<Token>, at: int) -> int {
    if ev[at].kind == Kind::Empty {
        at + 1
    } else {
        close_of(ev, at + 1, 1)
    }
}

proof fn lemma_close_of_bounds(ev: Seq<Token>, i: int, depth: nat)
    requires
        0 <= i,
    ensures
        i <= close_of(ev, i, depth) <= ev.len() || (i > ev.len() && close_of(ev, i, depth) == ev.len()),
        i < ev.len() ==> i < close_of(ev, i, depth),
    decreases ev.len() - i,
{
    if i < ev.len() {
        if ev[i].kind == Kind::Start {
            lemma_close_of_bounds(ev, i + 1, depth + 1);
        } else if ev[i].kind == Kind::End {
            if depth > 1 {
                lemma_close_of_bounds(ev, i + 1, (depth - 1) as nat);
            }
        } else {
            lemma_close_of_bounds(ev, i + 1, depth);
        }
    }
}

pub proof fn lemma_element_end_bounds(ev: Seq<Token>, at: int)
    requires
        opens_element(ev, at),
    ensures
        at < element_end(ev, at) <= ev.len(),
{
    lemma_close_of_bounds(ev, at + 1, 1);
}

/// The half-open event range of the element starting at `start`.
pub fn element_range(events: &[Token], start: usize) -> (r: std::ops::Range<usize>)
    requires
        opens_element(events@, start as int),
    ensures
        r.start == start,
        r.end == element_end(events@, start as int),
        start < r.end <= events@.len(),
{
    proof {
        lemma_element_end_bounds(events@, start as int);
    }
    if events[start].kind == Kind::Empty {
        return start..start + 1;
    }
    let mut depth: usize = 1;
    let mut i = start + 1;
    while i < events.len()
        invariant
            start < i <= events@.len(),
            1 <= depth <= i - start,
            element_end(events@, start as int) == close_of(events@, i as int, depth as nat),
        decreases events@.len() - i,
    {
        let kind = events[i].kind;
        if kind == Kind::Start {
            depth += 1;
        } else if kind == Kind::End {
            if depth == 1 {
                return start..i + 1;
            }
            depth -= 1;
        }
        i += 1;
    }
    start..events.len()
}

/// Every index in `ev[..n]` whose token opens an element called `name`,
/// numbered from 1 in document order, with its element's range.
pub open spec fn ranges_named(ev: Seq<Token>, name: Seq<char>, n: int) -> Seq<(int, int, int)>
    decreases n,
{
    if n <= 0 {
        seq![]
    } else {
        let before = ranges_named(ev, name, n - 1);
        if crate::xml::opened_name(ev[n - 1]) == Some(name) {
            before.push(((before.len() + 1) as int, n - 1, element_end(ev, n - 1)))
        } else {
            before
        }
    }
}

pub open spec fn range_views(v: Seq<(usize, std::ops::Range<usize>)>) -> Seq<(int, int, int)> {
    v.map_values(|p: (usize, std::ops::Range<usize>)| (p.0 as int, p.1.start as int, p.1.end as int))
}

/// Every element named `name` in the part with its event range, 1-based in
/// document order — exactly as a scanner numbers the elements it reports on.
pub fn element_ranges(events: &[Token], name: &str) -> (out: Vec<(usize, std::ops::Range<usize>)>)
    ensures
        range_views(out@) == ranges_named(events@, name@, events@.len() as int),
{
    let want = chars_of(name);
    let mut out: Vec<(usize, std::ops::Range<usize>)> = Vec::new();
    let mut index: usize = 0;
    let mut i: usize = 0;
    while i < events.len()
        invariant
            i <= events@.len(),
            want@ == name@,
            index == out@.len(),
            index <= i,
            range_views(out@) == ranges_named(events@, name@, i as int),
        decreases events@.len() - i,
    {
        let ghost before = range_views(out@);
        if crate::xml::is_tag(&events[i], Kind::Start, &want) || crate::xml::is_tag(&events[i], Kind::Empty, &want) {
            index += 1;
            let r = element_range(events, i);
            out.push((index, r));
            assert(range_views(out@) =~= before.push((index as int, i as int, element_end(events@, i as int))));
        } else {
            assert(crate::xml::opened_name(events@[i as int]) != Some(name@));
        }
        i += 1;
    }
    out
}

/// The first direct child named `name` among the children of the element
/// whose events are `inner`.
pub open spec fn first_child_named(inner: Seq<Token>, kids: Seq<int>, name: Seq<char>) -> Option<int>
    decreases kids.len(),
{
    if kids.len() == 0 {
        None
    } else if 0 <= kids[0] < inner.len() && crate::xml::opened_name(inner[kids[0]]) == Some(name) {
        Some(kids[0])
    } else {
        first_child_named(inner, kids.drop_first(), name)
    }
}

/// The direct child of the element at `at` named `name`, as an index into `ev`.
pub open spec fn spec_find_direct_child(ev: Seq<Token>, at: int, name: Seq<char>) -> Option<int> {
    let inner = ev.subrange(at, element_end(ev, at));
    match first_child_named(inner, spec_direct_children(inner), name) {
        Some(k) => Some(at + k),
        None => None,
    }
}

/// A copy of `events[from..to]`.
pub fn copy_range(events: &[Token], from: usize, to: usize) -> (r: Vec<Token>)
    requires
        from <= to <= events@.len(),
    ensures
        r@ == events@.subrange(from as int, to as int),
{
    let mut r: Vec<Token> = Vec::new();
    let mut i = from;
    while i < to
        invariant
            from <= i <= to <= events@.len(),
            r@ == events@.subrange(from as int, i as int),
        decreases to - i,
    {
        r.push(events[i].clone());
        assert(r@ =~= events@.subrange(from as int, i + 1));
        i += 1;
    }
    r
}

fn first_child_named_exec(inner: &[Token], kids: &Vec<usize>, name: &[char]) -> (r: Option<usize>)
    requires
        forall|k: int| 0 <= k < kids@.len() ==> #[trigger] kids@[k] < inner@.len(),
    ensures
        r matches Some(i) ==> first_child_named(inner@, kids@.map_values(|k: usize| k as int), name@) == Some(i as int) && i < inner@.len(),
        r is None ==> first_child_named(inner@, kids@.map_values(|k: usize| k as int), name@) is None,
{
    let ghost all = kids@.map_values(|k: usize| k as int);
    let mut j: usize = 0;
    assert(all.skip(0) =~= all);
    while j < kids.len()
        invariant
            j <= kids@.len(),
            all == kids@.map_values(|k: usize| k as int),
            forall|k: int| 0 <= k < kids@.len() ==> #[trigger] kids@[k] < inner@.len(),
            first_child_named(inner@, all, name@) == first_child_named(inner@, all.skip(j as int), name@),
        decreases kids@.len() - j,
    {
        let ghost rest = all.skip(j as int);
        assert(rest[0] == kids@[j as int] as int);
        let k = kids[j];
        if crate::xml::is_tag(&inner[k], Kind::Start, name) || crate::xml::is_tag(&inner[k], Kind::Empty, name) {
            return Some(k);
        }
        assert(rest.drop_first() =~= all.skip(j + 1));
        j += 1;
    }
    None
}

/// A direct child of the element at `at`, by name.
pub fn find_direct_child(events: &[Token], at: usize, name: &str) -> (r: Option<usize>)
    requires
        opens_element(events@, at as int),
    ensures
        r matches Some(i) ==> spec_find_direct_child(events@, at as int, name@) == Some(i as int) && i < events@.len(),
        r is None ==> spec_find_direct_child(events@, at as int, name@) is None,
{
    let range = element_range(events, at);
    let inner = copy_range(events, range.start, range.end);
    let kids = direct_children(&inner);
    let want = chars_of(name);
    match first_child_named_exec(&inner, &kids, &want) {
        Some(i) => Some(range.start + i),
        None => None,
    }
}

} // verus!

verus! {

// -------------------------------------------------------------------- editing

/// The names of a schema sequence, as character sequences.
pub open spec fn order_view(order: Seq<&str>) -> Seq<Seq<char>> {
    order.map_values(|s: &str| s@)
}

/// Position of `name` in a schema sequence; unknown elements sort last so an
/// extension nobody modelled is never moved.
pub open spec fn spec_rank(order: Seq<Seq<char>>, name: Seq<char>) -> int
    decreases order.len(),
{
    if order.len() == 0 {
        0
    } else if order.last() == name {
        let r = spec_rank(order.drop_last(), name);
        if r < order.len() - 1 { r } else { order.len() - 1 }
    } else {
        let r = spec_rank(order.drop_last(), name);
        if r < order.len() - 1 { r } else { order.len() as int }
    }
}

/// The rank of the element a token opens, or of the empty name when it opens
/// none.
pub open spec fn token_rank(order: Seq<Seq<char>>, t: Token) -> int {
    match crate::xml::opened_name(t) {
        Some(n) => spec_rank(order, n),
        None => spec_rank(order, seq![]),
    }
}

fn rank(order: &[&str], name: &[char]) -> (r: usize)
    ensures
        r == spec_rank(order_view(order@), name@),
        r <= order@.len(),
{
    let ghost ov = order_view(order@);
    let mut k: usize = 0;
    while k < order.len()
        invariant
            k <= order@.len(),
            ov == order_view(order@),
            spec_rank(ov.take(k as int), name@) == k,
            forall|j: int| 0 <= j < k ==> ov[j] != name@,
        decreases order@.len() - k,
    {
        assert(ov.take(k + 1).drop_last() =~= ov.take(k as int));
        if chars_eq(&chars_of(order[k]), name) {
            proof {
                lemma_rank_first(ov, name@, k as int);
            }
            return k;
        }
        k += 1;
    }
    assert(ov.take(order@.len() as int) =~= ov);
    order.len()
}

proof fn lemma_rank_first(ov: Seq<Seq<char>>, name: Seq<char>, k: int)
    requires
        0 <= k < ov.len(),
        ov[k] == name,
        spec_rank(ov.take(k), name) == k,
    ensures
        spec_rank(ov, name) == k,
    decreases ov.len() - k,
{
    if ov.len() == k + 1 {
        assert(ov.drop_last() =~= ov.take(k));
    } else {
        assert(ov.drop_last().take(k) =~= ov.take(k));
        lemma_rank_first(ov.drop_last(), name, k);
    }
}

fn token_rank_exec(order: &[&str], t: &Token) -> (r: usize)
    ensures
        r == token_rank(order_view(order@), *t),
        r <= order@.len(),
{
    match crate::xml::name_of(t) {
        Some(n) => rank(order, &n),
        None => {
            let empty: Vec<char> = Vec::new();
            assert(empty@ =~= Seq::<char>::empty());
            rank(order, &empty)
        },
    }
}

/// Replace `events[from..to]` with `items`.
pub fn splice_tokens(events: &mut Vec<Token>, from: usize, to: usize, items: Vec<Token>)
    requires
        from <= to <= old(events)@.len(),
    ensures
        final(events)@ == old(events)@.take(from as int) + items@ + old(events)@.skip(to as int),
{
    let mut out = copy_range(events, 0, from);
    let mut i: usize = 0;
    let ghost start = out@;
    while i < items.len()
        invariant
            i <= items@.len(),
            out@ == start + items@.take(i as int),
        decreases items@.len() - i,
    {
        out.push(items[i].clone());
        assert(out@ =~= start + items@.take(i + 1));
        i += 1;
    }
    let tail = copy_range(events, to, events.len());
    let ghost mid = out@;
    let mut j: usize = 0;
    while j < tail.len()
        invariant
            j <= tail@.len(),
            out@ == mid + tail@.take(j as int),
        decreases tail@.len() - j,
    {
        out.push(tail[j].clone());
        assert(out@ =~= mid + tail@.take(j + 1));
        j += 1;
    }
    assert(items@.take(items@.len() as int) =~= items@);
    assert(tail@.take(tail@.len() as int) =~= tail@);
    assert(out@ =~= old(events)@.take(from as int) + items@ + old(events)@.skip(to as int));
    *events = out;
}

/// `new` is `old` with the empty tag at `at`, if it is one, turned into a
/// start tag and a matching end tag.
pub open spec fn expanded(old: Seq<Token>, new: Seq<Token>, at: int) -> bool {
    if old[at].kind == Kind::Empty {
        &&& new.len() == old.len() + 1
        &&& new.take(at) == old.take(at)
        &&& new[at].kind == Kind::Start
        &&& new[at].text == old[at].text
        &&& new[at + 1].kind == Kind::End
        &&& new[at + 1].text@ == crate::xml::tag_name(old[at].text@)
        &&& new.skip(at + 2) == old.skip(at + 1)
    } else {
        new == old
    }
}

/// Turn `<x/>` into `<x></x>` so a child can be inserted.
pub fn expand_empty(events: &mut Vec<Token>, at: usize)
    requires
        opens_element(old(events)@, at as int),
    ensures
        expanded(old(events)@, final(events)@, at as int),
        opens_element(final(events)@, at as int),
        final(events)@[at as int].kind == Kind::Start,
{
    if events[at].kind == Kind::Empty {
        let name = crate::xml::tag_name_of(events[at].text.as_str());
        let start = Token { kind: Kind::Start, text: events[at].text.clone() };
        let end = Token { kind: Kind::End, text: string_of(&name) };
        let ghost before = events@;
        assert(at < events.len());
        splice_tokens(events, at, at + 1, vec![start, end]);
        assert(events@.take(at as int) =~= before.take(at as int));
        assert(events@.skip(at + 2) =~= before.skip(at + 1));
    }
}

/// Where a child of rank `r` goes among the children of the element at `at`:
/// before the first existing child that sorts after it, or last.
pub open spec fn insert_position(ev: Seq<Token>, at: int, order: Seq<Seq<char>>, r: int) -> int {
    let inner = ev.subrange(at, element_end(ev, at));
    match first_child_ranked_after(inner, spec_direct_children(inner), order, r) {
        Some(k) => at + k,
        None => element_end(ev, at) - 1,
    }
}

/// The first child, in document order, whose rank exceeds `r`.
pub open spec fn first_child_ranked_after(inner: Seq<Token>, kids: Seq<int>, order: Seq<Seq<char>>, r: int) -> Option<int>
    decreases kids.len(),
{
    if kids.len() == 0 {
        None
    } else if 0 <= kids[0] < inner.len() && token_rank(order, inner[kids[0]]) > r {
        Some(kids[0])
    } else {
        first_child_ranked_after(inner, kids.drop_first(), order, r)
    }
}

/// The effect of inserting `children` into the element at `at`: the element
/// expanded if it was empty, and the children spliced in at their schema
/// position.
pub open spec fn inserted(old: Seq<Token>, new: Seq<Token>, at: int, order: Seq<Seq<char>>, children: Seq<Token>) -> bool {
    if children.len() == 0 {
        new == old
    } else {
        exists|mid: Seq<Token>|
            #![trigger expanded(old, mid, at)]
            expanded(old, mid, at) && opens_element(mid, at) && {
                let pos = insert_position(mid, at, order, token_rank(order, children[0]));
                new == mid.take(pos) + children + mid.skip(pos)
            }
    }
}

fn first_ranked_after_exec(inner: &[Token], kids: &Vec<usize>, order: &[&str], r: usize) -> (res: Option<usize>)
    requires
        forall|k: int| 0 <= k < kids@.len() ==> #[trigger] kids@[k] < inner@.len(),
    ensures
        res matches Some(i) ==> first_child_ranked_after(inner@, kids@.map_values(|k: usize| k as int), order_view(order@), r as int) == Some(i as int) && i < inner@.len(),
        res is None ==> first_child_ranked_after(inner@, kids@.map_values(|k: usize| k as int), order_view(order@), r as int) is None,
{
    let ghost all = kids@.map_values(|k: usize| k as int);
    let mut j: usize = 0;
    assert(all.skip(0) =~= all);
    while j < kids.len()
        invariant
            j <= kids@.len(),
            all == kids@.map_values(|k: usize| k as int),
            forall|k: int| 0 <= k < kids@.len() ==> #[trigger] kids@[k] < inner@.len(),
            first_child_ranked_after(inner@, all, order_view(order@), r as int) == first_child_ranked_after(inner@, all.skip(j as int), order_view(order@), r as int),
        decreases kids@.len() - j,
    {
        let ghost rest = all.skip(j as int);
        assert(rest[0] == kids@[j as int] as int);
        let k = kids[j];
        if token_rank_exec(order, &inner[k]) > r {
            return Some(k);
        }
        assert(rest.drop_first() =~= all.skip(j + 1));
        j += 1;
    }
    None
}

/// Insert a whole element — its start tag, its contents and its end tag —
/// into the element at `at`, in the schema-sequence position its first event
/// ranks at. Returns where it went.
pub fn insert_children(events: &mut Vec<Token>, at: usize, order: &[&str], children: Vec<Token>) -> (pos: usize)
    requires
        opens_element(old(events)@, at as int),
    ensures
        inserted(old(events)@, final(events)@, at as int, order_view(order@), children@),
        children@.len() > 0 ==> at <= pos < final(events)@.len() && final(events)@[pos as int] == children@[0],
{
    if children.len() == 0 {
        return at;
    }
    let ghost old_events = events@;
    expand_empty(events, at);
    let ghost mid = events@;
    let range = element_range(events, at);
    let inner = copy_range(events, range.start, range.end);
    let child_rank = token_rank_exec(order, &children[0]);
    let kids = direct_children(&inner);
    let position = match first_ranked_after_exec(&inner, &kids, order, child_rank) {
        Some(i) => range.start + i,
        None => range.end - 1,
    };
    proof {
        assert(position == insert_position(mid, at as int, order_view(order@), token_rank(order_view(order@), children@[0])));
        assert(inner@ == mid.subrange(at as int, element_end(mid, at as int)));
        if mid[at as int].kind == Kind::Start {
            lemma_close_of_bounds(mid, at + 1, 1);
        }
        lemma_children_from_bounds(inner@, 1, 0);
    }
    let ghost first = children@[0];
    let n = children.len();
    splice_tokens(events, position, position, children);
    proof {
        assert(expanded(old_events, mid, at as int));
        assert(events@[position as int] == first);
    }
    position
}

/// The effect of [`child_or_insert`]: the child found where one already was,
/// or inserted as an empty element in schema position.
pub open spec fn found_or_inserted(old: Seq<Token>, new: Seq<Token>, at: int, order: Seq<Seq<char>>, name: Seq<char>, r: int) -> bool {
    match spec_find_direct_child(old, at, name) {
        Some(i) => new == old && r == i,
        None => exists|child: Token|
            #![trigger inserted(old, new, at, order, seq![child])]
            child.kind == Kind::Empty && child.text@ == name && inserted(old, new, at, order, seq![child]) && new[r] == child,
    }
}

/// Find a direct child by name, or create it in schema position, and return
/// its index.
pub fn child_or_insert(events: &mut Vec<Token>, at: usize, order: &[&str], name: &str) -> (r: usize)
    requires
        opens_element(old(events)@, at as int),
    ensures
        found_or_inserted(old(events)@, final(events)@, at as int, order_view(order@), name@, r as int),
        r < final(events)@.len(),
        final(events)@.len() >= old(events)@.len(),
        opens_element(final(events)@, r as int),
{
    if let Some(i) = find_direct_child(events, at, name) {
        proof {
            let inner = events@.subrange(at as int, element_end(events@, at as int));
            lemma_element_end_bounds(events@, at as int);
            lemma_children_from_bounds(inner, 1, 0);
            lemma_first_child_named_in(inner, spec_direct_children(inner), name@);
        }
        return i;
    }
    let child = Token { kind: Kind::Empty, text: String::from_str(name) };
    let ghost c = child;
    let ghost old_events = events@;
    let kids = vec![child];
    assert(kids@ =~= seq![c]);
    let pos = insert_children(events, at, order, kids);
    proof {
        lemma_inserted_len(old_events, events@, at as int, order_view(order@), seq![c]);
    }
    pos
}

proof fn lemma_inserted_len(old: Seq<Token>, new: Seq<Token>, at: int, order: Seq<Seq<char>>, children: Seq<Token>)
    requires
        inserted(old, new, at, order, children),
        0 <= at < old.len(),
    ensures
        new.len() >= old.len(),
{
    if children.len() > 0 {
        let mid = choose|mid: Seq<Token>| #![trigger expanded(old, mid, at)]
            expanded(old, mid, at) && opens_element(mid, at) && {
                let pos = insert_position(mid, at, order, token_rank(order, children[0]));
                new == mid.take(pos) + children + mid.skip(pos)
            };
        let pos = insert_position(mid, at, order, token_rank(order, children[0]));
        lemma_element_end_bounds(mid, at);
        let inner = mid.subrange(at, element_end(mid, at));
        lemma_children_from_bounds(inner, 1, 0);
        lemma_first_ranked_in(inner, spec_direct_children(inner), order, token_rank(order, children[0]));
        assert(0 <= pos <= mid.len());
    }
}

/// A direct child found by name is an element of its own, inside its parent.
pub proof fn lemma_found_child(ev: Seq<Token>, at: int, name: Seq<char>)
    requires
        opens_element(ev, at),
    ensures
        spec_find_direct_child(ev, at, name) matches Some(i) ==> at < i < element_end(ev, at)
            && opens_element(ev, i) && crate::xml::opened_name(ev[i]) == Some(name),
{
    let inner = ev.subrange(at, element_end(ev, at));
    lemma_element_end_bounds(ev, at);
    lemma_children_from_bounds(inner, 1, 0);
    lemma_first_child_named_in(inner, spec_direct_children(inner), name);
    if let Some(k) = first_child_named(inner, spec_direct_children(inner), name) {
        lemma_first_child_in_kids(inner, spec_direct_children(inner), name);
        assert(inner[k] == ev[at + k]);
    }
}

proof fn lemma_first_child_in_kids(inner: Seq<Token>, kids: Seq<int>, name: Seq<char>)
    ensures
        first_child_named(inner, kids, name) matches Some(k) ==> kids.contains(k),
    decreases kids.len(),
{
    if kids.len() > 0 {
        lemma_first_child_in_kids(inner, kids.drop_first(), name);
        if let Some(k) = first_child_named(inner, kids.drop_first(), name) {
            if first_child_named(inner, kids, name) == Some(k) && kids[0] != k {
                let j = choose|j: int| 0 <= j < kids.drop_first().len() && kids.drop_first()[j] == k;
                assert(kids[j + 1] == k);
            }
        }
    }
}

proof fn lemma_first_child_named_in(inner: Seq<Token>, kids: Seq<int>, name: Seq<char>)
    ensures
        first_child_named(inner, kids, name) matches Some(k) ==> 0 <= k < inner.len() && crate::xml::opened_name(inner[k]) == Some(name),
    decreases kids.len(),
{
    if kids.len() > 0 {
        lemma_first_child_named_in(inner, kids.drop_first(), name);
    }
}

proof fn lemma_first_ranked_in(inner: Seq<Token>, kids: Seq<int>, order: Seq<Seq<char>>, r: int)
    ensures
        first_child_ranked_after(inner, kids, order, r) matches Some(k) ==> 0 <= k < inner.len(),
    decreases kids.len(),
{
    if kids.len() > 0 {
        lemma_first_ranked_in(inner, kids.drop_first(), order, r);
    }
}

/// Apply `f` to the tag at `at`, whether it is a start or an empty tag; any
/// other token is left as it is.
pub fn edit_tag<F: FnOnce(&Token) -> Token>(events: &mut Vec<Token>, at: usize, f: F)
    requires
        at < old(events)@.len(),
        opens_element(old(events)@, at as int) ==> call_requires(f, (&old(events)@[at as int],)),
    ensures
        !opens_element(old(events)@, at as int) ==> final(events)@ == old(events)@,
        opens_element(old(events)@, at as int) ==> exists|t: Token|
            call_ensures(f, (&old(events)@[at as int],), t) && final(events)@ == old(events)@.update(
                at as int,
                Token { kind: old(events)@[at as int].kind, text: t.text },
            ),
{
    let kind = events[at].kind;
    if kind == Kind::Start || kind == Kind::Empty {
        let t = f(&events[at]);
        events.set(at, Token { kind, text: t.text });
    }
}

} // verus!

verus! {

// ----------------------------------------------------------------------- text

/// The content ranges of every `text_element` from event `i` on, where `open`
/// is where the content of a text element still open began.
pub open spec fn text_ranges_from(ev: Seq<Token>, i: int, open: Option<int>, name: Seq<char>) -> Seq<(int, int)>
    decreases ev.len() - i,
{
    if i < 0 || i >= ev.len() {
        seq![]
    } else if ev[i].kind == Kind::Start && crate::xml::tag_name(ev[i].text@) == name {
        text_ranges_from(ev, i + 1, Some(i + 1), name)
    } else if ev[i].kind == Kind::End && ev[i].text@ == name {
        match open {
            Some(f) => seq![(f, i)] + text_ranges_from(ev, i + 1, None, name),
            None => text_ranges_from(ev, i + 1, None, name),
        }
    } else {
        text_ranges_from(ev, i + 1, open, name)
    }
}

/// The event range holding each text element's content.
pub open spec fn spec_text_ranges(ev: Seq<Token>, name: Seq<char>) -> Seq<(int, int)> {
    text_ranges_from(ev, 0, None, name)
}

/// Ranges that lie inside a stream of `len` events, each well-formed, in
/// order and not overlapping.
pub open spec fn ordered_ranges(r: Seq<(int, int)>, len: int) -> bool {
    &&& forall|k: int| 0 <= k < r.len() ==> 0 <= (#[trigger] r[k]).0 <= r[k].1 <= len
    &&& forall|k: int| 0 <= k < r.len() - 1 ==> (#[trigger] r[k]).1 <= r[k + 1].0
}

pub open spec fn range_pairs(v: Seq<std::ops::Range<usize>>) -> Seq<(int, int)> {
    v.map_values(|r: std::ops::Range<usize>| (r.start as int, r.end as int))
}

proof fn lemma_text_ranges_ordered(ev: Seq<Token>, i: int, open: Option<int>, name: Seq<char>)
    requires
        0 <= i,
        open matches Some(f) ==> 0 <= f <= i,
    ensures
        ordered_ranges(text_ranges_from(ev, i, open, name), ev.len() as int),
        forall|k: int| 0 <= k < text_ranges_from(ev, i, open, name).len() ==> (match open {
            Some(f) => f,
            None => i,
        }) <= (#[trigger] text_ranges_from(ev, i, open, name)[k]).0,
    decreases ev.len() - i,
{
    let r = text_ranges_from(ev, i, open, name);
    if i < ev.len() {
        if ev[i].kind == Kind::Start && crate::xml::tag_name(ev[i].text@) == name {
            lemma_text_ranges_ordered(ev, i + 1, Some(i + 1), name);
        } else if ev[i].kind == Kind::End && ev[i].text@ == name {
            lemma_text_ranges_ordered(ev, i + 1, None, name);
            let rest = text_ranges_from(ev, i + 1, None, name);
            match open {
                Some(f) => {
                    assert(r == seq![(f, i)] + rest);
                    assert forall|k: int| 0 <= k < r.len() implies 0 <= (#[trigger] r[k]).0 <= r[k].1 <= ev.len() by {
                        if k > 0 {
                            assert(r[k] == rest[k - 1]);
                        }
                    }
                    assert forall|k: int| 0 <= k < r.len() - 1 implies (#[trigger] r[k]).1 <= r[k + 1].0 by {
                        assert(r[k + 1] == rest[k]);
                        if k > 0 {
                            assert(r[k] == rest[k - 1]);
                        }
                    }
                    assert forall|k: int| 0 <= k < r.len() implies f <= (#[trigger] r[k]).0 by {
                        if k > 0 {
                            assert(r[k] == rest[k - 1]);
                        }
                    }
                },
                None => {},
            }
        } else {
            lemma_text_ranges_ordered(ev, i + 1, open, name);
        }
    }
}

/// The event range holding each text element's content, where `text_element`
/// names the element a run's characters live in — `a:t` in DrawingML, `w:t` in
/// WordprocessingML.
pub fn text_content_ranges(events: &[Token], text_element: &str) -> (out: Vec<std::ops::Range<usize>>)
    ensures
        range_pairs(out@) == spec_text_ranges(events@, text_element@),
        ordered_ranges(range_pairs(out@), events@.len() as int),
{
    let name = chars_of(text_element);
    let mut out: Vec<std::ops::Range<usize>> = Vec::new();
    let mut open: Option<usize> = None;
    let mut i: usize = 0;
    proof {
        lemma_text_ranges_ordered(events@, 0, None, text_element@);
    }
    while i < events.len()
        invariant
            i <= events@.len(),
            name@ == text_element@,
            open matches Some(f) ==> f <= i,
            range_pairs(out@) + text_ranges_from(events@, i as int, match open {
                Some(f) => Some(f as int),
                None => None,
            }, text_element@) == spec_text_ranges(events@, text_element@),
        decreases events@.len() - i,
    {
        let ghost before = range_pairs(out@);
        if crate::xml::is_tag(&events[i], Kind::Start, &name) {
            open = Some(i + 1);
        } else if crate::xml::is_tag(&events[i], Kind::End, &name) {
            match open {
                Some(from) => {
                    out.push(from..i);
                    assert(range_pairs(out@) =~= before.push((from as int, i as int)));
                },
                None => {},
            }
            open = None;
        }
        i += 1;
    }
    proof {
        assert(range_pairs(out@) =~= spec_text_ranges(events@, text_element@));
    }
    out
}

/// The characters one content event stands for: text unescaped after its line
/// ends are normalised, a reference resolved, and either left as written when
/// it does not resolve.
pub open spec fn content_of(t: Token) -> Seq<char> {
    if t.kind == Kind::Text {
        let raw = crate::xml::xml10_eols(t.text@);
        match crate::xml::unescaped(raw) {
            Some(v) => v,
            None => raw,
        }
    } else if t.kind == Kind::GeneralRef {
        let r = seq!['&'] + t.text@ + seq![';'];
        match crate::xml::unescaped(r) {
            Some(v) => v,
            None => r,
        }
    } else {
        seq![]
    }
}

/// A run of content events, resolved to logical-order text.
pub open spec fn spec_read_content(ev: Seq<Token>) -> Seq<char>
    decreases ev.len(),
{
    if ev.len() == 0 {
        seq![]
    } else {
        spec_read_content(ev.drop_last()) + content_of(ev.last())
    }
}

fn content_of_exec(t: &Token) -> (r: Vec<char>)
    ensures
        r@ == content_of(*t),
{
    if t.kind == Kind::Text {
        let raw = crate::xml::xml10_content(t.text.as_str());
        match crate::xml::unescape(raw.as_str()) {
            Some(v) => chars_of(v.as_str()),
            None => chars_of(raw.as_str()),
        }
    } else if t.kind == Kind::GeneralRef {
        let mut r = vec!['&'];
        push_all(&mut r, &chars_of(t.text.as_str()));
        r.push(';');
        assert(r@ =~= seq!['&'] + t.text@ + seq![';']);
        let rs = string_of(&r);
        match crate::xml::unescape(rs.as_str()) {
            Some(v) => chars_of(v.as_str()),
            None => r,
        }
    } else {
        Vec::new()
    }
}

fn read_content_chars(events: &[Token]) -> (r: Vec<char>)
    ensures
        r@ == spec_read_content(events@),
{
    let mut out: Vec<char> = Vec::new();
    let mut i: usize = 0;
    while i < events.len()
        invariant
            i <= events@.len(),
            out@ == spec_read_content(events@.take(i as int)),
        decreases events@.len() - i,
    {
        push_all(&mut out, &content_of_exec(&events[i]));
        assert(events@.take(i + 1).drop_last() =~= events@.take(i as int));
        i += 1;
    }
    assert(events@.take(events@.len() as int) =~= events@);
    out
}

/// Resolve a run of content events to logical-order text.
pub fn read_content(events: &[Token]) -> (r: String)
    ensures
        r@ == spec_read_content(events@),
{
    string_of(&read_content_chars(events))
}

/// A text event holding `text`, escaped for XML.
pub fn write_text(text: &str) -> (t: Token)
    ensures
        t.kind == Kind::Text,
        t.text@ == escaped(text@),
{
    Token { kind: Kind::Text, text: escape(text) }
}

/// The text of each run.
pub open spec fn spec_runs(ev: Seq<Token>, ranges: Seq<(int, int)>) -> Seq<Seq<char>> {
    ranges.map_values(|r: (int, int)| spec_read_content(ev.subrange(r.0, r.1)))
}

pub open spec fn string_views(v: Seq<String>) -> Seq<Seq<char>> {
    v.map_values(|s: String| s@)
}

/// Every run's text, in document order.
pub fn read_runs(events: &[Token], ranges: &[std::ops::Range<usize>]) -> (out: Vec<String>)
    requires
        forall|k: int| 0 <= k < ranges@.len() ==> (#[trigger] ranges@[k]).start <= ranges@[k].end <= events@.len(),
    ensures
        string_views(out@) == spec_runs(events@, range_pairs(ranges@)),
{
    let mut out: Vec<String> = Vec::new();
    let mut k: usize = 0;
    while k < ranges.len()
        invariant
            k <= ranges@.len(),
            forall|j: int| 0 <= j < ranges@.len() ==> (#[trigger] ranges@[j]).start <= ranges@[j].end <= events@.len(),
            string_views(out@) == spec_runs(events@, range_pairs(ranges@)).take(k as int),
        decreases ranges@.len() - k,
    {
        let r = ranges[k].start..ranges[k].end;
        let slice = copy_range(events, r.start, r.end);
        let ghost before = string_views(out@);
        assert(range_pairs(ranges@)[k as int] == (r.start as int, r.end as int));
        assert(spec_runs(events@, range_pairs(ranges@))[k as int] == spec_read_content(slice@));
        let text = read_content(&slice);
        out.push(text);
        assert(string_views(out@) =~= before.push(spec_read_content(slice@)));
        assert(spec_runs(events@, range_pairs(ranges@)).take(k + 1) =~= spec_runs(events@, range_pairs(ranges@)).take(k as int).push(spec_read_content(slice@)));
        k += 1;
    }
    assert(spec_runs(events@, range_pairs(ranges@)).take(ranges@.len() as int) =~= spec_runs(events@, range_pairs(ranges@)));
    out
}

/// The stream after rewriting runs `k..` of `ranges`, last first: each run
/// whose text changed replaced by one text event holding its new text.
pub open spec fn replace_from(ev: Seq<(Kind, Seq<char>)>, ranges: Seq<(int, int)>, before: Seq<Seq<char>>, after: Seq<Seq<char>>, k: int) -> Seq<(Kind, Seq<char>)>
    decreases ranges.len() - k,
{
    if k < 0 || k >= ranges.len() {
        ev
    } else {
        let rest = replace_from(ev, ranges, before, after, k + 1);
        if before[k] != after[k] {
            rest.take(ranges[k].0) + seq![(Kind::Text, escaped(after[k]))] + rest.skip(ranges[k].1)
        } else {
            rest
        }
    }
}

proof fn lemma_replace_from_len(ev: Seq<(Kind, Seq<char>)>, ranges: Seq<(int, int)>, before: Seq<Seq<char>>, after: Seq<Seq<char>>, k: int)
    requires
        0 <= k <= ranges.len(),
        ordered_ranges(ranges, ev.len() as int),
        before.len() >= ranges.len(),
        after.len() >= ranges.len(),
    ensures
        k < ranges.len() ==> replace_from(ev, ranges, before, after, k).len() >= ranges[k].0,
        k < ranges.len() ==> replace_from(ev, ranges, before, after, k).take(ranges[k].0) == ev.take(ranges[k].0),
    decreases ranges.len() - k,
{
    if k < ranges.len() {
        lemma_replace_from_len(ev, ranges, before, after, k + 1);
        let rest = replace_from(ev, ranges, before, after, k + 1);
        if k + 1 < ranges.len() {
            assert(ranges[k].1 <= ranges[k + 1].0);
            assert(rest.take(ranges[k].0) =~= rest.take(ranges[k + 1].0).take(ranges[k].0));
            assert(ev.take(ranges[k].0) =~= ev.take(ranges[k + 1].0).take(ranges[k].0));
        }
        if before[k] != after[k] {
            let res = rest.take(ranges[k].0) + seq![(Kind::Text, escaped(after[k]))] + rest.skip(ranges[k].1);
            assert(res.take(ranges[k].0) =~= rest.take(ranges[k].0));
        }
    }
}

/// Splice edited run text back into the element, touching only the runs that
/// actually changed. Back to front, so a replacement does not move the ranges
/// still to be written.
pub fn replace_content(events: &mut Vec<Token>, ranges: &[std::ops::Range<usize>], before: &[String], after: &[String])
    requires
        ordered_ranges(range_pairs(ranges@), old(events)@.len() as int),
        before@.len() >= ranges@.len(),
        after@.len() >= ranges@.len(),
    ensures
        crate::xml::tviews(final(events)@) == replace_from(crate::xml::tviews(old(events)@), range_pairs(ranges@), string_views(before@), string_views(after@), 0),
{
    let ghost ev0 = crate::xml::tviews(events@);
    let ghost rp = range_pairs(ranges@);
    let ghost bv = string_views(before@);
    let ghost av = string_views(after@);
    let mut i = ranges.len();
    while i > 0
        invariant
            i <= ranges@.len(),
            rp == range_pairs(ranges@),
            bv == string_views(before@),
            av == string_views(after@),
            ordered_ranges(rp, ev0.len() as int),
            before@.len() >= ranges@.len(),
            after@.len() >= ranges@.len(),
            crate::xml::tviews(events@) == replace_from(ev0, rp, bv, av, i as int),
        decreases i,
    {
        i -= 1;
        proof {
            lemma_replace_from_len(ev0, rp, bv, av, i + 1);
            if i + 1 < ranges@.len() {
                assert(rp[i as int].1 <= rp[i + 1].0);
            }
            assert(rp[i as int] == (ranges@[i as int].start as int, ranges@[i as int].end as int));
        }
        let ghost rest = crate::xml::tviews(events@);
        if before[i] != after[i] {
            let r = ranges[i].start..ranges[i].end;
            let t = write_text(after[i].as_str());
            let ghost old_events = events@;
            splice_tokens(events, r.start, r.end, vec![t]);
            proof {
                assert(crate::xml::tviews(events@) =~= rest.take(rp[i as int].0) + seq![(Kind::Text, escaped(av[i as int]))] + rest.skip(rp[i as int].1));
            }
        }
    }
}

} // verus!

verus! {

// ----------------------------------------------------------- byte offsets

/// How many bytes a character takes in UTF-8.
pub open spec fn utf8_len(c: char) -> nat {
    if (c as u32) < 0x80 {
        1
    } else if (c as u32) < 0x800 {
        2
    } else if (c as u32) < 0x10000 {
        3
    } else {
        4
    }
}

/// How many bytes a string takes in UTF-8.
pub open spec fn byte_len(s: Seq<char>) -> nat
    decreases s.len(),
{
    if s.len() == 0 {
        0
    } else {
        byte_len(s.drop_last()) + utf8_len(s.last())
    }
}

fn utf8_len_exec(c: char) -> (r: u8)
    ensures
        r as nat == utf8_len(c),
{
    let v = c as u32;
    if v < 0x80 {
        1
    } else if v < 0x800 {
        2
    } else if v < 0x10000 {
        3
    } else {
        4
    }
}

/// The character a byte offset into `s` starts, when the offset falls on a
/// character boundary inside the string.
pub open spec fn char_at_byte(s: Seq<char>, b: int) -> Option<int> {
    if exists|k: int| 0 <= k < s.len() && byte_len(#[trigger] s.take(k)) == b {
        Some(choose|k: int| 0 <= k < s.len() && byte_len(#[trigger] s.take(k)) == b)
    } else {
        None
    }
}

proof fn lemma_byte_len_take_mono(s: Seq<char>, i: int, j: int)
    requires
        0 <= i < j <= s.len(),
    ensures
        byte_len(s.take(i)) < byte_len(s.take(j)),
    decreases j - i,
{
    assert(s.take(j).drop_last() =~= s.take(j - 1));
    if i < j - 1 {
        lemma_byte_len_take_mono(s, i, j - 1);
    }
}

proof fn lemma_char_at_byte_unique(s: Seq<char>, b: int, k: int)
    requires
        0 <= k < s.len(),
        byte_len(s.take(k)) == b,
    ensures
        char_at_byte(s, b) == Some(k),
{
    let j = choose|j: int| 0 <= j < s.len() && byte_len(#[trigger] s.take(j)) == b;
    if j < k {
        lemma_byte_len_take_mono(s, j, k);
    } else if k < j {
        lemma_byte_len_take_mono(s, k, j);
    }
}

/// The run a concatenated byte offset falls in, and the offset within it,
/// searching from run `r` whose text starts at byte `base`.
pub open spec fn locate_run(runs: Seq<Seq<char>>, offset: int, r: int, base: int) -> Option<(int, int)>
    decreases runs.len() - r,
{
    if r < 0 || r >= runs.len() {
        None
    } else if offset < base + byte_len(runs[r]) {
        Some((r, offset - base))
    } else {
        locate_run(runs, offset, r + 1, base + byte_len(runs[r]))
    }
}

/// The runs with the character at one concatenated byte offset removed, when
/// the offset starts a character; unchanged otherwise.
pub open spec fn remove_one(runs: Seq<Seq<char>>, offset: int) -> Seq<Seq<char>> {
    match locate_run(runs, offset, 0, 0) {
        Some((r, local)) => match char_at_byte(runs[r], local) {
            Some(k) => runs.update(r, runs[r].remove(k)),
            None => runs,
        },
        None => runs,
    }
}

/// The runs with the character at each offset removed, in the order given.
pub open spec fn remove_each(runs: Seq<Seq<char>>, offsets: Seq<int>) -> Seq<Seq<char>>
    decreases offsets.len(),
{
    if offsets.len() == 0 {
        runs
    } else {
        remove_each(remove_one(runs, offsets[0]), offsets.drop_first())
    }
}

/// `s` with `x` placed before its first element smaller than `x`.
pub open spec fn insert_desc(s: Seq<int>, x: int) -> Seq<int> {
    let j = first_below(s, x);
    s.take(j) + seq![x] + s.skip(j)
}

/// The first position of `s` holding a value below `x`, or its length.
pub open spec fn first_below(s: Seq<int>, x: int) -> int
    decreases s.len(),
{
    if s.len() == 0 {
        0
    } else if s[0] < x {
        0
    } else {
        1 + first_below(s.drop_first(), x)
    }
}

/// `s` sorted largest first, duplicates kept.
pub open spec fn sort_desc(s: Seq<int>) -> Seq<int>
    decreases s.len(),
{
    if s.len() == 0 {
        seq![]
    } else {
        insert_desc(sort_desc(s.drop_last()), s.last())
    }
}

proof fn lemma_first_below_bounds(s: Seq<int>, x: int)
    ensures
        0 <= first_below(s, x) <= s.len(),
        forall|j: int| 0 <= j < first_below(s, x) ==> s[j] >= x,
        first_below(s, x) < s.len() ==> s[first_below(s, x)] < x,
    decreases s.len(),
{
    if s.len() > 0 && s[0] >= x {
        lemma_first_below_bounds(s.drop_first(), x);
        assert forall|j: int| 0 <= j < first_below(s, x) implies s[j] >= x by {
            if j > 0 {
                assert(s[j] == s.drop_first()[j - 1]);
            }
        }
    }
}

pub fn sort_offsets(offsets: &[usize]) -> (out: Vec<usize>)
    ensures
        out@.map_values(|v: usize| v as int) == sort_desc(offsets@.map_values(|v: usize| v as int)),
{
    let ghost all = offsets@.map_values(|v: usize| v as int);
    let mut out: Vec<usize> = Vec::new();
    let mut i: usize = 0;
    while i < offsets.len()
        invariant
            i <= offsets@.len(),
            all == offsets@.map_values(|v: usize| v as int),
            out@.map_values(|v: usize| v as int) == sort_desc(all.take(i as int)),
        decreases offsets@.len() - i,
    {
        let x = offsets[i];
        let ghost cur = out@.map_values(|v: usize| v as int);
        let mut j: usize = 0;
        proof {
            lemma_first_below_bounds(cur, x as int);
        }
        while j < out.len() && out[j] >= x
            invariant
                j <= out@.len(),
                cur == out@.map_values(|v: usize| v as int),
                j <= first_below(cur, x as int),
                0 <= first_below(cur, x as int) <= cur.len(),
                forall|k: int| 0 <= k < first_below(cur, x as int) ==> cur[k] >= x,
                first_below(cur, x as int) < cur.len() ==> cur[first_below(cur, x as int)] < x,
            decreases out@.len() - j,
        {
            j += 1;
        }
        proof {
            if j < out.len() {
                assert(cur[j as int] == out@[j as int] as int);
            }
        }
        assert(j == first_below(cur, x as int));
        out.insert(j, x);
        assert(all.take(i + 1).drop_last() =~= all.take(i as int));
        assert(out@.map_values(|v: usize| v as int) =~= insert_desc(cur, x as int));
        i += 1;
    }
    assert(all.take(offsets@.len() as int) =~= all);
    out
}

/// Where a byte offset falls in a run: `Ok(Some(k))` when it starts
/// character `k`, `Ok(None)` when it falls inside a character, and `Err(n)`
/// when it lies at or past the run's end, `n` being the run's byte length.
fn find_in_run(text: &[char], local: usize) -> (r: Result<Option<usize>, usize>)
    ensures
        r matches Ok(found) ==> local < byte_len(text@),
        r matches Ok(Some(k)) ==> char_at_byte(text@, local as int) == Some(k as int),
        r matches Ok(None) ==> char_at_byte(text@, local as int) is None,
        r matches Err(n) ==> local >= byte_len(text@) && n == byte_len(text@),
        r matches Ok(Some(k)) ==> k < text@.len(),
{
    let mut b: u128 = 0;
    let mut k: usize = 0;
    while k < text.len() && b < local as u128
        invariant
            k <= text@.len(),
            b == byte_len(text@.take(k as int)),
            k > 0 ==> byte_len(text@.take(k - 1)) < local,
            k > 0 ==> b == byte_len(text@.take(k - 1)) + utf8_len(text@[k - 1]),
        decreases text@.len() - k,
    {
        assert(text@.take(k + 1).drop_last() =~= text@.take(k as int));
        b = b + utf8_len_exec(text[k]) as u128;
        k += 1;
    }
    proof {
        assert(text@.take(text@.len() as int) =~= text@);
        if k > 0 {
            assert(text@.take(k as int).drop_last() =~= text@.take(k - 1));
        }
    }
    if k < text.len() {
        proof {
            lemma_byte_len_take_mono(text@, k as int, text@.len() as int);
        }
        if b == local as u128 {
            proof {
                lemma_char_at_byte_unique(text@, local as int, k as int);
            }
            Ok(Some(k))
        } else {
            proof {
                lemma_no_char_at_byte(text@, local as int, k as int);
            }
            Ok(None)
        }
    } else {
        if b > local as u128 {
            proof {
                lemma_no_char_at_byte(text@, local as int, k as int);
            }
            Ok(None)
        } else {
            Err(b as usize)
        }
    }
}

proof fn lemma_byte_len_take_le(s: Seq<char>, i: int, j: int)
    requires
        0 <= i <= j <= s.len(),
    ensures
        byte_len(s.take(i)) <= byte_len(s.take(j)),
{
    if i < j {
        lemma_byte_len_take_mono(s, i, j);
    }
}

/// No character starts at a byte offset that lies strictly between the
/// starts of characters `k - 1` and `k`.
proof fn lemma_no_char_at_byte(s: Seq<char>, b: int, k: int)
    requires
        0 < k <= s.len(),
        byte_len(s.take(k - 1)) < b < byte_len(s.take(k)),
    ensures
        char_at_byte(s, b) is None,
{
    if exists|j: int| 0 <= j < s.len() && byte_len(#[trigger] s.take(j)) == b {
        let j = choose|j: int| 0 <= j < s.len() && byte_len(#[trigger] s.take(j)) == b;
        if j <= k - 1 {
            lemma_byte_len_take_le(s, j, k - 1);
        } else {
            lemma_byte_len_take_le(s, k, j);
        }
    }
}

/// A character sequence with the character at `k` taken out.
fn remove_char(v: &Vec<char>, k: usize) -> (r: Vec<char>)
    requires
        k < v.len(),
    ensures
        r@ == v@.remove(k as int),
{
    let mut r = slice_chars(v, 0, k);
    push_all(&mut r, &slice_chars(v, k + 1, v.len()));
    assert(r@ =~= v@.remove(k as int));
    r
}

pub fn remove_one_exec(runs: &mut Vec<Vec<char>>, offset: usize)
    ensures
        final(runs)@.map_values(|v: Vec<char>| v@) == remove_one(old(runs)@.map_values(|v: Vec<char>| v@), offset as int),
        final(runs)@.len() == old(runs)@.len(),
{
    let ghost rv = runs@.map_values(|v: Vec<char>| v@);
    let mut remaining = offset;
    let mut r: usize = 0;
    while r < runs.len()
        invariant
            r <= runs@.len(),
            rv == runs@.map_values(|v: Vec<char>| v@),
            rv.len() == runs@.len(),
            runs@ == old(runs)@,
            remaining <= offset,
            locate_run(rv, offset as int, 0, 0) == locate_run(rv, offset as int, r as int, (offset - remaining) as int),
        decreases runs@.len() - r,
    {
        assert(rv[r as int] == runs@[r as int]@);
        match find_in_run(&runs[r], remaining) {
            Ok(Some(k)) => {
                assert(locate_run(rv, offset as int, r as int, (offset - remaining) as int) == Some((r as int, remaining as int)));
                let updated = remove_char(&runs[r], k);
                runs.set(r, updated);
                assert(runs@.map_values(|v: Vec<char>| v@) =~= rv.update(r as int, rv[r as int].remove(k as int)));
                return;
            },
            Ok(None) => {
                assert(locate_run(rv, offset as int, r as int, (offset - remaining) as int) == Some((r as int, remaining as int)));
                return;
            },
            Err(n) => {
                assert(locate_run(rv, offset as int, r as int, (offset - remaining) as int) == locate_run(rv, offset as int, r + 1, (offset - remaining) + n));
                remaining = remaining - n;
            },
        }
        r += 1;
    }
    assert(locate_run(rv, offset as int, r as int, (offset - remaining) as int) is None);
}

pub fn run_chars(runs: &Vec<String>) -> (out: Vec<Vec<char>>)
    ensures
        out@.map_values(|v: Vec<char>| v@) == string_views(runs@),
        out@.len() == runs@.len(),
{
    let mut out: Vec<Vec<char>> = Vec::new();
    let mut i: usize = 0;
    while i < runs.len()
        invariant
            i <= runs@.len(),
            out@.map_values(|v: Vec<char>| v@) == string_views(runs@).take(i as int),
        decreases runs@.len() - i,
    {
        let ghost before = out@.map_values(|v: Vec<char>| v@);
        let c = chars_of(runs[i].as_str());
        out.push(c);
        assert(out@.map_values(|v: Vec<char>| v@) =~= before.push(runs@[i as int]@));
        assert(string_views(runs@).take(i + 1) =~= string_views(runs@).take(i as int).push(runs@[i as int]@));
        i += 1;
    }
    assert(string_views(runs@).take(runs@.len() as int) =~= string_views(runs@));
    out
}

pub fn run_strings(runs: &Vec<Vec<char>>) -> (out: Vec<String>)
    ensures
        string_views(out@) == runs@.map_values(|v: Vec<char>| v@),
        out@.len() == runs@.len(),
{
    let mut out: Vec<String> = Vec::new();
    let mut i: usize = 0;
    while i < runs.len()
        invariant
            i <= runs@.len(),
            string_views(out@) == runs@.map_values(|v: Vec<char>| v@).take(i as int),
        decreases runs@.len() - i,
    {
        let ghost before = string_views(out@);
        let st = string_of(&runs[i]);
        out.push(st);
        assert(string_views(out@) =~= before.push(runs@[i as int]@));
        assert(runs@.map_values(|v: Vec<char>| v@).take(i + 1) =~= runs@.map_values(|v: Vec<char>| v@).take(i as int).push(runs@[i as int]@));
        i += 1;
    }
    assert(runs@.map_values(|v: Vec<char>| v@).take(runs@.len() as int) =~= runs@.map_values(|v: Vec<char>| v@));
    out
}

/// Remove the characters at the given byte offsets into the element's text.
///
/// The offsets index the concatenation of every run, which is what a scanner
/// produced. They are applied largest first, so that removing one does not
/// move the next; an offset that does not start a character removes nothing.
pub fn remove_at_offsets(events: &mut Vec<Token>, text_element: &str, offsets: &[usize])
    ensures
        ({
            let ranges = spec_text_ranges(old(events)@, text_element@);
            let before = spec_runs(old(events)@, ranges);
            let after = remove_each(before, sort_desc(offsets@.map_values(|v: usize| v as int)));
            crate::xml::tviews(final(events)@) == replace_from(crate::xml::tviews(old(events)@), ranges, before, after, 0)
        }),
{
    let ranges = text_content_ranges(events, text_element);
    proof {
        assert forall|k: int| 0 <= k < ranges@.len() implies (#[trigger] ranges@[k]).start <= ranges@[k].end <= events@.len() by {
            assert(range_pairs(ranges@)[k] == (ranges@[k].start as int, ranges@[k].end as int));
        }
    }
    let before = read_runs(events, &ranges);
    let mut runs = run_chars(&before);
    let sorted = sort_offsets(offsets);
    let ghost order = sorted@.map_values(|v: usize| v as int);
    let mut i: usize = 0;
    assert(order.skip(0) =~= order);
    assert(before@.len() == ranges@.len()) by {
        assert(string_views(before@).len() == spec_runs(events@, range_pairs(ranges@)).len());
    }
    while i < sorted.len()
        invariant
            i <= sorted@.len(),
            runs@.len() == before@.len(),
            order == sorted@.map_values(|v: usize| v as int),
            remove_each(string_views(before@), order) == remove_each(runs@.map_values(|v: Vec<char>| v@), order.skip(i as int)),
        decreases sorted@.len() - i,
    {
        let ghost cur = runs@.map_values(|v: Vec<char>| v@);
        remove_one_exec(&mut runs, sorted[i]);
        assert(order.skip(i as int).drop_first() =~= order.skip(i + 1));
        assert(order.skip(i as int)[0] == sorted@[i as int] as int);
        i += 1;
    }
    let after = run_strings(&runs);
    proof {
        assert(order.skip(sorted@.len() as int) =~= Seq::<int>::empty());
        assert(order.skip(0) =~= order);
    }
    replace_content(events, &ranges, &before, &after);
}

} // verus!

verus! {

/// Whether a character has Unicode's `White_Space` property, as
/// `char::is_whitespace` decides.
pub open spec fn is_unicode_ws(c: char) -> bool {
    let v = c as u32;
    (0x09 <= v <= 0x0D) || v == 0x20 || v == 0x85 || v == 0xA0 || v == 0x1680 || (0x2000 <= v <= 0x200A)
        || v == 0x2028 || v == 0x2029 || v == 0x202F || v == 0x205F || v == 0x3000
}

pub fn is_whitespace(c: char) -> (r: bool)
    ensures
        r == is_unicode_ws(c),
{
    let v = c as u32;
    (0x09 <= v && v <= 0x0D) || v == 0x20 || v == 0x85 || v == 0xA0 || v == 0x1680 || (0x2000 <= v
        && v <= 0x200A) || v == 0x2028 || v == 0x2029 || v == 0x202F || v == 0x205F || v == 0x3000
}

/// How many whitespace characters `s` begins with.
pub open spec fn leading_ws(s: Seq<char>) -> int
    decreases s.len(),
{
    if s.len() > 0 && is_unicode_ws(s[0]) {
        1 + leading_ws(s.drop_first())
    } else {
        0
    }
}

pub proof fn lemma_leading_ws(s: Seq<char>)
    ensures
        0 <= leading_ws(s) <= s.len(),
        forall|j: int| 0 <= j < leading_ws(s) ==> is_unicode_ws(#[trigger] s[j]),
        leading_ws(s) < s.len() ==> !is_unicode_ws(s[leading_ws(s)]),
    decreases s.len(),
{
    if s.len() > 0 && is_unicode_ws(s[0]) {
        lemma_leading_ws(s.drop_first());
        assert forall|j: int| 0 <= j < leading_ws(s) implies is_unicode_ws(#[trigger] s[j]) by {
            if j > 0 {
                assert(s[j] == s.drop_first()[j - 1]);
            }
        }
    }
}

pub fn leading_ws_exec(s: &[char]) -> (n: usize)
    ensures
        n == leading_ws(s@),
{
    let mut n: usize = 0;
    assert(s@.skip(0) =~= s@);
    while n < s.len() && is_whitespace(s[n])
        invariant
            n <= s@.len(),
            leading_ws(s@) == n + leading_ws(s@.skip(n as int)),
        decreases s@.len() - n,
    {
        assert(s@.skip(n as int).drop_first() =~= s@.skip(n + 1));
        n += 1;
    }
    n
}

/// A run's text with a leading `marker` (after any whitespace) removed along
/// with the whitespace following it; `None` when the text does not start with
/// the marker.
pub open spec fn without_marker(text: Seq<char>, marker: char) -> Option<Seq<char>> {
    let n = leading_ws(text);
    if n < text.len() && text[n] == marker {
        let after = text.skip(n + 1);
        Some(text.take(n) + after.skip(leading_ws(after)))
    } else {
        None
    }
}

/// Strip a leading marker character, and the whitespace after it, from the
/// start of the element's first run.
pub fn strip_leading_marker(events: &mut Vec<Token>, text_element: &str, marker: char)
    ensures
        ({
            let ranges = spec_text_ranges(old(events)@, text_element@);
            if ranges.len() == 0 {
                final(events)@ == old(events)@
            } else {
                let first = ranges[0];
                match without_marker(spec_read_content(old(events)@.subrange(first.0, first.1)), marker) {
                    Some(t) => crate::xml::tviews(final(events)@) == crate::xml::tviews(old(events)@).take(first.0)
                        + seq![(Kind::Text, escaped(t))] + crate::xml::tviews(old(events)@).skip(first.1),
                    None => final(events)@ == old(events)@,
                }
            }
        }),
{
    let ranges = text_content_ranges(events, text_element);
    if ranges.len() == 0 {
        return;
    }
    let first = ranges[0].start..ranges[0].end;
    assert(range_pairs(ranges@)[0] == (first.start as int, first.end as int));
    let text = read_content_chars(&copy_range(events, first.start, first.end));
    let n = leading_ws_exec(&text);
    proof {
        lemma_leading_ws(text@);
    }
    if n >= text.len() || text[n] != marker {
        return;
    }
    let after = slice_chars(&text, n + 1, text.len());
    let m = leading_ws_exec(&after);
    proof {
        lemma_leading_ws(after@);
    }
    let mut out = slice_chars(&text, 0, n);
    push_all(&mut out, &slice_chars(&after, m, after.len()));
    assert(out@ =~= without_marker(text@, marker).unwrap());
    let t = write_text(string_of(&out).as_str());
    let ghost before = events@;
    splice_tokens(events, first.start, first.end, vec![t]);
    assert(crate::xml::tviews(events@) =~= crate::xml::tviews(before).take(first.start as int) + seq![(Kind::Text, escaped(out@))] + crate::xml::tviews(before).skip(first.end as int));
}

/// Re-emit a part unchanged: read it into tokens and write them back out.
pub fn passthrough(part: &str, xml: &str) -> (r: Result<String, crate::error::Error>)
    ensures
        r is Ok <==> crate::xml::document_tokens(xml@) is Ok,
        r matches Err(e) ==> crate::xml::read_failure(part@, xml@, e),
        r matches Ok(s) ==> exists|ev: Seq<Token>| #[trigger] crate::xml::reads_as(xml@, ev) && s@ == crate::xml::serialized_all(ev),
{
    let events = crate::xml::read_events(part, xml)?;
    assert(crate::xml::reads_as(xml@, events@));
    crate::xml::write_events(part, &events)
}

} // verus!

verus! {

/// Every run of `text_element` in `old` rewritten by `f`; `new` is `old`
/// with each run's content replaced by what `f` gave for it.
pub open spec fn runs_rewritten<F: Fn(&str) -> String>(old: Seq<Token>, new: Seq<Token>, text_element: Seq<char>, f: F) -> bool {
    let ranges = spec_text_ranges(old, text_element);
    let before = spec_runs(old, ranges);
    exists|after: Seq<Seq<char>>|
        #![trigger replace_from(crate::xml::tviews(old), ranges, before, after, 0)]
        after.len() == before.len()
            && (forall|k: int| #![trigger after[k]] 0 <= k < after.len() ==> exists|s: &str, r: String|
                #![trigger call_ensures(f, (s,), r)]
                s@ == before[k] && r@ == after[k] && call_ensures(f, (s,), r))
            && crate::xml::tviews(new) == replace_from(crate::xml::tviews(old), ranges, before, after, 0)
}

/// Rewrite every run's text with `f`, leaving a run it does not change
/// untouched — character references and all.
pub fn map_runs<F: Fn(&str) -> String>(events: &mut Vec<Token>, text_element: &str, f: F)
    requires
        forall|s: &str| call_requires(f, (s,)),
    ensures
        runs_rewritten(old(events)@, final(events)@, text_element@, f),
{
    let ranges = text_content_ranges(events, text_element);
    proof {
        assert forall|k: int| 0 <= k < ranges@.len() implies (#[trigger] ranges@[k]).start <= ranges@[k].end <= events@.len() by {
            assert(range_pairs(ranges@)[k] == (ranges@[k].start as int, ranges@[k].end as int));
        }
    }
    let before = read_runs(events, &ranges);
    let ghost bv = string_views(before@);
    let mut after: Vec<String> = Vec::new();
    let mut i: usize = 0;
    while i < before.len()
        invariant
            i <= before@.len(),
            bv == string_views(before@),
            after@.len() == i,
            forall|s: &str| call_requires(f, (s,)),
            forall|k: int| #![trigger bv[k]] 0 <= k < i ==> exists|s: &str, r: String|
                #![trigger call_ensures(f, (s,), r)]
                s@ == bv[k] && r@ == string_views(after@)[k] && call_ensures(f, (s,), r),
        decreases before@.len() - i,
    {
        let arg = before[i].as_str();
        let r = f(arg);
        let ghost prev = after@;
        after.push(r);
        proof {
            assert forall|k: int| #![trigger bv[k]] 0 <= k < i + 1 implies exists|s: &str, r2: String|
                #![trigger call_ensures(f, (s,), r2)]
                s@ == bv[k] && r2@ == string_views(after@)[k] && call_ensures(f, (s,), r2) by {
                if k < i {
                    assert(string_views(after@)[k] == string_views(prev)[k]);
                } else {
                    assert(string_views(after@)[k] == r@);
                    assert(call_ensures(f, (arg,), r));
                }
            }
        }
        i += 1;
    }
    proof {
        assert(before@.len() == ranges@.len()) by {
            assert(string_views(before@).len() == spec_runs(events@, range_pairs(ranges@)).len());
        }
        assert(i == bv.len());
        assert(string_views(after@).len() == bv.len());
        assert forall|k: int| #![trigger bv[k]] 0 <= k < bv.len() implies exists|s: &str, r: String|
            #![trigger call_ensures(f, (s,), r)]
            s@ == bv[k] && r@ == string_views(after@)[k] && call_ensures(f, (s,), r) by {
            assert(0 <= k < i);
            assert(bv[k] == bv[k]);
        }
        let ghost av = string_views(after@);
        assert forall|k: int| #![trigger av[k]] 0 <= k < av.len() implies exists|s: &str, r: String|
            #![trigger call_ensures(f, (s,), r)]
            s@ == bv[k] && r@ == av[k] && call_ensures(f, (s,), r) by {
            assert(bv[k] == bv[k]);
        }
    }
    replace_content(events, &ranges, &before, &after);
}

/// Every run in `ranges` rewritten by `f`: `new` is `old` with each
/// range's content replaced by what `f` gave for it.
pub open spec fn ranges_rewritten<F: Fn(&str) -> String>(old: Seq<Token>, new: Seq<Token>, ranges: Seq<(int, int)>, f: F) -> bool {
    let before = spec_runs(old, ranges);
    exists|after: Seq<Seq<char>>|
        #![trigger replace_from(crate::xml::tviews(old), ranges, before, after, 0)]
        after.len() == before.len()
            && (forall|k: int| #![trigger after[k]] 0 <= k < after.len() ==> exists|s: &str, r: String|
                #![trigger call_ensures(f, (s,), r)]
                s@ == before[k] && r@ == after[k] && call_ensures(f, (s,), r))
            && crate::xml::tviews(new) == replace_from(crate::xml::tviews(old), ranges, before, after, 0)
}

/// Rewrite the text of the runs at `ranges` with `f`.
pub fn map_ranges<F: Fn(&str) -> String>(events: &mut Vec<Token>, ranges: &[std::ops::Range<usize>], f: F)
    requires
        forall|s: &str| call_requires(f, (s,)),
        ordered_ranges(range_pairs(ranges@), old(events)@.len() as int),
    ensures
        ranges_rewritten(old(events)@, final(events)@, range_pairs(ranges@), f),
{
    proof {
        assert forall|k: int| 0 <= k < ranges@.len() implies (#[trigger] ranges@[k]).start <= ranges@[k].end <= events@.len() by {
            assert(range_pairs(ranges@)[k] == (ranges@[k].start as int, ranges@[k].end as int));
        }
    }
    let before = read_runs(events, ranges);
    let ghost bv = string_views(before@);
    let mut after: Vec<String> = Vec::new();
    let mut i: usize = 0;
    while i < before.len()
        invariant
            i <= before@.len(),
            bv == string_views(before@),
            after@.len() == i,
            forall|s: &str| call_requires(f, (s,)),
            forall|k: int| #![trigger bv[k]] 0 <= k < i ==> exists|s: &str, r: String|
                #![trigger call_ensures(f, (s,), r)]
                s@ == bv[k] && r@ == string_views(after@)[k] && call_ensures(f, (s,), r),
        decreases before@.len() - i,
    {
        let arg = before[i].as_str();
        let r = f(arg);
        let ghost prev = after@;
        after.push(r);
        proof {
            assert forall|k: int| #![trigger bv[k]] 0 <= k < i + 1 implies exists|s: &str, r2: String|
                #![trigger call_ensures(f, (s,), r2)]
                s@ == bv[k] && r2@ == string_views(after@)[k] && call_ensures(f, (s,), r2) by {
                if k < i {
                    assert(string_views(after@)[k] == string_views(prev)[k]);
                } else {
                    assert(string_views(after@)[k] == r@);
                    assert(call_ensures(f, (arg,), r));
                }
            }
        }
        i += 1;
    }
    proof {
        assert(before@.len() == ranges@.len()) by {
            assert(string_views(before@).len() == spec_runs(events@, range_pairs(ranges@)).len());
        }
        assert(i == bv.len());
        assert(string_views(after@).len() == bv.len());
        assert forall|k: int| #![trigger bv[k]] 0 <= k < bv.len() implies exists|s: &str, r: String|
            #![trigger call_ensures(f, (s,), r)]
            s@ == bv[k] && r@ == string_views(after@)[k] && call_ensures(f, (s,), r) by {
            assert(0 <= k < i);
            assert(bv[k] == bv[k]);
        }
        let ghost av = string_views(after@);
        assert forall|k: int| #![trigger av[k]] 0 <= k < av.len() implies exists|s: &str, r: String|
            #![trigger call_ensures(f, (s,), r)]
            s@ == bv[k] && r@ == av[k] && call_ensures(f, (s,), r) by {
            assert(bv[k] == bv[k]);
        }
    }
    replace_content(events, ranges, &before, &after);
}

} // verus!

verus! {

// ------------------------------------------------------------ removing an attribute

/// How many ASCII whitespace characters end just before `j`.
pub open spec fn ws_run_before(c: Seq<char>, j: int) -> int
    decreases j,
{
    if j <= 0 || j > c.len() || !is_ascii_ws(c[j - 1]) {
        0
    } else {
        1 + ws_run_before(c, j - 1)
    }
}

/// Where an attribute's text starts, with the whitespace in front of it:
/// back from its opening quote over whitespace, `=`, whitespace, its name
/// and the whitespace before the name.
pub open spec fn attr_span_start(c: Seq<char>, a: RawAttr) -> int {
    let q = a.1 - 1;
    let e = q - ws_run_before(c, q) - 1;
    let ns = e - ws_run_before(c, e) - a.0.len();
    ns - ws_run_before(c, ns)
}

/// A tag's content with the first attribute called `name` removed, together
/// with the whitespace in front of it; the content as it was when there is
/// no such attribute.
pub open spec fn spec_remove_attribute(c: Seq<char>, name: Seq<char>) -> Seq<char> {
    match first_named(scan(c), name) {
        Some(a) => {
            let from = attr_span_start(c, a);
            let to = if a.2 + 1 <= c.len() { a.2 + 1 } else { c.len() as int };
            if 0 <= from <= to { c.take(from) + c.skip(to) } else { c }
        },
        None => c,
    }
}

fn ws_run_before_exec(c: &[char], j: usize) -> (n: usize)
    requires
        j <= c@.len(),
    ensures
        n == ws_run_before(c@, j as int),
        n <= j,
{
    let mut k = j;
    while k > 0 && ascii_ws(c[k - 1])
        invariant
            k <= j <= c@.len(),
            ws_run_before(c@, j as int) == (j - k) + ws_run_before(c@, k as int),
        decreases k,
    {
        k -= 1;
    }
    j - k
}

/// Remove an attribute, and the whitespace in front of it, leaving every
/// other character of the tag as it was.
pub fn remove_attribute(tag: &Token, name: &str) -> (r: Token)
    ensures
        r.kind == tag.kind,
        r.text@ == spec_remove_attribute(tag.text@, name@),
{
    let c = chars_of(tag.text.as_str());
    let attrs = scan_attributes(&c);
    let want = chars_of(name);
    match first_named_exec(&attrs, &want) {
        Some(k) => {
            let ghost a = raw_views(attrs@)[k as int];
            assert(a == (attrs@[k as int].name@, attrs@[k as int].start as int, attrs@[k as int].end as int));
            let s = attrs[k].start;
            let e = attrs[k].end;
            let nlen = attrs[k].name.len();
            let to: usize = if e < c.len() { e + 1 } else { c.len() };
            if s == 0 || s > c.len() {
                return Token { kind: tag.kind, text: tag.text.clone() };
            }
            let q = s - 1;
            let w1 = ws_run_before_exec(&c, q);
            if q - w1 < 1 {
                return Token { kind: tag.kind, text: tag.text.clone() };
            }
            let eq = q - w1 - 1;
            let w2 = ws_run_before_exec(&c, eq);
            if eq - w2 < nlen {
                return Token { kind: tag.kind, text: tag.text.clone() };
            }
            let ns = eq - w2 - nlen;
            let w3 = ws_run_before_exec(&c, ns);
            let from = ns - w3;
            if from > to {
                return Token { kind: tag.kind, text: tag.text.clone() };
            }
            let mut out = slice_chars(&c, 0, from);
            push_all(&mut out, &slice_chars(&c, to, c.len()));
            assert(out@ =~= spec_remove_attribute(tag.text@, name@));
            Token { kind: tag.kind, text: string_of(&out) }
        },
        None => Token { kind: tag.kind, text: tag.text.clone() },
    }
}

// ------------------------------------------------------------ nested regions

/// How many of the elements named in `nested` are open just before event
/// `i`; an end tag with nothing open leaves the count at zero.
pub open spec fn depth_before(ev: Seq<Token>, i: int, nested: Seq<Seq<char>>) -> nat
    decreases i,
{
    if i <= 0 || i > ev.len() {
        0
    } else {
        let d = depth_before(ev, i - 1, nested);
        let t = ev[i - 1];
        if t.kind == Kind::Start && nested.contains(crate::xml::tag_name(t.text@)) {
            d + 1
        } else if t.kind == Kind::End && nested.contains(t.text@) {
            if d > 0 { (d - 1) as nat } else { 0 }
        } else {
            d
        }
    }
}

fn in_list(name: &[char], list: &[&str]) -> (r: bool)
    ensures
        r == order_view(list@).contains(name@),
{
    let mut k: usize = 0;
    while k < list.len()
        invariant
            k <= list@.len(),
            forall|j: int| 0 <= j < k ==> order_view(list@)[j] != name@,
        decreases list@.len() - k,
    {
        if chars_eq(&chars_of(list[k]), name) {
            assert(order_view(list@)[k as int] == name@);
            return true;
        }
        k += 1;
    }
    false
}

/// How many of the `nested` elements are open just before event `i`.
pub fn depth_at(events: &[Token], i: usize, nested: &[&str]) -> (d: usize)
    requires
        i <= events@.len(),
    ensures
        d == depth_before(events@, i as int, order_view(nested@)),
{
    let mut d: usize = 0;
    let mut j: usize = 0;
    while j < i
        invariant
            j <= i <= events@.len(),
            d == depth_before(events@, j as int, order_view(nested@)),
            d <= j,
        decreases i - j,
    {
        let t = &events[j];
        if t.kind == Kind::Start && in_list(&crate::xml::tag_name_of(t.text.as_str()), nested) {
            d += 1;
        } else if t.kind == Kind::End && in_list(&chars_of(t.text.as_str()), nested) {
            if d > 0 {
                d -= 1;
            }
        }
        j += 1;
    }
    d
}

/// The ranges of `rs` that start outside every `nested` element.
pub open spec fn ranges_outside(ev: Seq<Token>, rs: Seq<(int, int)>, nested: Seq<Seq<char>>) -> Seq<(int, int)>
    decreases rs.len(),
{
    if rs.len() == 0 {
        seq![]
    } else {
        let prev = ranges_outside(ev, rs.drop_last(), nested);
        if depth_before(ev, rs.last().0, nested) == 0 {
            prev.push(rs.last())
        } else {
            prev
        }
    }
}

proof fn lemma_ordered_apart(r: Seq<(int, int)>, len: int, i: int, j: int)
    requires
        ordered_ranges(r, len),
        0 <= i < j < r.len(),
    ensures
        r[i].1 <= r[j].0,
    decreases j - i,
{
    if j > i + 1 {
        lemma_ordered_apart(r, len, i, j - 1);
        assert(r[j - 1].0 <= r[j - 1].1);
        assert(r[j - 1].1 <= r[j].0);
    } else {
        assert(r[i].1 <= r[i + 1].0);
    }
}

pub open spec fn member(rs: Seq<(int, int)>, x: (int, int)) -> bool {
    exists|m: int| 0 <= m < rs.len() && rs[m] == x
}

pub open spec fn drawn_from(o: Seq<(int, int)>, rs: Seq<(int, int)>) -> bool {
    forall|k: int| 0 <= k < o.len() ==> #[trigger] member(rs, o[k])
}

proof fn lemma_ordered_prefix(rs: Seq<(int, int)>, len: int)
    requires
        ordered_ranges(rs, len),
        rs.len() > 0,
    ensures
        ordered_ranges(rs.drop_last(), len),
{
    let d = rs.drop_last();
    assert forall|k: int| 0 <= k < d.len() implies 0 <= (#[trigger] d[k]).0 <= d[k].1 <= len by {
        assert(d[k] == rs[k]);
    }
    assert forall|k: int| 0 <= k < d.len() - 1 implies (#[trigger] d[k]).1 <= d[k + 1].0 by {
        assert(d[k] == rs[k] && d[k + 1] == rs[k + 1]);
    }
}

proof fn lemma_push_ordered(p: Seq<(int, int)>, rs: Seq<(int, int)>, len: int)
    requires
        ordered_ranges(rs, len),
        rs.len() > 0,
        ordered_ranges(p, len),
        drawn_from(p, rs.drop_last()),
    ensures
        ordered_ranges(p.push(rs.last()), len),
        drawn_from(p.push(rs.last()), rs),
{
    let d = rs.drop_last();
    let o = p.push(rs.last());
    assert forall|k: int| 0 <= k < o.len() implies 0 <= (#[trigger] o[k]).0 <= o[k].1 <= len by {
        if k < p.len() {
            assert(o[k] == p[k]);
        } else {
            assert(o[k] == rs[rs.len() - 1]);
        }
    }
    assert forall|k: int| 0 <= k < o.len() - 1 implies (#[trigger] o[k]).1 <= o[k + 1].0 by {
        if k + 1 < p.len() {
            assert(o[k] == p[k] && o[k + 1] == p[k + 1]);
        } else {
            assert(member(d, p[k]));
            let m = choose|m: int| 0 <= m < d.len() && d[m] == p[k];
            assert(d[m] == rs[m]);
            assert(o[k] == rs[m]);
            assert(o[k + 1] == rs[rs.len() - 1]);
            lemma_ordered_apart(rs, len, m, rs.len() - 1);
        }
    }
    assert forall|k: int| 0 <= k < o.len() implies #[trigger] member(rs, o[k]) by {
        if k < p.len() {
            assert(member(d, p[k]));
            let m = choose|m: int| 0 <= m < d.len() && d[m] == p[k];
            assert(d[m] == rs[m]);
            assert(o[k] == rs[m]);
        } else {
            assert(o[k] == rs[rs.len() - 1]);
        }
    }
}

proof fn lemma_drawn_widen(p: Seq<(int, int)>, rs: Seq<(int, int)>)
    requires
        rs.len() > 0,
        drawn_from(p, rs.drop_last()),
    ensures
        drawn_from(p, rs),
{
    let d = rs.drop_last();
    assert forall|k: int| 0 <= k < p.len() implies #[trigger] member(rs, p[k]) by {
        assert(member(d, p[k]));
        let m = choose|m: int| 0 <= m < d.len() && d[m] == p[k];
        assert(d[m] == rs[m]);
    }
}

proof fn lemma_outside_ordered(ev: Seq<Token>, rs: Seq<(int, int)>, nested: Seq<Seq<char>>, len: int)
    requires
        ordered_ranges(rs, len),
    ensures
        ordered_ranges(ranges_outside(ev, rs, nested), len),
        drawn_from(ranges_outside(ev, rs, nested), rs),
    decreases rs.len(),
{
    if rs.len() > 0 {
        let d = rs.drop_last();
        lemma_ordered_prefix(rs, len);
        lemma_outside_ordered(ev, d, nested, len);
        let p = ranges_outside(ev, d, nested);
        if depth_before(ev, rs.last().0, nested) == 0 {
            lemma_push_ordered(p, rs, len);
        } else {
            lemma_drawn_widen(p, rs);
        }
    }
}

/// The content ranges of every `text_element` outside the `nested` elements.
pub fn text_content_ranges_outside(events: &[Token], text_element: &str, nested: &[&str]) -> (out: Vec<std::ops::Range<usize>>)
    ensures
        range_pairs(out@) == ranges_outside(events@, spec_text_ranges(events@, text_element@), order_view(nested@)),
        ordered_ranges(range_pairs(out@), events@.len() as int),
{
    let all = text_content_ranges(events, text_element);
    let ghost rs = range_pairs(all@);
    let mut out: Vec<std::ops::Range<usize>> = Vec::new();
    let mut k: usize = 0;
    assert(rs.take(0) =~= Seq::<(int, int)>::empty());
    while k < all.len()
        invariant
            k <= all@.len(),
            rs == range_pairs(all@),
            rs == spec_text_ranges(events@, text_element@),
            ordered_ranges(rs, events@.len() as int),
            range_pairs(out@) == ranges_outside(events@, rs.take(k as int), order_view(nested@)),
        decreases all@.len() - k,
    {
        assert(rs[k as int] == (all@[k as int].start as int, all@[k as int].end as int));
        assert(rs.take(k + 1).drop_last() =~= rs.take(k as int));
        assert(rs.take(k + 1).last() == rs[k as int]);
        let start = all[k].start;
        let end = all[k].end;
        if depth_at(events, start, nested) == 0 {
            let ghost before = range_pairs(out@);
            out.push(start..end);
            assert(range_pairs(out@) =~= before.push((start as int, end as int)));
        }
        k += 1;
    }
    assert(rs.take(k as int) =~= rs);
    proof {
        lemma_outside_ordered(events@, rs, order_view(nested@), events@.len() as int);
    }
    out
}

// ------------------------------------------------------------ text edits at given ranges

/// Remove the characters at byte offsets into the text of the runs at
/// `ranges`, largest offset first.
pub fn remove_at_offsets_in(events: &mut Vec<Token>, ranges: &[std::ops::Range<usize>], offsets: &[usize])
    requires
        ordered_ranges(range_pairs(ranges@), old(events)@.len() as int),
    ensures
        ({
            let rs = range_pairs(ranges@);
            let before = spec_runs(old(events)@, rs);
            let after = remove_each(before, sort_desc(offsets@.map_values(|v: usize| v as int)));
            crate::xml::tviews(final(events)@) == replace_from(crate::xml::tviews(old(events)@), rs, before, after, 0)
        }),
{
    proof {
        assert forall|k: int| 0 <= k < ranges@.len() implies (#[trigger] ranges@[k]).start <= ranges@[k].end <= events@.len() by {
            assert(range_pairs(ranges@)[k] == (ranges@[k].start as int, ranges@[k].end as int));
        }
    }
    let before = read_runs(events, ranges);
    let mut runs = run_chars(&before);
    let sorted = sort_offsets(offsets);
    let ghost order = sorted@.map_values(|v: usize| v as int);
    let mut i: usize = 0;
    assert(order.skip(0) =~= order);
    assert(before@.len() == ranges@.len()) by {
        assert(string_views(before@).len() == spec_runs(events@, range_pairs(ranges@)).len());
    }
    while i < sorted.len()
        invariant
            i <= sorted@.len(),
            runs@.len() == before@.len(),
            order == sorted@.map_values(|v: usize| v as int),
            remove_each(string_views(before@), order) == remove_each(runs@.map_values(|v: Vec<char>| v@), order.skip(i as int)),
        decreases sorted@.len() - i,
    {
        remove_one_exec(&mut runs, sorted[i]);
        assert(order.skip(i as int).drop_first() =~= order.skip(i + 1));
        assert(order.skip(i as int)[0] == sorted@[i as int] as int);
        i += 1;
    }
    let after = run_strings(&runs);
    proof {
        assert(order.skip(sorted@.len() as int) =~= Seq::<int>::empty());
    }
    replace_content(events, ranges, &before, &after);
}

/// Strip a leading marker, and the whitespace after it, from the first of the
/// runs at `ranges`.
pub fn strip_leading_marker_in(events: &mut Vec<Token>, ranges: &[std::ops::Range<usize>], marker: char)
    requires
        ordered_ranges(range_pairs(ranges@), old(events)@.len() as int),
    ensures
        ({
            let rs = range_pairs(ranges@);
            if rs.len() == 0 {
                final(events)@ == old(events)@
            } else {
                let first = rs[0];
                match without_marker(spec_read_content(old(events)@.subrange(first.0, first.1)), marker) {
                    Some(t) => crate::xml::tviews(final(events)@) == crate::xml::tviews(old(events)@).take(first.0)
                        + seq![(Kind::Text, escaped(t))] + crate::xml::tviews(old(events)@).skip(first.1),
                    None => final(events)@ == old(events)@,
                }
            }
        }),
{
    if ranges.len() == 0 {
        return;
    }
    let first = ranges[0].start..ranges[0].end;
    assert(range_pairs(ranges@)[0] == (first.start as int, first.end as int));
    let text = read_content_chars(&copy_range(events, first.start, first.end));
    let n = leading_ws_exec(&text);
    proof {
        lemma_leading_ws(text@);
    }
    if n >= text.len() || text[n] != marker {
        return;
    }
    let after = slice_chars(&text, n + 1, text.len());
    let m = leading_ws_exec(&after);
    proof {
        lemma_leading_ws(after@);
    }
    let mut out = slice_chars(&text, 0, n);
    push_all(&mut out, &slice_chars(&after, m, after.len()));
    assert(out@ =~= without_marker(text@, marker).unwrap());
    let t = write_text(string_of(&out).as_str());
    let ghost before = events@;
    splice_tokens(events, first.start, first.end, vec![t]);
    assert(crate::xml::tviews(events@) =~= crate::xml::tviews(before).take(first.start as int) + seq![(Kind::Text, escaped(out@))] + crate::xml::tviews(before).skip(first.end as int));
}

// ------------------------------------------------------------ counting outside a region

/// Every element named `name` among the first `n` events that starts outside
/// every `uncounted` element, numbered 1, 2, … in document order, with its
/// event range.
pub open spec fn ranges_counted(ev: Seq<Token>, name: Seq<char>, n: int, uncounted: Seq<Seq<char>>) -> Seq<(int, int, int)>
    decreases n,
{
    if n <= 0 {
        seq![]
    } else {
        let before = ranges_counted(ev, name, n - 1, uncounted);
        if crate::xml::opened_name(ev[n - 1]) == Some(name) && depth_before(ev, n - 1, uncounted) == 0 {
            before.push(((before.len() + 1) as int, n - 1, element_end(ev, n - 1)))
        } else {
            before
        }
    }
}

/// Every element named `name` outside the `uncounted` elements, 1-based in
/// document order, with its event range.
pub fn element_ranges_outside(events: &[Token], name: &str, uncounted: &[&str]) -> (out: Vec<(usize, std::ops::Range<usize>)>)
    ensures
        range_views(out@) == ranges_counted(events@, name@, events@.len() as int, order_view(uncounted@)),
{
    let want = chars_of(name);
    let mut out: Vec<(usize, std::ops::Range<usize>)> = Vec::new();
    let mut index: usize = 0;
    let mut i: usize = 0;
    while i < events.len()
        invariant
            i <= events@.len(),
            want@ == name@,
            index == out@.len(),
            index <= i,
            range_views(out@) == ranges_counted(events@, name@, i as int, order_view(uncounted@)),
        decreases events@.len() - i,
    {
        let ghost before = range_views(out@);
        if (crate::xml::is_tag(&events[i], Kind::Start, &want) || crate::xml::is_tag(&events[i], Kind::Empty, &want))
            && depth_at(events, i, uncounted) == 0 {
            index += 1;
            let r = element_range(events, i);
            out.push((index, r));
            assert(range_views(out@) =~= before.push((index as int, i as int, element_end(events@, i as int))));
        }
        i += 1;
    }
    out
}

} // verus!
