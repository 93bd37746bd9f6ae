//! SpreadsheetML's repair vocabulary: which element and which attribute each
//! repair lands on, and what has to be appended rather than edited.
//!
//! Excel keeps a cell's formatting in a record of `cellXfs` that many cells
//! may name, and its text in a shared string many cells may show. A repair
//! therefore never edits either: it appends a copy of the record or the
//! string with the change made, and points the one cell at the copy. Every
//! other cell keeps what it had, byte for byte. A `<f>` is never reached: a
//! cell repair edits `@s` on the `<c>` tag or the content of its `<v>`.
use vstd::prelude::*;
use crate::error::Error;
use crate::ids::{decimal, decimal_of, parse_ordinal, parse_usize};
use crate::inherit::{trim_chars, trimmed};
use crate::plan::{count, holds_no_repair, ByIndex, Inherited};
use crate::rewrite::{set_tag, asks_normalisation, first_other, lemma_first_other, only_directions, refusal, rtl_value, tag_set};
use crate::strs::{chars_of, push_all, string_of};
use crate::text::{copy_offsets, fix_views, Alignment, Direction, Fix, FixView};
use crate::token::{
    child_or_insert, copy_range, element_end, element_range, element_ranges, expand_empty, expanded,
    find_direct_child, found_or_inserted, get_attribute, insert_children, inserted, lemma_element_end_bounds,
    lemma_found_child, opens_element, order_view, range_views, ranges_named, set_attribute,
    spec_find_direct_child, spec_get_attribute, spec_set_attribute, splice_tokens, text_content_ranges,
    spec_text_ranges, range_pairs, map_ranges, ranges_rewritten, ordered_ranges, read_runs, run_chars, run_strings, sort_offsets,
    remove_one_exec, remove_each, write_text, spec_read_content, sort_desc, replace_from, replace_content, spec_runs, string_views,
};
use crate::workbook::{horizontal, parse_reading_order, spec_horizontal, spec_reading_order, SHARED_STRINGS, STYLES};
use crate::xml::{document_tokens, read_failure, reads_as, element_name, escaped, opened_name, serialized_all, tviews, write_events, Kind, Token};

verus! {

broadcast use vstd::string::group_string_axioms;

// ------------------------------------------------------------------ helpers

/// The first element named `name` from `i` on.
pub open spec fn root_from(ev: Seq<Token>, name: Seq<char>, i: int) -> Option<int>
    decreases ev.len() - i,
{
    if i < 0 || i >= ev.len() {
        None
    } else if opened_name(ev[i]) == Some(name) {
        Some(i)
    } else {
        root_from(ev, name, i + 1)
    }
}

/// The first element named `name` in a part.
pub open spec fn spec_root(ev: Seq<Token>, name: Seq<char>) -> Option<int> {
    root_from(ev, name, 0)
}

proof fn lemma_root_from(ev: Seq<Token>, name: Seq<char>, i: int)
    requires
        0 <= i,
    ensures
        root_from(ev, name, i) matches Some(k) ==> i <= k < ev.len() && opened_name(ev[k]) == Some(name)
            && opens_element(ev, k),
    decreases ev.len() - i,
{
    if 0 <= i < ev.len() && opened_name(ev[i]) != Some(name) {
        lemma_root_from(ev, name, i + 1);
    }
}

fn root(events: &[Token], name: &str) -> (r: Option<usize>)
    ensures
        r matches Some(k) ==> spec_root(events@, name@) == Some(k as int) && opens_element(events@, k as int),
        r is None ==> spec_root(events@, name@) is None,
{
    let want = chars_of(name);
    let mut i: usize = 0;
    while i < events.len()
        invariant
            i <= events@.len(),
            want@ == name@,
            spec_root(events@, name@) == root_from(events@, name@, i as int),
        decreases events@.len() - i,
    {
        if crate::xml::is_tag(&events[i], Kind::Start, &want) || crate::xml::is_tag(&events[i], Kind::Empty, &want) {
            proof {
                lemma_root_from(events@, name@, i as int);
            }
            return Some(i);
        }
        i += 1;
    }
    None
}

/// `children` appended as the last children of the element at `at`, the
/// element first opened if it was empty. Appending, because the records and
/// strings this is used for are addressed by their ordinal.
pub open spec fn appended(old: Seq<Token>, new: Seq<Token>, at: int, children: Seq<Token>) -> bool {
    exists|mid: Seq<Token>|
        #[trigger] expanded(old, mid, at) && opens_element(mid, at) && {
            let end = element_end(mid, at) - 1;
            new == mid.take(end) + children + mid.skip(end)
        }
}

fn append_children(events: &mut Vec<Token>, at: usize, children: Vec<Token>)
    requires
        opens_element(old(events)@, at as int),
    ensures
        appended(old(events)@, final(events)@, at as int, children@),
{
    let ghost before = events@;
    expand_empty(events, at);
    let ghost mid = events@;
    let range = element_range(events, at);
    splice_tokens(events, range.end - 1, range.end - 1, children);
    proof {
        assert(expanded(before, mid, at as int));
    }
}

/// A count attribute set to `n`, when the element carries one: adding one
/// it had none of would be writing a number no application asked for.
pub open spec fn count_bumped(old: Seq<Token>, new: Seq<Token>, at: int, name: Seq<char>, n: nat) -> bool {
    if opens_element(old, at) && spec_get_attribute(old[at].text@, name) is Some {
        tag_set(old, new, at, name, decimal(n))
    } else {
        new == old
    }
}

fn bump_count(events: &mut Vec<Token>, at: usize, name: &str, value: usize)
    ensures
        count_bumped(old(events)@, final(events)@, at as int, name@, value as nat),
{
    if at < events.len() && (events[at].kind == Kind::Start || events[at].kind == Kind::Empty) {
        if get_attribute(&events[at], name).is_some() {
            let v = decimal_of(value);
            let t = set_attribute(&events[at], name, v.as_str());
            events.set(at, t);
        }
    }
}

// -------------------------------------------------------------- xl/styles.xml

/// `CT_Xf`: `alignment` precedes `protection`.
pub open spec fn xf_order() -> Seq<Seq<char>> {
    seq!["alignment"@, "protection"@, "extLst"@]
}

fn xf_order_exec() -> (r: [&'static str; 3])
    ensures
        order_view(r@) == xf_order(),
{
    let r = ["alignment", "protection", "extLst"];
    assert(order_view(r@) =~= xf_order());
    r
}

/// `xl/styles.xml`, opened so that a repair can append a format record.
pub struct StyleTable {
    events: Vec<Token>,
    section: Option<usize>,
    records: usize,
    original: usize,
    derived: Vec<(usize, Option<String>, Option<String>, usize)>,
}

pub open spec fn text_opt(o: Option<String>) -> Option<Seq<char>> {
    match o {
        Some(s) => Some(s@),
        None => None,
    }
}

pub open spec fn str_opt(o: Option<&str>) -> Option<Seq<char>> {
    match o {
        Some(s) => Some(s@),
        None => None,
    }
}

/// A style table as values: its tokens, where its `cellXfs` starts, how
/// many records it holds now and held when read, and the requests already
/// answered with an appended record.
pub struct StyleTableView {
    pub events: Seq<Token>,
    pub section: Option<int>,
    pub records: int,
    pub original: int,
    pub derived: Seq<(usize, Option<Seq<char>>, Option<Seq<char>>, usize)>,
}

impl View for StyleTable {
    type V = StyleTableView;

    closed spec fn view(&self) -> StyleTableView {
        StyleTableView {
            events: self.events@,
            section: match self.section {
                Some(s) => Some(s as int),
                None => None,
            },
            records: self.records as int,
            original: self.original as int,
            derived: self.derived@.map_values(|d: (usize, Option<String>, Option<String>, usize)| (d.0, text_opt(d.1), text_opt(d.2), d.3)),
        }
    }
}

/// How many `<xf>` records the element at `at` holds.
pub open spec fn records_in(ev: Seq<Token>, at: int) -> int {
    let inner = ev.subrange(at, element_end(ev, at));
    ranges_named(inner, "xf"@, inner.len() as int).len() as int
}

/// The table a part's tokens make.
pub open spec fn styles_from(ev: Seq<Token>) -> StyleTableView {
    let section = spec_root(ev, "cellXfs"@);
    let records = match section {
        Some(at) => records_in(ev, at),
        None => 0,
    };
    StyleTableView { events: ev, section, records, original: records, derived: seq![] }
}

/// The table for a workbook with no `xl/styles.xml`.
pub open spec fn no_styles() -> StyleTableView {
    StyleTableView { events: seq![], section: None, records: 0, original: 0, derived: seq![] }
}

/// The event range of the record at a 0-based `cellXfs` index.
pub open spec fn spec_record(ev: Seq<Token>, section: Option<int>, index: usize) -> Option<(int, int)> {
    match section {
        None => None,
        Some(at) => if !opens_element(ev, at) {
            None
        } else {
            let inner = ev.subrange(at, element_end(ev, at));
            let rs = ranges_named(inner, "xf"@, inner.len() as int);
            if index < rs.len() {
                Some((at + rs[index as int].1, at + rs[index as int].2))
            } else {
                None
            }
        },
    }
}

/// The index an identical earlier request was answered with.
pub open spec fn answered(d: Seq<(usize, Option<Seq<char>>, Option<Seq<char>>, usize)>, base: usize, al: Option<Seq<char>>, ro: Option<Seq<char>>) -> Option<usize>
    decreases d.len(),
{
    if d.len() == 0 {
        None
    } else if d[0].0 == base && d[0].1 == al && d[0].2 == ro {
        Some(d[0].3)
    } else {
        answered(d.drop_first(), base, al, ro)
    }
}

/// A record like `src` stating `al` as `horizontal` and `ro` as
/// `readingOrder`: `applyAlignment` set, and its `alignment` found or
/// created in schema position.
pub open spec fn record_made(src: Seq<Token>, rec: Seq<Token>, al: Option<Seq<char>>, ro: Option<Seq<char>>) -> bool {
    exists|m1: Seq<Token>, m2: Seq<Token>, q: int, m3: Seq<Token>|
        #![trigger tag_set(src, m1, 0, "applyAlignment"@, "1"@), found_or_inserted(m1, m2, 0, xf_order(), "alignment"@, q), alignment_stated(m2, m3, q, al)]
        tag_set(src, m1, 0, "applyAlignment"@, "1"@) && found_or_inserted(m1, m2, 0, xf_order(), "alignment"@, q)
            && opens_element(m2, q) && alignment_stated(m2, m3, q, al) && match ro {
                Some(v) => tag_set(m3, rec, q, "readingOrder"@, v),
                None => rec == m3,
            }
}

pub open spec fn alignment_stated(a: Seq<Token>, b: Seq<Token>, q: int, al: Option<Seq<char>>) -> bool {
    match al {
        Some(v) => tag_set(a, b, q, "horizontal"@, v),
        None => b == a,
    }
}

pub open spec fn no_cell_xfs() -> Seq<char> {
    "xl/styles.xml: no cellXfs to append a cell format to"@
}

pub open spec fn cell_xfs_full() -> Seq<char> {
    "xl/styles.xml: cellXfs holds as many records as an index can name"@
}

pub open spec fn no_cell_format(base: usize) -> Seq<char> {
    "xl/styles.xml: no cell format "@ + decimal(base as nat) + "; the document and the report disagree"@
}

fn opens(events: &Vec<Token>, at: usize) -> (r: bool)
    ensures
        r == opens_element(events@, at as int),
{
    at < events.len() && (events[at].kind == Kind::Start || events[at].kind == Kind::Empty)
}

fn text_eq(a: &Option<String>, b: Option<&str>) -> (r: bool)
    ensures
        r == (text_opt(*a) == str_opt(b)),
{
    match (a, b) {
        (Some(x), Some(y)) => crate::strs::chars_eq(&chars_of(x.as_str()), &chars_of(y)),
        (None, None) => true,
        _ => false,
    }
}

fn owned_opt(o: Option<&str>) -> (r: Option<String>)
    ensures
        text_opt(r) == str_opt(o),
{
    match o {
        Some(s) => Some(crate::strs::owned(s)),
        None => None,
    }
}

/// What [`StyleTable::derive`] does to a table `o`, leaving `n`, and answers
/// with `r`.
pub open spec fn derive_outcome(o: StyleTableView, n: StyleTableView, base: usize, al: Option<Seq<char>>, ro: Option<Seq<char>>, r: Result<usize, Error>) -> bool {
                if al is None && ro is None {
                    r == Ok::<usize, Error>(base) && n == o
                } else if answered(o.derived, base, al, ro) is Some {
                    r == Ok::<usize, Error>(answered(o.derived, base, al, ro).unwrap()) && n == o
                } else if o.section is None {
                    r matches Err(e) && e == Error::Format(e->Format_0) && e->Format_0@ == no_cell_xfs() && n == o
                } else if spec_record(o.events, o.section, base) is None {
                    r matches Err(e) && e == Error::Format(e->Format_0) && e->Format_0@ == no_cell_format(base) && n == o
                } else if o.records >= usize::MAX {
                    r matches Err(e) && e == Error::Format(e->Format_0) && e->Format_0@ == cell_xfs_full() && n == o
                } else {
                    let (from, to) = spec_record(o.events, o.section, base).unwrap();
                    let at = o.section.unwrap();
                    &&& r == Ok::<usize, Error>(o.records as usize)
                    &&& n.section == o.section
                    &&& n.records == o.records + 1
                    &&& n.original == o.original
                    &&& n.derived == o.derived.push((base, al, ro, o.records as usize))
                    &&& exists|rec: Seq<Token>, m: Seq<Token>|
                        #![trigger record_made(o.events.subrange(from, to), rec, al, ro), appended(o.events, m, at, rec)]
                        record_made(o.events.subrange(from, to), rec, al, ro)
                            && appended(o.events, m, at, rec) && count_bumped(m, n.events, at, "count"@, (o.records + 1) as nat)
                }
            }

impl StyleTable {
    /// The table a part's tokens make.
    pub fn from_events(events: Vec<Token>) -> (t: Self)
        ensures
            t@ == styles_from(events@),
    {
        let section = root(&events, "cellXfs");
        let records = match section {
            Some(at) => {
                let range = element_range(&events, at);
                let inner = copy_range(&events, range.start, range.end);
                let rs = element_ranges(&inner, "xf");
                assert(range_views(rs@).len() == rs@.len());
                rs.len()
            },
            None => 0,
        };
        let t = StyleTable { events, section, records, original: records, derived: Vec::new() };
        assert(t@.derived =~= Seq::<(usize, Option<Seq<char>>, Option<Seq<char>>, usize)>::empty());
        t
    }

    /// Read the part. Empty input is a workbook with no `xl/styles.xml`: a
    /// workbook no repair can give a cell a format record in, reported when
    /// one is asked for rather than guessed at here.
    pub fn read(xml: &str) -> (r: Result<Self, Error>)
        ensures
            trimmed(xml@).len() == 0 ==> (r matches Ok(t) && t@ == no_styles()),
            trimmed(xml@).len() != 0 ==> (r is Ok <==> document_tokens(xml@) is Ok),
            trimmed(xml@).len() != 0 ==> (r matches Ok(t) ==> exists|ev: Seq<Token>| #[trigger] reads_as(xml@, ev) && t@ == styles_from(ev)),
            r matches Err(e) ==> read_failure(STYLES@, xml@, e),
    {
        if trim_chars(&chars_of(xml)).len() == 0 {
            let t = StyleTable { events: Vec::new(), section: None, records: 0, original: 0, derived: Vec::new() };
            assert(t@.derived =~= Seq::<(usize, Option<Seq<char>>, Option<Seq<char>>, usize)>::empty());
            assert(t@.events =~= Seq::<Token>::empty());
            return Ok(t);
        }
        let events = crate::xml::read_events(STYLES, xml)?;
        assert(reads_as(xml@, events@));
        Ok(StyleTable::from_events(events))
    }

    /// Whether anything was appended, and so whether the part must be written.
    pub fn changed(&self) -> (r: bool)
        ensures
            r == (self@.records != self@.original),
    {
        self.records != self.original
    }

    /// The part as it now stands.
    pub fn write(&self, part: &str) -> (r: Result<String, Error>)
        ensures
            r matches Ok(s) && s@ == serialized_all(self@.events),
    {
        write_events(part, &self.events)
    }

    /// The event range of the `<xf>` at a 0-based `cellXfs` index.
    fn record(&self, index: usize) -> (r: Option<std::ops::Range<usize>>)
        ensures
            r matches Some(g) ==> spec_record(self@.events, self@.section, index) == Some((g.start as int, g.end as int))
                && g.start < g.end <= self@.events.len() && opens_element(self@.events, g.start as int),
            r is None ==> spec_record(self@.events, self@.section, index) is None,
    {
        let at = match self.section {
            Some(at) => at,
            None => return None,
        };
        if !opens(&self.events, at) {
            return None;
        }
        let range = element_range(&self.events, at);
        let inner = copy_range(&self.events, range.start, range.end);
        let rs = element_ranges(&inner, "xf");
        let ghost rv = range_views(rs@);
        if index < rs.len() {
            let from = rs[index].1.start;
            let to = rs[index].1.end;
            proof {
                assert(rv[index as int] == (rs@[index as int].0 as int, from as int, to as int));
                crate::rewrite::lemma_ranges_numbered(inner@, "xf"@, inner@.len() as int);
                lemma_element_end_bounds(inner@, from as int);
                assert(inner@[from as int] == self.events@[range.start + from]);
            }
            Some(range.start + from..range.start + to)
        } else {
            None
        }
    }

    /// A record like the one at `base` but stating `alignment` and/or
    /// `reading_order`, appended to `cellXfs`, and its index. A request that
    /// changes nothing answers with `base` itself; an identical request
    /// answers with the record appended the first time.
    pub fn derive(&mut self, base: usize, alignment: Option<&str>, reading_order: Option<&str>) -> (r: Result<usize, Error>)
        ensures
            derive_outcome(old(self)@, final(self)@, base, str_opt(alignment), str_opt(reading_order), r),
            final(self)@.original == old(self)@.original,
    {
        if alignment.is_none() && reading_order.is_none() {
            return Ok(base);
        }
        let mut i: usize = 0;
        let ghost d = self@.derived;
        assert(d.skip(0) =~= d);
        while i < self.derived.len()
            invariant
                i <= self.derived@.len(),
                *self == *old(self),
                !(alignment is None && reading_order is None),
                d == self@.derived,
                d.len() == self.derived@.len(),
                answered(d, base, str_opt(alignment), str_opt(reading_order))
                    == answered(d.skip(i as int), base, str_opt(alignment), str_opt(reading_order)),
            decreases self.derived@.len() - i,
        {
            assert(d.skip(i as int)[0] == d[i as int]);
            assert(d.skip(i as int).drop_first() =~= d.skip(i + 1));
            let e = &self.derived[i];
            assert(d[i as int] == (e.0, text_opt(e.1), text_opt(e.2), e.3));
            if e.0 == base && text_eq(&e.1, alignment) && text_eq(&e.2, reading_order) {
                assert(answered(d, base, str_opt(alignment), str_opt(reading_order)) == Some(e.3));
                return Ok(e.3);
            }
            i += 1;
        }
        let section = match self.section {
            Some(s) => s,
            None => {
                let mut m = chars_of("xl/styles.xml: no cellXfs to append a cell format to");
                return Err(Error::Format(string_of(&m)));
            },
        };
        let range = match self.record(base) {
            Some(g) => g,
            None => {
                let mut m = chars_of("xl/styles.xml: no cell format ");
                push_all(&mut m, &chars_of(decimal_of(base).as_str()));
                push_all(&mut m, &chars_of("; the document and the report disagree"));
                return Err(Error::Format(string_of(&m)));
            },
        };
        if self.records == usize::MAX {
            let m = chars_of("xl/styles.xml: cellXfs holds as many records as an index can name");
            return Err(Error::Format(string_of(&m)));
        }
        let ghost o = self@;
        let mut record = copy_range(&self.events, range.start, range.end);
        let ghost src = record@;
        let t = set_attribute(&record[0], "applyAlignment", "1");
        record.set(0, t);
        let ghost m1 = record@;
        let order = xf_order_exec();
        let q = child_or_insert(&mut record, 0, &order, "alignment");
        let ghost m2 = record@;
        if let Some(v) = alignment {
            let t = set_attribute(&record[q], "horizontal", v);
            record.set(q, t);
        }
        let ghost m3 = record@;
        if let Some(v) = reading_order {
            let t = set_attribute(&record[q], "readingOrder", v);
            record.set(q, t);
        }
        let ghost rec = record@;
        proof {
            reveal_strlit("applyAlignment");
            reveal_strlit("1");
            reveal_strlit("horizontal");
            reveal_strlit("readingOrder");
            assert(src[0] == o.events[range.start as int]);
            assert(tag_set(src, m1, 0, "applyAlignment"@, "1"@));
            assert(found_or_inserted(m1, m2, 0, xf_order(), "alignment"@, q as int));
            assert(alignment_stated(m2, m3, q as int, str_opt(alignment)));
            assert(record_made(src, rec, str_opt(alignment), str_opt(reading_order)));
        }
        let mut events = Vec::new();
        std::mem::swap(&mut events, &mut self.events);
        append_children(&mut events, section, record);
        let ghost m = events@;
        let records = self.records + 1;
        bump_count(&mut events, section, "count", records);
        let index = records - 1;
        let key = (base, owned_opt(alignment), owned_opt(reading_order), index);
        self.derived.push(key);
        self.events = events;
        self.records = records;
        proof {
            reveal_strlit("count");
            assert(self@.derived =~= o.derived.push((base, str_opt(alignment), str_opt(reading_order), o.records as usize)));
            assert(appended(o.events, m, section as int, rec));
            assert(count_bumped(m, self@.events, section as int, "count"@, (o.records + 1) as nat));
            assert(spec_record(o.events, o.section, base) == Some((range.start as int, range.end as int)));
            assert(src == o.events.subrange(range.start as int, range.end as int));
            assert(answered(o.derived, base, str_opt(alignment), str_opt(reading_order)) is None);
            assert(self@.section == o.section);
            assert(self@.records == o.records + 1);
            assert(o == old(self)@);
            let (from, to) = spec_record(o.events, o.section, base).unwrap();
            assert(from == range.start && to == range.end);
            assert(record_made(o.events.subrange(from, to), rec, str_opt(alignment), str_opt(reading_order)));
            assert(appended(o.events, m, o.section.unwrap(), rec));
            assert(exists|rec: Seq<Token>, m: Seq<Token>|
                #![trigger record_made(o.events.subrange(from, to), rec, str_opt(alignment), str_opt(reading_order)), appended(o.events, m, o.section.unwrap(), rec)]
                record_made(o.events.subrange(from, to), rec, str_opt(alignment), str_opt(reading_order))
                    && appended(o.events, m, o.section.unwrap(), rec) && count_bumped(m, self@.events, o.section.unwrap(), "count"@, (o.records + 1) as nat));
            assert(index == o.records as usize);
        }
        Ok(index)
    }
}

/// The reading order the record at `base` already states, if it states
/// one: the `readingOrder` of the record's first `alignment`.
pub open spec fn stated_reading_order(t: StyleTableView, base: usize) -> Option<Direction> {
    match spec_record(t.events, t.section, base) {
        None => None,
        Some((from, to)) => {
            let rec = t.events.subrange(from, to);
            match first_named(rec, "alignment"@, 0) {
                None => None,
                Some(i) => if rec[i].kind == Kind::Start || rec[i].kind == Kind::Empty {
                    match spec_get_attribute(rec[i].text@, "readingOrder"@) {
                        Some(v) => spec_reading_order(v),
                        None => None,
                    }
                } else {
                    None
                },
            }
        },
    }
}

/// The first token from `i` on whose name is `name`, whatever its kind.
pub open spec fn first_named(ev: Seq<Token>, name: Seq<char>, i: int) -> Option<int>
    decreases ev.len() - i,
{
    if i < 0 || i >= ev.len() {
        None
    } else if element_name(ev[i]) == Some(name) {
        Some(i)
    } else {
        first_named(ev, name, i + 1)
    }
}

impl StyleTable {
    /// The reading order the record at `base` already states, if it states one.
    pub fn existing_reading_order(&self, base: usize) -> (r: Option<Direction>)
        ensures
            r == stated_reading_order(self@, base),
    {
        let range = match self.record(base) {
            Some(g) => g,
            None => return None,
        };
        let rec = copy_range(&self.events, range.start, range.end);
        let want = chars_of("alignment");
        let mut i: usize = 0;
        while i < rec.len()
            invariant
                i <= rec@.len(),
                want@ == "alignment"@,
                rec@ == self@.events.subrange(range.start as int, range.end as int),
                spec_record(self@.events, self@.section, base) == Some((range.start as int, range.end as int)),
                range.start < range.end <= self@.events.len(),
                first_named(rec@, "alignment"@, 0) == first_named(rec@, "alignment"@, i as int),
            decreases rec@.len() - i,
        {
            let t = &rec[i];
            if crate::xml::is_tag(t, Kind::Start, &want) || crate::xml::is_tag(t, Kind::Empty, &want)
                || crate::xml::is_tag(t, Kind::End, &want) {
                if t.kind == Kind::Start || t.kind == Kind::Empty {
                    return match get_attribute(t, "readingOrder") {
                        Some(v) => parse_reading_order(v.as_str()),
                        None => None,
                    };
                }
                return None;
            }
            proof {
                assert(element_name(rec@[i as int]) != Some("alignment"@)) by {
                    if element_name(rec@[i as int]) == Some("alignment"@) {
                        let k = rec@[i as int].kind;
                        assert(k == Kind::Start || k == Kind::Empty || k == Kind::End);
                    }
                }
            }
            i += 1;
        }
        None
    }
}


// ---------------------------------------------------------------- cell text

/// The element a shared or inline string's characters live in.
pub open spec fn t_element() -> Seq<char> {
    "t"@
}

/// Whether `x` falls inside the `k`th of the element ranges `ph`.
pub open spec fn covers(ph: Seq<(int, int, int)>, k: int, x: int) -> bool {
    ph[k].1 <= x && x < ph[k].2
}

/// Whether `x` falls inside one of the element ranges `ph`.
pub open spec fn in_phonetic(ph: Seq<(int, int, int)>, x: int) -> bool {
    exists|k: int| 0 <= k < ph.len() && #[trigger] covers(ph, k, x)
}

/// The ranges whose start lies inside none of `ph`, in order.
pub open spec fn outside_phonetic(ranges: Seq<(int, int)>, ph: Seq<(int, int, int)>) -> Seq<(int, int)>
    decreases ranges.len(),
{
    if ranges.len() == 0 {
        seq![]
    } else {
        let rest = outside_phonetic(ranges.drop_last(), ph);
        if in_phonetic(ph, ranges.last().0) {
            rest
        } else {
            rest.push(ranges.last())
        }
    }
}

/// The content ranges of every `<t>` not inside an `<rPh>`: a phonetic
/// guide's text is a reading annotation, not the string.
pub open spec fn sheet_text_ranges(ev: Seq<Token>) -> Seq<(int, int)> {
    outside_phonetic(spec_text_ranges(ev, t_element()), ranges_named(ev, "rPh"@, ev.len() as int))
}

proof fn lemma_ordered_pairwise(r: Seq<(int, int)>, len: int)
    requires
        ordered_ranges(r, len),
    ensures
        forall|i: int, j: int| 0 <= i < j < r.len() ==> r[i].1 <= r[j].0,
{
    assert forall|i: int, j: int| 0 <= i < j < r.len() implies r[i].1 <= r[j].0 by {
        lemma_ordered_step(r, len, i, j);
    }
}

proof fn lemma_ordered_step(r: Seq<(int, int)>, len: int, i: int, j: int)
    requires
        ordered_ranges(r, len),
        0 <= i < j < r.len(),
    ensures
        r[i].1 <= r[j].0,
    decreases j - i,
{
    assert(r[i].1 <= r[i + 1].0);
    if i + 1 < j {
        lemma_ordered_step(r, len, i + 1, j);
        assert(r[i + 1].0 <= r[i + 1].1);
    }
}

fn sheet_ranges(events: &[Token]) -> (out: Vec<std::ops::Range<usize>>)
    ensures
        range_pairs(out@) == sheet_text_ranges(events@),
        ordered_ranges(range_pairs(out@), events@.len() as int),
{
    let all = text_content_ranges(events, "t");
    let phonetic = element_ranges(events, "rPh");
    let ghost ph = range_views(phonetic@);
    let ghost rp = range_pairs(all@);
    proof {
        lemma_ordered_pairwise(rp, events@.len() as int);
    }
    let mut out: Vec<std::ops::Range<usize>> = Vec::new();
    let mut i: usize = 0;
    while i < all.len()
        invariant
            i <= all@.len(),
            rp == range_pairs(all@),
            rp == spec_text_ranges(events@, t_element()),
            ph == range_views(phonetic@),
            ph == ranges_named(events@, "rPh"@, events@.len() as int),
            ordered_ranges(rp, events@.len() as int),
            forall|a: int, b: int| 0 <= a < b < rp.len() ==> rp[a].1 <= rp[b].0,
            range_pairs(out@) == outside_phonetic(rp.take(i as int), ph),
            ordered_ranges(range_pairs(out@), events@.len() as int),
            out@.len() > 0 ==> forall|j: int| i <= j < rp.len() ==> range_pairs(out@).last().1 <= #[trigger] rp[j].0,
        decreases all@.len() - i,
    {
        let start = all[i].start;
        let mut inside = false;
        let mut k: usize = 0;
        while k < phonetic.len()
            invariant
                k <= phonetic@.len(),
                ph == range_views(phonetic@),
                inside <==> exists|m: int| 0 <= m < k && #[trigger] covers(ph, m, start as int),
            decreases phonetic@.len() - k,
        {
            assert(ph[k as int] == (phonetic@[k as int].0 as int, phonetic@[k as int].1.start as int, phonetic@[k as int].1.end as int));
            if phonetic[k].1.start <= start && start < phonetic[k].1.end {
                inside = true;
                assert(covers(ph, k as int, start as int));
            } else {
                assert(!covers(ph, k as int, start as int));
            }
            k += 1;
        }
        assert(rp[i as int] == (start as int, all@[i as int].end as int));
        assert(rp.take(i + 1).drop_last() =~= rp.take(i as int));
        assert(inside == in_phonetic(ph, start as int));
        if !inside {
            let ghost prev = range_pairs(out@);
            out.push(start..all[i].end);
            assert(range_pairs(out@) =~= prev.push(rp[i as int]));
        }
        i += 1;
    }
    assert(rp.take(all@.len() as int) =~= rp);
    out
}

/// Every offset a list of repairs deletes at, controls and tatweel alike,
/// in the order the repairs give them.
pub open spec fn deletions(fixes: Seq<FixView>) -> Seq<int>
    decreases fixes.len(),
{
    if fixes.len() == 0 {
        seq![]
    } else {
        deletions(fixes.drop_last()) + match fixes.last() {
            FixView::RemoveControls(o) => o.map_values(|v: usize| v as int),
            FixView::RemoveTatweel(o) => o.map_values(|v: usize| v as int),
            _ => seq![],
        }
    }
}

/// The runs of `old` at `ranges` written back as `runs`.
pub open spec fn runs_written(old: Seq<Token>, mid: Seq<Token>, ranges: Seq<(int, int)>, runs: Seq<Seq<char>>) -> bool {
    tviews(mid) == replace_from(tviews(old), ranges, spec_runs(old, ranges), runs, 0)
}

/// Every text repair applied to a string's runs: all deletions first and
/// in one pass, largest offset first, written back; then, when a repair
/// asks, each run's presentation forms normalised by `f`.
pub open spec fn text_repaired<F: Fn(&str) -> String>(old: Seq<Token>, new: Seq<Token>, fixes: Seq<FixView>, f: F) -> bool {
    let ranges = sheet_text_ranges(old);
    if ranges.len() == 0 {
        new == old
    } else {
        let removed = remove_each(spec_runs(old, ranges), sort_desc(deletions(fixes)));
        exists|mid: Seq<Token>|
            #[trigger] runs_written(old, mid, ranges, removed) && if fixes.contains(FixView::NormalizePresentationForms) {
                ranges_rewritten(mid, new, sheet_text_ranges(mid), f)
            } else {
                new == mid
            }
    }
}

pub(crate) fn collect_deletions(fixes: &[Fix]) -> (out: Vec<usize>)
    ensures
        out@.map_values(|v: usize| v as int) == deletions(fix_views(fixes@)),
{
    let ghost fv = fix_views(fixes@);
    let mut out: Vec<usize> = Vec::new();
    let mut k: usize = 0;
    while k < fixes.len()
        invariant
            k <= fixes@.len(),
            fv == fix_views(fixes@),
            fv.len() == fixes@.len(),
            out@.map_values(|v: usize| v as int) == deletions(fv.take(k as int)),
        decreases fixes@.len() - k,
    {
        let ghost prev = out@;
        assert(fv.take(k + 1).drop_last() =~= fv.take(k as int));
        match &fixes[k] {
            Fix::RemoveControls(o) | Fix::RemoveTatweel(o) => {
                let mut j: usize = 0;
                while j < o.len()
                    invariant
                        j <= o@.len(),
                        out@ == prev + o@.take(j as int),
                    decreases o@.len() - j,
                {
                    out.push(o[j]);
                    assert(out@ =~= prev + o@.take(j + 1));
                    j += 1;
                }
                assert(o@.take(o@.len() as int) =~= o@);
                assert(out@.map_values(|v: usize| v as int) =~= prev.map_values(|v: usize| v as int) + o@.map_values(|v: usize| v as int));
            },
            _ => {
                assert(deletions(fv.take(k + 1)) =~= deletions(fv.take(k as int)));
            },
        }
        k += 1;
    }
    assert(fv.take(k as int) =~= fv);
    out
}

/// Apply every text repair in `fixes` to the string held in `events`.
fn repair_text<F: Fn(&str) -> String>(events: &mut Vec<Token>, fixes: &[Fix], normalize: F)
    requires
        forall|s: &str| call_requires(normalize, (s,)),
    ensures
        text_repaired(old(events)@, final(events)@, fix_views(fixes@), normalize),
{
    let ranges = sheet_ranges(events);
    if ranges.len() == 0 {
        return;
    }
    proof {
        assert forall|k: int| 0 <= k < ranges@.len() implies (#[trigger] ranges@[k]).start <= ranges@[k].end <= events@.len() by {
            assert(range_pairs(ranges@)[k] == (ranges@[k].start as int, ranges@[k].end as int));
        }
    }
    let dels = collect_deletions(fixes);
    let before = read_runs(events, &ranges);
    let mut runs = run_chars(&before);
    let sorted = sort_offsets(&dels);
    let ghost order = sorted@.map_values(|v: usize| v as int);
    let mut i: usize = 0;
    assert(order.skip(0) =~= order);
    assert(before@.len() == ranges@.len()) by {
        assert(string_views(before@).len() == spec_runs(events@, range_pairs(ranges@)).len());
    }
    while i < sorted.len()
        invariant
            i <= sorted@.len(),
            runs@.len() == before@.len(),
            order == sorted@.map_values(|v: usize| v as int),
            remove_each(string_views(before@), order) == remove_each(runs@.map_values(|v: Vec<char>| v@), order.skip(i as int)),
        decreases sorted@.len() - i,
    {
        remove_one_exec(&mut runs, sorted[i]);
        assert(order.skip(i as int).drop_first() =~= order.skip(i + 1));
        assert(order.skip(i as int)[0] == sorted@[i as int] as int);
        i += 1;
    }
    proof {
        assert(order.skip(sorted@.len() as int) =~= Seq::<int>::empty());
    }
    let removed = run_strings(&runs);
    replace_content(events, &ranges, &before, &removed);
    let ghost mid = events@;
    if asks_normalisation(fixes) {
        let again = sheet_ranges(events);
        map_ranges(events, &again, normalize);
    }
    proof {
        assert(runs_written(old(events)@, mid, range_pairs(ranges@), string_views(removed@)));
    }
}

/// Whether a set of repairs changes the text rather than the formatting.
pub open spec fn is_text_fix(f: FixView) -> bool {
    f is RemoveControls || f is RemoveTatweel || f is NormalizePresentationForms
}

pub open spec fn touches_text(fixes: Seq<FixView>) -> bool {
    exists|k: int| 0 <= k < fixes.len() && is_text_fix(#[trigger] fixes[k])
}

fn touches_text_exec(fixes: &[Fix]) -> (r: bool)
    ensures
        r == touches_text(fix_views(fixes@)),
{
    let ghost fv = fix_views(fixes@);
    let mut k: usize = 0;
    while k < fixes.len()
        invariant
            k <= fixes@.len(),
            fv == fix_views(fixes@),
            fv.len() == fixes@.len(),
            forall|j: int| 0 <= j < k ==> !is_text_fix(#[trigger] fv[j]),
        decreases fixes@.len() - k,
    {
        match &fixes[k] {
            Fix::RemoveControls(_) | Fix::RemoveTatweel(_) | Fix::NormalizePresentationForms => {
                assert(is_text_fix(fv[k as int]));
                return true;
            },
            _ => {},
        }
        k += 1;
    }
    false
}


// ------------------------------------------------------ xl/sharedStrings.xml

/// How many times `x` occurs in `s`.
pub open spec fn count_in(s: Seq<FixView>, x: FixView) -> nat
    decreases s.len(),
{
    if s.len() == 0 {
        0
    } else {
        count_in(s.drop_last(), x) + if s.last() == x { 1nat } else { 0nat }
    }
}

/// Whether two lists hold the same repairs, each as often, in any order.
pub open spec fn same_bag(a: Seq<FixView>, b: Seq<FixView>) -> bool {
    forall|x: FixView| #[trigger] count_in(a, x) == count_in(b, x)
}

/// The text repairs in a list, in order.
pub open spec fn text_fixes(fixes: Seq<FixView>) -> Seq<FixView>
    decreases fixes.len(),
{
    if fixes.len() == 0 {
        seq![]
    } else if is_text_fix(fixes.last()) {
        text_fixes(fixes.drop_last()).push(fixes.last())
    } else {
        text_fixes(fixes.drop_last())
    }
}

proof fn lemma_count_absent(s: Seq<FixView>, x: FixView)
    requires
        !s.contains(x),
    ensures
        count_in(s, x) == 0,
    decreases s.len(),
{
    if s.len() > 0 {
        assert(!s.drop_last().contains(x)) by {
            if s.drop_last().contains(x) {
                let i = choose|i: int| 0 <= i < s.drop_last().len() && s.drop_last()[i] == x;
                assert(s[i] == x);
            }
        }
        lemma_count_absent(s.drop_last(), x);
    }
}

fn offsets_eq(a: &Vec<usize>, b: &Vec<usize>) -> (r: bool)
    ensures
        r == (a@ == b@),
{
    if a.len() != b.len() {
        return false;
    }
    let mut i: usize = 0;
    while i < a.len()
        invariant
            i <= a@.len() == b@.len(),
            forall|j: int| 0 <= j < i ==> a@[j] == b@[j],
        decreases a@.len() - i,
    {
        if a[i] != b[i] {
            return false;
        }
        i += 1;
    }
    assert(a@ =~= b@);
    true
}

fn text_eq_str(a: &String, b: &String) -> (r: bool)
    ensures
        r == (a@ == b@),
{
    crate::strs::chars_eq(&chars_of(a.as_str()), &chars_of(b.as_str()))
}

/// Whether two repairs are the same repair.
fn fix_eq(a: &Fix, b: &Fix) -> (r: bool)
    ensures
        r == (a@ == b@),
{
    match (a, b) {
        (Fix::SetDirection(x), Fix::SetDirection(y)) => *x == *y,
        (Fix::SetAlignment(x), Fix::SetAlignment(y)) => *x == *y,
        (Fix::SetLanguage(x), Fix::SetLanguage(y)) => text_eq_str(x, y),
        (Fix::SetComplexFont(x), Fix::SetComplexFont(y)) => text_eq_str(x, y),
        (Fix::ConvertLiteralBullet { marker: x }, Fix::ConvertLiteralBullet { marker: y }) => *x == *y,
        (Fix::RemoveControls(x), Fix::RemoveControls(y)) => offsets_eq(x, y),
        (Fix::RemoveTatweel(x), Fix::RemoveTatweel(y)) => offsets_eq(x, y),
        (Fix::NormalizePresentationForms, Fix::NormalizePresentationForms) => true,
        _ => false,
    }
}

/// A copy of a text repair.
fn copy_text_fix(f: &Fix) -> (r: Fix)
    requires
        is_text_fix(f@),
    ensures
        r@ == f@,
{
    match f {
        Fix::RemoveControls(o) => Fix::RemoveControls(copy_offsets(o)),
        Fix::RemoveTatweel(o) => Fix::RemoveTatweel(copy_offsets(o)),
        _ => Fix::NormalizePresentationForms,
    }
}

/// The text repairs of a list, copied.
fn text_fixes_exec(fixes: &[Fix]) -> (r: Vec<Fix>)
    ensures
        fix_views(r@) == text_fixes(fix_views(fixes@)),
{
    let ghost fv = fix_views(fixes@);
    let mut r: Vec<Fix> = Vec::new();
    let mut k: usize = 0;
    while k < fixes.len()
        invariant
            k <= fixes@.len(),
            fv == fix_views(fixes@),
            fv.len() == fixes@.len(),
            fix_views(r@) == text_fixes(fv.take(k as int)),
        decreases fixes@.len() - k,
    {
        assert(fv.take(k + 1).drop_last() =~= fv.take(k as int));
        let ghost prev = r@;
        match &fixes[k] {
            Fix::RemoveControls(_) | Fix::RemoveTatweel(_) | Fix::NormalizePresentationForms => {
                let c = copy_text_fix(&fixes[k]);
                r.push(c);
                assert(fix_views(r@) =~= fix_views(prev).push(fv[k as int]));
            },
            _ => {},
        }
        k += 1;
    }
    assert(fv.take(k as int) =~= fv);
    r
}

fn count_exec(v: &Vec<Fix>, x: &Fix) -> (n: usize)
    ensures
        n == count_in(fix_views(v@), x@),
{
    let ghost vv = fix_views(v@);
    let mut n: usize = 0;
    let mut i: usize = 0;
    while i < v.len()
        invariant
            i <= v@.len(),
            vv == fix_views(v@),
            vv.len() == v@.len(),
            n == count_in(vv.take(i as int), x@),
            n <= i,
        decreases v@.len() - i,
    {
        assert(vv.take(i + 1).drop_last() =~= vv.take(i as int));
        if fix_eq(&v[i], x) {
            n += 1;
        }
        i += 1;
    }
    assert(vv.take(i as int) =~= vv);
    n
}

/// Whether two lists hold the same repairs, each as often.
fn same_bag_exec(a: &Vec<Fix>, b: &Vec<Fix>) -> (r: bool)
    ensures
        r == same_bag(fix_views(a@), fix_views(b@)),
{
    let ghost av = fix_views(a@);
    let ghost bv = fix_views(b@);
    let mut i: usize = 0;
    while i < a.len()
        invariant
            i <= a@.len(),
            av == fix_views(a@),
            bv == fix_views(b@),
            av.len() == a@.len(),
            forall|j: int| 0 <= j < i ==> count_in(av, #[trigger] av[j]) == count_in(bv, av[j]),
        decreases a@.len() - i,
    {
        if count_exec(a, &a[i]) != count_exec(b, &a[i]) {
            return false;
        }
        i += 1;
    }
    let mut i: usize = 0;
    while i < b.len()
        invariant
            i <= b@.len(),
            av == fix_views(a@),
            bv == fix_views(b@),
            bv.len() == b@.len(),
            av.len() == a@.len(),
            forall|j: int| 0 <= j < a@.len() ==> count_in(av, #[trigger] av[j]) == count_in(bv, av[j]),
            forall|j: int| 0 <= j < i ==> count_in(av, #[trigger] bv[j]) == count_in(bv, bv[j]),
        decreases b@.len() - i,
    {
        if count_exec(a, &b[i]) != count_exec(b, &b[i]) {
            return false;
        }
        i += 1;
    }
    proof {
        assert forall|x: FixView| #[trigger] count_in(av, x) == count_in(bv, x) by {
            if av.contains(x) {
                let j = choose|j: int| 0 <= j < av.len() && av[j] == x;
                assert(count_in(av, av[j]) == count_in(bv, av[j]));
            } else if bv.contains(x) {
                let j = choose|j: int| 0 <= j < bv.len() && bv[j] == x;
                assert(count_in(av, bv[j]) == count_in(bv, bv[j]));
            } else {
                lemma_count_absent(av, x);
                lemma_count_absent(bv, x);
            }
        }
    }
    true
}

/// `xl/sharedStrings.xml`, opened so that a repair can append a string.
pub struct Strings {
    events: Vec<Token>,
    section: Option<usize>,
    items: usize,
    original: usize,
    derived: Vec<(usize, Vec<Fix>, usize)>,
}

/// A string table as values: its tokens, where its `sst` starts, how many
/// items it holds now and held when read, and the requests already
/// answered: a string's index, the text repairs asked of it, and the index
/// of the copy made.
pub struct StringsView {
    pub events: Seq<Token>,
    pub section: Option<int>,
    pub items: int,
    pub original: int,
    pub derived: Seq<(usize, Seq<FixView>, usize)>,
}

impl View for Strings {
    type V = StringsView;

    closed spec fn view(&self) -> StringsView {
        StringsView {
            events: self.events@,
            section: match self.section {
                Some(s) => Some(s as int),
                None => None,
            },
            items: self.items as int,
            original: self.original as int,
            derived: self.derived@.map_values(|d: (usize, Vec<Fix>, usize)| (d.0, fix_views(d.1@), d.2)),
        }
    }
}

/// The table a part's tokens make.
pub open spec fn strings_from(ev: Seq<Token>) -> StringsView {
    let items = ranges_named(ev, "si"@, ev.len() as int).len() as int;
    StringsView { events: ev, section: spec_root(ev, "sst"@), items, original: items, derived: seq![] }
}

/// The table for a workbook with no `xl/sharedStrings.xml`.
pub open spec fn no_strings() -> StringsView {
    StringsView { events: seq![], section: None, items: 0, original: 0, derived: seq![] }
}

/// The event range of the string at a 0-based index.
pub open spec fn spec_item(ev: Seq<Token>, index: usize) -> Option<(int, int)> {
    let rs = ranges_named(ev, "si"@, ev.len() as int);
    if index < rs.len() {
        Some((rs[index as int].1, rs[index as int].2))
    } else {
        None
    }
}

/// The copy an identical earlier request was answered with.
pub open spec fn copied(d: Seq<(usize, Seq<FixView>, usize)>, index: usize, key: Seq<FixView>) -> Option<usize>
    decreases d.len(),
{
    if d.len() == 0 {
        None
    } else if d[0].0 == index && same_bag(d[0].1, key) {
        Some(d[0].2)
    } else {
        copied(d.drop_first(), index, key)
    }
}

/// Where strings are appended: the `sst` element, if the table has one.
pub open spec fn sst_at(t: StringsView) -> Option<int> {
    match t.section {
        Some(s) => if opens_element(t.events, s) { Some(s) } else { None },
        None => None,
    }
}

pub open spec fn no_sst() -> Seq<char> {
    "xl/sharedStrings.xml: no sst to append a string to"@
}

pub open spec fn sst_full() -> Seq<char> {
    "xl/sharedStrings.xml: sst holds as many strings as an index can name"@
}

pub open spec fn no_string(index: usize) -> Seq<char> {
    "xl/sharedStrings.xml: no shared string "@ + decimal(index as nat) + "; the document and the report disagree"@
}

/// What [`Strings::derive`] does to a table `o`, leaving `n`, and answers
/// with `r`.
pub open spec fn copy_outcome<F: Fn(&str) -> String>(o: StringsView, n: StringsView, index: usize, fixes: Seq<FixView>, f: F, r: Result<usize, Error>) -> bool {
                let key = text_fixes(fixes);
                if copied(o.derived, index, key) is Some {
                    r == Ok::<usize, Error>(copied(o.derived, index, key).unwrap()) && n == o
                } else if sst_at(o) is None {
                    r matches Err(e) && e == Error::Format(e->Format_0) && e->Format_0@ == no_sst() && n == o
                } else if spec_item(o.events, index) is None {
                    r matches Err(e) && e == Error::Format(e->Format_0) && e->Format_0@ == no_string(index) && n == o
                } else if o.items >= usize::MAX {
                    r matches Err(e) && e == Error::Format(e->Format_0) && e->Format_0@ == sst_full() && n == o
                } else {
                    let (from, to) = spec_item(o.events, index).unwrap();
                    let at = sst_at(o).unwrap();
                    &&& r == Ok::<usize, Error>(o.items as usize)
                    &&& n.section == o.section
                    &&& n.items == o.items + 1
                    &&& n.original == o.original
                    &&& n.derived == o.derived.push((index, key, o.items as usize))
                    &&& exists|it: Seq<Token>, m: Seq<Token>|
                        #![trigger text_repaired(o.events.subrange(from, to), it, fixes, f), appended(o.events, m, at, it)]
                        text_repaired(o.events.subrange(from, to), it, fixes, f)
                            && appended(o.events, m, at, it) && count_bumped(m, n.events, at, "uniqueCount"@, (o.items + 1) as nat)
                }
            }

impl Strings {
    /// The table a part's tokens make.
    pub fn from_events(events: Vec<Token>) -> (t: Self)
        ensures
            t@ == strings_from(events@),
    {
        let section = root(&events, "sst");
        let rs = element_ranges(&events, "si");
        assert(range_views(rs@).len() == rs@.len());
        let items = rs.len();
        let t = Strings { events, section, items, original: items, derived: Vec::new() };
        assert(t@.derived =~= Seq::<(usize, Seq<FixView>, usize)>::empty());
        t
    }

    /// Read the part; empty input is a workbook with no shared strings.
    pub fn read(xml: &str) -> (r: Result<Self, Error>)
        ensures
            trimmed(xml@).len() == 0 ==> (r matches Ok(t) && t@ == no_strings()),
            trimmed(xml@).len() != 0 ==> (r is Ok <==> document_tokens(xml@) is Ok),
            trimmed(xml@).len() != 0 ==> (r matches Ok(t) ==> exists|ev: Seq<Token>| #[trigger] reads_as(xml@, ev) && t@ == strings_from(ev)),
            r matches Err(e) ==> read_failure(SHARED_STRINGS@, xml@, e),
    {
        if trim_chars(&chars_of(xml)).len() == 0 {
            let t = Strings { events: Vec::new(), section: None, items: 0, original: 0, derived: Vec::new() };
            assert(t@.derived =~= Seq::<(usize, Seq<FixView>, usize)>::empty());
            assert(t@.events =~= Seq::<Token>::empty());
            return Ok(t);
        }
        let events = crate::xml::read_events(SHARED_STRINGS, xml)?;
        assert(reads_as(xml@, events@));
        Ok(Strings::from_events(events))
    }

    /// Whether anything was appended, and so whether the part must be written.
    pub fn changed(&self) -> (r: bool)
        ensures
            r == (self@.items != self@.original),
    {
        self.items != self.original
    }

    /// The part as it now stands.
    pub fn write(&self, part: &str) -> (r: Result<String, Error>)
        ensures
            r matches Ok(s) && s@ == serialized_all(self@.events),
    {
        write_events(part, &self.events)
    }

    fn item(&self, index: usize) -> (r: Option<std::ops::Range<usize>>)
        ensures
            r matches Some(g) ==> spec_item(self@.events, index) == Some((g.start as int, g.end as int))
                && g.start <= g.end <= self@.events.len(),
            r is None ==> spec_item(self@.events, index) is None,
    {
        let rs = element_ranges(&self.events, "si");
        let ghost rv = range_views(rs@);
        if index < rs.len() {
            let from = rs[index].1.start;
            let to = rs[index].1.end;
            proof {
                assert(rv[index as int] == (rs@[index as int].0 as int, from as int, to as int));
                crate::rewrite::lemma_ranges_numbered(self.events@, "si"@, self.events@.len() as int);
                lemma_element_end_bounds(self.events@, from as int);
            }
            Some(from..to)
        } else {
            None
        }
    }

    /// A copy of the string at `index` with the text repairs in `fixes`
    /// applied, appended to the table, and its index. A copy rather than an
    /// edit: the string may be shown in cells this repair says nothing
    /// about. An identical request answers with the copy made the first time.
    pub fn derive<F: Fn(&str) -> String>(&mut self, index: usize, fixes: &[Fix], normalize: F) -> (r: Result<usize, Error>)
        requires
            forall|s: &str| call_requires(normalize, (s,)),
        ensures
            copy_outcome(old(self)@, final(self)@, index, fix_views(fixes@), normalize, r),
            final(self)@.original == old(self)@.original,
    {
        let key = text_fixes_exec(fixes);
        let mut i: usize = 0;
        let ghost d = self@.derived;
        assert(d.skip(0) =~= d);
        while i < self.derived.len()
            invariant
                i <= self.derived@.len(),
                *self == *old(self),
                fix_views(key@) == text_fixes(fix_views(fixes@)),
                d == self@.derived,
                d.len() == self.derived@.len(),
                copied(d, index, fix_views(key@)) == copied(d.skip(i as int), index, fix_views(key@)),
            decreases self.derived@.len() - i,
        {
            assert(d.skip(i as int)[0] == d[i as int]);
            assert(d.skip(i as int).drop_first() =~= d.skip(i + 1));
            let e = &self.derived[i];
            assert(d[i as int] == (e.0, fix_views(e.1@), e.2));
            if e.0 == index && same_bag_exec(&e.1, &key) {
                assert(copied(d, index, fix_views(key@)) == Some(e.2));
                return Ok(e.2);
            }
            i += 1;
        }
        let section = match self.section {
            Some(s) => s,
            None => {
                let m = chars_of("xl/sharedStrings.xml: no sst to append a string to");
                return Err(Error::Format(string_of(&m)));
            },
        };
        if !opens(&self.events, section) {
            let m = chars_of("xl/sharedStrings.xml: no sst to append a string to");
            return Err(Error::Format(string_of(&m)));
        }
        let range = match self.item(index) {
            Some(g) => g,
            None => {
                let mut m = chars_of("xl/sharedStrings.xml: no shared string ");
                push_all(&mut m, &chars_of(decimal_of(index).as_str()));
                push_all(&mut m, &chars_of("; the document and the report disagree"));
                return Err(Error::Format(string_of(&m)));
            },
        };
        if self.items == usize::MAX {
            let m = chars_of("xl/sharedStrings.xml: sst holds as many strings as an index can name");
            return Err(Error::Format(string_of(&m)));
        }
        let ghost o = self@;
        let mut item = copy_range(&self.events, range.start, range.end);
        let ghost src = item@;
        repair_text(&mut item, fixes, normalize);
        let ghost it = item@;
        let mut events = Vec::new();
        std::mem::swap(&mut events, &mut self.events);
        append_children(&mut events, section, item);
        let ghost m = events@;
        let items = self.items + 1;
        bump_count(&mut events, section, "uniqueCount", items);
        let new_index = items - 1;
        self.derived.push((index, key, new_index));
        self.events = events;
        self.items = items;
        proof {
            reveal_strlit("uniqueCount");
            assert(self@.derived =~= o.derived.push((index, text_fixes(fix_views(fixes@)), o.items as usize)));
            let (from, to) = spec_item(o.events, index).unwrap();
            assert(from == range.start && to == range.end);
            assert(text_repaired(o.events.subrange(from, to), it, fix_views(fixes@), normalize));
            assert(appended(o.events, m, sst_at(o).unwrap(), it));
        }
        Ok(new_index)
    }
}


// ------------------------------------------------------------------- a cell

/// The direction the first direction repair in a list sets.
pub open spec fn first_direction(fixes: Seq<FixView>) -> Option<Direction>
    decreases fixes.len(),
{
    if fixes.len() == 0 {
        None
    } else {
        match fixes[0] {
            FixView::SetDirection(d) => Some(d),
            _ => first_direction(fixes.drop_first()),
        }
    }
}

/// The alignment the first alignment repair in a list sets.
pub open spec fn first_alignment(fixes: Seq<FixView>) -> Option<Alignment>
    decreases fixes.len(),
{
    if fixes.len() == 0 {
        None
    } else {
        match fixes[0] {
            FixView::SetAlignment(a) => Some(a),
            _ => first_alignment(fixes.drop_first()),
        }
    }
}

fn first_direction_exec(fixes: &[Fix]) -> (r: Option<Direction>)
    ensures
        r == first_direction(fix_views(fixes@)),
{
    let ghost fv = fix_views(fixes@);
    let mut k: usize = 0;
    assert(fv.skip(0) =~= fv);
    while k < fixes.len()
        invariant
            k <= fixes@.len(),
            fv == fix_views(fixes@),
            fv.len() == fixes@.len(),
            first_direction(fv) == first_direction(fv.skip(k as int)),
        decreases fixes@.len() - k,
    {
        assert(fv.skip(k as int)[0] == fv[k as int]);
        assert(fv.skip(k as int).drop_first() =~= fv.skip(k + 1));
        if let Fix::SetDirection(d) = &fixes[k] {
            return Some(*d);
        }
        k += 1;
    }
    None
}

fn first_alignment_exec(fixes: &[Fix]) -> (r: Option<Alignment>)
    ensures
        r == first_alignment(fix_views(fixes@)),
{
    let ghost fv = fix_views(fixes@);
    let mut k: usize = 0;
    assert(fv.skip(0) =~= fv);
    while k < fixes.len()
        invariant
            k <= fixes@.len(),
            fv == fix_views(fixes@),
            fv.len() == fixes@.len(),
            first_alignment(fv) == first_alignment(fv.skip(k as int)),
        decreases fixes@.len() - k,
    {
        assert(fv.skip(k as int)[0] == fv[k as int]);
        assert(fv.skip(k as int).drop_first() =~= fv.skip(k + 1));
        if let Fix::SetAlignment(a) = &fixes[k] {
            return Some(*a);
        }
        k += 1;
    }
    None
}

/// The `readingOrder` a direction is written as.
pub open spec fn reading_order_value(d: Direction) -> Seq<char> {
    match d {
        Direction::Rtl => "2"@,
        Direction::Ltr => "1"@,
    }
}

/// An attribute of a cell's `<c>` tag.
pub open spec fn cell_attr(cell: Seq<Token>, name: Seq<char>) -> Option<Seq<char>> {
    if opens_element(cell, 0) {
        spec_get_attribute(cell[0].text@, name)
    } else {
        None
    }
}

/// A string read as an index, as `str::parse::<usize>` reads it.
pub open spec fn parse_index(s: Seq<char>) -> Option<usize> {
    match parse_usize(s) {
        Some(n) => Some(n as usize),
        None => None,
    }
}

/// The format record a cell names: its `@s` read as an index, else 0.
pub open spec fn cell_base(cell: Seq<Token>) -> usize {
    match cell_attr(cell, "s"@) {
        Some(v) => match parse_index(trimmed(v)) {
            Some(n) => n,
            None => 0,
        },
        None => 0,
    }
}

/// The `horizontal` an alignment repair asks for: lowered against the
/// direction being repaired to, else the one the cell's record states, else
/// the one it inherits; only then left to right.
pub open spec fn wanted_alignment(fixes: Seq<FixView>, styles: StyleTableView, base: usize, inherited: Option<Direction>) -> Option<Seq<char>> {
    match first_alignment(fixes) {
        None => None,
        Some(a) => {
            let dir = match first_direction(fixes) {
                Some(d) => Some(d),
                None => match stated_reading_order(styles, base) {
                    Some(d) => Some(d),
                    None => inherited,
                },
            };
            Some(spec_horizontal(a, dir == Some(Direction::Rtl)))
        },
    }
}

/// The direction a cell's alignment is lowered against is the first one
/// that speaks: the cell's own direction repair, else the reading order its
/// format record already states, else what the cell inherits from its sheet.
/// So where the record states one and no repair sets a direction, what the
/// sheet says cannot move the edge: a start edge on a record reading right
/// to left is `right`, and an end edge `left`, whatever the cell inherits.
pub proof fn lemma_alignment_lowered_against_record(fixes: Seq<FixView>, styles: StyleTableView, base: usize,
    inherited: Option<Direction>, other: Option<Direction>)
    requires
        first_direction(fixes) is None,
        stated_reading_order(styles, base) is Some,
    ensures
        wanted_alignment(fixes, styles, base, inherited) == wanted_alignment(fixes, styles, base, other),
        stated_reading_order(styles, base) == Some(Direction::Rtl) && first_alignment(fixes) == Some(Alignment::Start)
            ==> wanted_alignment(fixes, styles, base, inherited) == Some("right"@),
        stated_reading_order(styles, base) == Some(Direction::Rtl) && first_alignment(fixes) == Some(Alignment::End)
            ==> wanted_alignment(fixes, styles, base, inherited) == Some("left"@),
        stated_reading_order(styles, base) == Some(Direction::Ltr) && first_alignment(fixes) == Some(Alignment::Start)
            ==> wanted_alignment(fixes, styles, base, inherited) == Some("left"@),
{
}

/// A direction repair on the cell decides how its alignment is lowered,
/// over whatever its record states and whatever it inherits.
pub proof fn lemma_alignment_lowered_against_repair(fixes: Seq<FixView>, styles: StyleTableView, base: usize,
    inherited: Option<Direction>)
    requires
        first_direction(fixes) is Some,
        first_alignment(fixes) is Some,
    ensures
        wanted_alignment(fixes, styles, base, inherited) == Some(spec_horizontal(first_alignment(fixes)->Some_0,
            first_direction(fixes) == Some(Direction::Rtl))),
{
}

/// The `readingOrder` a direction repair asks for.
pub open spec fn wanted_order(fixes: Seq<FixView>) -> Option<Seq<char>> {
    match first_direction(fixes) {
        Some(d) => Some(reading_order_value(d)),
        None => None,
    }
}

/// The formatting half of a cell's repairs: when any alignment or direction
/// is asked for, a record derived from the one the cell names, and the
/// cell's `@s` pointed at it.
pub open spec fn restyled(old: Seq<Token>, new: Seq<Token>, fixes: Seq<FixView>, inherited: Option<Direction>, so: StyleTableView, sn: StyleTableView, r: Result<(), Error>) -> bool {
    let base = cell_base(old);
    let al = wanted_alignment(fixes, so, base, inherited);
    let ro = wanted_order(fixes);
    if al is None && ro is None {
        r is Ok && new == old && sn == so
    } else {
        exists|d: Result<usize, Error>|
            #[trigger] derive_outcome(so, sn, base, al, ro, d) && match d {
                Ok(i) => r is Ok && tag_set(old, new, 0, "s"@, decimal(i as nat)),
                Err(e) => r == Err::<(), Error>(e) && new == old,
            }
    }
}

fn cell_base_exec(cell: &Vec<Token>) -> (b: usize)
    ensures
        b == cell_base(cell@),
{
    if !opens(cell, 0) {
        return 0;
    }
    match get_attribute(&cell[0], "s") {
        Some(v) => match parse_ordinal(&trim_chars(&chars_of(v.as_str()))) {
            Some(n) => n,
            None => 0,
        },
        None => 0,
    }
}

fn restyle(cell: &mut Vec<Token>, fixes: &[Fix], inherited: Option<Direction>, styles: &mut StyleTable) -> (r: Result<(), Error>)
    ensures
        restyled(old(cell)@, final(cell)@, fix_views(fixes@), inherited, old(styles)@, final(styles)@, r),
        final(styles)@.original == old(styles)@.original,
{
    let declared = first_direction_exec(fixes);
    let reading_order: Option<&str> = match declared {
        Some(Direction::Rtl) => Some("2"),
        Some(Direction::Ltr) => Some("1"),
        None => None,
    };
    let base = cell_base_exec(cell);
    let alignment: Option<&str> = match first_alignment_exec(fixes) {
        None => None,
        Some(a) => {
            let dir = match declared {
                Some(d) => Some(d),
                None => match styles.existing_reading_order(base) {
                    Some(d) => Some(d),
                    None => inherited,
                },
            };
            let rtl = match dir {
                Some(Direction::Rtl) => true,
                _ => false,
            };
            Some(horizontal(a, rtl))
        },
    };
    if alignment.is_none() && reading_order.is_none() {
        return Ok(());
    }
    let ghost so = styles@;
    let d = styles.derive(base, alignment, reading_order);
    proof {
        reveal_strlit("2");
        reveal_strlit("1");
        assert(str_opt(reading_order) == wanted_order(fix_views(fixes@)));
        assert(str_opt(alignment) == wanted_alignment(fix_views(fixes@), so, base, inherited));
    }
    match d {
        Ok(i) => {
            let v = decimal_of(i);
            set_tag(cell, 0, "s", v.as_str());
            proof {
                reveal_strlit("s");
            }
            Ok(())
        },
        Err(e) => Err(e),
    }
}

/// The content of the element at `at`, between its tags.
pub open spec fn v_content(cell: Seq<Token>, at: int) -> Seq<char> {
    let end = element_end(cell, at);
    if at + 1 <= end - 1 {
        spec_read_content(cell.subrange(at + 1, end - 1))
    } else {
        seq![]
    }
}

/// The element at `at` given `text` as its whole content.
pub open spec fn element_text_set(old: Seq<Token>, new: Seq<Token>, at: int, text: Seq<char>) -> bool {
    if !opens_element(old, at) {
        new == old
    } else if old[at].kind == Kind::Empty {
        exists|mid: Seq<Token>|
            #[trigger] expanded(old, mid, at) && tviews(new) == tviews(mid.take(at + 1))
                + seq![(Kind::Text, escaped(text))] + tviews(mid.skip(at + 1))
    } else {
        let end = element_end(old, at);
        if at + 1 <= end - 1 {
            tviews(new) == tviews(old.take(at + 1)) + seq![(Kind::Text, escaped(text))] + tviews(old.skip(end - 1))
        } else {
            new == old
        }
    }
}

fn set_element_text(events: &mut Vec<Token>, at: usize, text: &str)
    ensures
        element_text_set(old(events)@, final(events)@, at as int, text@),
{
    if !opens(events, at) {
        return;
    }
    let ghost before = events@;
    if events[at].kind == Kind::Empty {
        expand_empty(events, at);
        let ghost mid = events@;
        assert(expanded(before, mid, at as int));
        assert(mid.len() == before.len() + 1);
        let n = events.len();
        let t = write_text(text);
        splice_tokens(events, at + 1, at + 1, vec![t]);
        proof {
            assert(expanded(before, mid, at as int));
            assert(tviews(events@) =~= tviews(mid.take(at + 1)) + seq![(Kind::Text, escaped(text@))] + tviews(mid.skip(at + 1)));
        }
        return;
    }
    let range = element_range(events, at);
    if range.end >= 1 && at + 1 <= range.end - 1 {
        let t = write_text(text);
        splice_tokens(events, at + 1, range.end - 1, vec![t]);
        proof {
            assert(tviews(events@) =~= tviews(before.take(at + 1)) + seq![(Kind::Text, escaped(text@))] + tviews(before.skip(range.end - 1)));
        }
    }
}

pub open spec fn not_an_index(part: Seq<char>) -> Seq<char> {
    part + ": a shared-string cell whose <v> is not an index"@
}

pub open spec fn holds_no_text(part: Seq<char>, kind: Option<Seq<char>>) -> Seq<char> {
    part + ": a text repair on a cell of type "@ + match kind {
        Some(k) => k,
        None => "n"@,
    } + ", which holds no text this adapter read"@
}

/// The text half of a cell's repairs: a shared string copied with the
/// repairs made and the cell's `<v>` pointed at the copy, or an inline
/// string repaired where it stands; a cell of another type holds no text a
/// repair could name.
pub open spec fn retexted<F: Fn(&str) -> String>(part: Seq<char>, old: Seq<Token>, new: Seq<Token>, kind: Option<Seq<char>>, fixes: Seq<FixView>, to: StringsView, tn: StringsView, f: F, r: Result<(), Error>) -> bool {
    if !touches_text(fixes) {
        r is Ok && new == old && tn == to
    } else if kind == Some("s"@) {
        if !opens_element(old, 0) {
            r is Ok && new == old && tn == to
        } else {
            match spec_find_direct_child(old, 0, "v"@) {
                None => r is Ok && new == old && tn == to,
                Some(at) => match parse_index(trimmed(v_content(old, at))) {
                    None => r matches Err(e) && e == Error::Format(e->Format_0) && e->Format_0@ == not_an_index(part)
                        && new == old && tn == to,
                    Some(i) => exists|d: Result<usize, Error>|
                        #[trigger] copy_outcome(to, tn, i, fixes, f, d) && match d {
                            Ok(j) => r is Ok && element_text_set(old, new, at, decimal(j as nat)),
                            Err(e) => r == Err::<(), Error>(e) && new == old,
                        },
                },
            }
        }
    } else if kind == Some("inlineStr"@) {
        r is Ok && text_repaired(old, new, fixes, f) && tn == to
    } else {
        r matches Err(e) && e == Error::Format(e->Format_0) && e->Format_0@ == holds_no_text(part, kind) && new == old && tn == to
    }
}

fn retext<F: Fn(&str) -> String>(part: &str, cell: &mut Vec<Token>, kind: Option<String>, fixes: &[Fix], strings: &mut Strings, normalize: F) -> (r: Result<(), Error>)
    requires
        forall|s: &str| call_requires(normalize, (s,)),
    ensures
        retexted(part@, old(cell)@, final(cell)@, text_opt(kind), fix_views(fixes@), old(strings)@, final(strings)@, normalize, r),
        final(strings)@.original == old(strings)@.original,
{
    if !touches_text_exec(fixes) {
        return Ok(());
    }
    let is_shared = match &kind {
        Some(k) => crate::strs::chars_eq(&chars_of(k.as_str()), &chars_of("s")),
        None => false,
    };
    let is_inline = match &kind {
        Some(k) => crate::strs::chars_eq(&chars_of(k.as_str()), &chars_of("inlineStr")),
        None => false,
    };
    if is_shared {
        if !opens(cell, 0) {
            return Ok(());
        }
        proof {
            lemma_found_child(cell@, 0, "v"@);
        }
        let at = match find_direct_child(cell, 0, "v") {
            Some(at) => at,
            None => return Ok(()),
        };
        let range = element_range(cell, at);
        let content = if range.end >= 1 && at + 1 <= range.end - 1 {
            crate::token::read_content(&copy_range(cell, at + 1, range.end - 1))
        } else {
            String::new()
        };
        proof {
            assert(content@ == v_content(cell@, at as int));
        }
        let index = match parse_ordinal(&trim_chars(&chars_of(content.as_str()))) {
            Some(i) => i,
            None => {
                let mut m = chars_of(part);
                push_all(&mut m, &chars_of(": a shared-string cell whose <v> is not an index"));
                return Err(Error::Format(string_of(&m)));
            },
        };
        let ghost to = strings@;
        let d = strings.derive(index, fixes, normalize);
        proof {
            assert(parse_index(trimmed(v_content(cell@, at as int))) == Some(index));
            assert(copy_outcome(to, strings@, index, fix_views(fixes@), normalize, d));
        }
        let ghost c1 = cell@;
        match d {
            Ok(j) => {
                let v = decimal_of(j);
                set_element_text(cell, at, v.as_str());
                proof {
                    reveal_strlit("s");
                    assert(text_opt(kind) == Some("s"@));
                    assert(element_text_set(c1, cell@, at as int, decimal(j as nat)));
                    assert(retexted(part@, c1, cell@, text_opt(kind), fix_views(fixes@), to, strings@, normalize, Ok::<(), Error>(())));
                }
                Ok(())
            },
            Err(e) => {
                proof {
                    reveal_strlit("s");
                    assert(retexted(part@, c1, cell@, text_opt(kind), fix_views(fixes@), to, strings@, normalize, Err::<(), Error>(e)));
                }
                Err(e)
            },
        }
    } else if is_inline {
        proof {
            reveal_strlit("inlineStr");
            reveal_strlit("s");
            assert(text_opt(kind) != Some("s"@));
        }
        repair_text(cell, fixes, normalize);
        Ok(())
    } else {
        let mut m = chars_of(part);
        push_all(&mut m, &chars_of(": a text repair on a cell of type "));
        match &kind {
            Some(k) => push_all(&mut m, &chars_of(k.as_str())),
            None => push_all(&mut m, &chars_of("n")),
        }
        push_all(&mut m, &chars_of(", which holds no text this adapter read"));
        proof {
            reveal_strlit("s");
            reveal_strlit("inlineStr");
            assert(text_opt(kind) != Some("s"@));
            assert(text_opt(kind) != Some("inlineStr"@));
            assert(m@ == holds_no_text(part@, text_opt(kind)));
        }
        Err(Error::Format(string_of(&m)))
    }
}

/// Every repair for one cell: the formatting half, then — when any repair
/// touches the text — the text half, with the cell's type as it was read.
pub open spec fn cell_fixed<F: Fn(&str) -> String>(part: Seq<char>, old: Seq<Token>, new: Seq<Token>, fixes: Seq<FixView>, inherited: Option<Direction>, so: StyleTableView, sn: StyleTableView, to: StringsView, tn: StringsView, f: F, r: Result<(), Error>) -> bool {
    exists|mid: Seq<Token>, r1: Result<(), Error>|
        #[trigger] restyled(old, mid, fixes, inherited, so, sn, r1) && match r1 {
            Err(e) => r == Err::<(), Error>(e) && new == mid && tn == to,
            Ok(_) => retexted(part, mid, new, cell_attr(old, "t"@), fixes, to, tn, f, r),
        }
}

/// Apply every repair for one cell, whose `<c>` is `cell[0]`.
pub fn apply_to_cell<F: Fn(&str) -> String>(
    part: &str,
    cell: &mut Vec<Token>,
    fixes: &[Fix],
    inherited: Option<Direction>,
    styles: &mut StyleTable,
    strings: &mut Strings,
    normalize: F,
) -> (r: Result<(), Error>)
    requires
        forall|s: &str| call_requires(normalize, (s,)),
    ensures
        cell_fixed(part@, old(cell)@, final(cell)@, fix_views(fixes@), inherited, old(styles)@, final(styles)@,
            old(strings)@, final(strings)@, normalize, r),
        final(styles)@.original == old(styles)@.original,
        final(strings)@.original == old(strings)@.original,
{
    let kind = if opens(cell, 0) {
        get_attribute(&cell[0], "t")
    } else {
        None
    };
    let ghost c0 = cell@;
    let r1 = restyle(cell, fixes, inherited, styles);
    let ghost mid = cell@;
    match r1 {
        Err(e) => {
            assert(restyled(c0, mid, fix_views(fixes@), inherited, old(styles)@, styles@, Err::<(), Error>(e)));
            Err(e)
        },
        Ok(()) => {
            let r = retext(part, cell, kind, fixes, strings, normalize);
            assert(restyled(c0, mid, fix_views(fixes@), inherited, old(styles)@, styles@, Ok::<(), Error>(())));
            r
        },
    }
}


// ------------------------------------------------------------------ the grid

/// `CT_Worksheet`, as far as `sheetViews`: enough to put a created one in
/// schema position, since nothing below it is ever created here.
pub open spec fn worksheet_order() -> Seq<Seq<char>> {
    seq!["sheetPr"@, "dimension"@, "sheetViews"@, "sheetFormatPr"@, "cols"@, "sheetData"@]
}

/// `CT_SheetViews` holds `sheetView` and then `extLst`.
pub open spec fn sheet_views_order() -> Seq<Seq<char>> {
    seq!["sheetView"@, "extLst"@]
}

fn worksheet_order_exec() -> (r: [&'static str; 6])
    ensures
        order_view(r@) == worksheet_order(),
{
    let r = ["sheetPr", "dimension", "sheetViews", "sheetFormatPr", "cols", "sheetData"];
    assert(order_view(r@) =~= worksheet_order());
    r
}

fn sheet_views_order_exec() -> (r: [&'static str; 2])
    ensures
        order_view(r@) == sheet_views_order(),
{
    let r = ["sheetView", "extLst"];
    assert(order_view(r@) =~= sheet_views_order());
    r
}

/// A `sheetView` stating one direction, for a sheet that has none:
/// `workbookViewId` is required and `0` is the first workbook view.
pub open spec fn spec_sheet_view(rtl: Seq<char>) -> Seq<char> {
    "sheetView workbookViewId=\"0\" rightToLeft=\""@ + rtl + "\""@
}

fn sheet_view(rtl: &str) -> (t: Token)
    ensures
        t.kind == Kind::Empty,
        t.text@ == spec_sheet_view(rtl@),
{
    let mut c = chars_of("sheetView workbookViewId=\"0\" rightToLeft=\"");
    push_all(&mut c, &chars_of(rtl));
    push_all(&mut c, &chars_of("\""));
    Token { kind: Kind::Empty, text: string_of(&c) }
}

/// The direction the last direction repair in a list sets.
pub open spec fn last_direction(fixes: Seq<FixView>) -> Option<Direction>
    decreases fixes.len(),
{
    if fixes.len() == 0 {
        None
    } else {
        match fixes.last() {
            FixView::SetDirection(d) => Some(d),
            _ => last_direction(fixes.drop_last()),
        }
    }
}

pub open spec fn grid_refusal(part: Seq<char>, f: FixView) -> Seq<char> {
    part + ": "@ + crate::text::spec_describe(f) + " is not a repair a worksheet's grid can express"@
}

pub open spec fn no_worksheet(part: Seq<char>) -> Seq<char> {
    part + ": no worksheet element"@
}

/// The grid's repair: which side column A sits on, written on the sheet's
/// view, creating the view or the list of views where there is none.
pub open spec fn grid_fixed(part: Seq<char>, old: Seq<Token>, new: Seq<Token>, fixes: Seq<FixView>, r: Result<(), Error>) -> bool {
    match first_other(fixes) {
        Some(f) => r matches Err(e) && e == Error::Format(e->Format_0) && e->Format_0@ == grid_refusal(part, f) && new == old,
        None => match last_direction(fixes) {
            None => r is Ok && new == old,
            Some(d) => match spec_root(old, "worksheet"@) {
                None => r matches Err(e) && e == Error::Format(e->Format_0) && e->Format_0@ == no_worksheet(part) && new == old,
                Some(sheet) => r is Ok && match spec_find_direct_child(old, sheet, "sheetViews"@) {
                    Some(views) => match spec_find_direct_child(old, views, "sheetView"@) {
                        Some(view) => tag_set(old, new, view, "rightToLeft"@, rtl_value(d)),
                        None => exists|c: Seq<Token>|
                            #[trigger] inserted(old, new, views, sheet_views_order(), c)
                                && tviews(c) == seq![(Kind::Empty, spec_sheet_view(rtl_value(d)))],
                    },
                    None => exists|c: Seq<Token>|
                        #[trigger] inserted(old, new, sheet, worksheet_order(), c)
                            && tviews(c) == seq![(Kind::Start, "sheetViews"@), (Kind::Empty, spec_sheet_view(rtl_value(d))), (Kind::End, "sheetViews"@)],
                },
            },
        },
    }
}

/// Apply the grid's repairs to a worksheet's tokens.
pub fn apply_to_grid(part: &str, events: &mut Vec<Token>, fixes: &[Fix]) -> (r: Result<(), Error>)
    ensures
        grid_fixed(part@, old(events)@, final(events)@, fix_views(fixes@), r),
{
    let ghost fv = fix_views(fixes@);
    proof {
        lemma_first_other(fv);
    }
    if let Some(other) = crate::rewrite::first_other_exec(fixes) {
        let mut m = chars_of(part);
        push_all(&mut m, &chars_of(": "));
        push_all(&mut m, &chars_of(other.describe()));
        push_all(&mut m, &chars_of(" is not a repair a worksheet's grid can express"));
        return Err(Error::Format(string_of(&m)));
    }
    let mut value: Option<Direction> = None;
    let mut k: usize = 0;
    while k < fixes.len()
        invariant
            k <= fixes@.len(),
            fv == fix_views(fixes@),
            fv.len() == fixes@.len(),
            value == last_direction(fv.take(k as int)),
        decreases fixes@.len() - k,
    {
        assert(fv.take(k + 1).drop_last() =~= fv.take(k as int));
        if let Fix::SetDirection(d) = &fixes[k] {
            value = Some(*d);
        }
        k += 1;
    }
    assert(fv.take(k as int) =~= fv);
    let d = match value {
        Some(d) => d,
        None => return Ok(()),
    };
    let v = crate::rewrite::rtl_value_exec(d);
    let sheet = match root(events, "worksheet") {
        Some(s) => s,
        None => {
            let mut m = chars_of(part);
            push_all(&mut m, &chars_of(": no worksheet element"));
            return Err(Error::Format(string_of(&m)));
        },
    };
    let ghost before = events@;
    proof {
        lemma_found_child(events@, sheet as int, "sheetViews"@);
    }
    match find_direct_child(events, sheet, "sheetViews") {
        Some(views) => {
            proof {
                lemma_found_child(events@, views as int, "sheetView"@);
            }
            match find_direct_child(events, views, "sheetView") {
                Some(view) => {
                    set_tag(events, view, "rightToLeft", v);
                    proof {
                        reveal_strlit("rightToLeft");
                    }
                },
                None => {
                    let c = vec![sheet_view(v)];
                    let ghost cv = c@;
                    assert(tviews(cv) =~= seq![(Kind::Empty, spec_sheet_view(rtl_value(d)))]);
                    let order = sheet_views_order_exec();
                    insert_children(events, views, &order, c);
                    assert(inserted(before, events@, views as int, sheet_views_order(), cv));
                },
            }
        },
        None => {
            let c = vec![
                Token { kind: Kind::Start, text: String::from_str("sheetViews") },
                sheet_view(v),
                Token { kind: Kind::End, text: String::from_str("sheetViews") },
            ];
            let ghost cv = c@;
            assert(tviews(cv) =~= seq![(Kind::Start, "sheetViews"@), (Kind::Empty, spec_sheet_view(rtl_value(d))), (Kind::End, "sheetViews"@)]);
            let order = worksheet_order_exec();
            insert_children(events, sheet, &order, c);
            assert(inserted(before, events@, sheet as int, worksheet_order(), cv));
        },
    }
    Ok(())
}

// ------------------------------------------------------------- the worksheet

/// Repairs for one cell, in the order they were planned.
pub type CellFixes = Vec<Fix>;

/// Everything to change in one worksheet.
pub struct SheetPlan {
    /// Keyed by the cell's 1-based ordinal among every `<c>` in the part,
    /// exactly as the scanner counts them.
    pub cells: ByIndex<Vec<Fix>>,
    /// The sheet's own grid direction.
    pub grid: Vec<Fix>,
}

/// How many repairs a sheet plan carries.
pub open spec fn sheet_plan_count(p: SheetPlan) -> nat {
    count(p.cells) + p.grid@.len()
}

impl SheetPlan {
    pub fn new() -> (p: Self)
        ensures
            p.cells@ == Map::<usize, Vec<Fix>>::empty(),
            p.grid@.len() == 0,
            sheet_plan_count(p) == 0,
    {
        SheetPlan { cells: ByIndex::new(), grid: Vec::new() }
    }

    /// How many repairs the plan carries.
    pub fn len(&self) -> (n: usize)
        requires
            sheet_plan_count(*self) <= usize::MAX,
        ensures
            n == sheet_plan_count(*self),
    {
        crate::plan::count_of(&self.cells) + self.grid.len()
    }

    pub fn is_empty(&self) -> (r: bool)
        ensures
            r <==> sheet_plan_count(*self) == 0,
    {
        holds_no_repair(&self.cells) && self.grid.len() == 0
    }
}

impl Default for SheetPlan {
    fn default() -> (p: Self)
        ensures
            p.cells@ == Map::<usize, Vec<Fix>>::empty(),
            p.grid@.len() == 0,
            sheet_plan_count(p) == 0,
    {
        SheetPlan::new()
    }
}

/// A walk through `states` in `n` steps, step `i` taking `states[i]` to
/// `states[i + 1]`.
pub open spec fn walk<T>(states: Seq<T>, n: int, step: spec_fn(int, T, T) -> bool) -> bool {
    &&& states.len() == n + 1
    &&& forall|i: int| 0 <= i < n ==> #[trigger] walk_link(states, i, step)
}

pub open spec fn walk_link<T>(states: Seq<T>, i: int, step: spec_fn(int, T, T) -> bool) -> bool {
    step(i, states[i], states[i + 1])
}

proof fn lemma_walk_push<T>(states: Seq<T>, n: int, step: spec_fn(int, T, T) -> bool, next: T)
    requires
        0 <= n,
        walk(states, n, step),
        step(n, states[n], next),
    ensures
        walk(states.push(next), n + 1, step),
        states.push(next)[0] == states[0],
        states.push(next)[n + 1] == next,
{
    let t = states.push(next);
    assert forall|i: int| 0 <= i < n + 1 implies #[trigger] walk_link(t, i, step) by {
        if i < n {
            assert(walk_link(states, i, step));
        }
    }
}

/// A worksheet, its style table and its string table, as values.
pub type SheetState = (Seq<Token>, StyleTableView, StringsView);

/// Step `j` of the cell pass, its repair answered with `r`: the cells back
/// to front, each with its repairs if the plan has any, spliced back in
/// place.
pub open spec fn cell_step<F: Fn(&str) -> String>(part: Seq<char>, rs: Seq<(int, int, int)>, cells: Map<usize, Vec<Fix>>, inherited: Map<usize, Direction>, f: F, j: int, a: SheetState, b: SheetState, r: Result<(), Error>) -> bool {
    let e = rs[rs.len() - 1 - j];
    let k = e.0 as usize;
    if cells.contains_key(k) && 0 <= e.1 <= e.2 <= a.0.len() {
        let fv = fix_views(cells[k]@);
        let inh = crate::rewrite::lookup(inherited, k);
        match r {
            Ok(_) => {
                let p = b.0.subrange(e.1, b.0.len() - (a.0.len() - e.2));
                &&& e.1 + (a.0.len() - e.2) <= b.0.len()
                &&& b.0 == a.0.take(e.1) + p + a.0.skip(e.2)
                &&& cell_fixed(part, a.0.subrange(e.1, e.2), p, fv, inh, a.1, b.1, a.2, b.2, f, r)
            },
            Err(_) => b.0 == a.0 && exists|p: Seq<Token>|
                #[trigger] cell_fixed(part, a.0.subrange(e.1, e.2), p, fv, inh, a.1, b.1, a.2, b.2, f, r),
        }
    } else {
        r is Ok && b == a
    }
}

pub open spec fn cell_link<F: Fn(&str) -> String>(part: Seq<char>, rs: Seq<(int, int, int)>, cells: Map<usize, Vec<Fix>>, inherited: Map<usize, Direction>, f: F) -> spec_fn(int, SheetState, SheetState) -> bool {
    |j: int, a: SheetState, b: SheetState| cell_step(part, rs, cells, inherited, f, j, a, b, Ok::<(), Error>(()))
}

pub open spec fn missing_cell(part: Seq<char>, ev: Seq<Token>, cells: ByIndex<Vec<Fix>>) -> Option<Seq<char>> {
    crate::rewrite::missing_in(part, ev, crate::rewrite::listing(cells), "c"@, "cell"@)
}

/// What applying a sheet's plan to its tokens `ev`, with the two tables at
/// `so` and `to`, gives: `r`, with the tables left at `sn` and `tn`.
pub open spec fn sheet_outcome<F: Fn(&str) -> String>(
    part: Seq<char>,
    ev: Seq<Token>,
    plan: SheetPlan,
    inherited: Map<usize, Direction>,
    so: StyleTableView,
    sn: StyleTableView,
    to: StringsView,
    tn: StringsView,
    f: F,
    r: Result<Seq<Token>, Error>,
) -> bool {
    let rs = ranges_named(ev, "c"@, ev.len() as int);
    let link = cell_link(part, rs, plan.cells@, inherited, f);
    match missing_cell(part, ev, plan.cells) {
        Some(m) => r matches Err(e) && e == Error::Format(e->Format_0) && e->Format_0@ == m && sn == so && tn == to,
        None => {
            // Every cell repaired, then the grid.
            ||| exists|states: Seq<SheetState>|
                #[trigger] walk(states, rs.len() as int, link) && states[0] == (ev, so, to) && {
                    let last = states[rs.len() as int];
                    &&& sn == last.1
                    &&& tn == last.2
                    &&& if plan.grid@.len() == 0 {
                        r == Ok::<Seq<Token>, Error>(last.0)
                    } else {
                        match r {
                            Ok(out) => grid_fixed(part, last.0, out, fix_views(plan.grid@), Ok::<(), Error>(())),
                            Err(e) => grid_fixed(part, last.0, last.0, fix_views(plan.grid@), Err::<(), Error>(e)),
                        }
                    }
                }
            // Or the cells before one repaired, and that one refused.
            ||| r matches Err(e) && exists|states: Seq<SheetState>, j: int|
                #[trigger] walk(states, j, link) && 0 <= j < rs.len() && states[0] == (ev, so, to)
                    && cell_step(part, rs, plan.cells@, inherited, f, j, states[j], (states[j].0, sn, tn), Err::<(), Error>(e))
        },
    }
}

/// The cell pass over a worksheet's tokens `old`, with the two tables at
/// `so` and `to`: every cell repaired, leaving `new`, `sn` and `tn`; or the
/// cells before one repaired and that one refused with `e`.
pub open spec fn cells_done<F: Fn(&str) -> String>(
    part: Seq<char>,
    old: Seq<Token>,
    new: Seq<Token>,
    cells: Map<usize, Vec<Fix>>,
    inherited: Map<usize, Direction>,
    so: StyleTableView,
    sn: StyleTableView,
    to: StringsView,
    tn: StringsView,
    f: F,
    r: Result<(), Error>,
) -> bool {
    let rs = ranges_named(old, "c"@, old.len() as int);
    let link = cell_link(part, rs, cells, inherited, f);
    match r {
        Ok(_) => exists|states: Seq<SheetState>|
            #[trigger] walk(states, rs.len() as int, link) && states[0] == (old, so, to)
                && states[rs.len() as int] == (new, sn, tn),
        Err(e) => exists|states: Seq<SheetState>, j: int|
            #[trigger] walk(states, j, link) && 0 <= j < rs.len() && states[0] == (old, so, to)
                && cell_step(part, rs, cells, inherited, f, j, states[j], (states[j].0, sn, tn), Err::<(), Error>(e)),
    }
}

fn cells_pass<F: Fn(&str) -> String>(
    part: &str,
    events: &mut Vec<Token>,
    plan: &SheetPlan,
    inherited: &Inherited,
    styles: &mut StyleTable,
    strings: &mut Strings,
    normalize: &F,
) -> (r: Result<(), Error>)
    requires
        forall|s: &str| call_requires(normalize, (s,)),
    ensures
        cells_done(part@, old(events)@, final(events)@, plan.cells@, inherited@, old(styles)@, final(styles)@,
            old(strings)@, final(strings)@, normalize, r),
{
    let ghost ev0 = events@;
    let ghost so = styles@;
    let ghost to = strings@;
    let ranges = element_ranges(events, "c");
    let ghost rs = range_views(ranges@);
    let ghost link = cell_link(part@, rs, plan.cells@, inherited@, normalize);
    let m = ranges.len();
    assert(rs.len() == m);
    let ghost mut states: Seq<SheetState> = seq![(ev0, so, to)];
    let mut j: usize = 0;
    while j < m
        invariant
            j <= m == ranges@.len(),
            rs == range_views(ranges@),
            rs == ranges_named(old(events)@, "c"@, old(events)@.len() as int),
            rs.len() == m,
            ev0 == old(events)@,
            so == old(styles)@,
            to == old(strings)@,
            link == cell_link(part@, rs, plan.cells@, inherited@, normalize),
            forall|s: &str| call_requires(normalize, (s,)),
            walk(states, j as int, link),
            states[0] == (ev0, so, to),
            states[j as int] == (events@, styles@, strings@),
        decreases m - j,
    {
        let index = ranges[m - 1 - j].0;
        let from = ranges[m - 1 - j].1.start;
        let to_ = ranges[m - 1 - j].1.end;
        assert(rs[m - 1 - j] == (index as int, from as int, to_ as int));
        let ghost a: SheetState = (events@, styles@, strings@);
        let ghost ee = rs[rs.len() - 1 - j];
        assert(ee.0 as usize == index);
        assert(ee.1 == from && ee.2 == to_);
        if let Some(list) = plan.cells.get(index) {
            if from <= to_ && to_ <= events.len() {
                let mut cell = copy_range(events, from, to_);
                let inh = match inherited.get(index) {
                    Some(d) => Some(*d),
                    None => None,
                };
                let r = apply_to_cell(part, &mut cell, list.as_slice(), inh, styles, strings, normalize);
                let ghost p = cell@;
                match r {
                    Ok(()) => {
                        splice_tokens(events, from, to_, cell);
                        proof {
                            assert(cell_fixed(part@, a.0.subrange(ee.1, ee.2), p, fix_views(plan.cells@[index]@),
                                crate::rewrite::lookup(inherited@, index), a.1, styles@, a.2, strings@, normalize, Ok::<(), Error>(())));
                            assert(events@.subrange(ee.1, events@.len() - (a.0.len() - ee.2)) =~= p);
                            assert(cell_step(part@, rs, plan.cells@, inherited@, normalize, j as int, a, (events@, styles@, strings@), Ok::<(), Error>(())));
                        }
                    },
                    Err(e) => {
                        proof {
                            let fail: SheetState = (a.0, styles@, strings@);
                            assert(cell_fixed(part@, a.0.subrange(ee.1, ee.2), p, fix_views(plan.cells@[index]@),
                                crate::rewrite::lookup(inherited@, index), a.1, fail.1, a.2, fail.2, normalize, Err::<(), Error>(e)));
                            assert(cell_step(part@, rs, plan.cells@, inherited@, normalize, j as int, a, fail, Err::<(), Error>(e)));
                            assert(walk(states, j as int, link));
                        }
                        return Err(e);
                    },
                }
            }
        }
        proof {
            lemma_walk_push(states, j as int, link, (events@, styles@, strings@));
            states = states.push((events@, styles@, strings@));
        }
        j += 1;
    }
    assert(walk(states, rs.len() as int, link));
    Ok(())
}

/// Apply one worksheet's plan to its tokens. `styles` and `strings` are the
/// two shared tables a cell repair appends to; they are the caller's,
/// because one repair round may span several sheets.
pub fn apply_events<F: Fn(&str) -> String>(
    part: &str,
    events: Vec<Token>,
    plan: &SheetPlan,
    inherited: &Inherited,
    styles: &mut StyleTable,
    strings: &mut Strings,
    normalize: &F,
) -> (r: Result<Vec<Token>, Error>)
    requires
        forall|s: &str| call_requires(normalize, (s,)),
    ensures
        sheet_outcome(part@, events@, *plan, inherited@, old(styles)@, final(styles)@, old(strings)@, final(strings)@, normalize,
            match r {
                Ok(v) => Ok::<Seq<Token>, Error>(v@),
                Err(e) => Err::<Seq<Token>, Error>(e),
            }),
{
    if let Some(m) = crate::rewrite::missing_exec(part, &events, &plan.cells, "c", "cell") {
        return Err(Error::Format(m));
    }
    let mut events = events;
    let ghost ev0 = events@;
    let cells = cells_pass(part, &mut events, plan, inherited, styles, strings, normalize);
    if let Err(e) = cells {
        return Err(e);
    }
    if plan.grid.len() > 0 {
        let ghost g0 = events@;
        let gr = apply_to_grid(part, &mut events, plan.grid.as_slice());
        match gr {
            Ok(()) => Ok(events),
            Err(e) => Err(e),
        }
    } else {
        Ok(events)
    }
}

/// Apply one worksheet's plan, leaving every token it does not address as
/// it was. A plan with no repairs gives the part back as read.
pub fn apply<F: Fn(&str) -> String>(
    part: &str,
    xml: &str,
    plan: &SheetPlan,
    inherited: &Inherited,
    styles: &mut StyleTable,
    strings: &mut Strings,
    normalize: &F,
) -> (r: Result<String, Error>)
    requires
        forall|s: &str| call_requires(normalize, (s,)),
    ensures
        r matches Err(e) ==> e is Format,
        document_tokens(xml@) is Err ==> (r matches Err(e) && read_failure(part@, xml@, e)
            && final(styles)@ == old(styles)@ && final(strings)@ == old(strings)@),
        sheet_plan_count(*plan) == 0 ==> (r is Ok <==> document_tokens(xml@) is Ok),
        sheet_plan_count(*plan) == 0 ==> final(styles)@ == old(styles)@ && final(strings)@ == old(strings)@,
        sheet_plan_count(*plan) == 0 ==> (r matches Ok(s) ==> exists|ev: Seq<Token>| #[trigger] reads_as(xml@, ev)
            && s@ == serialized_all(ev)),
        sheet_plan_count(*plan) != 0 ==> (r matches Ok(s) ==> exists|ev: Seq<Token>, out: Seq<Token>|
            #[trigger] sheet_outcome(part@, ev, *plan, inherited@, old(styles)@, final(styles)@, old(strings)@, final(strings)@,
                normalize, Ok::<Seq<Token>, Error>(out)) && reads_as(xml@, ev) && s@ == serialized_all(out)),
        sheet_plan_count(*plan) != 0 ==> (r matches Err(e) ==> read_failure(part@, xml@, e) || exists|ev: Seq<Token>|
            #[trigger] reads_as(xml@, ev) && sheet_outcome(part@, ev, *plan, inherited@, old(styles)@, final(styles)@,
                old(strings)@, final(strings)@, normalize, Err::<Seq<Token>, Error>(e))),
{
    if plan.is_empty() {
        return crate::token::passthrough(part, xml);
    }
    let events = match crate::xml::read_events(part, xml) {
        Ok(ev) => ev,
        Err(e) => {
            return Err(e);
        },
    };
    let ghost ev = events@;
    assert(reads_as(xml@, ev));
    let out = apply_events(part, events, plan, inherited, styles, strings, normalize)?;
    let ghost o = out@;
    let s = write_events(part, &out);
    proof {
        assert(sheet_outcome(part@, ev, *plan, inherited@, old(styles)@, styles@, old(strings)@, strings@, normalize,
            Ok::<Seq<Token>, Error>(o)));
    }
    s
}


// ------------------------------------------------------------ laws of derive

proof fn lemma_answered_push(d: Seq<(usize, Option<Seq<char>>, Option<Seq<char>>, usize)>, x: (usize, Option<Seq<char>>, Option<Seq<char>>, usize))
    requires
        answered(d, x.0, x.1, x.2) is None,
    ensures
        answered(d.push(x), x.0, x.1, x.2) == Some(x.3),
    decreases d.len(),
{
    if d.len() > 0 {
        assert(d.push(x)[0] == d[0]);
        assert(d.push(x).drop_first() =~= d.drop_first().push(x));
        lemma_answered_push(d.drop_first(), x);
    } else {
        assert(d.push(x)[0] == x);
    }
}

/// Asking a table for the same derived record twice: the second request is
/// answered with what the first was, and changes nothing.
pub proof fn lemma_derive_again(
    t0: StyleTableView,
    t1: StyleTableView,
    t2: StyleTableView,
    base: usize,
    al: Option<Seq<char>>,
    ro: Option<Seq<char>>,
    r1: Result<usize, Error>,
    r2: Result<usize, Error>,
)
    requires
        derive_outcome(t0, t1, base, al, ro, r1),
        r1 is Ok,
        derive_outcome(t1, t2, base, al, ro, r2),
    ensures
        r2 == r1,
        t2 == t1,
{
    if !(al is None && ro is None) && answered(t0.derived, base, al, ro) is None {
        lemma_answered_push(t0.derived, (base, al, ro, t0.records as usize));
    }
}

/// The first derived record of a table as read is appended at the index
/// after its last record, and the table then counts one more: when the
/// table has a `cellXfs`, `base` names one of its records, and the request
/// states something.
pub proof fn lemma_first_derive(ev: Seq<Token>, t1: StyleTableView, base: usize, al: Option<Seq<char>>, ro: Option<Seq<char>>, r: Result<usize, Error>)
    requires
        derive_outcome(styles_from(ev), t1, base, al, ro, r),
        !(al is None && ro is None),
        spec_root(ev, "cellXfs"@) is Some,
        base < styles_from(ev).records < usize::MAX,
    ensures
        r == Ok::<usize, Error>(styles_from(ev).records as usize),
        t1.records == styles_from(ev).records + 1,
        t1.original == styles_from(ev).records,
{
    let at = spec_root(ev, "cellXfs"@)->Some_0;
    lemma_root_from(ev, "cellXfs"@, 0);
    assert(opens_element(ev, at));
    assert(answered(styles_from(ev).derived, base, al, ro) is None);
    assert(spec_record(ev, Some(at), base) is Some);
}

} // verus!
