//! Excel's style chain: where a cell's formatting is written, and what it
//! inherits.
//!
//! A cell states almost nothing about itself: `<c r="B5" s="3"/>` carries an
//! index into `xl/styles.xml`, whose record holds the alignment, the reading
//! order and the typeface, and may defer to a named cell style through
//! `@xfId`. What neither states about direction the sheet decides through
//! `sheetView/@rightToLeft`. This module reads those sources and fills in
//! what the cell did not say.
//!
//! An `apply*` flag that is present and false suppresses the formatting
//! beside it; an absent one does not, because many writers omit it and mean
//! what they wrote. The one language a workbook states is
//! `docProps/core.xml`'s `dc:language`, and every cell inherits it.
use vstd::prelude::*;
use crate::ids::{parse_ordinal, parse_usize};
use crate::inherit::{opt_view, trim_chars, trimmed};
use crate::rels::{find_id, lookup, PartView, RelationshipGraph};
use crate::strs::{chars_eq, chars_of, owned, push_all, string_of};
use crate::text::{resolved_text_view, resolved_view, Alignment, Direction, Origin, Resolved, ResolvedView};
use crate::token::{is_true, spec_is_true};
use crate::xml::{lenient_tokens, tviews, attribute, decode_text, decoded_text, read_events_lenient, spec_attribute, tag_name, tag_name_of, Kind, Token};

verus! {

broadcast use vstd::string::group_string_axioms;

/// The part every workbook writes its formatting into.
pub const STYLES: &'static str = "xl/styles.xml";

/// The part shared cell text lives in.
pub const SHARED_STRINGS: &'static str = "xl/sharedStrings.xml";

/// The OPC core properties, which is where a workbook's language is stated.
pub const CORE_PROPERTIES: &'static str = "docProps/core.xml";

// ------------------------------------------------------------ attribute values

/// The alignment `alignment/@horizontal` names. `general` is Excel's
/// type-driven default and names no edge, so it is nothing here; nor are
/// `fill` and `centerContinuous`.
pub open spec fn spec_parse_alignment(value: Seq<char>) -> Option<Alignment> {
    if value == "left"@ {
        Some(Alignment::Left)
    } else if value == "right"@ {
        Some(Alignment::Right)
    } else if value == "center"@ {
        Some(Alignment::Center)
    } else if value == "justify"@ {
        Some(Alignment::Justify)
    } else if value == "distributed"@ {
        Some(Alignment::Distributed)
    } else {
        None
    }
}

/// Excel names the physical edges by their own words: a `horizontal` value
/// reads as the left edge exactly when it is `left`, and as the right edge
/// exactly when it is `right`. And every alignment, written as a cell of
/// either direction spells it, reads back as the physical edge it lands on:
/// a start edge is the right edge of a right-to-left cell, the left edge of
/// any other.
pub proof fn lemma_horizontal_round_trip(value: Seq<char>, a: Alignment, rtl: bool)
    ensures
        spec_parse_alignment(value) == Some(Alignment::Left) <==> value == "left"@,
        spec_parse_alignment(value) == Some(Alignment::Right) <==> value == "right"@,
        spec_parse_alignment(spec_horizontal(a, rtl)) == Some(crate::rewrite::physical(a, rtl)),
{
    reveal_strlit("left");
    reveal_strlit("right");
    reveal_strlit("center");
    reveal_strlit("justify");
    reveal_strlit("distributed");
    assert("left"@.len() != "right"@.len());
    assert("center"@[0] != "left"@[0] && "center"@[0] != "right"@[0]);
    assert("justify"@.len() != "left"@.len() && "justify"@.len() != "right"@.len() && "justify"@.len() != "center"@.len());
    assert("distributed"@.len() != "left"@.len() && "distributed"@.len() != "right"@.len()
        && "distributed"@.len() != "center"@.len() && "distributed"@.len() != "justify"@.len());
}

fn is(value: &[char], lit: &str) -> (r: bool)
    ensures
        r == (value@ == lit@),
{
    chars_eq(value, &chars_of(lit))
}

/// Alignment values `alignment/@horizontal` understands.
pub fn parse_alignment(value: &str) -> (r: Option<Alignment>)
    ensures
        r == spec_parse_alignment(value@),
{
    let v = chars_of(value);
    if is(&v, "left") {
        Some(Alignment::Left)
    } else if is(&v, "right") {
        Some(Alignment::Right)
    } else if is(&v, "center") {
        Some(Alignment::Center)
    } else if is(&v, "justify") {
        Some(Alignment::Justify)
    } else if is(&v, "distributed") {
        Some(Alignment::Distributed)
    } else {
        None
    }
}

/// The direction an `ST_ReadingOrder` value names: `1` left to right, `2`
/// right to left, and nothing for `0`, which is context dependent.
pub open spec fn spec_reading_order(value: Seq<char>) -> Option<Direction> {
    let t = trimmed(value);
    if t == "1"@ {
        Some(Direction::Ltr)
    } else if t == "2"@ {
        Some(Direction::Rtl)
    } else {
        None
    }
}

pub fn parse_reading_order(value: &str) -> (r: Option<Direction>)
    ensures
        r == spec_reading_order(value@),
{
    let t = trim_chars(&chars_of(value));
    if is(&t, "1") {
        Some(Direction::Ltr)
    } else if is(&t, "2") {
        Some(Direction::Rtl)
    } else {
        None
    }
}

/// SpreadsheetML's spelling of an alignment. `horizontal` names physical
/// edges only, so a direction-relative one is lowered against `rtl`.
pub open spec fn spec_horizontal(alignment: Alignment, rtl: bool) -> Seq<char> {
    match alignment {
        Alignment::Left => "left"@,
        Alignment::Right => "right"@,
        Alignment::Center => "center"@,
        Alignment::Justify => "justify"@,
        Alignment::Distributed => "distributed"@,
        Alignment::Start => if rtl { "right"@ } else { "left"@ },
        Alignment::End => if rtl { "left"@ } else { "right"@ },
    }
}

pub fn horizontal(alignment: Alignment, rtl: bool) -> (r: &'static str)
    ensures
        r@ == spec_horizontal(alignment, rtl),
{
    match alignment {
        Alignment::Left => "left",
        Alignment::Right => "right",
        Alignment::Center => "center",
        Alignment::Justify => "justify",
        Alignment::Distributed => "distributed",
        Alignment::Start => if rtl { "right" } else { "left" },
        Alignment::End => if rtl { "left" } else { "right" },
    }
}

/// A non-negative index attribute — `@s`, `@fontId`, `@xfId` — trimmed and
/// read as a `usize`.
pub open spec fn index_attr(content: Seq<char>, name: Seq<char>) -> Option<nat> {
    match spec_attribute(content, name) {
        Some(v) => parse_usize(trimmed(v)),
        None => None,
    }
}

fn index_attribute(tag: &Token, name: &str) -> (r: Option<usize>)
    ensures
        match r {
            Some(n) => index_attr(tag.text@, name@) == Some(n as nat),
            None => index_attr(tag.text@, name@) is None,
        },
{
    match attribute(tag, name) {
        Some(v) => parse_ordinal(&trim_chars(&chars_of(v.as_str()))),
        None => None,
    }
}

/// Whether an `apply*` flag permits the formatting beside it: absent means
/// yes.
pub open spec fn applies(content: Seq<char>, name: Seq<char>) -> bool {
    match spec_attribute(content, name) {
        Some(v) => spec_is_true(v),
        None => true,
    }
}

fn applies_exec(tag: &Token, name: &str) -> (r: bool)
    ensures
        r == applies(tag.text@, name@),
{
    match attribute(tag, name) {
        Some(v) => is_true(v.as_str()),
        None => true,
    }
}

/// An attribute's value unless it is empty.
pub open spec fn non_empty_attr(content: Seq<char>, name: Seq<char>) -> Option<Seq<char>> {
    match spec_attribute(content, name) {
        Some(v) => if v.len() > 0 {
            Some(v)
        } else {
            None
        },
        None => None,
    }
}

fn non_empty_attribute(tag: &Token, name: &str) -> (r: Option<String>)
    ensures
        opt_view(r) == non_empty_attr(tag.text@, name@),
{
    match attribute(tag, name) {
        Some(v) => if chars_of(v.as_str()).len() > 0 {
            Some(v)
        } else {
            None
        },
        None => None,
    }
}

pub open spec fn less_one(n: nat) -> nat {
    if n > 0 {
        (n - 1) as nat
    } else {
        0
    }
}

// ------------------------------------------------------------ the model

/// What one `<xf>` record states.
#[derive(Debug, Clone, Copy, PartialEq, Eq)]
pub struct Format {
    /// `@xfId`: the named cell style a `cellXfs` record defers to.
    pub style: Option<usize>,
    /// `@fontId`, when `applyFont` permits it.
    pub font: Option<usize>,
    /// `alignment/@horizontal`, when `applyAlignment` permits it and it names
    /// an edge.
    pub alignment: Option<Alignment>,
    /// `alignment/@readingOrder`, on the same terms.
    pub direction: Option<Direction>,
}

/// One worksheet, as `xl/workbook.xml` names it.
#[derive(Debug, Clone, PartialEq, Eq)]
pub struct Sheet {
    /// The name on the tab.
    pub name: String,
    /// The part holding it: `xl/worksheets/sheet1.xml`.
    pub part: String,
}

/// Everything outside a worksheet that decides what a cell in it looks like.
pub struct Workbook {
    sheets: Vec<Sheet>,
    /// Shared strings, indexed as a cell's `<v>` indexes them.
    strings: Vec<String>,
    /// `cellXfs`, the per-cell format records.
    cell_formats: Vec<Format>,
    /// `cellStyleXfs`, the named cell styles those records defer to.
    style_formats: Vec<Format>,
    /// `fonts/font/name@val`, by font id.
    fonts: Vec<Option<String>>,
    /// `dc:language`.
    language: Option<String>,
}

/// A workbook as values.
pub struct WorkbookView {
    /// Each sheet's tab name and part.
    pub sheets: Seq<(Seq<char>, Seq<char>)>,
    pub strings: Seq<Seq<char>>,
    pub cell_formats: Seq<Format>,
    pub style_formats: Seq<Format>,
    pub fonts: Seq<Option<Seq<char>>>,
    pub language: Option<Seq<char>>,
}

pub open spec fn sheet_views(s: Seq<Sheet>) -> Seq<(Seq<char>, Seq<char>)> {
    s.map_values(|x: Sheet| (x.name@, x.part@))
}

pub open spec fn text_views(s: Seq<String>) -> Seq<Seq<char>> {
    s.map_values(|x: String| x@)
}

pub open spec fn font_views(s: Seq<Option<String>>) -> Seq<Option<Seq<char>>> {
    s.map_values(|x: Option<String>| opt_view(x))
}

impl View for Workbook {
    type V = WorkbookView;

    closed spec fn view(&self) -> WorkbookView {
        WorkbookView {
            sheets: sheet_views(self.sheets@),
            strings: text_views(self.strings@),
            cell_formats: self.cell_formats@,
            style_formats: self.style_formats@,
            fonts: font_views(self.fonts@),
            language: opt_view(self.language),
        }
    }
}

// ------------------------------------------------------------ xl/styles.xml

/// Which table of `xl/styles.xml` the reader is in.
#[derive(Debug, Clone, Copy, PartialEq, Eq, Structural)]
pub enum Section {
    Outside,
    Fonts,
    CellXfs,
    CellStyleXfs,
}

/// What a read of `xl/styles.xml` has gathered so far.
pub struct StylesRead {
    pub section: Section,
    pub depth: nat,
    /// The depth the open section's element sits at: a record is read only
    /// where it is a direct child of it.
    pub section_depth: nat,
    /// The record being built, and whether its `<alignment>` may be read.
    pub open: Option<(Format, bool)>,
    /// The font being read, and the name it states so far.
    pub font: Option<Option<Seq<char>>>,
    pub fonts: Seq<Option<Seq<char>>>,
    pub cell_formats: Seq<Format>,
    pub style_formats: Seq<Format>,
}

pub open spec fn styles_start() -> StylesRead {
    StylesRead {
        section: Section::Outside,
        depth: 0,
        section_depth: 0,
        open: None,
        font: None,
        fonts: seq![],
        cell_formats: seq![],
        style_formats: seq![],
    }
}

pub open spec fn pushed_format(st: StylesRead, cell: bool, record: Format) -> StylesRead {
    if cell {
        StylesRead { cell_formats: st.cell_formats.push(record), ..st }
    } else {
        StylesRead { style_formats: st.style_formats.push(record), ..st }
    }
}

/// The record an `<xf>` tag opens.
pub open spec fn xf_record(section: Section, content: Seq<char>) -> Format {
    Format {
        style: if section == Section::CellXfs {
            match index_attr(content, "xfId"@) {
                Some(n) => Some(n as usize),
                None => None,
            }
        } else {
            None
        },
        font: if applies(content, "applyFont"@) {
            match index_attr(content, "fontId"@) {
                Some(n) => Some(n as usize),
                None => None,
            }
        } else {
            None
        },
        alignment: None,
        direction: None,
    }
}

/// A tag opens (or, when `empty`, opens and closes).
pub open spec fn styles_open(st: StylesRead, name: Seq<char>, content: Seq<char>, empty: bool) -> StylesRead {
    let st1 = if name == "fonts"@ && st.section == Section::Outside {
        StylesRead { section: Section::Fonts, section_depth: st.depth, ..st }
    } else if name == "cellXfs"@ && st.section == Section::Outside {
        StylesRead { section: Section::CellXfs, section_depth: st.depth, ..st }
    } else if name == "cellStyleXfs"@ && st.section == Section::Outside {
        StylesRead { section: Section::CellStyleXfs, section_depth: st.depth, ..st }
    } else if name == "font"@ && st.section == Section::Fonts && st.depth == st.section_depth + 1 {
        if empty {
            StylesRead { font: None, fonts: st.fonts.push(None), ..st }
        } else {
            StylesRead { font: Some(None), ..st }
        }
    } else if name == "name"@ && st.font is Some {
        match non_empty_attr(content, "val"@) {
            Some(v) => StylesRead { font: Some(Some(v)), ..st },
            None => st,
        }
    } else if name == "xf"@ && (st.section == Section::CellXfs || st.section == Section::CellStyleXfs)
        && st.depth == st.section_depth + 1 {
        let record = xf_record(st.section, content);
        if empty {
            pushed_format(st, st.section == Section::CellXfs, record)
        } else {
            StylesRead { open: Some((record, applies(content, "applyAlignment"@))), ..st }
        }
    } else if name == "alignment"@ {
        match st.open {
            Some((record, true)) => StylesRead {
                open: Some((Format {
                    alignment: match spec_attribute(content, "horizontal"@) {
                        Some(v) => spec_parse_alignment(v),
                        None => None,
                    },
                    direction: match spec_attribute(content, "readingOrder"@) {
                        Some(v) => spec_reading_order(v),
                        None => None,
                    },
                    ..record
                }, true)),
                ..st
            },
            _ => st,
        }
    } else {
        st
    };
    if empty {
        st1
    } else {
        StylesRead { depth: st1.depth + 1, ..st1 }
    }
}

/// A tag closes.
pub open spec fn styles_close(st0: StylesRead, name: Seq<char>) -> StylesRead {
    let st = StylesRead { depth: less_one(st0.depth), ..st0 };
    if name == "fonts"@ || name == "cellXfs"@ || name == "cellStyleXfs"@ {
        StylesRead { section: Section::Outside, ..st }
    } else if name == "font"@ && st.section == Section::Fonts && st.depth == st.section_depth + 1 {
        StylesRead {
            font: None,
            fonts: st.fonts.push(match st.font {
                Some(f) => f,
                None => None,
            }),
            ..st
        }
    } else if name == "xf"@ && st.open is Some && st.depth == st.section_depth + 1 {
        match st.open {
            Some((record, _)) => pushed_format(StylesRead { open: None, ..st }, st.section == Section::CellXfs, record),
            None => st,
        }
    } else {
        st
    }
}

pub open spec fn styles_step(st: StylesRead, t: Token) -> StylesRead {
    match t.kind {
        Kind::Start => styles_open(st, tag_name(t.text@), t.text@, false),
        Kind::Empty => styles_open(st, tag_name(t.text@), t.text@, true),
        Kind::End => styles_close(st, t.text@),
        _ => st,
    }
}

/// What a read of `xl/styles.xml` gathers from its tokens.
pub open spec fn styles_after(ev: Seq<Token>) -> StylesRead
    decreases ev.len(),
{
    if ev.len() == 0 {
        styles_start()
    } else {
        styles_step(styles_after(ev.drop_last()), ev.last())
    }
}

// ------------------------------------------------------------ shared strings

/// What a read of `xl/sharedStrings.xml` has gathered so far.
pub struct StringsRead {
    pub current: Option<Seq<char>>,
    pub phonetic: nat,
    pub in_text: bool,
    pub strings: Seq<Seq<char>>,
}

/// Each `<si>`'s text is the concatenation of its `<t>`s, except those of a
/// phonetic guide.
pub open spec fn strings_step(st: StringsRead, t: Token) -> StringsRead {
    match t.kind {
        Kind::Start => {
            let name = tag_name(t.text@);
            if name == "si"@ {
                StringsRead { current: Some(seq![]), ..st }
            } else if name == "rPh"@ {
                StringsRead { phonetic: st.phonetic + 1, ..st }
            } else if name == "t"@ && st.phonetic == 0 {
                StringsRead { in_text: true, ..st }
            } else {
                st
            }
        },
        Kind::End => {
            if t.text@ == "si"@ {
                match st.current {
                    Some(s) => StringsRead { current: None, strings: st.strings.push(s), ..st },
                    None => st,
                }
            } else if t.text@ == "rPh"@ {
                StringsRead { phonetic: less_one(st.phonetic), ..st }
            } else if t.text@ == "t"@ {
                StringsRead { in_text: false, ..st }
            } else {
                st
            }
        },
        Kind::Text => if st.in_text {
            match st.current {
                Some(s) => StringsRead { current: Some(s + decoded_text(t.text@)), ..st },
                None => st,
            }
        } else {
            st
        },
        _ => st,
    }
}

pub open spec fn strings_after(ev: Seq<Token>) -> StringsRead
    decreases ev.len(),
{
    if ev.len() == 0 {
        StringsRead { current: None, phonetic: 0, in_text: false, strings: seq![] }
    } else {
        strings_step(strings_after(ev.drop_last()), ev.last())
    }
}

// ------------------------------------------------------------ core properties

/// The text inside `dc:language`, and whether the reader is inside it.
pub open spec fn language_after(ev: Seq<Token>) -> (bool, Seq<char>)
    decreases ev.len(),
{
    if ev.len() == 0 {
        (false, seq![])
    } else {
        let (inside, tag) = language_after(ev.drop_last());
        let t = ev.last();
        if t.kind == Kind::Start && tag_name(t.text@) == "dc:language"@ {
            (true, tag)
        } else if t.kind == Kind::End && t.text@ == "dc:language"@ {
            (false, tag)
        } else if t.kind == Kind::Text && inside {
            (inside, tag + decoded_text(t.text@))
        } else {
            (inside, tag)
        }
    }
}

/// `docProps/core.xml`'s `dc:language`, trimmed, if it names one.
pub open spec fn spec_language(ev: Seq<Token>) -> Option<Seq<char>> {
    let tag = trimmed(language_after(ev).1);
    if tag.len() > 0 {
        Some(tag)
    } else {
        None
    }
}

// ------------------------------------------------------------ xl/workbook.xml

/// The part a relationship of `source` with id `id` targets inside the
/// package.
pub open spec fn graph_target(g: Seq<PartView>, source: Seq<char>, id: Seq<char>) -> Option<Seq<char>> {
    match lookup(g, source) {
        Some(p) => match find_id(p.items, id) {
            Some(v) => v.part(),
            None => None,
        },
        None => None,
    }
}

/// The `<sheet>` list, with each `r:id` resolved through the relationships
/// of `main`: a sheet whose id is missing or names no part is dropped.
pub open spec fn sheets_after(g: Seq<PartView>, main: Seq<char>, ev: Seq<Token>) -> (bool, Seq<(Seq<char>, Seq<char>)>)
    decreases ev.len(),
{
    if ev.len() == 0 {
        (false, seq![])
    } else {
        let (inside, sheets) = sheets_after(g, main, ev.drop_last());
        let t = ev.last();
        if t.kind == Kind::Start && tag_name(t.text@) == "sheets"@ {
            (true, sheets)
        } else if t.kind == Kind::End && t.text@ == "sheets"@ {
            (false, sheets)
        } else if (t.kind == Kind::Start || t.kind == Kind::Empty) && inside && tag_name(t.text@) == "sheet"@ {
            match non_empty_attr(t.text@, "r:id"@) {
                Some(id) => match graph_target(g, main, id) {
                    Some(part) => (inside, sheets.push((match spec_attribute(t.text@, "name"@) {
                        Some(n) => n,
                        None => seq![],
                    }, part))),
                    None => (inside, sheets),
                },
                None => (inside, sheets),
            }
        } else {
            (inside, sheets)
        }
    }
}

// ------------------------------------------------------------ reading

struct StylesReader {
    section: Section,
    depth: usize,
    section_depth: usize,
    open: Option<(Format, bool)>,
    font: Option<Option<String>>,
    fonts: Vec<Option<String>>,
    cell_formats: Vec<Format>,
    style_formats: Vec<Format>,
}

spec fn styles_view(r: StylesReader) -> StylesRead {
    StylesRead {
        section: r.section,
        depth: r.depth as nat,
        section_depth: r.section_depth as nat,
        open: r.open,
        font: match r.font {
            Some(f) => Some(opt_view(f)),
            None => None,
        },
        fonts: font_views(r.fonts@),
        cell_formats: r.cell_formats@,
        style_formats: r.style_formats@,
    }
}

fn named(name: &[char], lit: &str) -> (r: bool)
    ensures
        r == (name@ == lit@),
{
    chars_eq(name, &chars_of(lit))
}

fn push_font(fonts: &mut Vec<Option<String>>, f: Option<String>)
    ensures
        font_views(final(fonts)@) == font_views(old(fonts)@).push(opt_view(f)),
{
    let ghost before = fonts@;
    let ghost fv = opt_view(f);
    fonts.push(f);
    assert(font_views(fonts@) =~= font_views(before).push(fv));
}

impl StylesReader {
    fn push_format(&mut self, cell: bool, record: Format)
        ensures
            styles_view(*final(self)) == pushed_format(styles_view(*old(self)), cell, record),
            final(self).depth == old(self).depth,
            final(self).section_depth == old(self).section_depth,
    {
        if cell {
            self.cell_formats.push(record);
        } else {
            self.style_formats.push(record);
        }
    }

    fn open_tag(&mut self, name: &[char], tag: &Token, empty: bool)
        requires
            old(self).depth < usize::MAX,
        ensures
            styles_view(*final(self)) == styles_open(styles_view(*old(self)), name@, tag.text@, empty),
            final(self).depth <= old(self).depth + 1,
            final(self).section_depth == old(self).section_depth || final(self).section_depth == old(self).depth,
    {
        let outside = self.section == Section::Outside;
        if named(name, "fonts") && outside {
            self.section = Section::Fonts;
            self.section_depth = self.depth;
        } else if named(name, "cellXfs") && outside {
            self.section = Section::CellXfs;
            self.section_depth = self.depth;
        } else if named(name, "cellStyleXfs") && outside {
            self.section = Section::CellStyleXfs;
            self.section_depth = self.depth;
        } else if named(name, "font") && self.section == Section::Fonts && self.depth > 0
            && self.section_depth == self.depth - 1 {
            if empty {
                self.font = None;
                push_font(&mut self.fonts, None);
            } else {
                self.font = Some(None);
            }
        } else if named(name, "name") && self.font.is_some() {
            match non_empty_attribute(tag, "val") {
                Some(v) => self.font = Some(Some(v)),
                None => {},
            }
        } else if named(name, "xf") && (self.section == Section::CellXfs || self.section == Section::CellStyleXfs)
            && self.depth > 0 && self.section_depth == self.depth - 1 {
            let cell = self.section == Section::CellXfs;
            let style = if cell {
                index_attribute(tag, "xfId")
            } else {
                None
            };
            let font = if applies_exec(tag, "applyFont") {
                index_attribute(tag, "fontId")
            } else {
                None
            };
            let record = Format { style, font, alignment: None, direction: None };
            if empty {
                self.push_format(cell, record);
            } else {
                self.open = Some((record, applies_exec(tag, "applyAlignment")));
            }
        } else if named(name, "alignment") {
            match self.open {
                Some((record, true)) => {
                    let alignment = match attribute(tag, "horizontal") {
                        Some(v) => parse_alignment(v.as_str()),
                        None => None,
                    };
                    let direction = match attribute(tag, "readingOrder") {
                        Some(v) => parse_reading_order(v.as_str()),
                        None => None,
                    };
                    self.open = Some((Format { alignment, direction, ..record }, true));
                },
                _ => {},
            }
        }
        if !empty {
            self.depth = self.depth + 1;
        }
    }

    fn close_tag(&mut self, name: &[char])
        ensures
            styles_view(*final(self)) == styles_close(styles_view(*old(self)), name@),
            final(self).depth <= old(self).depth,
            final(self).section_depth == old(self).section_depth,
    {
        self.depth = if self.depth > 0 { self.depth - 1 } else { 0 };
        if named(name, "fonts") || named(name, "cellXfs") || named(name, "cellStyleXfs") {
            self.section = Section::Outside;
        } else if named(name, "font") && self.section == Section::Fonts && self.depth > 0
            && self.section_depth == self.depth - 1 {
            let f = match self.font.take() {
                Some(f) => f,
                None => None,
            };
            push_font(&mut self.fonts, f);
        } else if named(name, "xf") && self.open.is_some() && self.depth > 0
            && self.section_depth == self.depth - 1 {
            match self.open.take() {
                Some((record, _)) => {
                    let cell = self.section == Section::CellXfs;
                    self.push_format(cell, record);
                },
                None => {},
            }
        }
    }
}

/// The font names and the two tables of format records `xl/styles.xml`'s
/// tokens state.
fn read_styles(events: &[Token]) -> (r: (Vec<Option<String>>, Vec<Format>, Vec<Format>))
    ensures
        font_views(r.0@) == styles_after(events@).fonts,
        r.1@ == styles_after(events@).cell_formats,
        r.2@ == styles_after(events@).style_formats,
{
    let mut rd = StylesReader {
        section: Section::Outside,
        depth: 0,
        section_depth: 0,
        open: None,
        font: None,
        fonts: Vec::new(),
        cell_formats: Vec::new(),
        style_formats: Vec::new(),
    };
    assert(font_views(rd.fonts@) =~= seq![]);
    assert(rd.cell_formats@ =~= seq![]);
    assert(rd.style_formats@ =~= seq![]);
    let mut i: usize = 0;
    assert(events@.take(0) =~= Seq::<Token>::empty());
    while i < events.len()
        invariant
            i <= events@.len(),
            styles_view(rd) == styles_after(events@.take(i as int)),
            rd.depth <= i,
            rd.section_depth <= i,
        decreases events@.len() - i,
    {
        let t = &events[i];
        assert(events@.take(i + 1).drop_last() =~= events@.take(i as int));
        assert(events@.take(i + 1).last() == *t);
        match t.kind {
            Kind::Start => {
                let name = tag_name_of(t.text.as_str());
                rd.open_tag(&name, t, false);
            },
            Kind::Empty => {
                let name = tag_name_of(t.text.as_str());
                rd.open_tag(&name, t, true);
            },
            Kind::End => {
                let name = chars_of(t.text.as_str());
                rd.close_tag(&name);
            },
            _ => {},
        }
        i += 1;
    }
    assert(events@.take(i as int) =~= events@);
    (rd.fonts, rd.cell_formats, rd.style_formats)
}

/// The shared strings `xl/sharedStrings.xml`'s tokens state.
fn read_strings(events: &[Token]) -> (r: Vec<String>)
    ensures
        text_views(r@) == strings_after(events@).strings,
{
    let mut current: Option<Vec<char>> = None;
    let mut phonetic: usize = 0;
    let mut in_text = false;
    let mut strings: Vec<String> = Vec::new();
    let mut i: usize = 0;
    assert(events@.take(0) =~= Seq::<Token>::empty());
    assert(text_views(strings@) =~= seq![]);
    while i < events.len()
        invariant
            i <= events@.len(),
            phonetic <= i,
            strings_after(events@.take(i as int)) == (StringsRead {
                current: match current {
                    Some(c) => Some(c@),
                    None => None,
                },
                phonetic: phonetic as nat,
                in_text,
                strings: text_views(strings@),
            }),
        decreases events@.len() - i,
    {
        let t = &events[i];
        assert(events@.take(i + 1).drop_last() =~= events@.take(i as int));
        assert(events@.take(i + 1).last() == *t);
        match t.kind {
            Kind::Start => {
                let name = tag_name_of(t.text.as_str());
                if named(&name, "si") {
                    let e: Vec<char> = Vec::new();
                    assert(e@ =~= Seq::<char>::empty());
                    current = Some(e);
                } else if named(&name, "rPh") {
                    phonetic = phonetic + 1;
                } else if named(&name, "t") && phonetic == 0 {
                    in_text = true;
                }
            },
            Kind::End => {
                let name = chars_of(t.text.as_str());
                if named(&name, "si") {
                    match current.take() {
                        Some(c) => {
                            let ghost before = strings@;
                            let v = string_of(&c);
                            strings.push(v);
                            assert(text_views(strings@) =~= text_views(before).push(c@));
                        },
                        None => {},
                    }
                } else if named(&name, "rPh") {
                    phonetic = if phonetic > 0 { phonetic - 1 } else { 0 };
                } else if named(&name, "t") {
                    in_text = false;
                }
            },
            Kind::Text => {
                if in_text && current.is_some() {
                    let mut c = current.take().unwrap();
                    push_all(&mut c, &decode_text(t.text.as_str()));
                    current = Some(c);
                }
            },
            _ => {},
        }
        i += 1;
    }
    assert(events@.take(i as int) =~= events@);
    strings
}

/// The language `docProps/core.xml`'s tokens state.
fn read_language(events: &[Token]) -> (r: Option<String>)
    ensures
        opt_view(r) == spec_language(events@),
{
    let mut inside = false;
    let mut tag: Vec<char> = Vec::new();
    let mut i: usize = 0;
    assert(events@.take(0) =~= Seq::<Token>::empty());
    assert(tag@ =~= Seq::<char>::empty());
    while i < events.len()
        invariant
            i <= events@.len(),
            language_after(events@.take(i as int)) == (inside, tag@),
        decreases events@.len() - i,
    {
        let t = &events[i];
        assert(events@.take(i + 1).drop_last() =~= events@.take(i as int));
        assert(events@.take(i + 1).last() == *t);
        if t.kind == Kind::Start && named(&tag_name_of(t.text.as_str()), "dc:language") {
            inside = true;
        } else if t.kind == Kind::End && named(&chars_of(t.text.as_str()), "dc:language") {
            inside = false;
        } else if t.kind == Kind::Text && inside {
            push_all(&mut tag, &decode_text(t.text.as_str()));
        }
        i += 1;
    }
    assert(events@.take(i as int) =~= events@);
    let trimmed_tag = trim_chars(&tag);
    if trimmed_tag.len() > 0 {
        Some(string_of(&trimmed_tag))
    } else {
        None
    }
}

/// The worksheets `xl/workbook.xml`'s tokens list, each `r:id` resolved
/// through the relationships of `main`.
fn read_sheets(events: &[Token], graph: &RelationshipGraph, main: &str) -> (r: Vec<Sheet>)
    ensures
        sheet_views(r@) == sheets_after(graph@, main@, events@).1,
{
    let mut inside = false;
    let mut sheets: Vec<Sheet> = Vec::new();
    let mut i: usize = 0;
    assert(events@.take(0) =~= Seq::<Token>::empty());
    assert(sheet_views(sheets@) =~= seq![]);
    while i < events.len()
        invariant
            i <= events@.len(),
            sheets_after(graph@, main@, events@.take(i as int)) == (inside, sheet_views(sheets@)),
        decreases events@.len() - i,
    {
        let t = &events[i];
        assert(events@.take(i + 1).drop_last() =~= events@.take(i as int));
        assert(events@.take(i + 1).last() == *t);
        let opening = t.kind == Kind::Start || t.kind == Kind::Empty;
        if t.kind == Kind::Start && named(&tag_name_of(t.text.as_str()), "sheets") {
            inside = true;
        } else if t.kind == Kind::End && named(&chars_of(t.text.as_str()), "sheets") {
            inside = false;
        } else if opening && inside && named(&tag_name_of(t.text.as_str()), "sheet") {
            match non_empty_attribute(t, "r:id") {
                Some(id) => match graph.target_of(main, id.as_str()) {
                    Some(part) => {
                        let name = match attribute(t, "name") {
                            Some(n) => n,
                            None => String::new(),
                        };
                        let ghost before = sheets@;
                        let sheet = Sheet { name, part: owned(part) };
                        let ghost sv = (sheet.name@, sheet.part@);
                        sheets.push(sheet);
                        assert(sheet_views(sheets@) =~= sheet_views(before).push(sv));
                    },
                    None => {},
                },
                None => {},
            }
        }
        i += 1;
    }
    assert(events@.take(i as int) =~= events@);
    sheets
}

// ------------------------------------------------------------ the workbook

/// The workbook the three optional parts' tokens describe: the styles, the
/// shared strings and the core properties. No sheets: those come from
/// `xl/workbook.xml` and its relationships.
pub open spec fn workbook_of(styles: Option<Seq<Token>>, strings: Option<Seq<Token>>, core: Option<Seq<Token>>) -> WorkbookView {
    let st = match styles {
        Some(ev) => styles_after(ev),
        None => styles_start(),
    };
    WorkbookView {
        sheets: seq![],
        strings: match strings {
            Some(ev) => strings_after(ev).strings,
            None => seq![],
        },
        cell_formats: st.cell_formats,
        style_formats: st.style_formats,
        fonts: st.fonts,
        language: match core {
            Some(ev) => spec_language(ev),
            None => None,
        },
    }
}

/// The events of a part that was handed in, and nothing for one that was not.
pub open spec fn present(x: Option<&str>, ev: Seq<Token>) -> Option<Seq<Token>> {
    if x is Some {
        Some(ev)
    } else {
        None
    }
}

/// Whether `ev` is what an optional part reads as up to the parser's first
/// error; anything will do for a part that is absent.
pub open spec fn read_leniently(x: Option<&str>, ev: Seq<Token>) -> bool {
    match x {
        Some(x) => tviews(ev) == lenient_tokens(x@),
        None => true,
    }
}

pub open spec fn opt_events(ev: Option<&[Token]>) -> Option<Seq<Token>> {
    match ev {
        Some(e) => Some(e@),
        None => None,
    }
}

/// The format record a cell's `@s` names.
pub open spec fn record_of(w: WorkbookView, style: nat) -> Option<Format> {
    if style < w.cell_formats.len() {
        Some(w.cell_formats[style as int])
    } else {
        None
    }
}

/// The named cell style that record defers to.
pub open spec fn named_of(w: WorkbookView, style: nat) -> Option<Format> {
    match record_of(w, style) {
        Some(f) => match f.style {
            Some(s) => if s < w.style_formats.len() {
                Some(w.style_formats[s as int])
            } else {
                None
            },
            None => None,
        },
        None => None,
    }
}

/// The direction governing a cell: its own record's reading order, else its
/// named style's, else the sheet's.
pub open spec fn spec_direction(w: WorkbookView, style: nat, sheet: Option<(Direction, Seq<char>)>) -> ResolvedView<Direction> {
    let own = match record_of(w, style) {
        Some(f) => f.direction,
        None => None,
    };
    let named = match named_of(w, style) {
        Some(f) => f.direction,
        None => None,
    };
    match own {
        Some(d) => ResolvedView::Explicit(d),
        None => match named {
            Some(d) => ResolvedView::Inherited(d, STYLES@, "cellStyleXfs/xf/alignment@readingOrder"@),
            None => match sheet {
                Some((d, part)) => ResolvedView::Inherited(d, part, "sheetView@rightToLeft"@),
                None => ResolvedView::Unset,
            },
        },
    }
}

/// The alignment governing a cell: its own record's, else its named style's.
pub open spec fn spec_alignment(w: WorkbookView, style: nat) -> ResolvedView<Alignment> {
    let own = match record_of(w, style) {
        Some(f) => f.alignment,
        None => None,
    };
    let named = match named_of(w, style) {
        Some(f) => f.alignment,
        None => None,
    };
    match own {
        Some(a) => ResolvedView::Explicit(a),
        None => match named {
            Some(a) => ResolvedView::Inherited(a, STYLES@, "cellStyleXfs/xf/alignment@horizontal"@),
            None => ResolvedView::Unset,
        },
    }
}

/// The name of the font a record points at, if the workbook has it.
pub open spec fn font_of(w: WorkbookView, f: Option<Format>) -> Option<Seq<char>> {
    match f {
        Some(r) => match r.font {
            Some(id) => if id < w.fonts.len() {
                w.fonts[id as int]
            } else {
                None
            },
            None => None,
        },
        None => None,
    }
}

/// The typeface governing a cell: one name, for every script in it.
pub open spec fn spec_font(w: WorkbookView, style: nat) -> ResolvedView<Seq<char>> {
    match font_of(w, record_of(w, style)) {
        Some(n) => ResolvedView::Explicit(n),
        None => match font_of(w, named_of(w, style)) {
            Some(n) => ResolvedView::Inherited(n, STYLES@, "cellStyleXfs/xf@fontId"@),
            None => ResolvedView::Unset,
        },
    }
}

/// The language every cell inherits from the core properties.
pub open spec fn spec_workbook_language(w: WorkbookView) -> ResolvedView<Seq<char>> {
    match w.language {
        Some(tag) => ResolvedView::Inherited(tag, CORE_PROPERTIES@, "coreProperties/dc:language"@),
        None => ResolvedView::Unset,
    }
}

pub open spec fn opt_sheet_direction(d: Option<(Direction, &str)>) -> Option<(Direction, Seq<char>)> {
    match d {
        Some((dir, part)) => Some((dir, part@)),
        None => None,
    }
}

fn clone_font(f: &Option<String>) -> (r: Option<String>)
    ensures
        opt_view(r) == opt_view(*f),
{
    match f {
        Some(v) => Some(v.clone()),
        None => None,
    }
}

impl Default for Workbook {
    fn default() -> (r: Self)
        ensures
            r@ == workbook_of(None, None, None),
    {
        Workbook::new()
    }
}

impl Workbook {
    /// A workbook with no sheets, strings, records, fonts or language.
    pub fn new() -> (r: Self)
        ensures
            r@ == workbook_of(None, None, None),
    {
        let r = Workbook {
            sheets: Vec::new(),
            strings: Vec::new(),
            cell_formats: Vec::new(),
            style_formats: Vec::new(),
            fonts: Vec::new(),
            language: None,
        };
        assert(sheet_views(r.sheets@) =~= seq![]);
        assert(text_views(r.strings@) =~= seq![]);
        assert(font_views(r.fonts@) =~= seq![]);
        assert(r.cell_formats@ =~= seq![]);
        assert(r.style_formats@ =~= seq![]);
        r
    }

    /// The workbook the token streams of `xl/styles.xml`,
    /// `xl/sharedStrings.xml` and `docProps/core.xml` describe, each where
    /// there is one.
    pub fn from_events(styles: Option<&[Token]>, strings: Option<&[Token]>, core: Option<&[Token]>) -> (r: Self)
        ensures
            r@ == workbook_of(opt_events(styles), opt_events(strings), opt_events(core)),
    {
        let mut w = Workbook::new();
        match styles {
            Some(ev) => {
                let (fonts, cell_formats, style_formats) = read_styles(ev);
                w.fonts = fonts;
                w.cell_formats = cell_formats;
                w.style_formats = style_formats;
            },
            None => {
                assert(styles_start().fonts =~= seq![]);
            },
        }
        match strings {
            Some(ev) => w.strings = read_strings(ev),
            None => {},
        }
        match core {
            Some(ev) => w.language = read_language(ev),
            None => {},
        }
        w
    }

    /// Build one from already-read XML. A part the parser stops on is read
    /// as far as it goes: an optional part that cannot be read costs
    /// findings, not the workbook.
    pub fn from_xml(styles: Option<&str>, strings: Option<&str>, core: Option<&str>) -> (r: Result<Self, crate::error::Error>)
        ensures
            r matches Ok(w) && exists|a: Seq<Token>, b: Seq<Token>, c: Seq<Token>|
                #[trigger] workbook_of(present(styles, a), present(strings, b), present(core, c)) == w@
                && read_leniently(styles, a) && read_leniently(strings, b) && read_leniently(core, c),
    {
        let se = match styles {
            Some(x) => Some(read_events_lenient(x)),
            None => None,
        };
        let te = match strings {
            Some(x) => Some(read_events_lenient(x)),
            None => None,
        };
        let ce = match core {
            Some(x) => Some(read_events_lenient(x)),
            None => None,
        };
        let s1: Option<&[Token]> = match &se {
            Some(v) => Some(v.as_slice()),
            None => None,
        };
        let t1: Option<&[Token]> = match &te {
            Some(v) => Some(v.as_slice()),
            None => None,
        };
        let c1: Option<&[Token]> = match &ce {
            Some(v) => Some(v.as_slice()),
            None => None,
        };
        let w = Workbook::from_events(s1, t1, c1);
        let ghost a = match s1 { Some(e) => e@, None => seq![] };
        let ghost b = match t1 { Some(e) => e@, None => seq![] };
        let ghost c = match c1 { Some(e) => e@, None => seq![] };
        assert(workbook_of(present(styles, a), present(strings, b), present(core, c)) == w@);
        assert(read_leniently(styles, a) && read_leniently(strings, b) && read_leniently(core, c));
        Ok(w)
    }

    /// Add the worksheets `xl/workbook.xml` (the part `main`) lists, each
    /// `r:id` resolved through `graph`. A sheet whose relationship is missing
    /// is dropped rather than guessed at.
    pub fn add_sheets(&mut self, xml: &str, graph: &RelationshipGraph, main: &str)
        ensures
            exists|ts: Seq<Token>| #[trigger] tviews(ts) == lenient_tokens(xml@)
                && final(self)@.sheets == old(self)@.sheets + sheets_after(graph@, main@, ts).1,
            final(self)@.strings == old(self)@.strings,
            final(self)@.cell_formats == old(self)@.cell_formats,
            final(self)@.style_formats == old(self)@.style_formats,
            final(self)@.fonts == old(self)@.fonts,
            final(self)@.language == old(self)@.language,
    {
        let events = read_events_lenient(xml);
        let ghost ev = events@;
        let found = read_sheets(&events, graph, main);
        let mut k: usize = 0;
        let ghost start = self.sheets@;
        while k < found.len()
            invariant
                k <= found@.len(),
                sheet_views(self.sheets@) == sheet_views(start) + sheet_views(found@).take(k as int),
                self.strings == old(self).strings,
                self.cell_formats == old(self).cell_formats,
                self.style_formats == old(self).style_formats,
                self.fonts == old(self).fonts,
                self.language == old(self).language,
            decreases found@.len() - k,
        {
            let s = Sheet { name: found[k].name.clone(), part: found[k].part.clone() };
            let ghost before = self.sheets@;
            self.sheets.push(s);
            assert(sheet_views(self.sheets@) =~= sheet_views(before).push((found@[k as int].name@, found@[k as int].part@)));
            assert(sheet_views(found@).take(k + 1) =~= sheet_views(found@).take(k as int).push(sheet_views(found@)[k as int]));
            k += 1;
        }
        assert(sheet_views(found@).take(k as int) =~= sheet_views(found@));
        assert(tviews(ev) == lenient_tokens(xml@));
    }

    /// The worksheets, in the order the workbook lists them.
    pub fn sheets(&self) -> (r: &[Sheet])
        ensures
            sheet_views(r@) == self@.sheets,
    {
        self.sheets.as_slice()
    }

    /// The shared string at one index, as a cell's `<v>` names it.
    pub fn shared_string(&self, index: usize) -> (r: Option<&str>)
        ensures
            match r {
                Some(s) => index < self@.strings.len() && s@ == self@.strings[index as int],
                None => index >= self@.strings.len(),
            },
    {
        if index < self.strings.len() {
            Some(self.strings[index].as_str())
        } else {
            None
        }
    }

    fn record(&self, style: usize) -> (r: Option<Format>)
        ensures
            r == record_of(self@, style as nat),
    {
        if style < self.cell_formats.len() {
            Some(self.cell_formats[style])
        } else {
            None
        }
    }

    fn named(&self, style: usize) -> (r: Option<Format>)
        ensures
            r == named_of(self@, style as nat),
    {
        match self.record(style) {
            Some(f) => match f.style {
                Some(s) => if s < self.style_formats.len() {
                    Some(self.style_formats[s])
                } else {
                    None
                },
                None => None,
            },
            None => None,
        }
    }

    fn font_name(&self, f: Option<Format>) -> (r: Option<String>)
        ensures
            opt_view(r) == font_of(self@, f),
    {
        match f {
            Some(r) => match r.font {
                Some(id) => if id < self.fonts.len() {
                    clone_font(&self.fonts[id])
                } else {
                    None
                },
                None => None,
            },
            None => None,
        }
    }

    /// The direction governing a cell, given the sheet's own direction and
    /// the part that states it.
    pub fn direction(&self, style: usize, sheet_direction: Option<(Direction, &str)>) -> (r: Resolved<Direction>)
        ensures
            resolved_view(r) == spec_direction(self@, style as nat, opt_sheet_direction(sheet_direction)),
    {
        match self.record(style) {
            Some(Format { direction: Some(d), .. }) => return Resolved::Explicit(d),
            _ => {},
        }
        match self.named(style) {
            Some(Format { direction: Some(d), .. }) => return Resolved::Inherited(
                d,
                Origin::new(STYLES, String::from_str("cellStyleXfs/xf/alignment@readingOrder")),
            ),
            _ => {},
        }
        match sheet_direction {
            Some((d, part)) => Resolved::Inherited(d, Origin::new(part, String::from_str("sheetView@rightToLeft"))),
            None => Resolved::Unset,
        }
    }

    /// The alignment governing a cell. The sheet has nothing to say here.
    pub fn alignment(&self, style: usize) -> (r: Resolved<Alignment>)
        ensures
            resolved_view(r) == spec_alignment(self@, style as nat),
    {
        match self.record(style) {
            Some(Format { alignment: Some(a), .. }) => return Resolved::Explicit(a),
            _ => {},
        }
        match self.named(style) {
            Some(Format { alignment: Some(a), .. }) => Resolved::Inherited(
                a,
                Origin::new(STYLES, String::from_str("cellStyleXfs/xf/alignment@horizontal")),
            ),
            _ => Resolved::Unset,
        }
    }

    /// The typeface governing a cell, which answers for every script in it.
    pub fn font(&self, style: usize) -> (r: Resolved<String>)
        ensures
            resolved_text_view(r) == spec_font(self@, style as nat),
    {
        match self.font_name(self.record(style)) {
            Some(n) => return Resolved::Explicit(n),
            None => {},
        }
        match self.font_name(self.named(style)) {
            Some(n) => Resolved::Inherited(n, Origin::new(STYLES, String::from_str("cellStyleXfs/xf@fontId"))),
            None => Resolved::Unset,
        }
    }

    /// The language every cell in this workbook carries, always inherited
    /// from the core properties.
    pub fn language(&self) -> (r: Resolved<String>)
        ensures
            resolved_text_view(r) == spec_workbook_language(self@),
    {
        match &self.language {
            Some(tag) => Resolved::Inherited(
                tag.clone(),
                Origin::new(CORE_PROPERTIES, String::from_str("coreProperties/dc:language")),
            ),
            None => Resolved::Unset,
        }
    }
}

} // verus!
