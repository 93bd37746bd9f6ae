//! Word documents: the ids a paragraph and a table are reported under, and
//! the part a document defines its lists in.
use vstd::prelude::*;
use std::path::Path;
use crate::ids::{
    decimal, decimal_of,
    lemma_ordinal_after_issued, lemma_split_issued, make_id, ordinal_after, ordinal_after_exec,
    spec_id, split_at_last_hash, split_id,
};
use crate::package::Package;
use crate::rels::{first_part_from, RelationshipGraph, PACKAGE_ROOT};
use crate::strs::{chars_eq, chars_of, has_prefix, owned, push_all, starts_with, string_of};
use crate::text::{resolved_view, unit_views, Alignment, Bullet, Direction, Location, LocationView, Origin, Properties, PropertiesView, Resolved, ResolvedView, TextUnit, UnitId, UnitKind, UnitView};
use crate::xml::{document_tokens, read_failure, reads_as, attribute, decode_reference, decode_text, decoded_reference, decoded_text, read_events, spec_attribute, tag_name, tag_name_of, Kind, Token};
use crate::error::Error;
use crate::inherit::{opt_view, trim_chars, trimmed, ThemeFont, ThemeScript};
use crate::style::{sheet_resolve, sheet_theme_font, spec_theme_reference, theme_reference, SheetView, StyleSheet};
use crate::token::{is_true, spec_is_true};

verus! {

broadcast use vstd::string::group_string_axioms;

/// The unit id for a paragraph: the part name and the paragraph's 1-based
/// ordinal among every `w:p` the scanner counts.
pub fn unit_id(part: &str, index: usize) -> (r: String)
    ensures
        r@ == spec_id(part@, "p"@, index as nat),
{
    make_id(part, "p", index)
}

/// The unit id for a table: the part name and the table's 1-based ordinal,
/// in the shape a PowerPoint table id has.
pub fn table_id(part: &str, index: usize) -> (r: String)
    ensures
        r@ == spec_id(part@, "tbl"@, index as nat),
{
    make_id(part, "tbl", index)
}

/// What a unit id this adapter issued points at.
#[derive(Debug, Clone, Copy, PartialEq, Eq, Structural)]
pub enum Target {
    Paragraph(usize),
    Table(usize),
}

/// The part and target an id names: `tbl` is tried before `p`, because `p`
/// is one letter, and an id that starts `tbl` is a table id or nothing.
pub open spec fn spec_parse_unit_id(id: Seq<char>) -> Option<(Seq<char>, Target)> {
    match split_id(id) {
        Some((part, rest)) => {
            let target = if has_prefix(rest, "tbl"@) {
                match ordinal_after(rest, "tbl"@) {
                    Some(n) => Some(Target::Table(n as usize)),
                    None => None,
                }
            } else {
                match ordinal_after(rest, "p"@) {
                    Some(n) => Some(Target::Paragraph(n as usize)),
                    None => None,
                }
            };
            match target {
                Some(t) => if part.len() > 0 { Some((part, t)) } else { None },
                None => None,
            }
        },
        None => None,
    }
}

/// Recover the part and target from an id this adapter issued; `None` for
/// any other id.
pub fn parse_unit_id(id: &str) -> (r: Option<(String, Target)>)
    ensures
        r matches Some(p) ==> spec_parse_unit_id(id@) == Some((p.0@, p.1)),
        r is None ==> spec_parse_unit_id(id@) is None,
{
    let (part, rest) = match split_at_last_hash(id) {
        Some(split) => split,
        None => return None,
    };
    let target = if starts_with(&rest, &chars_of("tbl")) {
        match ordinal_after_exec(&rest, "tbl") {
            Some(n) => Target::Table(n),
            None => return None,
        }
    } else {
        match ordinal_after_exec(&rest, "p") {
            Some(n) => Target::Paragraph(n),
            None => return None,
        }
    };
    if part.len() == 0 {
        return None;
    }
    Some((string_of(&part), target))
}

/// Every id this adapter issues reads back as what it was issued for.
pub proof fn lemma_unit_id_round_trip(part: Seq<char>, index: nat)
    requires
        part.len() > 0,
        0 < index <= usize::MAX,
    ensures
        spec_parse_unit_id(spec_id(part, "p"@, index)) == Some((part, Target::Paragraph(index as usize))),
        spec_parse_unit_id(spec_id(part, "tbl"@, index)) == Some((part, Target::Table(index as usize))),
{
    reveal_strlit("p");
    reveal_strlit("tbl");
    lemma_split_issued(part, "p"@, index);
    lemma_split_issued(part, "tbl"@, index);
    lemma_ordinal_after_issued("p"@, index);
    lemma_ordinal_after_issued("tbl"@, index);
    let pd = "p"@ + crate::ids::decimal(index);
    assert(!has_prefix(pd, "tbl"@)) by {
        if pd.len() >= 3 {
            assert(pd.take(3)[0] == 'p');
        }
    }
    let td = "tbl"@ + crate::ids::decimal(index);
    assert(has_prefix(td, "tbl"@)) by {
        assert(td.take(3) =~= "tbl"@);
    }
}

/// The part a document defines its lists in: the first `numbering`
/// relationship of the main document part the package root names.
pub open spec fn spec_numbering_part(g: Seq<crate::rels::PartView>) -> Option<Seq<char>> {
    match first_part_from(g, PACKAGE_ROOT@, "officeDocument"@) {
        Some(document) => first_part_from(g, document, "numbering"@),
        None => None,
    }
}

/// A Word document opened for auditing.
pub struct DocxDocument {
    package: Package,
}

impl DocxDocument {
    /// A document over a package already opened.
    pub fn new(package: Package) -> (r: Self)
        ensures
            r.package_spec() == package,
    {
        DocxDocument { package }
    }

    /// The package this document is over.
    pub closed spec fn package_spec(&self) -> Package {
        self.package
    }

    /// The path this document was opened from.
    pub fn path(&self) -> &Path {
        self.package.path()
    }

    /// The package underneath, for callers that need part-level access.
    pub fn package(&self) -> (r: &Package)
        ensures
            *r == self.package_spec(),
    {
        &self.package
    }

    /// The part this document defines its lists in, read off its
    /// relationship graph.
    pub fn numbering_part(graph: &RelationshipGraph) -> (r: Option<String>)
        ensures
            r matches Some(part) ==> spec_numbering_part(graph@) == Some(part@),
            r is None ==> spec_numbering_part(graph@) is None,
    {
        match graph.office_document() {
            Some(document) => match graph.first_part_of_kind(document, "numbering") {
                Some(part) => Some(owned(part)),
                None => None,
            },
            None => None,
        }
    }
}

/// The alignment a `w:jc` value names, relative to the paragraph's own
/// direction: Word evaluates `left` and `right` against `w:bidi`, so they
/// are the start and end edges. The kashida forms are Arabic justification,
/// and `numTab` aligns at the numbering tab on the start side.
pub open spec fn spec_parse_word_alignment(value: Seq<char>) -> Option<Alignment> {
    if value == "start"@ || value == "left"@ || value == "numTab"@ {
        Some(Alignment::Start)
    } else if value == "end"@ || value == "right"@ {
        Some(Alignment::End)
    } else if value == "center"@ {
        Some(Alignment::Center)
    } else if value == "both"@ || value == "mediumKashida"@ || value == "highKashida"@ || value == "lowKashida"@ {
        Some(Alignment::Justify)
    } else if value == "distribute"@ || value == "thaiDistribute"@ {
        Some(Alignment::Distributed)
    } else {
        None
    }
}

fn same(a: &str, b: &str) -> (r: bool)
    ensures
        r == (a@ == b@),
{
    chars_eq(&chars_of(a), &chars_of(b))
}

/// The alignment a `w:jc` value names.
pub fn parse_alignment(value: &str) -> (r: Option<Alignment>)
    ensures
        r == spec_parse_word_alignment(value@),
{
    if same(value, "start") || same(value, "left") || same(value, "numTab") {
        Some(Alignment::Start)
    } else if same(value, "end") || same(value, "right") {
        Some(Alignment::End)
    } else if same(value, "center") {
        Some(Alignment::Center)
    } else if same(value, "both") || same(value, "mediumKashida") || same(value, "highKashida") || same(value, "lowKashida") {
        Some(Alignment::Justify)
    } else if same(value, "distribute") || same(value, "thaiDistribute") {
        Some(Alignment::Distributed)
    } else {
        None
    }
}

// ------------------------------------------------------------ scanning a part

/// A paragraph being read.
pub struct WordParagraphView {
    /// The ordinal its id carries, fixed when it opens.
    pub index: nat,
    pub text: Seq<char>,
    pub props: PropertiesView,
    /// `w:pPr/w:pStyle/@w:val`.
    pub style: Option<Seq<char>>,
    /// The first `w:rStyle/@w:val` its runs name.
    pub run_style: Option<Seq<char>>,
    /// The first `@w:cstheme` its runs name, as a theme slot.
    pub complex_reference: Option<(ThemeFont, ThemeScript)>,
    /// The first `@w:cs` its runs name.
    pub complex_named: Option<Seq<char>>,
    /// The table cell it sits in.
    pub cell: Option<Seq<char>>,
}

/// A table being read.
pub struct WordTableView {
    pub index: nat,
    /// Every paragraph it lays out, one per line, nested tables' included.
    pub text: Seq<char>,
    pub direction: ResolvedView<Direction>,
    pub style: Option<Seq<char>>,
    /// The 1-based ordinals of the row and cell open in it.
    pub row: nat,
    pub cell: nat,
}

/// What a scan of a WordprocessingML part has gathered so far.
pub struct WordScan {
    pub units: Seq<UnitView>,
    /// Open paragraphs, outermost first: a text box nests paragraphs.
    pub open: Seq<WordParagraphView>,
    /// Paragraphs opened so far, empty ones included.
    pub seen: nat,
    /// Open tables, outermost first.
    pub tables: Seq<WordTableView>,
    pub tables_seen: nat,
    pub in_text: bool,
    /// Open `w:sectPr`, `mc:Fallback` and revision-record elements.
    pub section: nat,
    pub fallback: nat,
    pub revision: nat,
}

pub open spec fn word_start() -> WordScan {
    WordScan {
        units: seq![],
        open: seq![],
        seen: 0,
        tables: seq![],
        tables_seen: 0,
        in_text: false,
        section: 0,
        fallback: 0,
        revision: 0,
    }
}

/// Elements holding the properties a tracked change replaced.
pub open spec fn is_revision_record(name: Seq<char>) -> bool {
    name == "w:pPrChange"@ || name == "w:rPrChange"@ || name == "w:sectPrChange"@ || name == "w:tblPrChange"@
        || name == "w:tblPrExChange"@ || name == "w:tcPrChange"@ || name == "w:trPrChange"@
}

/// Whether events describe content the scanner reads: not a fallback the
/// choice beside it replaces, and not a revision record.
pub open spec fn reading(st: WordScan) -> bool {
    st.fallback == 0 && st.revision == 0
}

/// An attribute's value unless it is empty.
pub open spec fn non_empty_attr(content: Seq<char>, name: Seq<char>) -> Option<Seq<char>> {
    match spec_attribute(content, name) {
        Some(v) => if v.len() > 0 {
            Some(v)
        } else {
            None
        },
        None => None,
    }
}

/// Whether an on/off element is on: its `w:val` is absent or true.
pub open spec fn on_off(content: Seq<char>) -> bool {
    match spec_attribute(content, "w:val"@) {
        Some(v) => spec_is_true(v),
        None => true,
    }
}

pub open spec fn on_off_direction(content: Seq<char>) -> Direction {
    if on_off(content) {
        Direction::Rtl
    } else {
        Direction::Ltr
    }
}

/// Where in a table a paragraph opening now sits: `table 1 row 2 cell 3`,
/// once a cell has opened.
pub open spec fn cell_location(t: WordTableView) -> Option<Seq<char>> {
    if t.row > 0 && t.cell > 0 {
        Some("table "@ + decimal(t.index) + " row "@ + decimal(t.row) + " cell "@ + decimal(t.cell))
    } else {
        None
    }
}

/// The innermost open paragraph changed by `f`.
pub open spec fn with_current(st: WordScan, f: spec_fn(WordParagraphView) -> WordParagraphView) -> WordScan {
    if st.open.len() > 0 {
        WordScan { open: st.open.update(st.open.len() - 1, f(st.open.last())), ..st }
    } else {
        st
    }
}

/// The innermost open table changed by `f`.
pub open spec fn with_table(st: WordScan, f: spec_fn(WordTableView) -> WordTableView) -> WordScan {
    if st.tables.len() > 0 {
        WordScan { tables: st.tables.update(st.tables.len() - 1, f(st.tables.last())), ..st }
    } else {
        st
    }
}

pub open spec fn no_word_props() -> PropertiesView {
    PropertiesView {
        direction: ResolvedView::Unset,
        alignment: ResolvedView::Unset,
        language: ResolvedView::Unset,
        complex_font: ResolvedView::Unset,
        latin_font: ResolvedView::Unset,
        bullet: Bullet::Absent,
    }
}

/// A paragraph opens: it is counted, and read when it has content.
pub open spec fn word_paragraph(st: WordScan, has_content: bool) -> WordScan {
    let seen = st.seen + 1;
    if has_content {
        let cell = if st.tables.len() > 0 { cell_location(st.tables.last()) } else { None };
        WordScan {
            seen,
            open: st.open.push(WordParagraphView {
                index: seen,
                text: seq![],
                props: no_word_props(),
                style: None,
                run_style: None,
                complex_reference: None,
                complex_named: None,
                cell,
            }),
            ..st
        }
    } else {
        WordScan { seen, ..st }
    }
}

/// A table opens: it is counted, and read when it has content.
pub open spec fn word_table(st: WordScan, has_content: bool) -> WordScan {
    let n = st.tables_seen + 1;
    if has_content {
        WordScan {
            tables_seen: n,
            tables: st.tables.push(WordTableView { index: n, text: seq![], direction: ResolvedView::Unset, style: None, row: 0, cell: 0 }),
            ..st
        }
    } else {
        WordScan { tables_seen: n, ..st }
    }
}

/// `w:rFonts` on a paragraph: the first theme slot, the first named
/// complex-script face and the first Latin face its runs state.
pub open spec fn word_fonts(b: WordParagraphView, content: Seq<char>) -> WordParagraphView {
    let reference = match non_empty_attr(content, "w:cstheme"@) {
        Some(v) => spec_theme_reference(v),
        None => None,
    };
    WordParagraphView {
        complex_reference: if b.complex_reference is None { reference } else { b.complex_reference },
        complex_named: if b.complex_named is None { non_empty_attr(content, "w:cs"@) } else { b.complex_named },
        props: match (b.props.latin_font, non_empty_attr(content, "w:ascii"@)) {
            (ResolvedView::Unset, Some(l)) => PropertiesView { latin_font: ResolvedView::Explicit(l), ..b.props },
            _ => b.props,
        },
        ..b
    }
}

pub open spec fn word_row(st: WordScan) -> WordScan {
    with_table(st, |t: WordTableView| WordTableView { row: t.row + 1, cell: 0, ..t })
}

pub open spec fn word_cell(st: WordScan) -> WordScan {
    with_table(st, |t: WordTableView| WordTableView { cell: t.cell + 1, ..t })
}

/// `w:tblPr/w:bidiVisual`: the table's columns run right to left.
pub open spec fn word_bidi_visual(st: WordScan, content: Seq<char>) -> WordScan {
    with_table(st, |t: WordTableView| WordTableView { direction: ResolvedView::Explicit(on_off_direction(content)), ..t })
}

pub open spec fn word_table_style(st: WordScan, content: Seq<char>) -> WordScan {
    with_table(st, |t: WordTableView| WordTableView { style: if t.style is None { non_empty_attr(content, "w:val"@) } else { t.style }, ..t })
}

pub open spec fn word_bidi(st: WordScan, content: Seq<char>) -> WordScan {
    with_current(st, |b: WordParagraphView| WordParagraphView {
        props: PropertiesView { direction: ResolvedView::Explicit(on_off_direction(content)), ..b.props },
        ..b
    })
}

pub open spec fn word_jc(st: WordScan, content: Seq<char>) -> WordScan {
    match spec_attribute(content, "w:val"@) {
        Some(v) => match spec_parse_word_alignment(v) {
            Some(a) => with_current(st, |b: WordParagraphView| WordParagraphView {
                props: PropertiesView { alignment: ResolvedView::Explicit(a), ..b.props },
                ..b
            }),
            None => st,
        },
        None => st,
    }
}

pub open spec fn word_bullet(st: WordScan, bullet: Bullet) -> WordScan {
    with_current(st, |b: WordParagraphView| WordParagraphView { props: PropertiesView { bullet, ..b.props }, ..b })
}

/// `w:numId w:val="0"` removes the list a style would supply.
pub open spec fn word_num_id(st: WordScan, content: Seq<char>) -> WordScan {
    match spec_attribute(content, "w:val"@) {
        Some(v) => if trimmed(v) == "0"@ {
            word_bullet(st, Bullet::Suppressed)
        } else {
            st
        },
        None => st,
    }
}

pub open spec fn word_pstyle(st: WordScan, content: Seq<char>) -> WordScan {
    with_current(st, |b: WordParagraphView| WordParagraphView { style: if b.style is None { non_empty_attr(content, "w:val"@) } else { b.style }, ..b })
}

pub open spec fn word_rstyle(st: WordScan, content: Seq<char>) -> WordScan {
    with_current(st, |b: WordParagraphView| WordParagraphView { run_style: if b.run_style is None { non_empty_attr(content, "w:val"@) } else { b.run_style }, ..b })
}

/// `w:lang/@w:bidi`, the complex-script language: the first one stated.
pub open spec fn word_lang(st: WordScan, content: Seq<char>) -> WordScan {
    with_current(st, |b: WordParagraphView| match (b.props.language, non_empty_attr(content, "w:bidi"@)) {
        (ResolvedView::Unset, Some(tag)) => WordParagraphView { props: PropertiesView { language: ResolvedView::Explicit(tag), ..b.props }, ..b },
        _ => b,
    })
}

pub open spec fn word_rfonts(st: WordScan, content: Seq<char>) -> WordScan {
    with_current(st, |b: WordParagraphView| word_fonts(b, content))
}

/// An element opens: a start tag (`has_content`) or an empty one. A
/// section's properties are not its paragraph's.
pub open spec fn word_open(st: WordScan, name: Seq<char>, content: Seq<char>, has_content: bool) -> WordScan {
    let body = st.section == 0;
    if name == "w:p"@ {
        word_paragraph(st, has_content)
    } else if name == "w:tbl"@ {
        word_table(st, has_content)
    } else if name == "w:tr"@ {
        word_row(st)
    } else if name == "w:tc"@ {
        word_cell(st)
    } else if name == "w:bidiVisual"@ {
        word_bidi_visual(st, content)
    } else if name == "w:tblStyle"@ {
        word_table_style(st, content)
    } else if name == "w:bidi"@ && body {
        word_bidi(st, content)
    } else if name == "w:jc"@ && body {
        word_jc(st, content)
    } else if name == "w:numPr"@ && body {
        word_bullet(st, Bullet::Native)
    } else if name == "w:numId"@ && body {
        word_num_id(st, content)
    } else if name == "w:pStyle"@ && body {
        word_pstyle(st, content)
    } else if name == "w:rStyle"@ && body {
        word_rstyle(st, content)
    } else if name == "w:lang"@ {
        word_lang(st, content)
    } else if name == "w:rFonts"@ {
        word_rfonts(st, content)
    } else if name == "w:t"@ {
        WordScan { in_text: has_content, ..st }
    } else {
        st
    }
}

/// A paragraph's text appended to a table's, one paragraph per line.
pub open spec fn table_pushed(t: WordTableView, text: Seq<char>) -> WordTableView {
    WordTableView { text: if t.text.len() == 0 { text } else { t.text + seq!['\n'] + text }, ..t }
}

/// A paragraph's properties once it closes: its complex-script slot settled —
/// the theme slot its runs name where the theme answers it, else the face
/// they name — and what it leaves unset resolved against the stylesheet.
pub open spec fn settled(b: WordParagraphView, styles: Option<SheetView>) -> PropertiesView {
    let theme = match (b.complex_reference, styles) {
        (Some(r), Some(sheet)) => sheet_theme_font(sheet, r.0, r.1),
        _ => None,
    };
    let p = PropertiesView {
        complex_font: match (theme, b.complex_named) {
            (Some((name, part, property)), _) => ResolvedView::Inherited(name, part, property),
            (None, Some(name)) => ResolvedView::Explicit(name),
            (None, None) => ResolvedView::Unset,
        },
        ..b.props
    };
    match styles {
        Some(sheet) => sheet_resolve(sheet, b.style, b.run_style, p),
        None => p,
    }
}

/// A paragraph closes: every open table lays its text out, and a paragraph
/// with text is a unit.
pub open spec fn word_close_paragraph(part: Seq<char>, st: WordScan, styles: Option<SheetView>) -> WordScan {
    if st.open.len() == 0 {
        st
    } else {
        let b = st.open.last();
        let st1 = WordScan {
            open: st.open.drop_last(),
            tables: st.tables.map_values(|t: WordTableView| table_pushed(t, b.text)),
            ..st
        };
        if trimmed(b.text).len() == 0 {
            st1
        } else {
            WordScan {
                units: st1.units.push(UnitView {
                    id: spec_id(part, "p"@, b.index),
                    text: b.text,
                    kind: UnitKind::Paragraph,
                    props: settled(b, styles),
                    location: LocationView { part, paragraph: Some(b.index as usize), container: b.cell },
                }),
                ..st1
            }
        }
    }
}

/// A table closes: it is a unit if it laid out any text.
pub open spec fn word_close_table(part: Seq<char>, st: WordScan) -> WordScan {
    if st.tables.len() == 0 {
        st
    } else {
        let t = st.tables.last();
        let st1 = WordScan { tables: st.tables.drop_last(), ..st };
        if trimmed(t.text).len() == 0 {
            st1
        } else {
            WordScan {
                units: st1.units.push(UnitView {
                    id: spec_id(part, "tbl"@, t.index),
                    text: t.text,
                    kind: UnitKind::Table,
                    props: PropertiesView { direction: t.direction, ..no_word_props() },
                    location: LocationView { part, paragraph: None, container: None },
                }),
                ..st1
            }
        }
    }
}

pub open spec fn word_text(st: WordScan, piece: Seq<char>) -> WordScan {
    if st.in_text {
        with_current(st, |b: WordParagraphView| WordParagraphView { text: b.text + piece, ..b })
    } else {
        st
    }
}

pub open spec fn word_counted(st: WordScan, name: Seq<char>) -> WordScan {
    if name == "mc:Fallback"@ {
        WordScan { fallback: st.fallback + 1, ..st }
    } else if name == "w:sectPr"@ {
        WordScan { section: st.section + 1, ..st }
    } else if is_revision_record(name) {
        WordScan { revision: st.revision + 1, ..st }
    } else {
        st
    }
}

pub open spec fn less_one(n: nat) -> nat {
    if n > 0 {
        (n - 1) as nat
    } else {
        0
    }
}

pub open spec fn word_close(part: Seq<char>, st: WordScan, name: Seq<char>, styles: Option<SheetView>) -> WordScan {
    if name == "mc:Fallback"@ {
        WordScan { fallback: less_one(st.fallback), ..st }
    } else if name == "w:sectPr"@ {
        WordScan { section: less_one(st.section), ..st }
    } else if is_revision_record(name) {
        WordScan { revision: less_one(st.revision), ..st }
    } else if name == "w:t"@ && reading(st) {
        WordScan { in_text: false, ..st }
    } else if name == "w:p"@ && reading(st) {
        word_close_paragraph(part, st, styles)
    } else if name == "w:tbl"@ && reading(st) {
        word_close_table(part, st)
    } else {
        st
    }
}

pub open spec fn word_step(part: Seq<char>, styles: Option<SheetView>, st: WordScan, t: Token) -> WordScan {
    match t.kind {
        Kind::Start => {
            let st1 = word_counted(st, tag_name(t.text@));
            if reading(st1) {
                word_open(st1, tag_name(t.text@), t.text@, true)
            } else {
                st1
            }
        },
        Kind::Empty => if reading(st) {
            word_open(st, tag_name(t.text@), t.text@, false)
        } else {
            st
        },
        Kind::Text => word_text(st, decoded_text(t.text@)),
        Kind::GeneralRef => word_text(st, decoded_reference(t.text@)),
        Kind::End => word_close(part, st, t.text@, styles),
        _ => st,
    }
}

/// What a scan of a part has gathered after a token stream.
pub open spec fn word_after(part: Seq<char>, styles: Option<SheetView>, ev: Seq<Token>) -> WordScan
    decreases ev.len(),
{
    if ev.len() == 0 {
        word_start()
    } else {
        word_step(part, styles, word_after(part, styles, ev.drop_last()), ev.last())
    }
}

// ------------------------------------------------------------ the scanner

struct WordParagraph {
    index: usize,
    text: Vec<char>,
    props: Properties,
    style: Option<String>,
    run_style: Option<String>,
    complex_reference: Option<(ThemeFont, ThemeScript)>,
    complex_named: Option<String>,
    cell: Option<String>,
}

spec fn wp_view(b: WordParagraph) -> WordParagraphView {
    WordParagraphView {
        index: b.index as nat,
        text: b.text@,
        props: b.props@,
        style: opt_view(b.style),
        run_style: opt_view(b.run_style),
        complex_reference: b.complex_reference,
        complex_named: opt_view(b.complex_named),
        cell: opt_view(b.cell),
    }
}

spec fn wp_views(s: Seq<WordParagraph>) -> Seq<WordParagraphView> {
    s.map_values(|b: WordParagraph| wp_view(b))
}

struct WordTable {
    index: usize,
    text: Vec<char>,
    direction: Resolved<Direction>,
    style: Option<String>,
    row: usize,
    cell: usize,
}

spec fn wt_view(t: WordTable) -> WordTableView {
    WordTableView {
        index: t.index as nat,
        text: t.text@,
        direction: resolved_view(t.direction),
        style: opt_view(t.style),
        row: t.row as nat,
        cell: t.cell as nat,
    }
}

spec fn wt_views(s: Seq<WordTable>) -> Seq<WordTableView> {
    s.map_values(|t: WordTable| wt_view(t))
}

struct WordScanner {
    units: Vec<TextUnit>,
    open: Vec<WordParagraph>,
    seen: usize,
    tables: Vec<WordTable>,
    tables_seen: usize,
    in_text: bool,
    section: usize,
    fallback: usize,
    revision: usize,
}

spec fn ws_view(s: WordScanner) -> WordScan {
    WordScan {
        units: unit_views(s.units@),
        open: wp_views(s.open@),
        seen: s.seen as nat,
        tables: wt_views(s.tables@),
        tables_seen: s.tables_seen as nat,
        in_text: s.in_text,
        section: s.section as nat,
        fallback: s.fallback as nat,
        revision: s.revision as nat,
    }
}

/// The paragraph, table, row and cell counts are at most `n`.
spec fn bounded_open(s: WordScanner, n: nat) -> bool {
    &&& s.seen <= n
    &&& s.tables_seen <= n
    &&& forall|k: int| 0 <= k < s.tables@.len() ==> #[trigger] s.tables@[k].row <= n && s.tables@[k].cell <= n
}

/// Every count the scanner keeps is at most `n`, the events read so far.
spec fn bounded(s: WordScanner, n: nat) -> bool {
    &&& bounded_open(s, n)
    &&& s.section <= n
    &&& s.fallback <= n
    &&& s.revision <= n
}

pub open spec fn opt_sheet(styles: Option<&StyleSheet>) -> Option<SheetView> {
    match styles {
        Some(s) => Some(s@),
        None => None,
    }
}

proof fn lemma_paragraphs_replace_last(s: Seq<WordParagraph>, x: WordParagraph)
    requires
        s.len() > 0,
    ensures
        wp_views(s.drop_last().push(x)) == wp_views(s).update(s.len() - 1, wp_view(x)),
{
    assert(wp_views(s.drop_last().push(x)) =~= wp_views(s).update(s.len() - 1, wp_view(x)));
}

proof fn lemma_tables_replace_last(s: Seq<WordTable>, x: WordTable)
    requires
        s.len() > 0,
    ensures
        wt_views(s.drop_last().push(x)) == wt_views(s).update(s.len() - 1, wt_view(x)),
{
    assert(wt_views(s.drop_last().push(x)) =~= wt_views(s).update(s.len() - 1, wt_view(x)));
}

fn clone_opt(s: &Option<String>) -> (r: Option<String>)
    ensures
        opt_view(r) == opt_view(*s),
{
    match s {
        Some(v) => Some(v.clone()),
        None => None,
    }
}

fn copy_chars(v: &Vec<char>) -> (r: Vec<char>)
    ensures
        r@ == v@,
{
    let mut r: Vec<char> = Vec::new();
    push_all(&mut r, v);
    assert(r@ =~= v@);
    r
}

fn clone_table(t: &WordTable) -> (r: WordTable)
    ensures
        wt_view(r) == wt_view(*t),
        r.row == t.row,
        r.cell == t.cell,
{
    WordTable {
        index: t.index,
        text: copy_chars(&t.text),
        direction: match &t.direction {
            Resolved::Unset => Resolved::Unset,
            Resolved::Explicit(d) => Resolved::Explicit(*d),
            Resolved::Inherited(d, o) => Resolved::Inherited(*d, Origin::new(o.part.as_str(), o.property.clone())),
        },
        style: clone_opt(&t.style),
        row: t.row,
        cell: t.cell,
    }
}

fn named(name: &[char], lit: &str) -> (r: bool)
    ensures
        r == (name@ == lit@),
{
    chars_eq(name, &chars_of(lit))
}

fn is_revision_record_exec(name: &[char]) -> (r: bool)
    ensures
        r == is_revision_record(name@),
{
    named(name, "w:pPrChange") || named(name, "w:rPrChange") || named(name, "w:sectPrChange") || named(name, "w:tblPrChange")
        || named(name, "w:tblPrExChange") || named(name, "w:tcPrChange") || named(name, "w:trPrChange")
}

fn non_empty_attribute(tag: &Token, name: &str) -> (r: Option<String>)
    ensures
        opt_view(r) == non_empty_attr(tag.text@, name@),
{
    match attribute(tag, name) {
        Some(v) => if chars_of(v.as_str()).len() > 0 {
            Some(v)
        } else {
            None
        },
        None => None,
    }
}

fn on_off_element(tag: &Token) -> (r: Direction)
    ensures
        r == on_off_direction(tag.text@),
{
    let on = match attribute(tag, "w:val") {
        Some(v) => is_true(v.as_str()),
        None => true,
    };
    if on {
        Direction::Rtl
    } else {
        Direction::Ltr
    }
}

fn cell_location_of(t: &WordTable) -> (r: Option<String>)
    ensures
        opt_view(r) == cell_location(wt_view(*t)),
{
    if t.row > 0 && t.cell > 0 {
        let mut out = chars_of("table ");
        push_all(&mut out, &chars_of(decimal_of(t.index).as_str()));
        push_all(&mut out, &chars_of(" row "));
        push_all(&mut out, &chars_of(decimal_of(t.row).as_str()));
        push_all(&mut out, &chars_of(" cell "));
        push_all(&mut out, &chars_of(decimal_of(t.cell).as_str()));
        Some(string_of(&out))
    } else {
        None
    }
}

fn push_line(text: &mut Vec<char>, line: &Vec<char>)
    ensures
        final(text)@ == (if old(text)@.len() == 0 { line@ } else { old(text)@ + seq!['\n'] + line@ }),
{
    let ghost before = text@;
    if text.len() > 0 {
        text.push('\n');
    }
    push_all(text, line);
    proof {
        if before.len() == 0 {
            assert(text@ =~= line@);
        } else {
            assert(text@ =~= before + seq!['\n'] + line@);
        }
    }
}

impl WordScanner {
    fn new() -> (r: Self)
        ensures
            ws_view(r) == word_start(),
            bounded(r, 0),
    {
        let r = WordScanner {
            units: Vec::new(),
            open: Vec::new(),
            seen: 0,
            tables: Vec::new(),
            tables_seen: 0,
            in_text: false,
            section: 0,
            fallback: 0,
            revision: 0,
        };
        assert(unit_views(r.units@) =~= seq![]);
        assert(wp_views(r.open@) =~= seq![]);
        assert(wt_views(r.tables@) =~= seq![]);
        r
    }

    fn open_paragraph(&mut self, has_content: bool)
        requires
            old(self).seen < usize::MAX,
        ensures
            ws_view(*final(self)) == word_paragraph(ws_view(*old(self)), has_content),
            final(self).seen == old(self).seen + 1,
            final(self).tables == old(self).tables,
            final(self).section == old(self).section,
            final(self).fallback == old(self).fallback,
            final(self).revision == old(self).revision,
            final(self).tables_seen == old(self).tables_seen,
    {
        self.seen = self.seen + 1;
        if has_content {
            let n = self.tables.len();
            let cell = if n > 0 {
                cell_location_of(&self.tables[n - 1])
            } else {
                None
            };
            let b = WordParagraph {
                index: self.seen,
                text: Vec::new(),
                props: Properties::default(),
                style: None,
                run_style: None,
                complex_reference: None,
                complex_named: None,
                cell,
            };
            assert(b.text@ =~= Seq::<char>::empty());
            let ghost before = self.open@;
            self.open.push(b);
            assert(wp_views(self.open@) =~= wp_views(before).push(wp_view(b)));
        }
    }

    fn open_table(&mut self, has_content: bool)
        requires
            old(self).tables_seen < usize::MAX,
        ensures
            ws_view(*final(self)) == word_table(ws_view(*old(self)), has_content),
            final(self).tables_seen == old(self).tables_seen + 1,
            forall|k: int| 0 <= k < final(self).tables@.len() ==> #[trigger] final(self).tables@[k].row == 0 && final(self).tables@[k].cell == 0 || k < old(self).tables@.len() && final(self).tables@[k] == old(self).tables@[k],
            final(self).seen == old(self).seen,
            final(self).section == old(self).section,
            final(self).fallback == old(self).fallback,
            final(self).revision == old(self).revision,
    {
        self.tables_seen = self.tables_seen + 1;
        if has_content {
            let t = WordTable { index: self.tables_seen, text: Vec::new(), direction: Resolved::Unset, style: None, row: 0, cell: 0 };
            assert(t.text@ =~= Seq::<char>::empty());
            let ghost before = self.tables@;
            self.tables.push(t);
            assert(wt_views(self.tables@) =~= wt_views(before).push(wt_view(t)));
        }
    }

    /// The innermost open table, changed as `word_row`, `word_cell`,
    /// `word_bidi_visual` or `word_table_style` says (`what` 0 to 3).
    fn edit_table(&mut self, what: u8, tag: &Token, Ghost(n): Ghost<nat>)
        requires
            bounded_open(*old(self), n),
            n < usize::MAX,
            what < 4,
        ensures
            ws_view(*final(self)) == (if what == 0 {
                word_row(ws_view(*old(self)))
            } else if what == 1 {
                word_cell(ws_view(*old(self)))
            } else if what == 2 {
                word_bidi_visual(ws_view(*old(self)), tag.text@)
            } else {
                word_table_style(ws_view(*old(self)), tag.text@)
            }),
            bounded_open(*final(self), n + 1),
            final(self).section == old(self).section,
            final(self).fallback == old(self).fallback,
            final(self).revision == old(self).revision,
    {
        if self.tables.len() > 0 {
            let ghost before = self.tables@;
            let mut t = self.tables.pop().unwrap();
            assert(t == before[before.len() - 1]);
            if what == 0 {
                t.row = t.row + 1;
                t.cell = 0;
            } else if what == 1 {
                t.cell = t.cell + 1;
            } else if what == 2 {
                t.direction = Resolved::Explicit(on_off_element(tag));
            } else {
                if t.style.is_none() {
                    t.style = non_empty_attribute(tag, "w:val");
                }
            }
            self.tables.push(t);
            proof {
                lemma_tables_replace_last(before, t);
                assert forall|k: int| 0 <= k < self.tables@.len() implies #[trigger] self.tables@[k].row <= n + 1
                    && self.tables@[k].cell <= n + 1 by {
                    if k < before.len() - 1 {
                        assert(self.tables@[k] == before[k]);
                    }
                }
            }
        }
    }

    /// The innermost open paragraph, changed as the `w:pPr` and `w:rPr`
    /// children say: `word_bidi`, `word_jc`, `word_bullet` (native or
    /// suppressed), `word_num_id`, `word_pstyle`, `word_rstyle`, `word_lang`
    /// and `word_rfonts` (`what` 0 to 8).
    fn edit_paragraph(&mut self, what: u8, tag: &Token)
        requires
            what < 9,
        ensures
            ws_view(*final(self)) == (if what == 0 {
                word_bidi(ws_view(*old(self)), tag.text@)
            } else if what == 1 {
                word_jc(ws_view(*old(self)), tag.text@)
            } else if what == 2 {
                word_bullet(ws_view(*old(self)), Bullet::Native)
            } else if what == 3 {
                word_num_id(ws_view(*old(self)), tag.text@)
            } else if what == 4 {
                word_pstyle(ws_view(*old(self)), tag.text@)
            } else if what == 5 {
                word_rstyle(ws_view(*old(self)), tag.text@)
            } else if what == 6 {
                word_lang(ws_view(*old(self)), tag.text@)
            } else if what == 7 {
                word_rfonts(ws_view(*old(self)), tag.text@)
            } else {
                word_bullet(ws_view(*old(self)), Bullet::Suppressed)
            }),
            final(self).tables == old(self).tables,
            final(self).seen == old(self).seen,
            final(self).tables_seen == old(self).tables_seen,
            final(self).section == old(self).section,
            final(self).fallback == old(self).fallback,
            final(self).revision == old(self).revision,
    {
        if what == 1 {
            let alignment = match attribute(tag, "w:val") {
                Some(v) => parse_alignment(v.as_str()),
                None => None,
            };
            if alignment.is_none() {
                return;
            }
        }
        if what == 3 {
            let zero = match attribute(tag, "w:val") {
                Some(v) => {
                    let t = trim_chars(&chars_of(v.as_str()));
                    named(&t, "0")
                },
                None => false,
            };
            if !zero {
                return;
            }
        }
        if self.open.len() > 0 {
            let ghost before = self.open@;
            let mut b = self.open.pop().unwrap();
            assert(b == before[before.len() - 1]);
            if what == 0 {
                b.props.direction = Resolved::Explicit(on_off_element(tag));
            } else if what == 1 {
                match attribute(tag, "w:val") {
                    Some(v) => match parse_alignment(v.as_str()) {
                        Some(a) => b.props.alignment = Resolved::Explicit(a),
                        None => {},
                    },
                    None => {},
                }
            } else if what == 2 {
                b.props.bullet = Bullet::Native;
            } else if what == 3 || what == 8 {
                b.props.bullet = Bullet::Suppressed;
            } else if what == 4 {
                if b.style.is_none() {
                    b.style = non_empty_attribute(tag, "w:val");
                }
            } else if what == 5 {
                if b.run_style.is_none() {
                    b.run_style = non_empty_attribute(tag, "w:val");
                }
            } else if what == 6 {
                if b.props.language.is_unset() {
                    match non_empty_attribute(tag, "w:bidi") {
                        Some(l) => b.props.language = Resolved::Explicit(l),
                        None => {},
                    }
                }
            } else {
                let reference = match non_empty_attribute(tag, "w:cstheme") {
                    Some(v) => theme_reference(v.as_str()),
                    None => None,
                };
                if b.complex_reference.is_none() {
                    b.complex_reference = reference;
                }
                if b.complex_named.is_none() {
                    b.complex_named = non_empty_attribute(tag, "w:cs");
                }
                if b.props.latin_font.is_unset() {
                    match non_empty_attribute(tag, "w:ascii") {
                        Some(l) => b.props.latin_font = Resolved::Explicit(l),
                        None => {},
                    }
                }
            }
            self.open.push(b);
            proof {
                lemma_paragraphs_replace_last(before, b);
            }
        }
    }

    /// Text, or a reference, decoded into `piece`.
    fn add_text(&mut self, piece: Vec<char>)
        ensures
            ws_view(*final(self)) == word_text(ws_view(*old(self)), piece@),
            final(self).tables == old(self).tables,
            final(self).seen == old(self).seen,
            final(self).tables_seen == old(self).tables_seen,
            final(self).section == old(self).section,
            final(self).fallback == old(self).fallback,
            final(self).revision == old(self).revision,
    {
        if self.in_text && self.open.len() > 0 {
            let ghost before = self.open@;
            let mut b = self.open.pop().unwrap();
            assert(b == before[before.len() - 1]);
            push_all(&mut b.text, &piece);
            self.open.push(b);
            proof {
                lemma_paragraphs_replace_last(before, b);
            }
        }
    }

    /// The unit a closing paragraph with text lowers into.
    fn finish_paragraph(part: &str, b: WordParagraph, styles: Option<&StyleSheet>) -> (r: TextUnit)
        ensures
            r@ == (UnitView {
                id: spec_id(part@, "p"@, b.index as nat),
                text: b.text@,
                kind: UnitKind::Paragraph,
                props: settled(wp_view(b), opt_sheet(styles)),
                location: LocationView { part: part@, paragraph: Some(b.index), container: opt_view(b.cell) },
            }),
    {
        let WordParagraph { index, text, mut props, style, run_style, complex_reference, complex_named, cell } = b;
        let theme = match (complex_reference, styles) {
            (Some(r), Some(sheet)) => sheet.theme_font(r),
            _ => None,
        };
        props.complex_font = match (theme, complex_named) {
            (Some((name, origin)), _) => Resolved::Inherited(name, origin),
            (None, Some(name)) => Resolved::Explicit(name),
            (None, None) => Resolved::Unset,
        };
        match styles {
            Some(sheet) => {
                let st: Option<&str> = match &style {
                    Some(v) => Some(v.as_str()),
                    None => None,
                };
                let rs: Option<&str> = match &run_style {
                    Some(v) => Some(v.as_str()),
                    None => None,
                };
                sheet.resolve(st, rs, &mut props);
            },
            None => {},
        }
        TextUnit {
            id: UnitId(unit_id(part, index)),
            text: string_of(&text),
            kind: UnitKind::Paragraph,
            props,
            location: Location { part: owned(part), paragraph: Some(index), container: cell },
        }
    }

    /// A paragraph closes.
    fn close_paragraph(&mut self, part: &str, styles: Option<&StyleSheet>)
        ensures
            ws_view(*final(self)) == word_close_paragraph(part@, ws_view(*old(self)), opt_sheet(styles)),
            final(self).seen == old(self).seen,
            final(self).tables_seen == old(self).tables_seen,
            final(self).section == old(self).section,
            final(self).fallback == old(self).fallback,
            final(self).revision == old(self).revision,
            final(self).tables@.len() == old(self).tables@.len(),
            forall|k: int| 0 <= k < final(self).tables@.len() ==> #[trigger] final(self).tables@[k].row == old(self).tables@[k].row
                && final(self).tables@[k].cell == old(self).tables@[k].cell,
    {
        if self.open.len() == 0 {
            return;
        }
        let ghost before = self.open@;
        let b = self.open.pop().unwrap();
        assert(wp_views(self.open@) =~= wp_views(before).drop_last());
        assert(b == before[before.len() - 1]);
        let ghost old_tables = self.tables@;
        let ghost open_now = self.open@;
        let mut k: usize = 0;
        while k < self.tables.len()
            invariant
                self.open@ == open_now,
                self.units@ == old(self).units@,
                self.seen == old(self).seen,
                self.tables_seen == old(self).tables_seen,
                self.in_text == old(self).in_text,
                self.section == old(self).section,
                self.fallback == old(self).fallback,
                self.revision == old(self).revision,
                k <= self.tables@.len(),
                self.tables@.len() == old_tables.len(),
                forall|j: int| 0 <= j < k ==> wt_view(#[trigger] self.tables@[j]) == table_pushed(wt_view(old_tables[j]), b.text@),
                forall|j: int| k <= j < self.tables@.len() ==> #[trigger] self.tables@[j] == old_tables[j],
                forall|j: int| 0 <= j < self.tables@.len() ==> #[trigger] self.tables@[j].row == old_tables[j].row
                    && self.tables@[j].cell == old_tables[j].cell,
            decreases self.tables@.len() - k,
        {
            let mut t = clone_table(&self.tables[k]);
            push_line(&mut t.text, &b.text);
            self.tables.set(k, t);
            k += 1;
        }
        assert(wt_views(self.tables@) =~= wt_views(old_tables).map_values(|t: WordTableView| table_pushed(t, b.text@)));
        if trim_chars(&b.text).len() == 0 {
            return;
        }
        let ghost bv = wp_view(b);
        let u = Self::finish_paragraph(part, b, styles);
        let ghost units_before = self.units@;
        let ghost uv = u@;
        self.units.push(u);
        assert(unit_views(self.units@) =~= unit_views(units_before).push(uv));
    }

    /// A table closes.
    fn close_table(&mut self, part: &str)
        ensures
            ws_view(*final(self)) == word_close_table(part@, ws_view(*old(self))),
            final(self).seen == old(self).seen,
            final(self).tables_seen == old(self).tables_seen,
            final(self).section == old(self).section,
            final(self).fallback == old(self).fallback,
            final(self).revision == old(self).revision,
            final(self).tables@.len() <= old(self).tables@.len(),
            final(self).tables@ == old(self).tables@.take(final(self).tables@.len() as int),
    {
        if self.tables.len() == 0 {
            return;
        }
        let ghost before = self.tables@;
        let t = self.tables.pop().unwrap();
        assert(wt_views(self.tables@) =~= wt_views(before).drop_last());
        assert(t == before[before.len() - 1]);
        assert(self.tables@ =~= before.take(self.tables@.len() as int));
        if trim_chars(&t.text).len() == 0 {
            return;
        }
        let WordTable { index, text, direction, style, row, cell } = t;
        let mut props = Properties::default();
        props.direction = direction;
        let u = TextUnit {
            id: UnitId(table_id(part, index)),
            text: string_of(&text),
            kind: UnitKind::Table,
            props,
            location: Location { part: owned(part), paragraph: None, container: None },
        };
        let ghost units_before = self.units@;
        let ghost uv = u@;
        self.units.push(u);
        assert(unit_views(self.units@) =~= unit_views(units_before).push(uv));
    }

    /// An element opens: a start tag (`has_content`) or an empty one.
    fn open_element(&mut self, name: &[char], tag: &Token, has_content: bool, Ghost(n): Ghost<nat>)
        requires
            bounded_open(*old(self), n),
            n < usize::MAX,
        ensures
            ws_view(*final(self)) == word_open(ws_view(*old(self)), name@, tag.text@, has_content),
            bounded_open(*final(self), n + 1),
            final(self).section == old(self).section,
            final(self).fallback == old(self).fallback,
            final(self).revision == old(self).revision,
    {
        let body = self.section == 0;
        if named(name, "w:p") {
            self.open_paragraph(has_content);
        } else if named(name, "w:tbl") {
            self.open_table(has_content);
            assert forall|k: int| 0 <= k < self.tables@.len() implies #[trigger] self.tables@[k].row <= n + 1
                && self.tables@[k].cell <= n + 1 by {
                if !(self.tables@[k].row == 0 && self.tables@[k].cell == 0) {
                    assert(self.tables@[k] == old(self).tables@[k]);
                }
            }
        } else if named(name, "w:tr") {
            self.edit_table(0, tag, Ghost(n));
        } else if named(name, "w:tc") {
            self.edit_table(1, tag, Ghost(n));
        } else if named(name, "w:bidiVisual") {
            self.edit_table(2, tag, Ghost(n));
        } else if named(name, "w:tblStyle") {
            self.edit_table(3, tag, Ghost(n));
        } else if named(name, "w:bidi") && body {
            self.edit_paragraph(0, tag);
        } else if named(name, "w:jc") && body {
            self.edit_paragraph(1, tag);
        } else if named(name, "w:numPr") && body {
            self.edit_paragraph(2, tag);
        } else if named(name, "w:numId") && body {
            self.edit_paragraph(3, tag);
        } else if named(name, "w:pStyle") && body {
            self.edit_paragraph(4, tag);
        } else if named(name, "w:rStyle") && body {
            self.edit_paragraph(5, tag);
        } else if named(name, "w:lang") {
            self.edit_paragraph(6, tag);
        } else if named(name, "w:rFonts") {
            self.edit_paragraph(7, tag);
        } else if named(name, "w:t") {
            self.in_text = has_content;
        }
    }

    /// An element closes.
    fn close_element(&mut self, part: &str, name: &[char], styles: Option<&StyleSheet>, Ghost(n): Ghost<nat>)
        requires
            bounded(*old(self), n),
        ensures
            ws_view(*final(self)) == word_close(part@, ws_view(*old(self)), name@, opt_sheet(styles)),
            bounded(*final(self), n),
    {
        let reading = self.fallback == 0 && self.revision == 0;
        if named(name, "mc:Fallback") {
            self.fallback = if self.fallback > 0 { self.fallback - 1 } else { 0 };
        } else if named(name, "w:sectPr") {
            self.section = if self.section > 0 { self.section - 1 } else { 0 };
        } else if is_revision_record_exec(name) {
            self.revision = if self.revision > 0 { self.revision - 1 } else { 0 };
        } else if named(name, "w:t") && reading {
            self.in_text = false;
        } else if named(name, "w:p") && reading {
            self.close_paragraph(part, styles);
        } else if named(name, "w:tbl") && reading {
            self.close_table(part);
            assert forall|k: int| 0 <= k < self.tables@.len() implies #[trigger] self.tables@[k].row <= n
                && self.tables@[k].cell <= n by {
                assert(self.tables@[k] == old(self).tables@[k]);
            }
        }
    }
}

/// Read a WordprocessingML part's token stream into text units: a unit for
/// every `w:p` with text, as it closes, and for every `w:tbl` that lays out
/// text, as it closes. A fallback beside a choice and a revision record are
/// not read, and a section's properties are not its paragraph's.
///
/// Direction, alignment, language, list and fonts are `Explicit` only where
/// the paragraph states them; with a stylesheet, what it leaves unset is
/// resolved against it.
#[verifier::spinoff_prover]
pub fn scan_events(part: &str, events: &[Token], styles: Option<&StyleSheet>) -> (r: Vec<TextUnit>)
    ensures
        unit_views(r@) == word_after(part@, opt_sheet(styles), events@).units,
{
    let mut sc = WordScanner::new();
    let mut i: usize = 0;
    assert(events@.take(0) =~= Seq::<Token>::empty());
    while i < events.len()
        invariant
            i <= events@.len(),
            ws_view(sc) == word_after(part@, opt_sheet(styles), events@.take(i as int)),
            bounded(sc, i as nat),
        decreases events@.len() - i,
    {
        let t = &events[i];
        assert(events@.take(i + 1).drop_last() =~= events@.take(i as int));
        assert(events@.take(i + 1).last() == *t);
        match t.kind {
            Kind::Start => {
                let name = tag_name_of(t.text.as_str());
                if named(&name, "mc:Fallback") {
                    sc.fallback = sc.fallback + 1;
                } else if named(&name, "w:sectPr") {
                    sc.section = sc.section + 1;
                } else if is_revision_record_exec(&name) {
                    sc.revision = sc.revision + 1;
                }
                if sc.fallback == 0 && sc.revision == 0 {
                    sc.open_element(&name, t, true, Ghost(i as nat));
                }
            },
            Kind::Empty => {
                if sc.fallback == 0 && sc.revision == 0 {
                    let name = tag_name_of(t.text.as_str());
                    sc.open_element(&name, t, false, Ghost(i as nat));
                }
            },
            Kind::End => {
                let name = chars_of(t.text.as_str());
                sc.close_element(part, &name, styles, Ghost(i as nat));
            },
            Kind::Text => sc.add_text(decode_text(t.text.as_str())),
            Kind::GeneralRef => sc.add_text(decode_reference(t.text.as_str())),
            _ => {},
        }
        i += 1;
    }
    assert(events@.take(i as int) =~= events@);
    sc.units
}

/// Parse an in-memory part into every unit this adapter produces for it,
/// resolving each paragraph against `styles` when there is one. Only a part
/// the parser rejects fails.
pub fn scan_xml_with(part: &str, xml: &str, styles: Option<&StyleSheet>) -> (r: Result<Vec<TextUnit>, Error>)
    ensures
        r is Ok <==> document_tokens(xml@) is Ok,
        r matches Err(e) ==> read_failure(part@, xml@, e),
        r matches Ok(u) ==> exists|ts: Seq<Token>| #[trigger] reads_as(xml@, ts) && unit_views(u@) == word_after(part@, opt_sheet(styles), ts).units,
{
    let events = read_events(part, xml)?;
    assert(reads_as(xml@, events@));
    Ok(scan_events(part, &events, styles))
}

/// The same, with no stylesheet: a property the paragraph does not state
/// comes back `Unset`.
pub fn scan_xml(part: &str, xml: &str) -> (r: Result<Vec<TextUnit>, Error>)
    ensures
        r is Ok <==> document_tokens(xml@) is Ok,
        r matches Err(e) ==> read_failure(part@, xml@, e),
        r matches Ok(u) ==> exists|ts: Seq<Token>| #[trigger] reads_as(xml@, ts) && unit_views(u@) == word_after(part@, None, ts).units,
{
    scan_xml_with(part, xml, None)
}

/// Whether WordprocessingML can express a repair in this document.
/// `numbering` is the document's numbering part and its text, when it has
/// one the caller could read. A page-edge alignment has no value in a
/// right-to-left paragraph's vocabulary, and a typed bullet is converted
/// only onto a bulleted list the document already defines.
pub fn supports(fix: &crate::text::Fix, numbering: Option<(&str, &str)>) -> (r: bool)
    ensures
        fix@ matches crate::text::FixView::SetAlignment(a) ==> r == !(a == Alignment::Left || a == Alignment::Right),
        fix@ matches crate::text::FixView::ConvertLiteralBullet(marker) ==> (match numbering {
            Some((part, xml)) => match document_tokens(xml@) {
                Ok(_) => exists|ts: Seq<Token>| #[trigger] reads_as(xml@, ts)
                    && (r <==> crate::word::spec_bullet_list(ts, marker) is Some),
                Err(_) => !r,
            },
            None => !r,
        }),
        !(fix@ is SetAlignment || fix@ is ConvertLiteralBullet) ==> r,
{
    match fix {
        crate::text::Fix::SetAlignment(a) => !(*a == Alignment::Left || *a == Alignment::Right),
        crate::text::Fix::ConvertLiteralBullet { marker } => match numbering {
            Some((part, xml)) => match crate::word::bullet_list(part, xml, *marker) {
                Ok(Some(_)) => true,
                _ => false,
            },
            None => false,
        },
        _ => true,
    }
}

} // verus!
