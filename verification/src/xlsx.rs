//! Excel workbooks: the ids a cell and a sheet's grid are reported under, and
//! the column an A1-style reference names.
//!
//! A cell is a paragraph, and the worksheet around it is the container whose
//! `sheetView/@rightToLeft` decides which side column A sits on. A cell's id
//! is the worksheet part and the cell's 1-based ordinal among every `<c>` in
//! the sheet; the grid's is the part and `#tbl1`, one per sheet.
use vstd::prelude::*;
use std::path::Path;
use crate::package::Package;
use crate::ids::{
    decimal, decimal_of, parse_ordinal, parse_usize,
    lemma_ordinal_after_issued, lemma_split_issued, make_id, ordinal_after, ordinal_after_exec,
    spec_id, split_at_last_hash, split_id,
};
use crate::strs::{chars_eq, chars_of, owned, push_all, string_of};
use crate::chart::joined;
use crate::inherit::{opt_view, trim_chars, trimmed};
use crate::pptx::{direction_of, spec_direction_of};
use crate::text::{unit_views, Bullet, Direction, Location, LocationView, Properties, PropertiesView, Resolved, ResolvedView, TextUnit, UnitId, UnitKind, UnitView};
use crate::workbook::{spec_alignment, spec_direction, spec_font, spec_workbook_language, Sheet, Workbook, WorkbookView};
use crate::xml::{document_tokens, read_failure, reads_as, attribute, decode_text, decoded_text, read_events, spec_attribute, tag_name, tag_name_of, Kind, Token};
use crate::error::Error;

verus! {

broadcast use vstd::string::group_string_axioms;

/// The unit id for a cell: the worksheet part and the cell's ordinal.
pub fn unit_id(part: &str, index: usize) -> (r: String)
    ensures
        r@ == spec_id(part@, "p"@, index as nat),
{
    make_id(part, "p", index)
}

/// The unit id for a worksheet's grid. One per part, so the ordinal is
/// always `1`; it is written out so the shape matches every other table id.
pub fn grid_id(part: &str) -> (r: String)
    ensures
        r@ == spec_id(part@, "tbl"@, 1),
{
    make_id(part, "tbl", 1)
}

/// What a unit id this adapter issued points at.
#[derive(Debug, Clone, Copy, PartialEq, Eq, Structural)]
pub enum Target {
    Cell(usize),
    Grid,
}

/// The part and target an id names, for an id this adapter issues.
pub open spec fn spec_parse_unit_id(id: Seq<char>) -> Option<(Seq<char>, Target)> {
    match split_id(id) {
        Some((part, rest)) => {
            let target = if rest == "tbl1"@ {
                Some(Target::Grid)
            } else {
                match ordinal_after(rest, "p"@) {
                    Some(n) => Some(Target::Cell(n as usize)),
                    None => None,
                }
            };
            match target {
                Some(t) => if part.len() > 0 { Some((part, t)) } else { None },
                None => None,
            }
        },
        None => None,
    }
}

/// Recover the part and target from an id this adapter issued; `None` for
/// any other id.
pub fn parse_unit_id(id: &str) -> (r: Option<(String, Target)>)
    ensures
        r matches Some(p) ==> spec_parse_unit_id(id@) == Some((p.0@, p.1)),
        r is None ==> spec_parse_unit_id(id@) is None,
{
    let (part, rest) = match split_at_last_hash(id) {
        Some(split) => split,
        None => return None,
    };
    let target = if chars_eq(&rest, &chars_of("tbl1")) {
        Target::Grid
    } else {
        match ordinal_after_exec(&rest, "p") {
            Some(n) => Target::Cell(n),
            None => return None,
        }
    };
    if part.len() == 0 {
        return None;
    }
    Some((string_of(&part), target))
}

/// An id this adapter issues reads back as the cell or grid it was issued
/// for.
pub proof fn lemma_unit_id_round_trip(part: Seq<char>, index: nat)
    requires
        part.len() > 0,
        0 < index <= usize::MAX,
    ensures
        spec_parse_unit_id(spec_id(part, "p"@, index)) == Some((part, Target::Cell(index as usize))),
        spec_parse_unit_id(spec_id(part, "tbl"@, 1)) == Some((part, Target::Grid)),
{
    reveal_strlit("p");
    reveal_strlit("tbl");
    reveal_strlit("tbl1");
    lemma_split_issued(part, "p"@, index);
    lemma_split_issued(part, "tbl"@, 1);
    lemma_ordinal_after_issued("p"@, index);
    assert(("p"@ + crate::ids::decimal(index))[0] == 'p');
    assert("p"@ + crate::ids::decimal(index) != "tbl1"@);
    assert("tbl"@ + crate::ids::decimal(1) =~= "tbl1"@);
}

/// The value of the letters of a column reference, `A` as 1 and `Z` as 26,
/// read as a base-26 numeral.
pub open spec fn letters_value(letters: Seq<char>) -> nat
    decreases letters.len(),
{
    if letters.len() == 0 {
        0
    } else {
        letters_value(letters.drop_last()) * 26 + letter_value(letters.last())
    }
}

/// An ASCII letter's place in the alphabet, from 1, either case.
pub open spec fn letter_value(c: char) -> nat {
    if 'A' <= c <= 'Z' {
        (c as int - 'A' as int + 1) as nat
    } else if 'a' <= c <= 'z' {
        (c as int - 'a' as int + 1) as nat
    } else {
        0
    }
}

pub open spec fn is_ascii_letter(c: char) -> bool {
    ('A' <= c <= 'Z') || ('a' <= c <= 'z')
}

/// The ASCII letters a string starts with.
pub open spec fn leading_letters(s: Seq<char>) -> Seq<char>
    decreases s.len(),
{
    if s.len() > 0 && is_ascii_letter(s[0]) {
        seq![s[0]] + leading_letters(s.drop_first())
    } else {
        seq![]
    }
}

/// The column an A1-style reference names, zero-based: `A` is 0, `AA` is 26.
/// Nothing for a reference that names no column, or one whose column does
/// not fit a `usize`.
pub open spec fn spec_column_of(reference: Seq<char>) -> Option<nat> {
    let letters = leading_letters(reference);
    if letters.len() == 0 || letters_value(letters) > usize::MAX {
        None
    } else {
        Some((letters_value(letters) - 1) as nat)
    }
}

proof fn lemma_letters_value_positive(letters: Seq<char>)
    requires
        letters.len() > 0,
        forall|i: int| 0 <= i < letters.len() ==> is_ascii_letter(#[trigger] letters[i]),
    ensures
        letters_value(letters) >= 1,
    decreases letters.len(),
{
    assert(is_ascii_letter(letters[letters.len() - 1]));
}

proof fn lemma_letters_value_prefix(letters: Seq<char>, n: int)
    requires
        0 <= n <= letters.len(),
    ensures
        letters_value(letters.take(n)) <= letters_value(letters),
    decreases letters.len() - n,
{
    if n < letters.len() {
        lemma_letters_value_prefix(letters, n + 1);
        assert(letters.take(n + 1).drop_last() =~= letters.take(n));
    } else {
        assert(letters.take(n) =~= letters);
    }
}

proof fn lemma_leading_letters(s: Seq<char>)
    ensures
        leading_letters(s).len() <= s.len(),
        forall|i: int| 0 <= i < leading_letters(s).len() ==> #[trigger] leading_letters(s)[i] == s[i] && is_ascii_letter(s[i]),
        leading_letters(s).len() < s.len() ==> !is_ascii_letter(s[leading_letters(s).len() as int]),
    decreases s.len(),
{
    if s.len() > 0 && is_ascii_letter(s[0]) {
        lemma_leading_letters(s.drop_first());
        let l = leading_letters(s);
        assert forall|i: int| 0 <= i < l.len() implies #[trigger] l[i] == s[i] && is_ascii_letter(s[i]) by {
            if i > 0 {
                assert(l[i] == leading_letters(s.drop_first())[i - 1]);
            }
        }
    }
}

/// The column an A1-style reference names, zero-based: `A` is 0, `AA` is 26.
///
/// `None` for a reference that names no column, which is a reference this
/// adapter did not understand rather than one it may guess at.
pub fn column_of(reference: &str) -> (r: Option<usize>)
    ensures
        r matches Some(n) ==> spec_column_of(reference@) == Some(n as nat),
        r is None ==> spec_column_of(reference@) is None,
{
    let c = chars_of(reference);
    proof {
        lemma_leading_letters(c@);
    }
    let ghost letters = leading_letters(c@);
    assert(leading_letters(c@).len() <= c@.len());
    assert forall|k: int| 0 <= k < letters.len() implies #[trigger] letters[k] == c@[k] && is_ascii_letter(c@[k]) by {
        lemma_leading_letters(c@);
        assert(0 <= k < leading_letters(c@).len());
        assert(leading_letters(c@)[k] == c@[k]);
    }
    assert(letters.take(0) =~= Seq::<char>::empty());
    let mut acc: usize = 0;
    let mut i: usize = 0;
    while i < c.len() && (('A' <= c[i] && c[i] <= 'Z') || ('a' <= c[i] && c[i] <= 'z'))
        invariant
            i <= c@.len(),
            c@ == reference@,
            letters == leading_letters(c@),
            letters.len() <= c@.len(),
            forall|k: int| 0 <= k < letters.len() ==> #[trigger] letters[k] == c@[k] && is_ascii_letter(c@[k]),
            letters.len() < c@.len() ==> !is_ascii_letter(c@[letters.len() as int]),
            i <= letters.len(),
            acc as nat == letters_value(letters.take(i as int)),
        decreases c@.len() - i,
    {
        let ch = c[i];
        let d: usize = if 'A' <= ch && ch <= 'Z' {
            (ch as u32 - 'A' as u32 + 1) as usize
        } else {
            (ch as u32 - 'a' as u32 + 1) as usize
        };
        assert(i < letters.len()) by {
            if i == letters.len() {
                assert(!is_ascii_letter(c@[i as int]));
            }
        }
        let ghost before = letters.take(i as int);
        let ghost after = letters.take(i + 1);
        assert(after.drop_last() =~= before);
        assert(after.last() == ch);
        assert(d as nat == letter_value(ch));
        assert(letters_value(after) == letters_value(before) * 26 + d);
        if acc > (usize::MAX - d) / 26 {
            proof {
                assert(letters_value(after) > usize::MAX) by (nonlinear_arith)
                    requires
                        acc > (usize::MAX - d) / 26,
                        letters_value(after) == acc * 26 + d,
                        d <= 26;
                lemma_letters_value_prefix(letters, i + 1);
            }
            return None;
        }
        assert(acc * 26 + d <= usize::MAX) by (nonlinear_arith)
            requires
                acc <= (usize::MAX - d) / 26,
                d <= 26;
        acc = acc * 26 + d;
        i += 1;
    }
    assert(!(i < c@.len() && is_ascii_letter(c@[i as int])));
    assert(i == letters.len()) by {
        if i < letters.len() {
            assert(letters[i as int] == c@[i as int]);
        }
    }
    assert(letters.take(i as int) =~= letters);
    if i == 0 {
        return None;
    }
    proof {
        lemma_letters_value_positive(letters);
    }
    Some(acc - 1)
}

// ------------------------------------------------------------ scanning a sheet

/// A cell being read.
pub struct CellScanView {
    /// The ordinal its id carries.
    pub index: nat,
    /// `@r`, the A1 reference.
    pub reference: Option<Seq<char>>,
    /// `@t`, the cell's type.
    pub kind: Option<Seq<char>>,
    /// `@s`, the index into `cellXfs`; `0` when absent.
    pub style: nat,
    /// Whether it carries an `<f>`.
    pub formula: bool,
    /// `<v>` content.
    pub value: Seq<char>,
    /// `<is>` content.
    pub inline: Seq<char>,
    /// The column it is in: from `@r`, or from its position in the row.
    pub column: nat,
}

/// One cell that produced text.
pub struct CellView {
    pub index: nat,
    pub text: Seq<char>,
    pub style: nat,
    pub column: nat,
    /// `Sheet1!C5`, as a person would type it into the Name Box.
    pub reference: Seq<char>,
}

/// What a scan of a worksheet has gathered so far.
pub struct SheetState {
    /// The first sheet view's `rightToLeft`.
    pub direction: Option<Direction>,
    pub seen_view: bool,
    pub in_data: bool,
    pub cells: Seq<CellView>,
    /// Formula cells holding a cached text result: their name and that text.
    pub formulas: Seq<(Seq<char>, Seq<char>)>,
    pub seen: nat,
    pub in_row: nat,
    pub open: Option<CellScanView>,
    pub in_value: bool,
    pub in_inline: bool,
    pub in_text: bool,
    pub phonetic: nat,
}

pub open spec fn sheet_start() -> SheetState {
    SheetState {
        direction: None,
        seen_view: false,
        in_data: false,
        cells: seq![],
        formulas: seq![],
        seen: 0,
        in_row: 0,
        open: None,
        in_value: false,
        in_inline: false,
        in_text: false,
        phonetic: 0,
    }
}

/// The cell a `<c>` tag opens.
pub open spec fn cell_opened(st: SheetState, content: Seq<char>) -> CellScanView {
    let reference = spec_attribute(content, "r"@);
    CellScanView {
        index: st.seen + 1,
        reference,
        kind: spec_attribute(content, "t"@),
        style: match spec_attribute(content, "s"@) {
            Some(v) => match parse_usize(trimmed(v)) {
                Some(n) => n,
                None => 0,
            },
            None => 0,
        },
        formula: false,
        value: seq![],
        inline: seq![],
        column: match reference {
            Some(r) => match spec_column_of(r) {
                Some(c) => c,
                None => st.in_row,
            },
            None => st.in_row,
        },
    }
}

/// An element opens (or, when `empty`, opens and closes).
pub open spec fn sheet_open(st: SheetState, name: Seq<char>, content: Seq<char>, empty: bool) -> SheetState {
    if name == "sheetView"@ && !st.seen_view {
        SheetState {
            seen_view: true,
            direction: match spec_attribute(content, "rightToLeft"@) {
                Some(v) => Some(spec_direction_of(v)),
                None => None,
            },
            ..st
        }
    } else if name == "sheetData"@ {
        SheetState { in_data: true, ..st }
    } else if name == "row"@ && st.in_data {
        SheetState { in_row: 0, ..st }
    } else if name == "c"@ && st.in_data {
        let cell = cell_opened(st, content);
        SheetState {
            seen: st.seen + 1,
            in_row: st.in_row + 1,
            open: if empty { st.open } else { Some(cell) },
            ..st
        }
    } else if name == "f"@ && st.open is Some {
        SheetState { open: Some(CellScanView { formula: true, ..st.open->0 }), ..st }
    } else if name == "v"@ && st.open is Some && !empty {
        SheetState { in_value: true, ..st }
    } else if name == "is"@ && st.open is Some {
        SheetState { in_inline: true, ..st }
    } else if name == "rPh"@ && st.in_inline {
        SheetState { phonetic: st.phonetic + 1, ..st }
    } else if name == "t"@ && st.in_inline && st.phonetic == 0 && !empty {
        SheetState { in_text: true, ..st }
    } else {
        st
    }
}

/// The text a finished cell shows: a shared string by index, an inline
/// string, or a formula's cached string; nothing for a number, a boolean,
/// an error or a date.
pub open spec fn cell_text(w: WorkbookView, c: CellScanView) -> Option<Seq<char>> {
    match c.kind {
        Some(k) => if k == "s"@ {
            match parse_usize(trimmed(c.value)) {
                Some(i) => if i < w.strings.len() {
                    Some(w.strings[i as int])
                } else {
                    None
                },
                None => None,
            }
        } else if k == "inlineStr"@ {
            Some(c.inline)
        } else if k == "str"@ {
            Some(c.value)
        } else {
            None
        },
        None => None,
    }
}

/// How a person names a cell: `Sheet1!C5`, or `Sheet1!cell 7` when it
/// states no reference.
pub open spec fn cell_name(sheet: Seq<char>, c: CellScanView) -> Seq<char> {
    sheet + seq!['!'] + match c.reference {
        Some(r) => r,
        None => "cell "@ + decimal(c.index),
    }
}

/// A finished cell: a text cell, a formula result kept apart from the text
/// judged, or nothing.
pub open spec fn cell_finished(w: WorkbookView, sheet: Seq<char>, st: SheetState, c: CellScanView) -> SheetState {
    match cell_text(w, c) {
        Some(text) => if text.len() == 0 {
            st
        } else if c.formula || c.kind == Some("str"@) {
            SheetState { formulas: st.formulas.push((cell_name(sheet, c), text)), ..st }
        } else {
            SheetState {
                cells: st.cells.push(CellView { index: c.index, text, style: c.style, column: c.column, reference: cell_name(sheet, c) }),
                ..st
            }
        },
        None => st,
    }
}

pub open spec fn sheet_close(w: WorkbookView, sheet: Seq<char>, st: SheetState, name: Seq<char>) -> SheetState {
    if name == "sheetData"@ {
        SheetState { in_data: false, ..st }
    } else if name == "v"@ {
        SheetState { in_value: false, ..st }
    } else if name == "is"@ {
        SheetState { in_inline: false, ..st }
    } else if name == "rPh"@ {
        SheetState { phonetic: if st.phonetic > 0 { (st.phonetic - 1) as nat } else { 0 }, ..st }
    } else if name == "t"@ {
        SheetState { in_text: false, ..st }
    } else if name == "c"@ {
        match st.open {
            Some(c) => cell_finished(w, sheet, SheetState { open: None, ..st }, c),
            None => st,
        }
    } else {
        st
    }
}

/// Text inside an open cell: its value when in `<v>`, its inline string
/// when in an `<is>`'s `<t>`.
pub open spec fn sheet_text(st: SheetState, piece: Seq<char>) -> SheetState {
    match st.open {
        Some(c) => if st.in_value {
            SheetState { open: Some(CellScanView { value: c.value + piece, ..c }), ..st }
        } else if st.in_text {
            SheetState { open: Some(CellScanView { inline: c.inline + piece, ..c }), ..st }
        } else {
            st
        },
        None => st,
    }
}

pub open spec fn sheet_step(w: WorkbookView, sheet: Seq<char>, st: SheetState, t: Token) -> SheetState {
    match t.kind {
        Kind::Start => sheet_open(st, tag_name(t.text@), t.text@, false),
        Kind::Empty => sheet_open(st, tag_name(t.text@), t.text@, true),
        Kind::End => sheet_close(w, sheet, st, t.text@),
        Kind::Text => sheet_text(st, decoded_text(t.text@)),
        _ => st,
    }
}

/// What a scan of a worksheet named `sheet` gathers from its tokens.
pub open spec fn sheet_after(w: WorkbookView, sheet: Seq<char>, ev: Seq<Token>) -> SheetState
    decreases ev.len(),
{
    if ev.len() == 0 {
        sheet_start()
    } else {
        sheet_step(w, sheet, sheet_after(w, sheet, ev.drop_last()), ev.last())
    }
}

/// What `{:?}` writes for a string (`<str as Debug>::fmt`): the string
/// between double quotes, with a double quote, a backslash and the
/// characters Debug escapes written as escapes, and a single quote left as
/// it is.
pub uninterp spec fn debug_quoted(s: Seq<char>) -> Seq<char>;

/// A string as `{:?}` writes it (`<str as Debug>::fmt`).
#[verifier::external_body]
fn debug_string(s: &str) -> (r: String)
    ensures
        r@ == debug_quoted(s@),
{
    format!("{:?}", s)
}

/// The unit a text cell lowers into: its properties are the workbook's
/// chain for its format record, and its one typeface answers both slots.
pub open spec fn cell_unit(w: WorkbookView, part: Seq<char>, direction: Option<Direction>, c: CellView) -> UnitView {
    let font = spec_font(w, c.style);
    UnitView {
        id: spec_id(part, "p"@, c.index),
        text: c.text,
        kind: UnitKind::Paragraph,
        props: PropertiesView {
            direction: spec_direction(w, c.style, match direction {
                Some(d) => Some((d, part)),
                None => None,
            }),
            alignment: spec_alignment(w, c.style),
            language: spec_workbook_language(w),
            complex_font: font,
            latin_font: font,
            bullet: Bullet::Absent,
        },
        location: LocationView { part, paragraph: Some(c.index as usize), container: Some(c.reference) },
    }
}

pub open spec fn cell_units(w: WorkbookView, part: Seq<char>, direction: Option<Direction>, cells: Seq<CellView>) -> Seq<UnitView>
    decreases cells.len(),
{
    if cells.len() == 0 {
        seq![]
    } else {
        cell_units(w, part, direction, cells.drop_last()).push(cell_unit(w, part, direction, cells.last()))
    }
}

pub open spec fn cell_texts(cells: Seq<CellView>) -> Seq<Seq<char>> {
    cells.map_values(|c: CellView| c.text)
}

/// Whether the cells with text sit in two or more columns.
pub open spec fn spans_columns(cells: Seq<CellView>) -> bool {
    exists|i: int, j: int| 0 <= i < cells.len() && 0 <= j < cells.len() && #[trigger] cells[i].column != #[trigger] cells[j].column
}

/// A worksheet's units: one per text cell, and the grid when the text spans
/// two or more columns, carrying the sheet's own direction.
pub open spec fn sheet_units(w: WorkbookView, name: Seq<char>, part: Seq<char>, direction: Option<Direction>, cells: Seq<CellView>) -> Seq<UnitView> {
    let units = cell_units(w, part, direction, cells);
    if spans_columns(cells) {
        units.push(UnitView {
            id: spec_id(part, "tbl"@, 1),
            text: joined(cell_texts(cells)),
            kind: UnitKind::Table,
            props: PropertiesView {
                direction: match direction {
                    Some(d) => ResolvedView::Explicit(d),
                    None => ResolvedView::Unset,
                },
                alignment: ResolvedView::Unset,
                language: ResolvedView::Unset,
                complex_font: ResolvedView::Unset,
                latin_font: ResolvedView::Unset,
                bullet: Bullet::Absent,
            },
            location: LocationView { part, paragraph: None, container: Some("sheet "@ + debug_quoted(name)) },
        })
    } else {
        units
    }
}

// ------------------------------------------------------------ the scanner

struct CellScan {
    index: usize,
    reference: Option<String>,
    kind: Option<String>,
    style: usize,
    formula: bool,
    value: Vec<char>,
    inline: Vec<char>,
    column: usize,
}

spec fn cell_scan_view(c: CellScan) -> CellScanView {
    CellScanView {
        index: c.index as nat,
        reference: opt_view(c.reference),
        kind: opt_view(c.kind),
        style: c.style as nat,
        formula: c.formula,
        value: c.value@,
        inline: c.inline@,
        column: c.column as nat,
    }
}

/// One cell that produced text.
pub struct Cell {
    pub index: usize,
    pub text: String,
    pub style: usize,
    pub column: usize,
    /// `Sheet1!C5`.
    pub reference: String,
}

pub open spec fn cell_view(c: Cell) -> CellView {
    CellView { index: c.index as nat, text: c.text@, style: c.style as nat, column: c.column as nat, reference: c.reference@ }
}

pub open spec fn cell_views(s: Seq<Cell>) -> Seq<CellView> {
    s.map_values(|c: Cell| cell_view(c))
}

pub open spec fn formula_views(s: Seq<(String, String)>) -> Seq<(Seq<char>, Seq<char>)> {
    s.map_values(|f: (String, String)| (f.0@, f.1@))
}

/// One worksheet's reading: its declared grid direction, its text cells,
/// and its formula cells' cached text results, which are not the document's
/// text and are not judged.
pub struct SheetScan {
    pub direction: Option<Direction>,
    pub cells: Vec<Cell>,
    /// Each formula result's cell name and cached text.
    pub formulas: Vec<(String, String)>,
}

struct SheetScanner {
    direction: Option<Direction>,
    seen_view: bool,
    in_data: bool,
    cells: Vec<Cell>,
    formulas: Vec<(String, String)>,
    seen: usize,
    in_row: usize,
    open: Option<CellScan>,
    in_value: bool,
    in_inline: bool,
    in_text: bool,
    phonetic: usize,
}

spec fn scanner_view(s: SheetScanner) -> SheetState {
    SheetState {
        direction: s.direction,
        seen_view: s.seen_view,
        in_data: s.in_data,
        cells: cell_views(s.cells@),
        formulas: formula_views(s.formulas@),
        seen: s.seen as nat,
        in_row: s.in_row as nat,
        open: match s.open {
            Some(c) => Some(cell_scan_view(c)),
            None => None,
        },
        in_value: s.in_value,
        in_inline: s.in_inline,
        in_text: s.in_text,
        phonetic: s.phonetic as nat,
    }
}

fn named(name: &[char], lit: &str) -> (r: bool)
    ensures
        r == (name@ == lit@),
{
    chars_eq(name, &chars_of(lit))
}

fn opt_is(v: &Option<String>, lit: &str) -> (r: bool)
    ensures
        r == (opt_view(*v) == Some(lit@)),
{
    match v {
        Some(s) => named(&chars_of(s.as_str()), lit),
        None => false,
    }
}

impl SheetScanner {
    fn open_tag(&mut self, name: &[char], tag: &Token, empty: bool)
        requires
            old(self).seen < usize::MAX,
            old(self).in_row < usize::MAX,
            old(self).phonetic < usize::MAX,
        ensures
            scanner_view(*final(self)) == sheet_open(scanner_view(*old(self)), name@, tag.text@, empty),
            final(self).seen <= old(self).seen + 1,
            final(self).in_row <= old(self).in_row + 1,
            final(self).phonetic <= old(self).phonetic + 1,
    {
        if named(name, "sheetView") && !self.seen_view {
            self.seen_view = true;
            self.direction = match attribute(tag, "rightToLeft") {
                Some(v) => Some(direction_of(v.as_str())),
                None => None,
            };
        } else if named(name, "sheetData") {
            self.in_data = true;
        } else if named(name, "row") && self.in_data {
            self.in_row = 0;
        } else if named(name, "c") && self.in_data {
            self.seen = self.seen + 1;
            let reference = attribute(tag, "r");
            let column = match &reference {
                Some(r) => match column_of(r.as_str()) {
                    Some(c) => c,
                    None => self.in_row,
                },
                None => self.in_row,
            };
            self.in_row = self.in_row + 1;
            let style: usize = match attribute(tag, "s") {
                Some(v) => match parse_ordinal(&trim_chars(&chars_of(v.as_str()))) {
                    Some(n) => n,
                    None => 0,
                },
                None => 0,
            };
            let cell = CellScan {
                index: self.seen,
                reference,
                kind: attribute(tag, "t"),
                style,
                formula: false,
                value: Vec::new(),
                inline: Vec::new(),
                column,
            };
            assert(cell.value@ =~= Seq::<char>::empty());
            assert(cell.inline@ =~= Seq::<char>::empty());
            if !empty {
                self.open = Some(cell);
            }
        } else if named(name, "f") && self.open.is_some() {
            let mut c = self.open.take().unwrap();
            c.formula = true;
            self.open = Some(c);
        } else if named(name, "v") && self.open.is_some() && !empty {
            self.in_value = true;
        } else if named(name, "is") && self.open.is_some() {
            self.in_inline = true;
        } else if named(name, "rPh") && self.in_inline {
            self.phonetic = self.phonetic + 1;
        } else if named(name, "t") && self.in_inline && self.phonetic == 0 && !empty {
            self.in_text = true;
        }
    }

    /// A finished cell, sorted into the text cells or the formula results.
    fn finish_cell(&mut self, sheet: &str, c: CellScan, workbook: &Workbook)
        ensures
            scanner_view(*final(self)) == cell_finished(workbook@, sheet@, scanner_view(*old(self)), cell_scan_view(c)),
            final(self).seen == old(self).seen,
            final(self).in_row == old(self).in_row,
            final(self).phonetic == old(self).phonetic,
    {
        let ghost cv = cell_scan_view(c);
        let text: Option<String> = match &c.kind {
            Some(k) => {
                let kc = chars_of(k.as_str());
                if named(&kc, "s") {
                    match parse_ordinal(&trim_chars(&c.value)) {
                        Some(i) => match workbook.shared_string(i) {
                            Some(t) => Some(owned(t)),
                            None => None,
                        },
                        None => None,
                    }
                } else if named(&kc, "inlineStr") {
                    Some(string_of(&c.inline))
                } else if named(&kc, "str") {
                    Some(string_of(&c.value))
                } else {
                    None
                }
            },
            None => None,
        };
        let text = match text {
            Some(t) => t,
            None => return,
        };
        if chars_of(text.as_str()).len() == 0 {
            return;
        }
        let mut name = chars_of(sheet);
        name.push('!');
        match &c.reference {
            Some(r) => push_all(&mut name, &chars_of(r.as_str())),
            None => {
                push_all(&mut name, &chars_of("cell "));
                push_all(&mut name, &chars_of(decimal_of(c.index).as_str()));
            },
        }
        proof {
            assert(name@ =~= cell_name(sheet@, cv));
        }
        let named_cell = string_of(&name);
        if c.formula || opt_is(&c.kind, "str") {
            let ghost before = self.formulas@;
            let ghost fv = (named_cell@, text@);
            self.formulas.push((named_cell, text));
            assert(formula_views(self.formulas@) =~= formula_views(before).push(fv));
        } else {
            let cell = Cell { index: c.index, text, style: c.style, column: c.column, reference: named_cell };
            let ghost before = self.cells@;
            let ghost nv = cell_view(cell);
            self.cells.push(cell);
            assert(cell_views(self.cells@) =~= cell_views(before).push(nv));
        }
    }

    fn close_tag(&mut self, sheet: &str, name: &[char], workbook: &Workbook)
        ensures
            scanner_view(*final(self)) == sheet_close(workbook@, sheet@, scanner_view(*old(self)), name@),
            final(self).seen == old(self).seen,
            final(self).in_row == old(self).in_row,
            final(self).phonetic <= old(self).phonetic,
    {
        if named(name, "sheetData") {
            self.in_data = false;
        } else if named(name, "v") {
            self.in_value = false;
        } else if named(name, "is") {
            self.in_inline = false;
        } else if named(name, "rPh") {
            self.phonetic = if self.phonetic > 0 { self.phonetic - 1 } else { 0 };
        } else if named(name, "t") {
            self.in_text = false;
        } else if named(name, "c") {
            match self.open.take() {
                Some(c) => self.finish_cell(sheet, c, workbook),
                None => {},
            }
        }
    }

    fn add_text(&mut self, piece: Vec<char>)
        ensures
            scanner_view(*final(self)) == sheet_text(scanner_view(*old(self)), piece@),
            final(self).seen == old(self).seen,
            final(self).in_row == old(self).in_row,
            final(self).phonetic == old(self).phonetic,
    {
        if self.open.is_some() && (self.in_value || self.in_text) {
            let mut c = self.open.take().unwrap();
            if self.in_value {
                push_all(&mut c.value, &piece);
            } else {
                push_all(&mut c.inline, &piece);
            }
            self.open = Some(c);
        }
    }
}

/// Read a worksheet's token stream, resolving shared strings through
/// `workbook`.
pub fn scan_sheet_events(name: &str, events: &[Token], workbook: &Workbook) -> (r: SheetScan)
    ensures
        r.direction == sheet_after(workbook@, name@, events@).direction,
        cell_views(r.cells@) == sheet_after(workbook@, name@, events@).cells,
        formula_views(r.formulas@) == sheet_after(workbook@, name@, events@).formulas,
{
    let mut sc = SheetScanner {
        direction: None,
        seen_view: false,
        in_data: false,
        cells: Vec::new(),
        formulas: Vec::new(),
        seen: 0,
        in_row: 0,
        open: None,
        in_value: false,
        in_inline: false,
        in_text: false,
        phonetic: 0,
    };
    assert(cell_views(sc.cells@) =~= seq![]);
    assert(formula_views(sc.formulas@) =~= seq![]);
    let mut i: usize = 0;
    assert(events@.take(0) =~= Seq::<Token>::empty());
    while i < events.len()
        invariant
            i <= events@.len(),
            scanner_view(sc) == sheet_after(workbook@, name@, events@.take(i as int)),
            sc.seen <= i,
            sc.in_row <= i,
            sc.phonetic <= i,
        decreases events@.len() - i,
    {
        let t = &events[i];
        assert(events@.take(i + 1).drop_last() =~= events@.take(i as int));
        assert(events@.take(i + 1).last() == *t);
        match t.kind {
            Kind::Start => {
                let tag = tag_name_of(t.text.as_str());
                sc.open_tag(&tag, t, false);
            },
            Kind::Empty => {
                let tag = tag_name_of(t.text.as_str());
                sc.open_tag(&tag, t, true);
            },
            Kind::End => {
                let tag = chars_of(t.text.as_str());
                sc.close_tag(name, &tag, workbook);
            },
            Kind::Text => sc.add_text(decode_text(t.text.as_str())),
            _ => {},
        }
        i += 1;
    }
    assert(events@.take(i as int) =~= events@);
    SheetScan { direction: sc.direction, cells: sc.cells, formulas: sc.formulas }
}

/// Parse one worksheet part. Only a part the parser rejects fails.
pub fn scan_sheet(name: &str, xml: &str, workbook: &Workbook) -> (r: Result<SheetScan, Error>)
    ensures
        r is Ok <==> document_tokens(xml@) is Ok,
        r matches Err(e) ==> read_failure(name@, xml@, e),
        r matches Ok(s) ==> exists|ts: Seq<Token>| #[trigger] reads_as(xml@, ts)
            && sheet_after(workbook@, name@, ts).cells == cell_views(s.cells@)
            && sheet_after(workbook@, name@, ts).direction == s.direction
            && sheet_after(workbook@, name@, ts).formulas == formula_views(s.formulas@),
{
    let events = read_events(name, xml)?;
    assert(reads_as(xml@, events@));
    Ok(scan_sheet_events(name, &events, workbook))
}

/// The cells' texts joined one per line.
fn join_cells(cells: &Vec<Cell>) -> (r: String)
    ensures
        r@ == joined(cell_texts(cell_views(cells@))),
{
    let ghost texts = cell_texts(cell_views(cells@));
    let mut out: Vec<char> = Vec::new();
    let mut i: usize = 0;
    while i < cells.len()
        invariant
            i <= cells@.len(),
            texts == cell_texts(cell_views(cells@)),
            out@ == joined(texts.take(i as int)),
        decreases cells@.len() - i,
    {
        let ghost prefix = texts.take(i + 1);
        assert(prefix.drop_last() =~= texts.take(i as int));
        assert(prefix.last() == cells@[i as int].text@);
        if i > 0 {
            out.push('\n');
        }
        push_all(&mut out, &chars_of(cells[i].text.as_str()));
        i += 1;
    }
    assert(texts.take(i as int) =~= texts);
    string_of(&out)
}

/// Whether the cells sit in two or more columns.
fn spans(cells: &Vec<Cell>) -> (r: bool)
    ensures
        r == spans_columns(cell_views(cells@)),
{
    if cells.len() == 0 {
        return false;
    }
    let first = cells[0].column;
    let mut i: usize = 1;
    while i < cells.len()
        invariant
            1 <= i <= cells@.len(),
            first == cells@[0].column,
            forall|j: int| 0 <= j < i ==> cells@[j].column == first,
        decreases cells@.len() - i,
    {
        if cells[i].column != first {
            assert(cell_views(cells@)[0].column != cell_views(cells@)[i as int].column);
            return true;
        }
        i += 1;
    }
    proof {
        if spans_columns(cell_views(cells@)) {
            let (a, b) = choose|a: int, b: int| 0 <= a < cell_views(cells@).len() && 0 <= b < cell_views(cells@).len()
                && #[trigger] cell_views(cells@)[a].column != #[trigger] cell_views(cells@)[b].column;
            assert(cells@[a].column == first && cells@[b].column == first);
        }
    }
    false
}

/// Lower one worksheet's reading into units.
pub fn units_of(sheet: &Sheet, scan: &SheetScan, workbook: &Workbook) -> (r: Vec<TextUnit>)
    ensures
        unit_views(r@) == sheet_units(workbook@, sheet.name@, sheet.part@, scan.direction, cell_views(scan.cells@)),
{
    let part = sheet.part.as_str();
    let inherited: Option<(Direction, &str)> = match scan.direction {
        Some(d) => Some((d, part)),
        None => None,
    };
    let ghost cv = cell_views(scan.cells@);
    let mut units: Vec<TextUnit> = Vec::new();
    let mut i: usize = 0;
    assert(unit_views(units@) =~= seq![]);
    assert(cv.take(0) =~= Seq::<CellView>::empty());
    while i < scan.cells.len()
        invariant
            i <= scan.cells@.len(),
            cv == cell_views(scan.cells@),
            inherited == (match scan.direction {
                Some(d) => Some((d, part)),
                None => None,
            }),
            part@ == sheet.part@,
            unit_views(units@) == cell_units(workbook@, sheet.part@, scan.direction, cv.take(i as int)),
        decreases scan.cells@.len() - i,
    {
        let cell = &scan.cells[i];
        let font = workbook.font(cell.style);
        let latin = workbook.font(cell.style);
        let u = TextUnit {
            id: UnitId(unit_id(part, cell.index)),
            text: cell.text.clone(),
            kind: UnitKind::Paragraph,
            props: Properties {
                direction: workbook.direction(cell.style, inherited),
                alignment: workbook.alignment(cell.style),
                language: workbook.language(),
                complex_font: font,
                latin_font: latin,
                bullet: Bullet::Absent,
            },
            location: Location { part: owned(part), paragraph: Some(cell.index), container: Some(cell.reference.clone()) },
        };
        assert(cv.take(i + 1).drop_last() =~= cv.take(i as int));
        assert(cv.take(i + 1).last() == cell_view(*cell));
        let ghost before = units@;
        let ghost uv = u@;
        units.push(u);
        assert(unit_views(units@) =~= unit_views(before).push(uv));
        i += 1;
    }
    assert(cv.take(i as int) =~= cv);
    if spans(&scan.cells) {
        let mut container = chars_of("sheet ");
        push_all(&mut container, &chars_of(debug_string(sheet.name.as_str()).as_str()));
        let mut props = Properties::default();
        props.direction = match scan.direction {
            Some(d) => Resolved::Explicit(d),
            None => Resolved::Unset,
        };
        let grid = TextUnit {
            id: UnitId(grid_id(part)),
            text: join_cells(&scan.cells),
            kind: UnitKind::Table,
            props,
            location: Location { part: owned(part), paragraph: None, container: Some(string_of(&container)) },
        };
        let ghost before = units@;
        let ghost gv = grid@;
        units.push(grid);
        assert(unit_views(units@) =~= unit_views(before).push(gv));
    }
    units
}

/// Parse an in-memory worksheet into every unit this adapter produces for
/// it, resolving each cell through `workbook`.
pub fn scan_xml(name: &str, part: &str, xml: &str, workbook: &Workbook) -> (r: Result<Vec<TextUnit>, Error>)
    ensures
        r is Ok <==> document_tokens(xml@) is Ok,
        r matches Err(e) ==> read_failure(name@, xml@, e),
        r matches Ok(u) ==> exists|ts: Seq<Token>| #[trigger] reads_as(xml@, ts) && unit_views(u@) == sheet_units(workbook@, name@, part@,
            sheet_after(workbook@, name@, ts).direction, sheet_after(workbook@, name@, ts).cells),
{
    let sheet = Sheet { name: owned(name), part: owned(part) };
    let scan = scan_sheet(name, xml, workbook)?;
    Ok(units_of(&sheet, &scan, workbook))
}

/// An Excel workbook opened for auditing.
pub struct XlsxDocument {
    package: Package,
}

impl XlsxDocument {
    /// A workbook over a package already opened.
    pub fn new(package: Package) -> (r: Self)
        ensures
            r.package_spec() == package,
    {
        XlsxDocument { package }
    }

    /// The package this workbook is over.
    pub closed spec fn package_spec(&self) -> Package {
        self.package
    }

    /// The path this document was opened from.
    pub fn path(&self) -> &Path {
        self.package.path()
    }

    /// The package underneath, for callers that need part-level access.
    pub fn package(&self) -> (r: &Package)
        ensures
            *r == self.package_spec(),
    {
        &self.package
    }
}

/// Whether SpreadsheetML can express a repair. A language tag is the
/// workbook's and not the cell's, a typeface is one slot and not two, and
/// there is no list to convert a typed bullet into.
pub fn supports(fix: &crate::text::Fix) -> (r: bool)
    ensures
        r == !(fix@ is SetLanguage || fix@ is SetComplexFont || fix@ is ConvertLiteralBullet),
{
    match fix {
        crate::text::Fix::SetLanguage(_) | crate::text::Fix::SetComplexFont(_) | crate::text::Fix::ConvertLiteralBullet { .. } => false,
        _ => true,
    }
}


/// Whether a character is in one of Unicode's Arabic blocks: Arabic, Arabic
/// Supplement, Arabic Extended-A, and the two presentation-form blocks.
pub open spec fn arabic_char(c: char) -> bool {
    let u = c as u32;
    ||| 0x0600 <= u <= 0x06FF
    ||| 0x0750 <= u <= 0x077F
    ||| 0x08A0 <= u <= 0x08FF
    ||| 0xFB50 <= u <= 0xFDFF
    ||| 0xFE70 <= u <= 0xFEFF
}

/// Whether a text holds any Arabic.
pub open spec fn has_arabic(s: Seq<char>) -> bool {
    exists|i: int| 0 <= i < s.len() && #[trigger] arabic_char(s[i])
}

/// The cells, in order, whose formula result holds Arabic: text a formula
/// computes is no unit of its own, as a repair to it would be overwritten
/// the next time the workbook recalculates, so it is named as a source the
/// scan did not read.
pub open spec fn unread_of(formulas: Seq<(Seq<char>, Seq<char>)>) -> Seq<Seq<char>>
    decreases formulas.len(),
{
    if formulas.len() == 0 {
        seq![]
    } else {
        let before = unread_of(formulas.drop_last());
        if has_arabic(formulas.last().1) {
            before.push(formulas.last().0)
        } else {
            before
        }
    }
}

fn holds_arabic(text: &str) -> (r: bool)
    ensures
        r == has_arabic(text@),
{
    let cs = chars_of(text);
    let mut i: usize = 0;
    while i < cs.len()
        invariant
            i <= cs@.len(),
            cs@ == text@,
            forall|j: int| 0 <= j < i ==> !#[trigger] arabic_char(cs@[j]),
        decreases cs@.len() - i,
    {
        let u = cs[i] as u32;
        if (0x0600 <= u && u <= 0x06FF) || (0x0750 <= u && u <= 0x077F) || (0x08A0 <= u && u <= 0x08FF)
            || (0xFB50 <= u && u <= 0xFDFF) || (0xFE70 <= u && u <= 0xFEFF) {
            assert(arabic_char(cs@[i as int]));
            return true;
        }
        i += 1;
    }
    false
}

/// The names of the formula cells a worksheet's reading holds whose cached
/// result holds Arabic, in order: the sources a scan reports as not read.
pub fn unread_sources(formulas: &[(String, String)]) -> (r: Vec<String>)
    ensures
        r@.map_values(|n: String| n@) == unread_of(formula_views(formulas@)),
{
    let ghost fv = formula_views(formulas@);
    let mut r: Vec<String> = Vec::new();
    let mut i: usize = 0;
    assert(fv.take(0) =~= Seq::<(Seq<char>, Seq<char>)>::empty());
    assert(r@.map_values(|n: String| n@) =~= Seq::<Seq<char>>::empty());
    while i < formulas.len()
        invariant
            i <= formulas@.len(),
            fv == formula_views(formulas@),
            fv.len() == formulas@.len(),
            r@.map_values(|n: String| n@) == unread_of(fv.take(i as int)),
        decreases formulas@.len() - i,
    {
        assert(fv.take(i + 1).drop_last() =~= fv.take(i as int));
        assert(fv.take(i + 1).last() == (formulas@[i as int].0@, formulas@[i as int].1@));
        if holds_arabic(formulas[i].1.as_str()) {
            let ghost before = r@;
            r.push(formulas[i].0.clone());
            assert(r@.map_values(|n: String| n@) =~= before.map_values(|n: String| n@).push(formulas@[i as int].0@));
        }
        i += 1;
    }
    assert(fv.take(i as int) =~= fv);
    r
}

} // verus!
