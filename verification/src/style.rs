//! Word's style chain: what a paragraph inherits, and from where.
//!
//! `word/styles.xml` holds the `w:docDefaults` every paragraph starts from,
//! and the named `w:style` definitions a paragraph reaches with
//! `w:pPr/w:pStyle` and a run with `w:rPr/w:rStyle`, each of which may be
//! `w:basedOn` another. Nearest first, a paragraph's unset properties come
//! from the character style its run names and that style's `w:basedOn`
//! chain, then from the paragraph style it names — or, naming none, the
//! document's default paragraph style — and that style's chain, and last
//! from `w:docDefaults`. `w:link` is not a hop.
//!
//! Direction, alignment, the complex-script font slot and whether the
//! paragraph has a real list are resolved. `w:rFonts/@w:cstheme` names a slot
//! of the theme's font scheme rather than a typeface; where a source states
//! both `@w:cstheme` and `@w:cs`, the theme wins and the name is the fallback
//! for a theme that does not answer.
use vstd::prelude::*;
use crate::docx::{parse_alignment, spec_parse_word_alignment};
use crate::error::Error;
use crate::inherit::{last_value, scheme_property, scheme_typeface, trimmed, trim_chars, FontScheme, SchemeView, ThemeFont, ThemeScript};
use crate::strs::{chars_eq, chars_of, owned, push_all, string_of};
use crate::text::{resolved_text_view, Alignment, Bullet, Direction, Origin, Properties, PropertiesView, Resolved, ResolvedView};
use crate::token::{is_true, spec_is_true};
use crate::xml::{document_tokens, read_failure, reads_as, attribute, read_events, spec_attribute, tag_name, tag_name_of, Kind, Token};

verus! {

broadcast use vstd::string::group_string_axioms;

/// How far a `w:basedOn` chain is followed before it is called a cycle.
///
/// A well-formed stylesheet nests a handful of styles deep. The bound exists
/// only so a document whose `w:basedOn` edges form a loop is a document to
/// report on rather than one to hang on; the walk also refuses to visit a
/// style twice.
pub const MAX_DEPTH: usize = 64;

/// The theme slot an `ST_Theme` value names.
pub open spec fn spec_theme_reference(value: Seq<char>) -> Option<(ThemeFont, ThemeScript)> {
    if value == "majorAscii"@ || value == "majorHAnsi"@ {
        Some((ThemeFont::Major, ThemeScript::Latin))
    } else if value == "majorEastAsia"@ {
        Some((ThemeFont::Major, ThemeScript::EastAsian))
    } else if value == "majorBidi"@ {
        Some((ThemeFont::Major, ThemeScript::Complex))
    } else if value == "minorAscii"@ || value == "minorHAnsi"@ {
        Some((ThemeFont::Minor, ThemeScript::Latin))
    } else if value == "minorEastAsia"@ {
        Some((ThemeFont::Minor, ThemeScript::EastAsian))
    } else if value == "minorBidi"@ {
        Some((ThemeFont::Minor, ThemeScript::Complex))
    } else {
        None
    }
}

fn same(a: &str, b: &str) -> (r: bool)
    ensures
        r == (a@ == b@),
{
    chars_eq(&chars_of(a), &chars_of(b))
}

/// The theme slot an `ST_Theme` value names.
///
/// Word spells the reference as a word where DrawingML spells it `+mn-cs`,
/// but both name one slot of one theme's font scheme. `Bidi` is the
/// complex-script slot; the others are read so that a value naming a slot is
/// never mistaken for a typeface called `minorHAnsi`.
pub fn theme_reference(value: &str) -> (r: Option<(ThemeFont, ThemeScript)>)
    ensures
        r == spec_theme_reference(value@),
{
    if same(value, "majorAscii") || same(value, "majorHAnsi") {
        Some((ThemeFont::Major, ThemeScript::Latin))
    } else if same(value, "majorEastAsia") {
        Some((ThemeFont::Major, ThemeScript::EastAsian))
    } else if same(value, "majorBidi") {
        Some((ThemeFont::Major, ThemeScript::Complex))
    } else if same(value, "minorAscii") || same(value, "minorHAnsi") {
        Some((ThemeFont::Minor, ThemeScript::Latin))
    } else if same(value, "minorEastAsia") {
        Some((ThemeFont::Minor, ThemeScript::EastAsian))
    } else if same(value, "minorBidi") {
        Some((ThemeFont::Minor, ThemeScript::Complex))
    } else {
        None
    }
}

/// An attribute's normalised value, discarding one that is present but empty.
pub open spec fn non_empty(v: Option<Seq<char>>) -> Option<Seq<char>> {
    match v {
        Some(x) => if x.len() > 0 { Some(x) } else { None },
        None => None,
    }
}

fn non_empty_attribute(tag: &Token, name: &str) -> (r: Option<String>)
    ensures
        r matches Some(v) ==> non_empty(spec_attribute(tag.text@, name@)) == Some(v@),
        r is None ==> non_empty(spec_attribute(tag.text@, name@)) is None,
{
    match attribute(tag, name) {
        Some(v) => if v.as_str().is_empty() { None } else { Some(v) },
        None => None,
    }
}

/// A complex-script font slot as one source states it, as values.
pub struct FontRefView {
    pub theme: Option<(ThemeFont, ThemeScript)>,
    pub named: Option<Seq<char>>,
}

/// What a `w:rFonts` tag states of the complex-script slot.
pub open spec fn spec_read_font(content: Seq<char>) -> FontRefView {
    FontRefView {
        theme: match non_empty(spec_attribute(content, "w:cstheme"@)) {
            Some(v) => spec_theme_reference(v),
            None => None,
        },
        named: non_empty(spec_attribute(content, "w:cs"@)),
    }
}

/// Each half filled from `b` where `a` has not been given it yet.
pub open spec fn merged(a: FontRefView, b: FontRefView) -> FontRefView {
    FontRefView {
        theme: if a.theme is None { b.theme } else { a.theme },
        named: if a.named is None { b.named } else { a.named },
    }
}

pub open spec fn opt_text(v: Option<String>) -> Option<Seq<char>> {
    match v {
        Some(s) => Some(s@),
        None => None,
    }
}

/// A complex-script font slot as one source states it.
///
/// Both halves are kept rather than one resolved winner, because which one
/// answers is not known until a theme is in hand.
#[derive(Debug, PartialEq, Eq)]
pub struct FontRef {
    /// `@w:cstheme`, if it names a slot.
    theme: Option<(ThemeFont, ThemeScript)>,
    /// `@w:cs`, if it names a typeface.
    named: Option<String>,
}

impl View for FontRef {
    type V = FontRefView;

    closed spec fn view(&self) -> FontRefView {
        FontRefView { theme: self.theme, named: opt_text(self.named) }
    }
}

impl FontRef {
    pub fn new() -> (r: Self)
        ensures
            r@.theme is None,
            r@.named is None,
    {
        FontRef { theme: None, named: None }
    }

    /// Read the complex-script slot off a `w:rFonts`.
    pub fn read(tag: &Token) -> (r: Self)
        ensures
            r@ == spec_read_font(tag.text@),
    {
        let theme = match non_empty_attribute(tag, "w:cstheme") {
            Some(v) => theme_reference(v.as_str()),
            None => None,
        };
        FontRef { theme, named: non_empty_attribute(tag, "w:cs") }
    }

    pub fn is_empty(&self) -> (r: bool)
        ensures
            r == (self@.theme is None && self@.named is None),
    {
        self.theme.is_none() && self.named.is_none()
    }

    /// Fill in whichever half this reference has not been given yet: first
    /// writer wins per half.
    pub fn merge(&mut self, other: Self)
        ensures
            final(self)@ == merged(old(self)@, other@),
    {
        if self.theme.is_none() {
            self.theme = other.theme;
        }
        if self.named.is_none() {
            self.named = other.named;
        }
    }
}

/// The properties one style source states, as values.
pub struct FormattingView {
    pub direction: Option<Direction>,
    pub alignment: Option<Alignment>,
    pub complex_font: FontRefView,
    pub bullet: Option<Bullet>,
}

pub open spec fn no_formatting() -> FormattingView {
    FormattingView { direction: None, alignment: None, complex_font: FontRefView { theme: None, named: None }, bullet: None }
}

pub open spec fn formatting_is_empty(f: FormattingView) -> bool {
    f.direction is None && f.alignment is None && f.complex_font.theme is None && f.complex_font.named is None && f.bullet is None
}

/// The properties one style source states.
#[derive(Debug)]
struct Formatting {
    /// `w:pPr/w:bidi`.
    direction: Option<Direction>,
    /// `w:pPr/w:jc`.
    alignment: Option<Alignment>,
    /// `w:rPr/w:rFonts`, complex-script slot.
    complex_font: FontRef,
    /// `w:pPr/w:numPr`, and whether it names a real list or removes one.
    bullet: Option<Bullet>,
}

impl View for Formatting {
    type V = FormattingView;

    closed spec fn view(&self) -> FormattingView {
        FormattingView { direction: self.direction, alignment: self.alignment, complex_font: self.complex_font@, bullet: self.bullet }
    }
}

impl Formatting {
    fn new() -> (r: Self)
        ensures
            r@ == no_formatting(),
    {
        Formatting { direction: None, alignment: None, complex_font: FontRef::new(), bullet: None }
    }

    fn is_empty(&self) -> (r: bool)
        ensures
            r == formatting_is_empty(self@),
    {
        self.direction.is_none() && self.alignment.is_none() && self.complex_font.is_empty() && self.bullet.is_none()
    }
}

/// One `w:style` definition, as values.
pub struct StyleView {
    pub based_on: Option<Seq<char>>,
    pub formatting: FormattingView,
}

/// One `w:style` definition.
#[derive(Debug)]
struct Style {
    /// `w:basedOn/@w:val`: the style this one continues from.
    based_on: Option<String>,
    formatting: Formatting,
}

impl View for Style {
    type V = StyleView;

    closed spec fn view(&self) -> StyleView {
        StyleView { based_on: opt_text(self.based_on), formatting: self.formatting@ }
    }
}

/// A `w:style` element being read, as values.
pub struct BuilderView {
    pub id: Option<Seq<char>>,
    pub kind: Seq<char>,
    pub default: bool,
    pub style: StyleView,
}

/// A `w:style` element being read.
#[derive(Debug)]
struct StyleBuilder {
    id: Option<String>,
    /// `@w:type`. `paragraph` is the schema's default, and only a paragraph
    /// style can be the document's default one.
    kind: String,
    default: bool,
    style: Style,
}

impl View for StyleBuilder {
    type V = BuilderView;

    closed spec fn view(&self) -> BuilderView {
        BuilderView { id: opt_text(self.id), kind: self.kind@, default: self.default, style: self.style@ }
    }
}

/// Which source the element currently being read belongs to.
#[derive(Debug, Clone, Copy, PartialEq, Eq, Structural)]
pub enum Source {
    /// The `w:style` currently open.
    Style,
    /// `w:docDefaults`.
    Defaults,
}

/// Whether `stack` ends with exactly `tail`.
pub open spec fn spec_ends_with(stack: Seq<Seq<char>>, tail: Seq<Seq<char>>) -> bool {
    stack.len() >= tail.len() && stack.skip(stack.len() - tail.len()) == tail
}

pub open spec fn names_of(v: Seq<String>) -> Seq<Seq<char>> {
    v.map_values(|s: String| s@)
}

pub open spec fn lits(v: Seq<&str>) -> Seq<Seq<char>> {
    v.map_values(|s: &str| s@)
}

/// Whether `stack[..n]` ends with exactly `tail`.
fn ends_with(stack: &Vec<String>, n: usize, tail: &[&str]) -> (r: bool)
    requires
        n <= stack@.len(),
    ensures
        r == spec_ends_with(names_of(stack@).take(n as int), lits(tail@)),
{
    let ghost st = names_of(stack@).take(n as int);
    if n < tail.len() {
        return false;
    }
    let off = n - tail.len();
    let mut i: usize = 0;
    while i < tail.len()
        invariant
            off + tail@.len() == n,
            n <= stack@.len(),
            st == names_of(stack@).take(n as int),
            i <= tail@.len(),
            forall|k: int| 0 <= k < i ==> #[trigger] st.skip(off as int)[k] == lits(tail@)[k],
        decreases tail@.len() - i,
    {
        assert(st.skip(off as int)[i as int] == stack@[off + i]@);
        assert(lits(tail@)[i as int] == tail@[i as int]@);
        if !chars_eq(&chars_of(stack[off + i].as_str()), &chars_of(tail[i])) {
            return false;
        }
        i += 1;
    }
    assert(st.skip(off as int) =~= lits(tail@));
    true
}

/// The source a paragraph property at this point belongs to: matched on the
/// whole path, because a table's `w:tblPr` carries its own `w:jc` and
/// `w:tblStylePr` its own `w:pPr`, and both sit inside a `w:style`.
pub open spec fn spec_paragraph_source(stack: Seq<Seq<char>>) -> Option<Source> {
    if spec_ends_with(stack, seq!["w:style"@, "w:pPr"@]) {
        Some(Source::Style)
    } else if spec_ends_with(stack, seq!["w:docDefaults"@, "w:pPrDefault"@, "w:pPr"@]) {
        Some(Source::Defaults)
    } else {
        None
    }
}

/// The source a run property at this point belongs to.
pub open spec fn spec_run_source(stack: Seq<Seq<char>>) -> Option<Source> {
    if spec_ends_with(stack, seq!["w:style"@, "w:rPr"@]) {
        Some(Source::Style)
    } else if spec_ends_with(stack, seq!["w:docDefaults"@, "w:rPrDefault"@, "w:rPr"@]) {
        Some(Source::Defaults)
    } else {
        None
    }
}

fn paragraph_source(stack: &Vec<String>, n: usize) -> (r: Option<Source>)
    requires
        n <= stack@.len(),
    ensures
        r == spec_paragraph_source(names_of(stack@).take(n as int)),
{
    let a = ["w:style", "w:pPr"];
    assert(lits(a@) =~= seq!["w:style"@, "w:pPr"@]);
    if ends_with(stack, n, &a) {
        return Some(Source::Style);
    }
    let b = ["w:docDefaults", "w:pPrDefault", "w:pPr"];
    assert(lits(b@) =~= seq!["w:docDefaults"@, "w:pPrDefault"@, "w:pPr"@]);
    if ends_with(stack, n, &b) {
        return Some(Source::Defaults);
    }
    None
}

fn run_source(stack: &Vec<String>, n: usize) -> (r: Option<Source>)
    requires
        n <= stack@.len(),
    ensures
        r == spec_run_source(names_of(stack@).take(n as int)),
{
    let a = ["w:style", "w:rPr"];
    assert(lits(a@) =~= seq!["w:style"@, "w:rPr"@]);
    if ends_with(stack, n, &a) {
        return Some(Source::Style);
    }
    let b = ["w:docDefaults", "w:rPrDefault", "w:rPr"];
    assert(lits(b@) =~= seq!["w:docDefaults"@, "w:rPrDefault"@, "w:rPr"@]);
    if ends_with(stack, n, &b) {
        return Some(Source::Defaults);
    }
    None
}

/// The bullet state a `w:numId` value names: `0` removes numbering rather
/// than supplying it.
pub open spec fn spec_bullet_of(value: Seq<char>) -> Bullet {
    if trimmed(value) == "0"@ {
        Bullet::Suppressed
    } else {
        Bullet::Native
    }
}

/// The `w:numId` a `w:numPr` names, as a bullet state.
pub fn bullet_of(value: &str) -> (r: Bullet)
    ensures
        r == spec_bullet_of(value@),
{
    if chars_eq(&trim_chars(&chars_of(value)), &chars_of("0")) {
        Bullet::Suppressed
    } else {
        Bullet::Native
    }
}

// ------------------------------------------------------------------ the sheet

/// A stylesheet as values.
pub struct SheetView {
    pub part: Seq<char>,
    pub defaults: FormattingView,
    pub styles: Seq<(Seq<char>, StyleView)>,
    pub default_paragraph: Option<Seq<char>>,
    pub theme: Option<(Seq<char>, SchemeView)>,
}

/// One change a tag makes to the source it belongs to: the first value
/// stated for a property stays, and a font reference fills whichever halves
/// are still empty.
pub enum EditView {
    Direction(Direction),
    Alignment(Alignment),
    Bullet(Bullet),
    Font(FontRefView),
}

pub open spec fn apply_edit(f: FormattingView, e: EditView) -> FormattingView {
    match e {
        EditView::Direction(d) => if f.direction is None { FormattingView { direction: Some(d), ..f } } else { f },
        EditView::Alignment(a) => if f.alignment is None { FormattingView { alignment: Some(a), ..f } } else { f },
        EditView::Bullet(b) => if f.bullet is None { FormattingView { bullet: Some(b), ..f } } else { f },
        EditView::Font(font) => FormattingView { complex_font: merged(f.complex_font, font), ..f },
    }
}

/// Where a read of a stylesheet stands after some tokens: the open
/// elements, outermost first; the `w:style` being read; and what has been
/// filed.
pub struct SheetState {
    pub stack: Seq<Seq<char>>,
    pub open: Option<BuilderView>,
    pub sheet: SheetView,
}

/// Apply an edit to the source it belongs to; nothing when no source
/// encloses the tag, or the enclosing style is not being read.
pub open spec fn edit_source(st: SheetState, source: Option<Source>, e: EditView) -> SheetState {
    match source {
        Some(Source::Style) => match st.open {
            Some(b) => SheetState {
                open: Some(BuilderView { style: StyleView { formatting: apply_edit(b.style.formatting, e), ..b.style }, ..b }),
                ..st
            },
            None => st,
        },
        Some(Source::Defaults) => SheetState { sheet: SheetView { defaults: apply_edit(st.sheet.defaults, e), ..st.sheet }, ..st },
        None => st,
    }
}

/// Whether an `ST_OnOff` element is on: an absent `w:val` means true.
pub open spec fn spec_on_off(content: Seq<char>) -> bool {
    match spec_attribute(content, "w:val"@) {
        Some(v) => spec_is_true(v),
        None => true,
    }
}

/// One start or empty tag's effect on a read of a stylesheet.
pub open spec fn sheet_element(st: SheetState, name: Seq<char>, content: Seq<char>, opening: bool) -> SheetState {
    if name == "w:style"@ && opening && spec_ends_with(st.stack, seq!["w:styles"@]) {
        SheetState {
            open: Some(BuilderView {
                id: non_empty(spec_attribute(content, "w:styleId"@)),
                kind: match spec_attribute(content, "w:type"@) {
                    Some(t) => t,
                    None => "paragraph"@,
                },
                default: match spec_attribute(content, "w:default"@) {
                    Some(v) => spec_is_true(v),
                    None => false,
                },
                style: StyleView { based_on: None, formatting: no_formatting() },
            }),
            ..st
        }
    } else if name == "w:basedOn"@ && spec_ends_with(st.stack, seq!["w:style"@]) {
        match st.open {
            Some(b) => SheetState {
                open: Some(BuilderView { style: StyleView { based_on: non_empty(spec_attribute(content, "w:val"@)), ..b.style }, ..b }),
                ..st
            },
            None => st,
        }
    } else if name == "w:bidi"@ {
        let d = if spec_on_off(content) { Direction::Rtl } else { Direction::Ltr };
        edit_source(st, spec_paragraph_source(st.stack), EditView::Direction(d))
    } else if name == "w:jc"@ {
        match spec_attribute(content, "w:val"@) {
            Some(v) => match spec_parse_word_alignment(v) {
                Some(a) => edit_source(st, spec_paragraph_source(st.stack), EditView::Alignment(a)),
                None => st,
            },
            None => st,
        }
    } else if name == "w:numId"@ && spec_ends_with(st.stack, seq!["w:pPr"@, "w:numPr"@]) {
        match spec_attribute(content, "w:val"@) {
            Some(v) => edit_source(st, spec_paragraph_source(st.stack.drop_last()), EditView::Bullet(spec_bullet_of(v))),
            None => st,
        }
    } else if name == "w:rFonts"@ {
        edit_source(st, spec_run_source(st.stack), EditView::Font(spec_read_font(content)))
    } else {
        st
    }
}

/// File a finished `w:style` under its id. The first default paragraph
/// style a document names is its default; a style without an id is dropped.
pub open spec fn commit_style(sheet: SheetView, open: Option<BuilderView>) -> SheetView {
    match open {
        Some(b) => match b.id {
            Some(id) => SheetView {
                default_paragraph: if b.default && b.kind == "paragraph"@ && sheet.default_paragraph is None {
                    Some(id)
                } else {
                    sheet.default_paragraph
                },
                styles: sheet.styles.push((id, b.style)),
                ..sheet
            },
            None => sheet,
        },
        None => sheet,
    }
}

/// One token's effect on a read of a stylesheet. The stack holds the
/// ancestors of the element being read: a start tag is pushed after it is
/// read, and an empty one is never pushed.
pub open spec fn sheet_step(st: SheetState, t: Token) -> SheetState {
    if t.kind == Kind::Start || t.kind == Kind::Empty {
        let opening = t.kind == Kind::Start;
        let name = tag_name(t.text@);
        let after = sheet_element(st, name, t.text@, opening);
        if opening {
            SheetState { stack: after.stack.push(name), ..after }
        } else {
            after
        }
    } else if t.kind == Kind::End {
        if st.stack.len() > 0 {
            if st.stack.last() == "w:style"@ {
                SheetState { stack: st.stack.drop_last(), open: None, sheet: commit_style(st.sheet, st.open) }
            } else {
                SheetState { stack: st.stack.drop_last(), ..st }
            }
        } else {
            st
        }
    } else {
        st
    }
}

/// The state a read of a stylesheet reaches over a token stream.
pub open spec fn sheet_after(part: Seq<char>, ev: Seq<Token>) -> SheetState
    decreases ev.len(),
{
    if ev.len() == 0 {
        SheetState {
            stack: seq![],
            open: None,
            sheet: SheetView { part, defaults: no_formatting(), styles: seq![], default_paragraph: None, theme: None },
        }
    } else {
        sheet_step(sheet_after(part, ev.drop_last()), ev.last())
    }
}

/// One change a tag makes to the source it belongs to.
enum Edit {
    Direction(Direction),
    Alignment(Alignment),
    Bullet(Bullet),
    Font(FontRef),
}

spec fn edit_view(e: Edit) -> EditView {
    match e {
        Edit::Direction(d) => EditView::Direction(d),
        Edit::Alignment(a) => EditView::Alignment(a),
        Edit::Bullet(b) => EditView::Bullet(b),
        Edit::Font(f) => EditView::Font(f@),
    }
}

impl Formatting {
    fn apply(&mut self, e: Edit)
        ensures
            final(self)@ == apply_edit(old(self)@, edit_view(e)),
    {
        match e {
            Edit::Direction(d) => if self.direction.is_none() {
                self.direction = Some(d);
            },
            Edit::Alignment(a) => if self.alignment.is_none() {
                self.alignment = Some(a);
            },
            Edit::Bullet(b) => if self.bullet.is_none() {
                self.bullet = Some(b);
            },
            Edit::Font(f) => self.complex_font.merge(f),
        }
    }
}

spec fn opt_builder(b: Option<StyleBuilder>) -> Option<BuilderView> {
    match b {
        Some(b) => Some(b@),
        None => None,
    }
}

pub open spec fn opt_theme(t: Option<(String, FontScheme)>) -> Option<(Seq<char>, SchemeView)> {
    match t {
        Some((name, scheme)) => Some((name@, scheme@)),
        None => None,
    }
}

/// The style sources of one Word document, and the theme its font
/// references resolve against.
#[derive(Debug)]
pub struct StyleSheet {
    /// The part every origin recorded here names: `word/styles.xml`.
    part: String,
    defaults: Formatting,
    /// Every `w:style` with a `@w:styleId`; a later one with the same id
    /// replaces an earlier one.
    styles: Vec<(String, Style)>,
    /// `w:style[@w:type="paragraph"][@w:default="1"]`, if the document has one.
    default_paragraph: Option<String>,
    /// The theme part and its font scheme, for `@w:cstheme`.
    theme: Option<(String, FontScheme)>,
}

impl View for StyleSheet {
    type V = SheetView;

    closed spec fn view(&self) -> SheetView {
        SheetView {
            part: self.part@,
            defaults: self.defaults@,
            styles: self.styles@.map_values(|e: (String, Style)| (e.0@, e.1@)),
            default_paragraph: opt_text(self.default_paragraph),
            theme: opt_theme(self.theme),
        }
    }
}

fn is_name(name: &[char], lit: &str) -> (r: bool)
    ensures
        r == (name@ == lit@),
{
    chars_eq(name, &chars_of(lit))
}

impl StyleSheet {
    /// A stylesheet for `part` stating nothing.
    pub fn empty(part: &str) -> (r: Self)
        ensures
            r@ == (SheetView { part: part@, defaults: no_formatting(), styles: seq![], default_paragraph: None, theme: None }),
    {
        let r = StyleSheet { part: owned(part), defaults: Formatting::new(), styles: Vec::new(), default_paragraph: None, theme: None };
        assert(r@.styles =~= Seq::<(Seq<char>, StyleView)>::empty());
        r
    }

    /// Apply an edit to the source it belongs to.
    fn edit(&mut self, open: &mut Option<StyleBuilder>, source: Option<Source>, e: Edit)
        ensures
            ({
                let st = SheetState { stack: seq![], open: opt_builder(*old(open)), sheet: old(self)@ };
                let after = edit_source(st, source, edit_view(e));
                final(self)@ == after.sheet && opt_builder(*final(open)) == after.open
            }),
    {
        match source {
            Some(Source::Style) => match open {
                Some(b) => {
                    b.style.formatting.apply(e);
                },
                None => {},
            },
            Some(Source::Defaults) => {
                self.defaults.apply(e);
            },
            None => {},
        }
    }

    /// Read one start or empty tag into whichever source encloses it.
    fn read_element(&mut self, open: &mut Option<StyleBuilder>, stack: &Vec<String>, name: &[char], e: &Token, opening: bool)
        ensures
            ({
                let st = SheetState { stack: names_of(stack@), open: opt_builder(*old(open)), sheet: old(self)@ };
                let after = sheet_element(st, name@, e.text@, opening);
                final(self)@ == after.sheet && opt_builder(*final(open)) == after.open
            }),
    {
        let styles_tail = ["w:styles"];
        assert(lits(styles_tail@) =~= seq!["w:styles"@]);
        let style_tail = ["w:style"];
        assert(lits(style_tail@) =~= seq!["w:style"@]);
        let num_tail = ["w:pPr", "w:numPr"];
        assert(lits(num_tail@) =~= seq!["w:pPr"@, "w:numPr"@]);
        assert(names_of(stack@).take(stack@.len() as int) =~= names_of(stack@));
        if is_name(name, "w:style") && opening && ends_with(stack, stack.len(), &styles_tail) {
            let kind = match attribute(e, "w:type") {
                Some(t) => t,
                None => owned("paragraph"),
            };
            let default = match attribute(e, "w:default") {
                Some(v) => is_true(v.as_str()),
                None => false,
            };
            *open = Some(StyleBuilder {
                id: non_empty_attribute(e, "w:styleId"),
                kind,
                default,
                style: Style { based_on: None, formatting: Formatting::new() },
            });
        } else if is_name(name, "w:basedOn") && ends_with(stack, stack.len(), &style_tail) {
            match open {
                Some(b) => {
                    b.style.based_on = non_empty_attribute(e, "w:val");
                },
                None => {},
            }
        } else if is_name(name, "w:bidi") {
            let on = match attribute(e, "w:val") {
                Some(v) => is_true(v.as_str()),
                None => true,
            };
            let d = if on { Direction::Rtl } else { Direction::Ltr };
            let source = paragraph_source(stack, stack.len());
            self.edit(open, source, Edit::Direction(d));
        } else if is_name(name, "w:jc") {
            match attribute(e, "w:val") {
                Some(v) => match parse_alignment(v.as_str()) {
                    Some(a) => {
                        let source = paragraph_source(stack, stack.len());
                        self.edit(open, source, Edit::Alignment(a));
                    },
                    None => {},
                },
                None => {},
            }
        } else if is_name(name, "w:numId") && ends_with(stack, stack.len(), &num_tail) {
            match attribute(e, "w:val") {
                Some(v) => {
                    let b = bullet_of(v.as_str());
                    assert(names_of(stack@).take(stack@.len() - 1) =~= names_of(stack@).drop_last());
                    let source = paragraph_source(stack, stack.len() - 1);
                    self.edit(open, source, Edit::Bullet(b));
                },
                None => {},
            }
        } else if is_name(name, "w:rFonts") {
            let font = FontRef::read(e);
            let source = run_source(stack, stack.len());
            self.edit(open, source, Edit::Font(font));
        }
    }

    /// File a finished `w:style` under its id.
    fn commit(&mut self, builder: Option<StyleBuilder>)
        ensures
            final(self)@ == commit_style(old(self)@, opt_builder(builder)),
    {
        let b = match builder {
            Some(b) => b,
            None => return,
        };
        let id = match b.id {
            Some(id) => id,
            None => return,
        };
        if b.default && same(b.kind.as_str(), "paragraph") && self.default_paragraph.is_none() {
            self.default_paragraph = Some(id.clone());
        }
        let ghost before = self@;
        self.styles.push((id, b.style));
        assert(self@.styles =~= before.styles.push((self@.styles.last().0, self@.styles.last().1)));
    }

    /// The stylesheet a `word/styles.xml` part's tokens state.
    pub fn from_events(part: &str, events: &[Token]) -> (r: Self)
        ensures
            r@ == sheet_after(part@, events@).sheet,
    {
        let mut sheet = StyleSheet::empty(part);
        let mut stack: Vec<String> = Vec::new();
        let mut open: Option<StyleBuilder> = None;
        let mut i: usize = 0;
        assert(events@.take(0) =~= Seq::<Token>::empty());
        assert(names_of(stack@) =~= Seq::<Seq<char>>::empty());
        while i < events.len()
            invariant
                i <= events@.len(),
                sheet_after(part@, events@.take(i as int)) == (SheetState { stack: names_of(stack@), open: opt_builder(open), sheet: sheet@ }),
            decreases events@.len() - i,
        {
            let t = &events[i];
            assert(events@.take(i + 1).drop_last() =~= events@.take(i as int));
            assert(events@.take(i + 1).last() == *t);
            if t.kind == Kind::Start || t.kind == Kind::Empty {
                let opening = t.kind == Kind::Start;
                let name = tag_name_of(t.text.as_str());
                sheet.read_element(&mut open, &stack, &name, t, opening);
                if opening {
                    let ghost before = stack@;
                    stack.push(string_of(&name));
                    assert(names_of(stack@) =~= names_of(before).push(name@));
                }
            } else if t.kind == Kind::End {
                if stack.len() > 0 {
                    let ghost before = stack@;
                    let top = stack.pop();
                    assert(names_of(stack@) =~= names_of(before).drop_last());
                    assert(names_of(before).last() == before.last()@);
                    match top {
                        Some(top) => {
                            if same(top.as_str(), "w:style") {
                                let builder = open.take();
                                sheet.commit(builder);
                            }
                        },
                        None => {},
                    }
                }
            }
            i += 1;
        }
        assert(events@.take(i as int) =~= events@);
        sheet
    }
}

// ------------------------------------------------------------------ resolving

/// One style and everything it is `w:basedOn`, nearest first: a style not
/// in the sheet ends the walk, as does one already visited or a walk `fuel`
/// styles long.
pub open spec fn style_chain(styles: Seq<(Seq<char>, StyleView)>, id: Option<Seq<char>>, seen: Seq<Seq<char>>, fuel: nat) -> Seq<(Seq<char>, StyleView)>
    decreases fuel,
{
    match id {
        None => seq![],
        Some(name) => if fuel == 0 || seen.contains(name) {
            seq![]
        } else {
            match last_value(styles, name) {
                None => seq![],
                Some(st) => seq![(name, st)] + style_chain(styles, st.based_on, seen.push(name), (fuel - 1) as nat),
            }
        },
    }
}

/// The theme font a stylesheet's theme names for one slot, with the theme
/// part and the property it is written in.
pub open spec fn sheet_theme_font(sheet: SheetView, font: ThemeFont, script: ThemeScript) -> Option<(Seq<char>, Seq<char>, Seq<char>)> {
    match sheet.theme {
        Some((part, scheme)) => match scheme_typeface(scheme, font, script) {
            Some(name) => Some((name, part, scheme_property(font, script))),
            None => None,
        },
        None => None,
    }
}

/// One source's complex-script slot: the theme reference first, then the
/// typeface named beside it.
pub open spec fn font_from(sheet: SheetView, r: FontRefView, property: Seq<char>) -> ResolvedView<Seq<char>> {
    let named = match r.named {
        Some(n) => ResolvedView::Inherited(n, sheet.part, property + "/rFonts@cs"@),
        None => ResolvedView::Unset,
    };
    match r.theme {
        Some((font, script)) => match sheet_theme_font(sheet, font, script) {
            Some((name, part, prop)) => ResolvedView::Inherited(name, part, prop),
            None => named,
        },
        None => named,
    }
}

/// The paragraph and run property paths a source is cited by.
pub open spec fn paths(id: Option<Seq<char>>) -> (Seq<char>, Seq<char>) {
    match id {
        Some(id) => ("style["@ + id + "]/pPr"@, "style["@ + id + "]/rPr"@),
        None => ("docDefaults/pPrDefault/pPr"@, "docDefaults/rPrDefault/rPr"@),
    }
}

/// Take from one source whatever the paragraph has not resolved yet.
pub open spec fn take_sheet(sheet: SheetView, f: FormattingView, id: Option<Seq<char>>, p: PropertiesView) -> PropertiesView {
    let (paragraph, run) = paths(id);
    PropertiesView {
        direction: match (p.direction, f.direction) {
            (ResolvedView::Unset, Some(d)) => ResolvedView::Inherited(d, sheet.part, paragraph + "@bidi"@),
            _ => p.direction,
        },
        alignment: match (p.alignment, f.alignment) {
            (ResolvedView::Unset, Some(a)) => ResolvedView::Inherited(a, sheet.part, paragraph + "@jc"@),
            _ => p.alignment,
        },
        bullet: match (p.bullet, f.bullet) {
            (Bullet::Absent, Some(b)) => b,
            _ => p.bullet,
        },
        complex_font: match p.complex_font {
            ResolvedView::Unset => font_from(sheet, f.complex_font, run),
            _ => p.complex_font,
        },
        ..p
    }
}

/// Take from each style of a chain in turn.
pub open spec fn take_chain(sheet: SheetView, chain: Seq<(Seq<char>, StyleView)>, p: PropertiesView) -> PropertiesView
    decreases chain.len(),
{
    if chain.len() == 0 {
        p
    } else {
        take_sheet(sheet, chain.last().1.formatting, Some(chain.last().0), take_chain(sheet, chain.drop_last(), p))
    }
}

/// What resolving a paragraph leaves its properties as: the run style's
/// chain, then the paragraph style's — the default paragraph style's when it
/// names none — and last the document defaults.
pub open spec fn sheet_resolve(sheet: SheetView, style: Option<Seq<char>>, run_style: Option<Seq<char>>, p: PropertiesView) -> PropertiesView {
    let p1 = take_chain(sheet, style_chain(sheet.styles, run_style, seq![], MAX_DEPTH as nat), p);
    let paragraph = match style {
        Some(s) => Some(s),
        None => sheet.default_paragraph,
    };
    let p2 = take_chain(sheet, style_chain(sheet.styles, paragraph, seq![], MAX_DEPTH as nat), p1);
    take_sheet(sheet, sheet.defaults, None, p2)
}

pub open spec fn opt_str(v: Option<&str>) -> Option<Seq<char>> {
    match v {
        Some(s) => Some(s@),
        None => None,
    }
}

fn append(a: &str, b: &str) -> (r: String)
    ensures
        r@ == a@ + b@,
{
    let mut out = chars_of(a);
    push_all(&mut out, &chars_of(b));
    string_of(&out)
}

fn holds(names: &Vec<String>, name: &str) -> (r: bool)
    ensures
        r == names_of(names@).contains(name@),
{
    let want = chars_of(name);
    let mut i: usize = 0;
    while i < names.len()
        invariant
            i <= names@.len(),
            want@ == name@,
            forall|j: int| 0 <= j < i ==> names@[j]@ != name@,
        decreases names@.len() - i,
    {
        if chars_eq(&chars_of(names[i].as_str()), &want) {
            assert(names_of(names@)[i as int] == name@);
            return true;
        }
        i += 1;
    }
    proof {
        if names_of(names@).contains(name@) {
            let j = choose|j: int| 0 <= j < names_of(names@).len() && names_of(names@)[j] == name@;
            assert(names@[j]@ == name@);
        }
    }
    false
}

impl StyleSheet {
    /// The position of the style filed last under `name`.
    fn find_style(&self, name: &str) -> (r: Option<usize>)
        ensures
            r matches Some(k) ==> k < self@.styles.len() && self@.styles[k as int].0 == name@
                && last_value(self@.styles, name@) == Some(self@.styles[k as int].1),
            r is None ==> last_value(self@.styles, name@) is None,
    {
        let ghost m = self@.styles;
        let want = chars_of(name);
        let mut i = self.styles.len();
        assert(m.take(i as int) =~= m);
        while i > 0
            invariant
                i <= self.styles@.len(),
                want@ == name@,
                m == self@.styles,
                last_value(m, name@) == last_value(m.take(i as int), name@),
            decreases i,
        {
            assert(m.take(i as int).drop_last() =~= m.take(i - 1));
            assert(m.take(i as int).last() == m[i - 1]);
            if chars_eq(&chars_of(self.styles[i - 1].0.as_str()), &want) {
                return Some(i - 1);
            }
            i -= 1;
        }
        None
    }

    /// One style and everything it is `w:basedOn`, nearest first, as
    /// positions in the sheet.
    ///
    /// A style that names itself, or a loop of styles that name each other,
    /// is walked once and then stopped.
    fn chain(&self, id: Option<&str>) -> (r: Vec<usize>)
        ensures
            forall|k: int| 0 <= k < r@.len() ==> #[trigger] r@[k] < self@.styles.len(),
            r@.map_values(|k: usize| self@.styles[k as int]) == style_chain(self@.styles, opt_str(id), seq![], MAX_DEPTH as nat),
    {
        let ghost styles = self@.styles;
        let mut out: Vec<usize> = Vec::new();
        let mut seen: Vec<String> = Vec::new();
        let mut here: Option<String> = match id {
            Some(n) => Some(owned(n)),
            None => None,
        };
        let ghost mut visited: Seq<Seq<char>> = seq![];
        assert(out@.map_values(|k: usize| styles[k as int]) =~= Seq::<(Seq<char>, StyleView)>::empty());
        assert(names_of(seen@) =~= Seq::<Seq<char>>::empty());
        while out.len() < MAX_DEPTH
            invariant
                styles == self@.styles,
                out@.len() <= MAX_DEPTH,
                forall|k: int| 0 <= k < out@.len() ==> #[trigger] out@[k] < styles.len(),
                names_of(seen@) == visited,
                style_chain(styles, opt_str(id), seq![], MAX_DEPTH as nat)
                    == out@.map_values(|k: usize| styles[k as int]) + style_chain(styles, opt_text(here), visited, (MAX_DEPTH - out@.len()) as nat),
            ensures
                forall|k: int| 0 <= k < out@.len() ==> #[trigger] out@[k] < styles.len(),
                style_chain(styles, opt_str(id), seq![], MAX_DEPTH as nat) == out@.map_values(|k: usize| styles[k as int]),
            decreases MAX_DEPTH - out@.len(),
        {
            let ghost fuel = (MAX_DEPTH - out@.len()) as nat;
            let ghost before = out@.map_values(|k: usize| styles[k as int]);
            let name = match here {
                Some(n) => n,
                None => {
                    assert(before + Seq::<(Seq<char>, StyleView)>::empty() =~= before);
                    break;
                },
            };
            if holds(&seen, name.as_str()) {
                assert(before + Seq::<(Seq<char>, StyleView)>::empty() =~= before);
                break;
            }
            let k = match self.find_style(name.as_str()) {
                Some(k) => k,
                None => {
                    assert(before + Seq::<(Seq<char>, StyleView)>::empty() =~= before);
                    break;
                },
            };
            let ghost st = styles[k as int].1;
            assert(style_chain(styles, Some(name@), visited, fuel) == seq![(name@, st)] + style_chain(styles, st.based_on, visited.push(name@), (fuel - 1) as nat));
            let ghost seen_before = seen@;
            seen.push(name);
            out.push(k);
            proof {
                visited = visited.push(styles[k as int].0);
                assert(names_of(seen@) =~= names_of(seen_before).push(styles[k as int].0));
                assert(out@.map_values(|k: usize| styles[k as int]) =~= before.push(styles[k as int]));
                assert(styles[k as int] == (name@, st));
            }
            here = match &self.styles[k].1.based_on {
                Some(b) => Some(b.clone()),
                None => None,
            };
            proof {
                assert(opt_text(here) == st.based_on);
                assert(before.push((name@, st)) + style_chain(styles, st.based_on, visited, (fuel - 1) as nat)
                    =~= before + (seq![(name@, st)] + style_chain(styles, st.based_on, visited, (fuel - 1) as nat)));
            }
        }
        out
    }
}

pub open spec fn chain_views(sheet: SheetView, idx: Seq<usize>) -> Seq<(Seq<char>, StyleView)> {
    idx.map_values(|k: usize| sheet.styles[k as int])
}

proof fn lemma_take_chain_push(sheet: SheetView, chain: Seq<(Seq<char>, StyleView)>, x: (Seq<char>, StyleView), p: PropertiesView)
    ensures
        take_chain(sheet, chain.push(x), p) == take_sheet(sheet, x.1.formatting, Some(x.0), take_chain(sheet, chain, p)),
{
    assert(chain.push(x).drop_last() =~= chain);
}

impl StyleSheet {
    /// Resolve one `@w:cstheme` reference, naming the theme it came from:
    /// the theme is where the typeface a reader will see is written.
    pub fn theme_font(&self, reference: (ThemeFont, ThemeScript)) -> (r: Option<(String, Origin)>)
        ensures
            r matches Some(v) ==> sheet_theme_font(self@, reference.0, reference.1) == Some((v.0@, v.1.part@, v.1.property@)),
            r is None ==> sheet_theme_font(self@, reference.0, reference.1) is None,
    {
        let (font, script) = reference;
        match &self.theme {
            Some((part, scheme)) => match scheme.typeface(font, script) {
                Some(name) => Some((owned(name), Origin::new(part.as_str(), FontScheme::property(font, script)))),
                None => None,
            },
            None => None,
        }
    }

    /// Resolve one source's complex-script slot: the theme reference first,
    /// then the typeface named beside it.
    fn font(&self, reference: &FontRef, property: &str) -> (r: Resolved<String>)
        ensures
            resolved_text_view(r) == font_from(self@, reference@, property@),
    {
        match reference.theme {
            Some(slot) => match self.theme_font(slot) {
                Some((name, origin)) => {
                    return Resolved::Inherited(name, origin);
                },
                None => {},
            },
            None => {},
        }
        match &reference.named {
            Some(name) => Resolved::Inherited(name.clone(), Origin::new(self.part.as_str(), append(property, "/rFonts@cs"))),
            None => Resolved::Unset,
        }
    }

    /// Take from one source whatever the paragraph has not resolved yet,
    /// recording which part and property supplied it. `id` names the
    /// `w:style` the values came from, or `None` for `w:docDefaults`.
    fn take(&self, props: &mut Properties, formatting: &Formatting, id: Option<&str>)
        ensures
            final(props)@ == take_sheet(self@, formatting@, opt_str(id), old(props)@),
    {
        let (paragraph, run) = match id {
            Some(id) => {
                let mut p = chars_of("style[");
                push_all(&mut p, &chars_of(id));
                let mut r = p.clone();
                push_all(&mut p, &chars_of("]/pPr"));
                push_all(&mut r, &chars_of("]/rPr"));
                (string_of(&p), string_of(&r))
            },
            None => (owned("docDefaults/pPrDefault/pPr"), owned("docDefaults/rPrDefault/rPr")),
        };
        assert(paragraph@ == paths(opt_str(id)).0 && run@ == paths(opt_str(id)).1);
        if props.direction.is_unset() {
            match formatting.direction {
                Some(direction) => {
                    props.direction = Resolved::Inherited(direction, Origin::new(self.part.as_str(), append(paragraph.as_str(), "@bidi")));
                },
                None => {},
            }
        }
        if props.alignment.is_unset() {
            match formatting.alignment {
                Some(alignment) => {
                    props.alignment = Resolved::Inherited(alignment, Origin::new(self.part.as_str(), append(paragraph.as_str(), "@jc")));
                },
                None => {},
            }
        }
        if props.bullet == Bullet::Absent {
            match formatting.bullet {
                Some(bullet) => {
                    props.bullet = bullet;
                },
                None => {},
            }
        }
        if props.complex_font.is_unset() {
            props.complex_font = self.font(&formatting.complex_font, run.as_str());
        }
    }

    fn take_each(&self, props: &mut Properties, chain: &Vec<usize>)
        requires
            forall|k: int| 0 <= k < chain@.len() ==> #[trigger] chain@[k] < self@.styles.len(),
        ensures
            final(props)@ == take_chain(self@, chain_views(self@, chain@), old(props)@),
    {
        let mut i: usize = 0;
        assert(chain_views(self@, chain@).take(0) =~= Seq::<(Seq<char>, StyleView)>::empty());
        while i < chain.len()
            invariant
                i <= chain@.len(),
                forall|k: int| 0 <= k < chain@.len() ==> #[trigger] chain@[k] < self@.styles.len(),
                props@ == take_chain(self@, chain_views(self@, chain@).take(i as int), old(props)@),
            decreases chain@.len() - i,
        {
            let k = chain[i];
            let entry = &self.styles[k];
            assert(self@.styles[k as int] == (entry.0@, entry.1@));
            proof {
                assert(chain_views(self@, chain@).take(i + 1) =~= chain_views(self@, chain@).take(i as int).push(self@.styles[k as int]));
                lemma_take_chain_push(self@, chain_views(self@, chain@).take(i as int), self@.styles[k as int], old(props)@);
            }
            self.take(props, &entry.1.formatting, Some(entry.0.as_str()));
            i += 1;
        }
        assert(chain_views(self@, chain@).take(i as int) =~= chain_views(self@, chain@));
    }

    /// Fill in every property the paragraph left unset, from the nearest
    /// source above it that states one.
    ///
    /// `style` is the paragraph's `w:pPr/w:pStyle` and `run_style` the
    /// `w:rPr/w:rStyle` of the first run that named one. A paragraph that
    /// names a style does not also take the default one. A property already
    /// resolved is left alone, so direct formatting still wins.
    pub fn resolve(&self, style: Option<&str>, run_style: Option<&str>, props: &mut Properties)
        ensures
            final(props)@ == sheet_resolve(self@, opt_str(style), opt_str(run_style), old(props)@),
    {
        let run_chain = self.chain(run_style);
        self.take_each(props, &run_chain);
        let paragraph: Option<&str> = match style {
            Some(s) => Some(s),
            None => match &self.default_paragraph {
                Some(d) => Some(d.as_str()),
                None => None,
            },
        };
        let paragraph_chain = self.chain(paragraph);
        self.take_each(props, &paragraph_chain);
        self.take(props, &self.defaults, None);
    }

    /// Point this stylesheet at the theme its `@w:cstheme` references resolve
    /// against.
    pub fn with_theme(self, theme: &str, scheme: FontScheme) -> (r: Self)
        ensures
            r@ == (SheetView { theme: Some((theme@, scheme@)), ..self@ }),
    {
        let mut sheet = self;
        let ghost before = sheet@;
        sheet.theme = Some((owned(theme), scheme));
        assert(sheet@.styles =~= before.styles);
        sheet
    }

    /// Whether this stylesheet supplies anything at all: a style that states
    /// no formatting is not something it supplies.
    pub fn is_empty(&self) -> (r: bool)
        ensures
            r == (formatting_is_empty(self@.defaults) && forall|k: int| 0 <= k < self@.styles.len() ==> formatting_is_empty(#[trigger] self@.styles[k].1.formatting)),
    {
        if !self.defaults.is_empty() {
            return false;
        }
        let mut i: usize = 0;
        while i < self.styles.len()
            invariant
                i <= self.styles@.len(),
                forall|k: int| 0 <= k < i ==> formatting_is_empty(#[trigger] self@.styles[k].1.formatting),
            decreases self.styles@.len() - i,
        {
            assert(self@.styles[i as int].1 == self.styles@[i as int].1@);
            if !self.styles[i].1.formatting.is_empty() {
                assert(!formatting_is_empty(self@.styles[i as int].1.formatting));
                return false;
            }
            i += 1;
        }
        true
    }

    /// Read one `word/styles.xml`. Only a part the parser rejects fails.
    pub fn parse(part: &str, xml: &str) -> (r: Result<Self, Error>)
        ensures
            r is Ok <==> document_tokens(xml@) is Ok,
            r matches Err(e) ==> read_failure(part@, xml@, e),
            r matches Ok(s) ==> exists|ts: Seq<Token>| #[trigger] reads_as(xml@, ts) && s@ == sheet_after(part@, ts).sheet,
    {
        let events = read_events(part, xml)?;
        assert(reads_as(xml@, events@));
        Ok(Self::from_events(part, &events))
    }
}

/// The `w:basedOn` walk visits no style twice and never more than
/// [`MAX_DEPTH`] styles, so a stylesheet whose styles name each other in a
/// loop is walked once round and stopped.
pub proof fn lemma_chain_bounded(styles: Seq<(Seq<char>, StyleView)>, id: Option<Seq<char>>, seen: Seq<Seq<char>>, fuel: nat)
    ensures
        style_chain(styles, id, seen, fuel).len() <= fuel,
        forall|i: int| 0 <= i < style_chain(styles, id, seen, fuel).len() ==> !seen.contains(#[trigger] style_chain(styles, id, seen, fuel)[i].0),
        forall|i: int, j: int| 0 <= i < j < style_chain(styles, id, seen, fuel).len()
            ==> #[trigger] style_chain(styles, id, seen, fuel)[i].0 != #[trigger] style_chain(styles, id, seen, fuel)[j].0,
    decreases fuel,
{
    match id {
        None => {},
        Some(name) => if fuel > 0 && !seen.contains(name) {
            match last_value(styles, name) {
                None => {},
                Some(st) => {
                    let rest = style_chain(styles, st.based_on, seen.push(name), (fuel - 1) as nat);
                    lemma_chain_bounded(styles, st.based_on, seen.push(name), (fuel - 1) as nat);
                    let c = style_chain(styles, id, seen, fuel);
                    assert(c == seq![(name, st)] + rest);
                    assert forall|i: int| 0 <= i < c.len() implies !seen.contains(#[trigger] c[i].0) by {
                        if i > 0 {
                            assert(c[i] == rest[i - 1]);
                            if seen.contains(c[i].0) {
                                let k = choose|k: int| 0 <= k < seen.len() && seen[k] == c[i].0;
                                assert(seen.push(name)[k] == c[i].0);
                            }
                        }
                    }
                    assert forall|i: int, j: int| 0 <= i < j < c.len() implies #[trigger] c[i].0 != #[trigger] c[j].0 by {
                        assert(c[j] == rest[j - 1]);
                        if i == 0 {
                            assert(seen.push(name)[seen.len() as int] == name);
                        } else {
                            assert(c[i] == rest[i - 1]);
                        }
                    }
                },
            }
        },
    }
}

/// The `w:basedOn` walk starts at the named style itself and moves outwards:
/// its first entry is the style the id names, as the sheet defines it, and
/// each later entry is the style the one before it is based on.
pub proof fn lemma_chain_nearest_first(styles: Seq<(Seq<char>, StyleView)>, id: Seq<char>, seen: Seq<Seq<char>>, fuel: nat)
    requires
        fuel > 0,
        !seen.contains(id),
        last_value(styles, id) is Some,
    ensures
        style_chain(styles, Some(id), seen, fuel).len() >= 1,
        style_chain(styles, Some(id), seen, fuel)[0] == (id, last_value(styles, id)->Some_0),
        forall|i: int| 0 <= i < style_chain(styles, Some(id), seen, fuel).len() ==>
            last_value(styles, (#[trigger] style_chain(styles, Some(id), seen, fuel)[i]).0) == Some(style_chain(styles, Some(id), seen, fuel)[i].1),
        forall|i: int| 0 <= i < style_chain(styles, Some(id), seen, fuel).len() - 1 ==>
            (#[trigger] style_chain(styles, Some(id), seen, fuel)[i]).1.based_on == Some(style_chain(styles, Some(id), seen, fuel)[i + 1].0),
    decreases fuel,
{
    let st = last_value(styles, id)->Some_0;
    let rest = style_chain(styles, st.based_on, seen.push(id), (fuel - 1) as nat);
    let c = style_chain(styles, Some(id), seen, fuel);
    assert(c == seq![(id, st)] + rest);
    let next_ok = match st.based_on {
        Some(b) => fuel - 1 > 0 && !seen.push(id).contains(b) && last_value(styles, b) is Some,
        None => false,
    };
    if next_ok {
        lemma_chain_nearest_first(styles, st.based_on->Some_0, seen.push(id), (fuel - 1) as nat);
    } else {
        assert(rest.len() == 0);
    }
    assert forall|i: int| 0 <= i < c.len() implies last_value(styles, (#[trigger] c[i]).0) == Some(c[i].1) by {
        if i > 0 {
            assert(c[i] == rest[i - 1]);
        }
    }
    assert forall|i: int| 0 <= i < c.len() - 1 implies (#[trigger] c[i]).1.based_on == Some(c[i + 1].0) by {
        assert(c[i + 1] == rest[i]);
        if i > 0 {
            assert(c[i] == rest[i - 1]);
        }
    }
}

proof fn lemma_take_chain_first(sheet: SheetView, chain: Seq<(Seq<char>, StyleView)>, p: PropertiesView)
    requires
        chain.len() >= 1,
    ensures
        p.direction is Unset && chain[0].1.formatting.direction is Some ==> take_chain(sheet, chain, p).direction
            == ResolvedView::Inherited(chain[0].1.formatting.direction->Some_0, sheet.part, paths(Some(chain[0].0)).0 + "@bidi"@),
        p.alignment is Unset && chain[0].1.formatting.alignment is Some ==> take_chain(sheet, chain, p).alignment
            == ResolvedView::Inherited(chain[0].1.formatting.alignment->Some_0, sheet.part, paths(Some(chain[0].0)).0 + "@jc"@),
    decreases chain.len(),
{
    let inner = take_chain(sheet, chain.drop_last(), p);
    let last = chain.last();
    let paragraph = paths(Some(last.0)).0;
    assert(take_chain(sheet, chain, p) == take_sheet(sheet, last.1.formatting, Some(last.0), inner));
    if chain.len() > 1 {
        assert(chain.drop_last()[0] == chain[0]);
        lemma_take_chain_first(sheet, chain.drop_last(), p);
    } else {
        assert(chain.drop_last().len() == 0);
        assert(inner == p);
        assert(last == chain[0]);
        if p.direction is Unset && chain[0].1.formatting.direction is Some {
            assert(take_sheet(sheet, last.1.formatting, Some(last.0), p).direction
                == ResolvedView::Inherited(last.1.formatting.direction->Some_0, sheet.part, paragraph + "@bidi"@));
        }
        if p.alignment is Unset && chain[0].1.formatting.alignment is Some {
            assert(take_sheet(sheet, last.1.formatting, Some(last.0), p).alignment
                == ResolvedView::Inherited(last.1.formatting.alignment->Some_0, sheet.part, paragraph + "@jc"@));
        }
    }
}

/// What a paragraph's own style states wins over everything that style is
/// based on and over the document defaults: a paragraph that names a style
/// stating a direction or an alignment, resolved with no run style and with
/// that property still unset, takes the named style's value, cited as that
/// style's.
pub proof fn lemma_named_style_wins(sheet: SheetView, style: Seq<char>, p: PropertiesView)
    requires
        last_value(sheet.styles, style) is Some,
    ensures
        p.direction is Unset && last_value(sheet.styles, style)->Some_0.formatting.direction is Some ==>
            sheet_resolve(sheet, Some(style), None, p).direction == ResolvedView::Inherited(
                last_value(sheet.styles, style)->Some_0.formatting.direction->Some_0, sheet.part, "style["@ + style + "]/pPr@bidi"@),
        p.alignment is Unset && last_value(sheet.styles, style)->Some_0.formatting.alignment is Some ==>
            sheet_resolve(sheet, Some(style), None, p).alignment == ResolvedView::Inherited(
                last_value(sheet.styles, style)->Some_0.formatting.alignment->Some_0, sheet.part, "style["@ + style + "]/pPr@jc"@),
{
    let c1 = style_chain(sheet.styles, None, seq![], MAX_DEPTH as nat);
    assert(c1.len() == 0);
    assert(take_chain(sheet, c1, p) == p);
    let c2 = style_chain(sheet.styles, Some(style), seq![], MAX_DEPTH as nat);
    lemma_chain_nearest_first(sheet.styles, style, seq![], MAX_DEPTH as nat);
    lemma_take_chain_first(sheet, c2, p);
    assert(("style["@ + style + "]/pPr"@) + "@bidi"@ =~= "style["@ + style + "]/pPr@bidi"@) by {
        reveal_strlit("]/pPr");
        reveal_strlit("@bidi");
        reveal_strlit("]/pPr@bidi");
    }
    assert(("style["@ + style + "]/pPr"@) + "@jc"@ =~= "style["@ + style + "]/pPr@jc"@) by {
        reveal_strlit("]/pPr");
        reveal_strlit("@jc");
        reveal_strlit("]/pPr@jc");
    }
}

/// Resolving never overwrites what is already resolved: direct formatting,
/// or a value a nearer source supplied, wins over everything further up.
pub proof fn lemma_sheet_resolve_keeps_resolved(sheet: SheetView, style: Option<Seq<char>>, run_style: Option<Seq<char>>, p: PropertiesView)
    ensures
        !(p.direction is Unset) ==> sheet_resolve(sheet, style, run_style, p).direction == p.direction,
        !(p.alignment is Unset) ==> sheet_resolve(sheet, style, run_style, p).alignment == p.alignment,
        !(p.complex_font is Unset) ==> sheet_resolve(sheet, style, run_style, p).complex_font == p.complex_font,
        p.bullet != Bullet::Absent ==> sheet_resolve(sheet, style, run_style, p).bullet == p.bullet,
{
    let c1 = style_chain(sheet.styles, run_style, seq![], MAX_DEPTH as nat);
    lemma_take_chain_keeps(sheet, c1, p);
    let p1 = take_chain(sheet, c1, p);
    let paragraph = match style {
        Some(s) => Some(s),
        None => sheet.default_paragraph,
    };
    let c2 = style_chain(sheet.styles, paragraph, seq![], MAX_DEPTH as nat);
    lemma_take_chain_keeps(sheet, c2, p1);
}

proof fn lemma_take_chain_keeps(sheet: SheetView, chain: Seq<(Seq<char>, StyleView)>, p: PropertiesView)
    ensures
        !(p.direction is Unset) ==> take_chain(sheet, chain, p).direction == p.direction,
        !(p.alignment is Unset) ==> take_chain(sheet, chain, p).alignment == p.alignment,
        !(p.complex_font is Unset) ==> take_chain(sheet, chain, p).complex_font == p.complex_font,
        p.bullet != Bullet::Absent ==> take_chain(sheet, chain, p).bullet == p.bullet,
    decreases chain.len(),
{
    if chain.len() > 0 {
        lemma_take_chain_keeps(sheet, chain.drop_last(), p);
    }
}

} // verus!
