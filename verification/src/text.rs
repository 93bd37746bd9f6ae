//! The properties a paragraph's rendering depends on, and where each value
//! came from: stated on the paragraph, inherited from a named part and
//! property above it, or not stated anywhere.
use vstd::prelude::*;

verus! {

/// Which way a paragraph's text runs.
#[derive(Debug, Clone, Copy, PartialEq, Eq, Structural)]
pub enum Direction {
    Ltr,
    Rtl,
}

/// Where a paragraph's lines sit between its edges. `Start` and `End` are
/// relative to the paragraph's direction; `Left` and `Right` name the page's
/// edges.
#[derive(Debug, Clone, Copy, PartialEq, Eq, Structural)]
pub enum Alignment {
    Start,
    End,
    Left,
    Right,
    Center,
    Justify,
    Distributed,
}

/// Whether a paragraph is a list item, and of what kind.
#[derive(Debug, Clone, Copy, PartialEq, Eq, Structural)]
pub enum Bullet {
    /// No list, and nothing removing one.
    Absent,
    /// A real list the format draws a marker for.
    Native,
    /// A source removing the list that would otherwise be in force.
    Suppressed,
}

/// The part and property an inherited value was read from:
/// `ppt/slideMasters/slideMaster1.xml`, `bodyStyle/lvl1pPr@rtl`.
#[derive(Debug, PartialEq, Eq)]
pub struct Origin {
    pub part: String,
    pub property: String,
}

impl Origin {
    pub fn new(part: &str, property: String) -> (r: Self)
        ensures
            r.part@ == part@,
            r.property@ == property@,
    {
        Origin { part: part.to_owned(), property }
    }
}

/// A property's value and where it came from.
#[derive(Debug, PartialEq, Eq)]
pub enum Resolved<T> {
    /// Stated nowhere the reader looked.
    Unset,
    /// Stated on the paragraph itself.
    Explicit(T),
    /// Taken from a source above the paragraph.
    Inherited(T, Origin),
}

impl<T> Resolved<T> {
    pub fn is_unset(&self) -> (r: bool)
        ensures
            r == (*self is Unset),
    {
        match self {
            Resolved::Unset => true,
            _ => false,
        }
    }

    pub fn is_explicit(&self) -> (r: bool)
        ensures
            r == (*self is Explicit),
    {
        match self {
            Resolved::Explicit(_) => true,
            _ => false,
        }
    }
}

/// The properties of one paragraph that its rendering depends on.
#[derive(Debug, PartialEq, Eq)]
pub struct Properties {
    pub direction: Resolved<Direction>,
    pub alignment: Resolved<Alignment>,
    /// The language tag the text is marked with.
    pub language: Resolved<String>,
    /// The complex-script typeface: the font Arabic text is drawn in.
    pub complex_font: Resolved<String>,
    /// The Latin typeface.
    pub latin_font: Resolved<String>,
    pub bullet: Bullet,
}

impl Default for Properties {
    fn default() -> (r: Self)
        ensures
            r.direction is Unset,
            r.alignment is Unset,
            r.language is Unset,
            r.complex_font is Unset,
            r.latin_font is Unset,
            r.bullet == Bullet::Absent,
    {
        Properties {
            direction: Resolved::Unset,
            alignment: Resolved::Unset,
            language: Resolved::Unset,
            complex_font: Resolved::Unset,
            latin_font: Resolved::Unset,
            bullet: Bullet::Absent,
        }
    }
}

/// A resolved value as values: the value, and for an inherited one the part
/// and property it came from.
pub enum ResolvedView<T> {
    Unset,
    Explicit(T),
    Inherited(T, Seq<char>, Seq<char>),
}

pub open spec fn resolved_view<T>(r: Resolved<T>) -> ResolvedView<T> {
    match r {
        Resolved::Unset => ResolvedView::Unset,
        Resolved::Explicit(v) => ResolvedView::Explicit(v),
        Resolved::Inherited(v, o) => ResolvedView::Inherited(v, o.part@, o.property@),
    }
}

pub open spec fn resolved_text_view(r: Resolved<String>) -> ResolvedView<Seq<char>> {
    match r {
        Resolved::Unset => ResolvedView::Unset,
        Resolved::Explicit(v) => ResolvedView::Explicit(v@),
        Resolved::Inherited(v, o) => ResolvedView::Inherited(v@, o.part@, o.property@),
    }
}

/// A paragraph's properties as values.
pub struct PropertiesView {
    pub direction: ResolvedView<Direction>,
    pub alignment: ResolvedView<Alignment>,
    pub language: ResolvedView<Seq<char>>,
    pub complex_font: ResolvedView<Seq<char>>,
    pub latin_font: ResolvedView<Seq<char>>,
    pub bullet: Bullet,
}

impl View for Properties {
    type V = PropertiesView;

    open spec fn view(&self) -> PropertiesView {
        PropertiesView {
            direction: resolved_view(self.direction),
            alignment: resolved_view(self.alignment),
            language: resolved_text_view(self.language),
            complex_font: resolved_text_view(self.complex_font),
            latin_font: resolved_text_view(self.latin_font),
            bullet: self.bullet,
        }
    }
}

/// A unit's identifier: the part name, `#`, and what the unit is in it.
#[derive(Debug, PartialEq, Eq)]
pub struct UnitId(pub String);

/// What a unit of text is: a paragraph, or a container whose strings share
/// one direction.
#[derive(Debug, Clone, Copy, PartialEq, Eq, Structural)]
pub enum UnitKind {
    Paragraph,
    Table,
    Columns,
    ChartText,
}

/// Where a unit sits: its part, its paragraph's ordinal there if it is one,
/// and the container that draws it if it is not.
#[derive(Debug, PartialEq, Eq)]
pub struct Location {
    pub part: String,
    pub paragraph: Option<usize>,
    pub container: Option<String>,
}

/// One unit of text, with the properties its rendering depends on.
#[derive(Debug, PartialEq, Eq)]
pub struct TextUnit {
    pub id: UnitId,
    pub text: String,
    pub kind: UnitKind,
    pub props: Properties,
    pub location: Location,
}

/// A location as values.
pub struct LocationView {
    pub part: Seq<char>,
    pub paragraph: Option<usize>,
    pub container: Option<Seq<char>>,
}

/// A unit as values.
pub struct UnitView {
    pub id: Seq<char>,
    pub text: Seq<char>,
    pub kind: UnitKind,
    pub props: PropertiesView,
    pub location: LocationView,
}

impl View for TextUnit {
    type V = UnitView;

    open spec fn view(&self) -> UnitView {
        UnitView {
            id: self.id.0@,
            text: self.text@,
            kind: self.kind,
            props: self.props@,
            location: LocationView {
                part: self.location.part@,
                paragraph: self.location.paragraph,
                container: match self.location.container {
                    Some(c) => Some(c@),
                    None => None,
                },
            },
        }
    }
}

pub open spec fn unit_views(units: Seq<TextUnit>) -> Seq<UnitView> {
    units.map_values(|u: TextUnit| u@)
}

/// One repair a report asks for.
#[derive(Debug, Clone, PartialEq, Eq)]
pub enum Fix {
    SetDirection(Direction),
    SetAlignment(Alignment),
    /// A language tag for every run.
    SetLanguage(String),
    /// A complex-script typeface for every run.
    SetComplexFont(String),
    /// Replace a typed bullet glyph with a native list.
    ConvertLiteralBullet { marker: char },
    /// Remove the characters at these byte offsets into the text.
    RemoveControls(Vec<usize>),
    /// Remove the tatweel (kashida) characters at these byte offsets.
    RemoveTatweel(Vec<usize>),
    /// Map presentation forms to the letters they draw.
    NormalizePresentationForms,
}

/// A repair as values.
pub enum FixView {
    SetDirection(Direction),
    SetAlignment(Alignment),
    SetLanguage(Seq<char>),
    SetComplexFont(Seq<char>),
    ConvertLiteralBullet(char),
    RemoveControls(Seq<usize>),
    RemoveTatweel(Seq<usize>),
    NormalizePresentationForms,
}

impl View for Fix {
    type V = FixView;

    open spec fn view(&self) -> FixView {
        match self {
            Fix::SetDirection(d) => FixView::SetDirection(*d),
            Fix::SetAlignment(a) => FixView::SetAlignment(*a),
            Fix::SetLanguage(t) => FixView::SetLanguage(t@),
            Fix::SetComplexFont(f) => FixView::SetComplexFont(f@),
            Fix::ConvertLiteralBullet { marker } => FixView::ConvertLiteralBullet(*marker),
            Fix::RemoveControls(o) => FixView::RemoveControls(o@),
            Fix::RemoveTatweel(o) => FixView::RemoveTatweel(o@),
            Fix::NormalizePresentationForms => FixView::NormalizePresentationForms,
        }
    }
}

pub open spec fn fix_views(s: Seq<Fix>) -> Seq<FixView> {
    s.map_values(|f: Fix| f@)
}

/// What a report calls a repair.
pub open spec fn spec_describe(f: FixView) -> Seq<char> {
    match f {
        FixView::SetDirection(_) => "set the direction"@,
        FixView::SetAlignment(_) => "set the alignment"@,
        FixView::SetLanguage(_) => "set the language"@,
        FixView::SetComplexFont(_) => "set the complex-script font"@,
        FixView::ConvertLiteralBullet(_) => "convert a typed bullet"@,
        FixView::RemoveControls(_) => "remove control characters"@,
        FixView::RemoveTatweel(_) => "remove tatweel"@,
        FixView::NormalizePresentationForms => "normalise presentation forms"@,
    }
}

/// A copy of a list of offsets.
pub fn copy_offsets(a: &Vec<usize>) -> (r: Vec<usize>)
    ensures
        r@ == a@,
{
    let mut r: Vec<usize> = Vec::new();
    let mut i: usize = 0;
    while i < a.len()
        invariant
            i <= a@.len(),
            r@ == a@.take(i as int),
        decreases a@.len() - i,
    {
        r.push(a[i]);
        assert(r@ =~= a@.take(i + 1));
        i += 1;
    }
    assert(a@.take(a@.len() as int) =~= a@);
    r
}

/// A copy of a repair.
pub fn copy_fix(f: &Fix) -> (r: Fix)
    ensures
        r@ == f@,
{
    match f {
        Fix::SetDirection(d) => Fix::SetDirection(*d),
        Fix::SetAlignment(a) => Fix::SetAlignment(*a),
        Fix::SetLanguage(t) => Fix::SetLanguage(t.clone()),
        Fix::SetComplexFont(t) => Fix::SetComplexFont(t.clone()),
        Fix::ConvertLiteralBullet { marker } => Fix::ConvertLiteralBullet { marker: *marker },
        Fix::RemoveControls(o) => Fix::RemoveControls(copy_offsets(o)),
        Fix::RemoveTatweel(o) => Fix::RemoveTatweel(copy_offsets(o)),
        Fix::NormalizePresentationForms => Fix::NormalizePresentationForms,
    }
}

impl Fix {
    /// What a report calls this repair.
    pub fn describe(&self) -> (r: &'static str)
        ensures
            r@ == spec_describe(self@),
    {
        match self {
            Fix::SetDirection(_) => "set the direction",
            Fix::SetAlignment(_) => "set the alignment",
            Fix::SetLanguage(_) => "set the language",
            Fix::SetComplexFont(_) => "set the complex-script font",
            Fix::ConvertLiteralBullet { .. } => "convert a typed bullet",
            Fix::RemoveControls(_) => "remove control characters",
            Fix::RemoveTatweel(_) => "remove tatweel",
            Fix::NormalizePresentationForms => "normalise presentation forms",
        }
    }
}

} // verus!
