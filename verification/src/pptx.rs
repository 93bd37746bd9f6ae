//! PowerPoint decks: the ids a paragraph, a table and a multi-column text
//! body are reported under, and the attribute values DrawingML's paragraph
//! properties are read from.
use vstd::prelude::*;
use std::path::Path;
use crate::ids::{
    parse_ordinal, parse_usize,
    lemma_ordinal_after_issued, lemma_split_issued, make_id, ordinal_after, ordinal_after_exec,
    spec_id, split_at_last_hash, split_id,
};
use crate::package::Package;
use crate::strs::{chars_eq, chars_of, has_prefix, owned, push_all, starts_with, string_of};
use crate::text::{resolved_view, unit_views, Alignment, Bullet, Direction, Location, LocationView, Origin, Properties, PropertiesView, Resolved, ResolvedView, TextUnit, UnitId, UnitKind, UnitView};
use crate::chart::{chart_units, spec_chart_units};
use crate::xml::{document_tokens, read_failure, reads_as, attribute, attribute_views, attributes_of, decode_reference, decode_text, decoded_reference, decoded_text, parsed_attributes, read_events, spec_attribute, tag_name, tag_name_of, Kind, Token};
use crate::error::Error;
use crate::inherit::{opt_view, trim_chars, trimmed};
use crate::token::{is_true, spec_is_true};

verus! {

broadcast use vstd::string::group_string_axioms;

/// The alignment a DrawingML `algn` value names; nothing for a value outside
/// the schema's list.
pub open spec fn spec_parse_alignment(value: Seq<char>) -> Option<Alignment> {
    if value == "l"@ {
        Some(Alignment::Left)
    } else if value == "r"@ {
        Some(Alignment::Right)
    } else if value == "ctr"@ {
        Some(Alignment::Center)
    } else if value == "just"@ || value == "justLow"@ {
        Some(Alignment::Justify)
    } else if value == "dist"@ || value == "thaiDist"@ {
        Some(Alignment::Distributed)
    } else {
        None
    }
}

fn same(a: &str, b: &str) -> (r: bool)
    ensures
        r == (a@ == b@),
{
    chars_eq(&chars_of(a), &chars_of(b))
}

/// Alignment values DrawingML understands.
pub fn parse_alignment(value: &str) -> (r: Option<Alignment>)
    ensures
        r == spec_parse_alignment(value@),
{
    if same(value, "l") {
        Some(Alignment::Left)
    } else if same(value, "r") {
        Some(Alignment::Right)
    } else if same(value, "ctr") {
        Some(Alignment::Center)
    } else if same(value, "just") || same(value, "justLow") {
        Some(Alignment::Justify)
    } else if same(value, "dist") || same(value, "thaiDist") {
        Some(Alignment::Distributed)
    } else {
        None
    }
}

/// The direction an `rtl` attribute value states.
pub open spec fn spec_direction_of(value: Seq<char>) -> Direction {
    if spec_is_true(value) {
        Direction::Rtl
    } else {
        Direction::Ltr
    }
}

/// The direction an `rtl` attribute value states.
pub fn direction_of(value: &str) -> (r: Direction)
    ensures
        r == spec_direction_of(value@),
{
    if is_true(value) {
        Direction::Rtl
    } else {
        Direction::Ltr
    }
}

/// The unit id for a paragraph: the part name and the paragraph's 1-based
/// ordinal among every `a:p` in the part.
pub fn unit_id(part: &str, index: usize) -> (r: String)
    ensures
        r@ == spec_id(part@, "p"@, index as nat),
{
    make_id(part, "p", index)
}

/// The unit id for a table: the part name and the table's 1-based ordinal.
pub fn table_id(part: &str, index: usize) -> (r: String)
    ensures
        r@ == spec_id(part@, "tbl"@, index as nat),
{
    make_id(part, "tbl", index)
}

/// The unit id for a multi-column text body: the part name and the body's
/// 1-based ordinal among every `a:bodyPr` in the part, whether or not it is
/// laid out in columns, so that adding a single-column body cannot shift
/// which body an id names.
pub fn columns_id(part: &str, index: usize) -> (r: String)
    ensures
        r@ == spec_id(part@, "cols"@, index as nat),
{
    make_id(part, "cols", index)
}

/// What a unit id this adapter issued points at.
#[derive(Debug, Clone, Copy, PartialEq, Eq, Structural)]
pub enum Target {
    Paragraph(usize),
    Table(usize),
    Columns(usize),
}

/// The part and target an id names, for an id this adapter issues: `tbl` is
/// tried before `cols` and `cols` before `p`, and the first prefix that
/// matches decides.
pub open spec fn spec_parse_unit_id(id: Seq<char>) -> Option<(Seq<char>, Target)> {
    match split_id(id) {
        Some((part, rest)) => {
            let target = if has_prefix(rest, "tbl"@) {
                match ordinal_after(rest, "tbl"@) {
                    Some(n) => Some(Target::Table(n as usize)),
                    None => None,
                }
            } else if has_prefix(rest, "cols"@) {
                match ordinal_after(rest, "cols"@) {
                    Some(n) => Some(Target::Columns(n as usize)),
                    None => None,
                }
            } else {
                match ordinal_after(rest, "p"@) {
                    Some(n) => Some(Target::Paragraph(n as usize)),
                    None => None,
                }
            };
            match target {
                Some(t) => if part.len() > 0 { Some((part, t)) } else { None },
                None => None,
            }
        },
        None => None,
    }
}

/// Recover the part and target from an id this adapter issued; `None` for
/// any other id.
pub fn parse_unit_id(id: &str) -> (r: Option<(String, Target)>)
    ensures
        r matches Some(p) ==> spec_parse_unit_id(id@) == Some((p.0@, p.1)),
        r is None ==> spec_parse_unit_id(id@) is None,
{
    let (part, rest) = match split_at_last_hash(id) {
        Some(split) => split,
        None => return None,
    };
    let target = if starts_with(&rest, &chars_of("tbl")) {
        match ordinal_after_exec(&rest, "tbl") {
            Some(n) => Target::Table(n),
            None => return None,
        }
    } else if starts_with(&rest, &chars_of("cols")) {
        match ordinal_after_exec(&rest, "cols") {
            Some(n) => Target::Columns(n),
            None => return None,
        }
    } else {
        match ordinal_after_exec(&rest, "p") {
            Some(n) => Target::Paragraph(n),
            None => return None,
        }
    };
    if part.len() == 0 {
        return None;
    }
    Some((string_of(&part), target))
}

/// Every id this adapter issues reads back as what it was issued for.
pub proof fn lemma_unit_id_round_trip(part: Seq<char>, index: nat)
    requires
        part.len() > 0,
        0 < index <= usize::MAX,
    ensures
        spec_parse_unit_id(spec_id(part, "p"@, index)) == Some((part, Target::Paragraph(index as usize))),
        spec_parse_unit_id(spec_id(part, "tbl"@, index)) == Some((part, Target::Table(index as usize))),
        spec_parse_unit_id(spec_id(part, "cols"@, index)) == Some((part, Target::Columns(index as usize))),
{
    reveal_strlit("p");
    reveal_strlit("tbl");
    reveal_strlit("cols");
    lemma_split_issued(part, "p"@, index);
    lemma_split_issued(part, "tbl"@, index);
    lemma_split_issued(part, "cols"@, index);
    lemma_ordinal_after_issued("p"@, index);
    lemma_ordinal_after_issued("tbl"@, index);
    lemma_ordinal_after_issued("cols"@, index);
    let pd = "p"@ + crate::ids::decimal(index);
    let cd = "cols"@ + crate::ids::decimal(index);
    assert(pd[0] == 'p');
    assert(!has_prefix(pd, "tbl"@)) by {
        if pd.len() >= 3 {
            assert(pd.take(3)[0] == 'p');
        }
    }
    assert(!has_prefix(pd, "cols"@)) by {
        if pd.len() >= 4 {
            assert(pd.take(4)[0] == 'p');
        }
    }
    assert(!has_prefix(cd, "tbl"@)) by {
        assert(cd.take(3)[0] == 'c');
    }
    assert(has_prefix(cd, "cols"@)) by {
        assert(cd.take(4) =~= "cols"@);
    }
    let td = "tbl"@ + crate::ids::decimal(index);
    assert(has_prefix(td, "tbl"@)) by {
        assert(td.take(3) =~= "tbl"@);
    }
}

/// A PowerPoint deck opened for auditing.
pub struct PptxDocument {
    package: Package,
}

impl PptxDocument {
    /// A deck over a package already opened.
    pub fn new(package: Package) -> (r: Self)
        ensures
            r.package_spec() == package,
    {
        PptxDocument { package }
    }

    /// The package this deck is over.
    pub closed spec fn package_spec(&self) -> Package {
        self.package
    }

    /// The path this document was opened from.
    pub fn path(&self) -> &Path {
        self.package.path()
    }

    /// The package underneath, for callers that need part-level access.
    pub fn package(&self) -> (r: &Package)
        ensures
            *r == self.package_spec(),
    {
        &self.package
    }
}

// ------------------------------------------------------------ scanning a part

/// An attribute as parsed: its name, and its normalised value if it has one.
pub type AttrView = (Seq<char>, Option<Seq<char>>);

/// The shape name `p:cNvPr`'s attributes leave in force: the last `name`
/// decides, and an empty or unreadable one clears it.
pub open spec fn named_shape(shape: Option<Seq<char>>, attrs: Seq<AttrView>) -> Option<Seq<char>>
    decreases attrs.len(),
{
    if attrs.len() == 0 {
        shape
    } else {
        let before = named_shape(shape, attrs.drop_last());
        let a = attrs.last();
        if a.0 == "name"@ {
            match a.1 {
                Some(v) => if v.len() > 0 {
                    Some(v)
                } else {
                    None
                },
                None => None,
            }
        } else {
            before
        }
    }
}

/// What `a:pPr`'s attributes state, each readable one in turn: `rtl` the
/// direction, `algn` the alignment when it is a value DrawingML defines.
pub open spec fn ppr_props(p: PropertiesView, attrs: Seq<AttrView>) -> PropertiesView
    decreases attrs.len(),
{
    if attrs.len() == 0 {
        p
    } else {
        let q = ppr_props(p, attrs.drop_last());
        let a = attrs.last();
        match a.1 {
            Some(v) => if a.0 == "rtl"@ {
                PropertiesView { direction: ResolvedView::Explicit(spec_direction_of(v)), ..q }
            } else if a.0 == "algn"@ {
                match spec_parse_alignment(v) {
                    Some(al) => PropertiesView { alignment: ResolvedView::Explicit(al), ..q },
                    None => q,
                }
            } else {
                q
            },
            None => q,
        }
    }
}

/// The first readable `lang` a run's properties state, unless one was found
/// already.
pub open spec fn lang_props(p: PropertiesView, attrs: Seq<AttrView>) -> PropertiesView
    decreases attrs.len(),
{
    if attrs.len() == 0 {
        p
    } else {
        let q = lang_props(p, attrs.drop_last());
        let a = attrs.last();
        if a.0 == "lang"@ && q.language is Unset {
            match a.1 {
                Some(v) => PropertiesView { language: ResolvedView::Explicit(v), ..q },
                None => q,
            }
        } else {
            q
        }
    }
}

/// A paragraph being read.
pub struct ParagraphView {
    pub text: Seq<char>,
    pub props: PropertiesView,
    pub shape: Option<Seq<char>>,
}

/// A table, or a text body laid out in columns, being read: the ordinal its
/// id carries, every enclosed paragraph's text one per line, its direction
/// and its shape.
pub struct BoxView {
    pub index: nat,
    pub text: Seq<char>,
    pub direction: ResolvedView<Direction>,
    pub shape: Option<Seq<char>>,
}

/// What a scan of a slide-like part has gathered so far.
pub struct SlideScan {
    pub units: Seq<UnitView>,
    pub current: Option<ParagraphView>,
    pub shape: Option<Seq<char>>,
    /// The enclosing text body's `rtlCol`, if it states one.
    pub body_rtl: Option<bool>,
    pub in_text: bool,
    pub paragraphs: nat,
    pub table: Option<BoxView>,
    pub tables: nat,
    pub columns: Option<BoxView>,
    pub bodies: nat,
}

pub open spec fn slide_start() -> SlideScan {
    SlideScan {
        units: seq![],
        current: None,
        shape: None,
        body_rtl: None,
        in_text: false,
        paragraphs: 0,
        table: None,
        tables: 0,
        columns: None,
        bodies: 0,
    }
}

pub open spec fn no_props() -> PropertiesView {
    PropertiesView {
        direction: ResolvedView::Unset,
        alignment: ResolvedView::Unset,
        language: ResolvedView::Unset,
        complex_font: ResolvedView::Unset,
        latin_font: ResolvedView::Unset,
        bullet: Bullet::Absent,
    }
}

/// What the column count attribute selects: its value as a `usize`, else one.
pub open spec fn column_count(content: Seq<char>) -> nat {
    match spec_attribute(content, "numCol"@) {
        Some(v) => match parse_usize(v) {
            Some(n) => n,
            None => 1,
        },
        None => 1,
    }
}

/// A text body opens: it is counted, its `rtlCol` becomes the context of the
/// paragraphs inside, and it is a container of its own when it has at least
/// two columns.
pub open spec fn slide_body(st: SlideScan, content: Seq<char>) -> SlideScan {
    let bodies = st.bodies + 1;
    let rtl = match spec_attribute(content, "rtlCol"@) {
        Some(v) => Some(spec_is_true(v)),
        None => None,
    };
    SlideScan {
        bodies,
        body_rtl: rtl,
        columns: if column_count(content) >= 2 {
            Some(BoxView {
                index: bodies,
                text: seq![],
                direction: match rtl {
                    Some(true) => ResolvedView::Explicit(Direction::Rtl),
                    Some(false) => ResolvedView::Explicit(Direction::Ltr),
                    None => ResolvedView::Unset,
                },
                shape: st.shape,
            })
        } else {
            None
        },
        ..st
    }
}

/// The paragraph being read, with its properties changed.
pub open spec fn with_props(st: SlideScan, props: spec_fn(PropertiesView) -> PropertiesView) -> SlideScan {
    match st.current {
        Some(b) => SlideScan { current: Some(ParagraphView { props: props(b.props), ..b }), ..st },
        None => st,
    }
}

/// The first non-empty readable `typeface` of `a:cs` or `a:latin`, unless
/// the paragraph has one for that script already.
pub open spec fn slide_typeface(st: SlideScan, complex: bool, content: Seq<char>) -> SlideScan {
    match st.current {
        Some(b) => match spec_attribute(content, "typeface"@) {
            Some(t) => if t.len() > 0 {
                if complex && b.props.complex_font is Unset {
                    SlideScan {
                        current: Some(ParagraphView { props: PropertiesView { complex_font: ResolvedView::Explicit(t), ..b.props }, ..b }),
                        ..st
                    }
                } else if !complex && b.props.latin_font is Unset {
                    SlideScan {
                        current: Some(ParagraphView { props: PropertiesView { latin_font: ResolvedView::Explicit(t), ..b.props }, ..b }),
                        ..st
                    }
                } else {
                    st
                }
            } else {
                st
            },
            None => st,
        },
        None => st,
    }
}

/// `p:cNvPr` names the shape the paragraphs that follow belong to.
pub open spec fn slide_shape(st: SlideScan, content: Seq<char>) -> SlideScan {
    SlideScan { shape: named_shape(st.shape, parsed_attributes(content)), ..st }
}

/// A table opens: it is counted and becomes the table being read.
pub open spec fn slide_table(st: SlideScan) -> SlideScan {
    SlideScan {
        tables: st.tables + 1,
        table: Some(BoxView { index: st.tables + 1, text: seq![], direction: ResolvedView::Unset, shape: st.shape }),
        ..st
    }
}

/// A table's `a:tblPr` states its direction.
pub open spec fn slide_table_props(st: SlideScan, content: Seq<char>) -> SlideScan {
    match (st.table, spec_attribute(content, "rtl"@)) {
        (Some(t), Some(v)) => SlideScan {
            table: Some(BoxView { direction: ResolvedView::Explicit(spec_direction_of(v)), ..t }),
            ..st
        },
        _ => st,
    }
}

/// A paragraph opens: it is counted, and takes a right-to-left body's
/// direction as inherited context.
pub open spec fn slide_paragraph(part: Seq<char>, st: SlideScan) -> SlideScan {
    SlideScan {
        paragraphs: st.paragraphs + 1,
        current: Some(ParagraphView {
            text: seq![],
            props: PropertiesView {
                direction: if st.body_rtl == Some(true) {
                    ResolvedView::Inherited(Direction::Rtl, part, "a:bodyPr@rtlCol"@)
                } else {
                    ResolvedView::Unset
                },
                ..no_props()
            },
            shape: st.shape,
        }),
        ..st
    }
}

pub open spec fn slide_ppr(st: SlideScan, content: Seq<char>) -> SlideScan {
    with_props(st, |p: PropertiesView| ppr_props(p, parsed_attributes(content)))
}

pub open spec fn slide_bullet(st: SlideScan, bullet: Bullet) -> SlideScan {
    with_props(st, |p: PropertiesView| PropertiesView { bullet, ..p })
}

pub open spec fn slide_lang(st: SlideScan, content: Seq<char>) -> SlideScan {
    with_props(st, |p: PropertiesView| lang_props(p, parsed_attributes(content)))
}

/// An element opens, as a start tag or an empty one.
pub open spec fn slide_open(part: Seq<char>, st: SlideScan, name: Seq<char>, content: Seq<char>) -> SlideScan {
    if name == "p:cNvPr"@ {
        slide_shape(st, content)
    } else if name == "a:bodyPr"@ {
        slide_body(st, content)
    } else if name == "a:tbl"@ {
        slide_table(st)
    } else if name == "a:tblPr"@ {
        slide_table_props(st, content)
    } else if name == "a:p"@ {
        slide_paragraph(part, st)
    } else if name == "a:pPr"@ {
        slide_ppr(st, content)
    } else if name == "a:buChar"@ || name == "a:buAutoNum"@ || name == "a:buBlip"@ {
        slide_bullet(st, Bullet::Native)
    } else if name == "a:buNone"@ {
        slide_bullet(st, Bullet::Suppressed)
    } else if name == "a:rPr"@ || name == "a:defRPr"@ || name == "a:endParaRPr"@ {
        slide_lang(st, content)
    } else if name == "a:cs"@ || name == "a:latin"@ {
        slide_typeface(st, name == "a:cs"@, content)
    } else if name == "a:t"@ {
        SlideScan { in_text: true, ..st }
    } else {
        st
    }
}

/// A paragraph's text appended to a container's, one paragraph per line.
pub open spec fn pushed(c: Option<BoxView>, text: Seq<char>) -> Option<BoxView> {
    match c {
        Some(b) => Some(BoxView { text: if b.text.len() == 0 { text } else { b.text + seq!['\n'] + text }, ..b }),
        None => None,
    }
}

/// The unit a paragraph lowers into.
pub open spec fn paragraph_unit(part: Seq<char>, b: ParagraphView, index: nat) -> UnitView {
    UnitView {
        id: spec_id(part, "p"@, index),
        text: b.text,
        kind: UnitKind::Paragraph,
        props: b.props,
        location: LocationView { part, paragraph: Some(index as usize), container: b.shape },
    }
}

/// The unit a container lowers into, unless it laid out no text at all.
pub open spec fn box_units(part: Seq<char>, c: Option<BoxView>, kind: UnitKind, prefix: Seq<char>) -> Seq<UnitView> {
    match c {
        Some(b) => if trimmed(b.text).len() > 0 {
            seq![UnitView {
                id: spec_id(part, prefix, b.index),
                text: b.text,
                kind,
                props: PropertiesView { direction: b.direction, ..no_props() },
                location: LocationView { part, paragraph: None, container: b.shape },
            }]
        } else {
            seq![]
        },
        None => seq![],
    }
}

/// An element closes. A paragraph with text is a unit, and its text is its
/// table's and its column body's too; a table and a column body are units
/// when they close.
pub open spec fn slide_close(part: Seq<char>, st: SlideScan, name: Seq<char>) -> SlideScan {
    if name == "a:t"@ {
        SlideScan { in_text: false, ..st }
    } else if name == "a:p"@ {
        match st.current {
            Some(b) => if trimmed(b.text).len() > 0 {
                SlideScan {
                    current: None,
                    table: pushed(st.table, b.text),
                    columns: pushed(st.columns, b.text),
                    units: st.units.push(paragraph_unit(part, b, st.paragraphs)),
                    ..st
                }
            } else {
                SlideScan { current: None, ..st }
            },
            None => st,
        }
    } else if name == "a:tbl"@ {
        SlideScan { table: None, units: st.units + box_units(part, st.table, UnitKind::Table, "tbl"@), ..st }
    } else if name == "p:sp"@ || name == "p:graphicFrame"@ || name == "p:pic"@ || name == "p:cxnSp"@ {
        SlideScan { shape: None, ..st }
    } else if name == "p:txBody"@ || name == "a:txBody"@ || name == "c:txPr"@ {
        SlideScan {
            columns: None,
            body_rtl: None,
            units: st.units + box_units(part, st.columns, UnitKind::Columns, "cols"@),
            ..st
        }
    } else {
        st
    }
}

/// Text inside an `a:t`, appended to the paragraph being read.
pub open spec fn slide_text(st: SlideScan, piece: Seq<char>) -> SlideScan {
    if st.in_text {
        match st.current {
            Some(b) => SlideScan { current: Some(ParagraphView { text: b.text + piece, ..b }), ..st },
            None => st,
        }
    } else {
        st
    }
}

pub open spec fn slide_step(part: Seq<char>, st: SlideScan, t: Token) -> SlideScan {
    match t.kind {
        Kind::Start | Kind::Empty => slide_open(part, st, tag_name(t.text@), t.text@),
        Kind::End => slide_close(part, st, t.text@),
        Kind::Text => slide_text(st, decoded_text(t.text@)),
        Kind::GeneralRef => slide_text(st, decoded_reference(t.text@)),
        _ => st,
    }
}

/// What a scan of a part has gathered after a token stream.
pub open spec fn slide_after(part: Seq<char>, ev: Seq<Token>) -> SlideScan
    decreases ev.len(),
{
    if ev.len() == 0 {
        slide_start()
    } else {
        slide_step(part, slide_after(part, ev.drop_last()), ev.last())
    }
}

// ------------------------------------------------------------ the scanner

struct ParagraphBuilder {
    text: Vec<char>,
    props: Properties,
    shape: Option<String>,
}

spec fn paragraph_view(b: ParagraphBuilder) -> ParagraphView {
    ParagraphView { text: b.text@, props: b.props@, shape: opt_view(b.shape) }
}

struct ContainerBuilder {
    index: usize,
    text: Vec<char>,
    direction: Resolved<Direction>,
    shape: Option<String>,
}

spec fn box_view(c: ContainerBuilder) -> BoxView {
    BoxView { index: c.index as nat, text: c.text@, direction: resolved_view(c.direction), shape: opt_view(c.shape) }
}

spec fn opt_box(c: Option<ContainerBuilder>) -> Option<BoxView> {
    match c {
        Some(b) => Some(box_view(b)),
        None => None,
    }
}

struct SlideScanner {
    units: Vec<TextUnit>,
    current: Option<ParagraphBuilder>,
    shape: Option<String>,
    body_rtl: Option<bool>,
    in_text: bool,
    paragraphs: usize,
    table: Option<ContainerBuilder>,
    tables: usize,
    columns: Option<ContainerBuilder>,
    bodies: usize,
}

spec fn slide_view(s: SlideScanner) -> SlideScan {
    SlideScan {
        units: unit_views(s.units@),
        current: match s.current {
            Some(b) => Some(paragraph_view(b)),
            None => None,
        },
        shape: opt_view(s.shape),
        body_rtl: s.body_rtl,
        in_text: s.in_text,
        paragraphs: s.paragraphs as nat,
        table: opt_box(s.table),
        tables: s.tables as nat,
        columns: opt_box(s.columns),
        bodies: s.bodies as nat,
    }
}

fn clone_opt(s: &Option<String>) -> (r: Option<String>)
    ensures
        opt_view(r) == opt_view(*s),
{
    match s {
        Some(v) => Some(v.clone()),
        None => None,
    }
}

fn no_properties() -> (r: Properties)
    ensures
        r@ == no_props(),
{
    Properties::default()
}

/// A container's text, with one more paragraph on its own line.
fn push_line(c: &mut Option<ContainerBuilder>, text: &Vec<char>)
    ensures
        opt_box(*final(c)) == pushed(opt_box(*old(c)), text@),
{
    match c.take() {
        Some(mut b) => {
            let ghost before = b.text@;
            if b.text.len() > 0 {
                b.text.push('\n');
            }
            push_all(&mut b.text, text);
            proof {
                if before.len() == 0 {
                    assert(b.text@ =~= text@);
                } else {
                    assert(b.text@ =~= before + seq!['\n'] + text@);
                }
            }
            *c = Some(b);
        },
        None => {},
    }
}

/// The unit a paragraph lowers into.
fn finish_paragraph(part: &str, b: ParagraphBuilder, index: usize) -> (r: TextUnit)
    ensures
        r@ == paragraph_unit(part@, paragraph_view(b), index as nat),
{
    let ParagraphBuilder { text, props, shape } = b;
    TextUnit {
        id: UnitId(unit_id(part, index)),
        text: string_of(&text),
        kind: UnitKind::Paragraph,
        props,
        location: Location { part: owned(part), paragraph: Some(index), container: shape },
    }
}

spec fn opt_unit(u: Option<TextUnit>) -> Seq<UnitView> {
    match u {
        Some(v) => seq![v@],
        None => seq![],
    }
}

/// The unit a table (or, when `table` is false, a column body) lowers into.
fn finish_box(part: &str, c: Option<ContainerBuilder>, table: bool) -> (r: Option<TextUnit>)
    ensures
        opt_unit(r) == box_units(part@, opt_box(c), if table { UnitKind::Table } else { UnitKind::Columns },
            if table { "tbl"@ } else { "cols"@ }),
{
    match c {
        Some(b) => {
            if trim_chars(&b.text).len() == 0 {
                return None;
            }
            let ContainerBuilder { index, text, direction, shape } = b;
            let id = if table { table_id(part, index) } else { columns_id(part, index) };
            let mut props = no_properties();
            props.direction = direction;
            Some(TextUnit {
                id: UnitId(id),
                text: string_of(&text),
                kind: if table { UnitKind::Table } else { UnitKind::Columns },
                props,
                location: Location { part: owned(part), paragraph: None, container: shape },
            })
        },
        None => None,
    }
}

fn push_unit(units: &mut Vec<TextUnit>, u: Option<TextUnit>)
    ensures
        unit_views(final(units)@) == unit_views(old(units)@) + opt_unit(u),
{
    let ghost before = units@;
    match u {
        Some(v) => {
            let ghost vv = v@;
            units.push(v);
            assert(unit_views(units@) =~= unit_views(before) + seq![vv]);
        },
        None => {
            assert(unit_views(units@) =~= unit_views(before) + seq![]);
        },
    }
}

fn named(name: &[char], lit: &str) -> (r: bool)
    ensures
        r == (name@ == lit@),
{
    chars_eq(name, &chars_of(lit))
}

impl SlideScanner {
    fn new() -> (r: Self)
        ensures
            slide_view(r) == slide_start(),
    {
        let r = SlideScanner {
            units: Vec::new(),
            current: None,
            shape: None,
            body_rtl: None,
            in_text: false,
            paragraphs: 0,
            table: None,
            tables: 0,
            columns: None,
            bodies: 0,
        };
        assert(unit_views(r.units@) =~= seq![]);
        r
    }

    fn read_shape_name(&mut self, tag: &Token)
        ensures
            slide_view(*final(self)) == slide_shape(slide_view(*old(self)), tag.text@),
    {
        let attrs = attributes_of(tag.text.as_str());
        let ghost av = attribute_views(attrs@);
        let ghost start = opt_view(self.shape);
        let mut j: usize = 0;
        assert(av.take(0) =~= Seq::<AttrView>::empty());
        while j < attrs.len()
            invariant
                j <= attrs@.len(),
                av == attribute_views(attrs@),
                av == parsed_attributes(tag.text@),
                opt_view(self.shape) == named_shape(start, av.take(j as int)),
                slide_view(*self) == (SlideScan { shape: opt_view(self.shape), ..slide_view(*old(self)) }),
            decreases attrs@.len() - j,
        {
            assert(av.take(j + 1).drop_last() =~= av.take(j as int));
            assert(av.take(j + 1).last() == av[j as int]);
            if named(&chars_of(attrs[j].0.as_str()), "name") {
                self.shape = match &attrs[j].1 {
                    Some(v) => if chars_of(v.as_str()).len() > 0 {
                        Some(v.clone())
                    } else {
                        None
                    },
                    None => None,
                };
            }
            j += 1;
        }
        assert(av.take(j as int) =~= av);
    }

    fn open_body(&mut self, tag: &Token)
        requires
            old(self).bodies < usize::MAX,
        ensures
            slide_view(*final(self)) == slide_body(slide_view(*old(self)), tag.text@),
            final(self).bodies == old(self).bodies + 1,
    {
        self.bodies = self.bodies + 1;
        let rtl = match attribute(tag, "rtlCol") {
            Some(v) => Some(is_true(v.as_str())),
            None => None,
        };
        let count: usize = match attribute(tag, "numCol") {
            Some(v) => match parse_ordinal(&chars_of(v.as_str())) {
                Some(n) => n,
                None => 1,
            },
            None => 1,
        };
        self.body_rtl = rtl;
        self.columns = if count >= 2 {
            let direction = match rtl {
                Some(true) => Resolved::Explicit(Direction::Rtl),
                Some(false) => Resolved::Explicit(Direction::Ltr),
                None => Resolved::Unset,
            };
            Some(ContainerBuilder { index: self.bodies, text: Vec::new(), direction, shape: clone_opt(&self.shape) })
        } else {
            None
        };
        proof {
            if count >= 2 {
                assert(self.columns.unwrap().text@ =~= Seq::<char>::empty());
            }
        }
    }

    fn open_table(&mut self)
        requires
            old(self).tables < usize::MAX,
        ensures
            slide_view(*final(self)) == slide_table(slide_view(*old(self))),
            final(self).tables == old(self).tables + 1,
    {
        self.tables = self.tables + 1;
        let b = ContainerBuilder { index: self.tables, text: Vec::new(), direction: Resolved::Unset, shape: clone_opt(&self.shape) };
        assert(b.text@ =~= Seq::<char>::empty());
        self.table = Some(b);
    }

    fn read_table_props(&mut self, tag: &Token)
        ensures
            slide_view(*final(self)) == slide_table_props(slide_view(*old(self)), tag.text@),
    {
        if self.table.is_some() {
            match attribute(tag, "rtl") {
                Some(v) => {
                    let mut t = self.table.take().unwrap();
                    t.direction = Resolved::Explicit(direction_of(v.as_str()));
                    self.table = Some(t);
                },
                None => {},
            }
        }
    }

    fn open_paragraph(&mut self, part: &str)
        requires
            old(self).paragraphs < usize::MAX,
        ensures
            slide_view(*final(self)) == slide_paragraph(part@, slide_view(*old(self))),
            final(self).paragraphs == old(self).paragraphs + 1,
    {
        self.paragraphs = self.paragraphs + 1;
        let mut props = no_properties();
        if self.body_rtl == Some(true) {
            props.direction = Resolved::Inherited(Direction::Rtl, Origin::new(part, String::from_str("a:bodyPr@rtlCol")));
        }
        let b = ParagraphBuilder { text: Vec::new(), props, shape: clone_opt(&self.shape) };
        assert(b.text@ =~= Seq::<char>::empty());
        self.current = Some(b);
    }

    fn read_paragraph_props(&mut self, tag: &Token)
        ensures
            slide_view(*final(self)) == slide_ppr(slide_view(*old(self)), tag.text@),
    {
        if self.current.is_some() {
            let mut b = self.current.take().unwrap();
            let attrs = attributes_of(tag.text.as_str());
            let ghost av = attribute_views(attrs@);
            let ghost start = b.props@;
            let mut j: usize = 0;
            assert(av.take(0) =~= Seq::<AttrView>::empty());
            while j < attrs.len()
                invariant
                    j <= attrs@.len(),
                    av == attribute_views(attrs@),
                    b.props@ == ppr_props(start, av.take(j as int)),
                    b.text@ == old(self).current.unwrap().text@,
                    opt_view(b.shape) == opt_view(old(self).current.unwrap().shape),
                decreases attrs@.len() - j,
            {
                assert(av.take(j + 1).drop_last() =~= av.take(j as int));
                assert(av.take(j + 1).last() == av[j as int]);
                match &attrs[j].1 {
                    Some(v) => {
                        let key = chars_of(attrs[j].0.as_str());
                        if named(&key, "rtl") {
                            b.props.direction = Resolved::Explicit(direction_of(v.as_str()));
                        } else if named(&key, "algn") {
                            match parse_alignment(v.as_str()) {
                                Some(a) => b.props.alignment = Resolved::Explicit(a),
                                None => {},
                            }
                        }
                    },
                    None => {},
                }
                j += 1;
            }
            assert(av.take(j as int) =~= av);
            self.current = Some(b);
        }
    }

    fn set_bullet(&mut self, bullet: Bullet)
        ensures
            slide_view(*final(self)) == slide_bullet(slide_view(*old(self)), bullet),
    {
        if self.current.is_some() {
            let mut b = self.current.take().unwrap();
            b.props.bullet = bullet;
            self.current = Some(b);
        }
    }

    fn read_language(&mut self, tag: &Token)
        ensures
            slide_view(*final(self)) == slide_lang(slide_view(*old(self)), tag.text@),
    {
        if self.current.is_some() {
            let mut b = self.current.take().unwrap();
            let attrs = attributes_of(tag.text.as_str());
            let ghost av = attribute_views(attrs@);
            let ghost start = b.props@;
            let mut j: usize = 0;
            assert(av.take(0) =~= Seq::<AttrView>::empty());
            while j < attrs.len()
                invariant
                    j <= attrs@.len(),
                    av == attribute_views(attrs@),
                    b.props@ == lang_props(start, av.take(j as int)),
                    b.text@ == old(self).current.unwrap().text@,
                    opt_view(b.shape) == opt_view(old(self).current.unwrap().shape),
                decreases attrs@.len() - j,
            {
                assert(av.take(j + 1).drop_last() =~= av.take(j as int));
                assert(av.take(j + 1).last() == av[j as int]);
                if named(&chars_of(attrs[j].0.as_str()), "lang") && b.props.language.is_unset() {
                    match &attrs[j].1 {
                        Some(v) => b.props.language = Resolved::Explicit(v.clone()),
                        None => {},
                    }
                }
                j += 1;
            }
            assert(av.take(j as int) =~= av);
            self.current = Some(b);
        }
    }

    fn read_typeface(&mut self, complex: bool, tag: &Token)
        ensures
            slide_view(*final(self)) == slide_typeface(slide_view(*old(self)), complex, tag.text@),
    {
        if self.current.is_some() {
            match attribute(tag, "typeface") {
                Some(t) => {
                    if chars_of(t.as_str()).len() > 0 {
                        let mut b = self.current.take().unwrap();
                        if complex && b.props.complex_font.is_unset() {
                            b.props.complex_font = Resolved::Explicit(t);
                        } else if !complex && b.props.latin_font.is_unset() {
                            b.props.latin_font = Resolved::Explicit(t);
                        }
                        self.current = Some(b);
                    }
                },
                None => {},
            }
        }
    }

    /// An element opens.
    fn open_element(&mut self, part: &str, name: &[char], tag: &Token)
        requires
            old(self).paragraphs < usize::MAX,
            old(self).tables < usize::MAX,
            old(self).bodies < usize::MAX,
        ensures
            slide_view(*final(self)) == slide_open(part@, slide_view(*old(self)), name@, tag.text@),
            final(self).paragraphs <= old(self).paragraphs + 1,
            final(self).tables <= old(self).tables + 1,
            final(self).bodies <= old(self).bodies + 1,
    {
        if named(name, "p:cNvPr") {
            self.read_shape_name(tag);
        } else if named(name, "a:bodyPr") {
            self.open_body(tag);
        } else if named(name, "a:tbl") {
            self.open_table();
        } else if named(name, "a:tblPr") {
            self.read_table_props(tag);
        } else if named(name, "a:p") {
            self.open_paragraph(part);
        } else if named(name, "a:pPr") {
            self.read_paragraph_props(tag);
        } else if named(name, "a:buChar") || named(name, "a:buAutoNum") || named(name, "a:buBlip") {
            self.set_bullet(Bullet::Native);
        } else if named(name, "a:buNone") {
            self.set_bullet(Bullet::Suppressed);
        } else if named(name, "a:rPr") || named(name, "a:defRPr") || named(name, "a:endParaRPr") {
            self.read_language(tag);
        } else if named(name, "a:cs") || named(name, "a:latin") {
            let complex = named(name, "a:cs");
            self.read_typeface(complex, tag);
        } else if named(name, "a:t") {
            self.in_text = true;
        }
    }

    /// An element closes.
    fn close_element(&mut self, part: &str, name: &[char])
        ensures
            slide_view(*final(self)) == slide_close(part@, slide_view(*old(self)), name@),
            final(self).paragraphs == old(self).paragraphs,
            final(self).tables == old(self).tables,
            final(self).bodies == old(self).bodies,
    {
        if named(name, "a:t") {
            self.in_text = false;
        } else if named(name, "a:p") {
            match self.current.take() {
                Some(b) => {
                    if trim_chars(&b.text).len() > 0 {
                        push_line(&mut self.table, &b.text);
                        push_line(&mut self.columns, &b.text);
                        let ghost before = self.units@;
                        let u = finish_paragraph(part, b, self.paragraphs);
                        let ghost uv = u@;
                        self.units.push(u);
                        assert(unit_views(self.units@) =~= unit_views(before).push(uv));
                    }
                },
                None => {},
            }
        } else if named(name, "a:tbl") {
            let t = self.table.take();
            let u = finish_box(part, t, true);
            push_unit(&mut self.units, u);
        } else if named(name, "p:sp") || named(name, "p:graphicFrame") || named(name, "p:pic") || named(name, "p:cxnSp") {
            self.shape = None;
        } else if named(name, "p:txBody") || named(name, "a:txBody") || named(name, "c:txPr") {
            let c = self.columns.take();
            let u = finish_box(part, c, false);
            push_unit(&mut self.units, u);
            self.body_rtl = None;
        }
    }

    /// Text, or a reference, decoded into `piece`.
    fn add_text(&mut self, piece: Vec<char>)
        ensures
            slide_view(*final(self)) == slide_text(slide_view(*old(self)), piece@),
            final(self).paragraphs == old(self).paragraphs,
            final(self).tables == old(self).tables,
            final(self).bodies == old(self).bodies,
    {
        if self.in_text && self.current.is_some() {
            let mut b = self.current.take().unwrap();
            push_all(&mut b.text, &piece);
            self.current = Some(b);
        }
    }
}

/// Read a slide-like part's token stream into text units: a unit for every
/// `a:p` with text, in document order, for every table and every text body
/// in two or more columns that lays out text, as each closes.
///
/// A paragraph's direction, alignment, bullet, language and fonts are
/// `Explicit` only when the paragraph itself states them; a right-to-left
/// text body's direction is `Inherited` by the paragraphs in it.
pub fn scan_events(part: &str, events: &[Token]) -> (r: Vec<TextUnit>)
    ensures
        unit_views(r@) == slide_after(part@, events@).units,
{
    let mut sc = SlideScanner::new();
    let mut i: usize = 0;
    assert(events@.take(0) =~= Seq::<Token>::empty());
    while i < events.len()
        invariant
            i <= events@.len(),
            slide_view(sc) == slide_after(part@, events@.take(i as int)),
            sc.paragraphs <= i,
            sc.tables <= i,
            sc.bodies <= i,
        decreases events@.len() - i,
    {
        let t = &events[i];
        assert(events@.take(i + 1).drop_last() =~= events@.take(i as int));
        assert(events@.take(i + 1).last() == *t);
        match t.kind {
            Kind::Start | Kind::Empty => {
                let name = tag_name_of(t.text.as_str());
                sc.open_element(part, &name, t);
            },
            Kind::End => {
                let name = chars_of(t.text.as_str());
                sc.close_element(part, &name);
            },
            Kind::Text => sc.add_text(decode_text(t.text.as_str())),
            Kind::GeneralRef => sc.add_text(decode_reference(t.text.as_str())),
            _ => {},
        }
        i += 1;
    }
    assert(events@.take(i as int) =~= events@);
    sc.units
}

/// Parse an in-memory part into text units: the units [`scan_events`]
/// reads, followed by the chart text units when the part is a chart.
/// Exactly a part the parser rejects fails.
pub fn scan_xml(part: &str, xml: &str) -> (r: Result<Vec<TextUnit>, Error>)
    ensures
        r is Ok <==> document_tokens(xml@) is Ok,
        r matches Err(e) ==> read_failure(part@, xml@, e),
        r matches Ok(u) ==> exists|ts: Seq<Token>| #[trigger] reads_as(xml@, ts)
            && unit_views(u@) == slide_after(part@, ts).units + spec_chart_units(part@, ts),
{
    let events = read_events(part, xml)?;
    let mut units = scan_events(part, &events);
    let mut charts = chart_units(part, &events);
    let ghost a = units@;
    let ghost b = charts@;
    units.append(&mut charts);
    assert(unit_views(a + b) =~= unit_views(a) + unit_views(b));
    assert(reads_as(xml@, events@));
    Ok(units)
}

} // verus!
