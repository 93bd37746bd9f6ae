//! Property chain resolution: what a paragraph inherits, and from where.
//!
//! PowerPoint stores a paragraph's formatting in up to four places, and the
//! paragraph itself is only the first of them. A property it leaves unset is
//! taken from the list style on its own shape, then from the matching
//! placeholder on the slide layout, then from the same placeholder on the
//! slide master, and finally from one of the master's named text styles.
//! [`crate::rels`] found the parts; this module reads the properties out of
//! them and fills in what the paragraph did not say.
//!
//! A shape says which placeholder it is with `p:ph`, whose `@type` defaults
//! to `body`; a slide's placeholder is answered by the one above it with the
//! same `@idx` (absent is zero) and the same text style, `title` and
//! `ctrTitle` being one placeholder under two names. Every source states its
//! properties once per list level, `a:lvl1pPr` through `a:lvl9pPr`, and a
//! paragraph at `a:pPr/@lvl` (zero-based) is answered only by that level.
//!
//! Direction, alignment and the complex-script font slot are resolved. A
//! master usually names the font slot as a reference into its theme's font
//! scheme — `+mn-cs` — which [`Typeface`] keeps apart from a font's name and
//! [`FontScheme`] answers.
use vstd::prelude::*;
use crate::error::Error;
use crate::ids::{decimal, decimal_of, is_numeral, numeral, parse_ordinal, parse_u32, parse_u32_exec, parse_usize};
use crate::pptx::{parse_alignment, spec_direction_of, spec_parse_alignment};
use crate::strs::{chars_eq, chars_of, has_prefix, has_suffix, push_all, slice_chars, starts_with, ends_with, string_of, owned};
use crate::text::{Alignment, Direction, Origin, Properties, PropertiesView, Resolved, ResolvedView};
use crate::token::{is_unicode_ws, is_whitespace, is_true, spec_is_true, leading_ws, leading_ws_exec, lemma_leading_ws};
use crate::rels::{ancestor_role_is, is_walk, role_in, PartView, RelationshipGraph, Role};
use crate::xml::{document_tokens, read_failure, reads_as, attribute, read_events, spec_attribute, tag_name, tag_name_of, Kind, Token};

verus! {

broadcast use vstd::string::group_string_axioms;

/// List levels a style source may state: `a:lvl1pPr` … `a:lvl9pPr`.
pub const LEVELS: usize = 9;

/// The zero-based level an `a:lvl1pPr` … `a:lvl9pPr` element states.
pub open spec fn spec_level_of_element(name: Seq<char>) -> Option<nat> {
    if name.len() >= 8 && has_prefix(name, "a:lvl"@) && has_suffix(name, "pPr"@) {
        match parse_usize(name.subrange(5, name.len() - 3)) {
            Some(level) => if 1 <= level <= 9 { Some((level - 1) as nat) } else { None },
            None => None,
        }
    } else {
        None
    }
}

/// The zero-based level an `a:lvl1pPr` … `a:lvl9pPr` element states.
pub fn level_of_element(name: &str) -> (r: Option<usize>)
    ensures
        r matches Some(l) ==> spec_level_of_element(name@) == Some(l as nat) && l < LEVELS,
        r is None ==> spec_level_of_element(name@) is None,
{
    let n = chars_of(name);
    if n.len() < 8 || !starts_with(&n, &chars_of("a:lvl")) || !ends_with(&n, &chars_of("pPr")) {
        proof {
            reveal_strlit("a:lvl");
            reveal_strlit("pPr");
        }
        return None;
    }
    match parse_ordinal(&slice_chars(&n, 5, n.len() - 3)) {
        Some(level) => if 1 <= level && level <= LEVELS {
            Some(level - 1)
        } else {
            None
        },
        None => None,
    }
}

/// How many whitespace characters `s` ends with.
pub open spec fn trailing_ws(s: Seq<char>) -> nat
    decreases s.len(),
{
    if s.len() > 0 && is_unicode_ws(s.last()) {
        1 + trailing_ws(s.drop_last())
    } else {
        0
    }
}

proof fn lemma_trailing_ws(s: Seq<char>)
    ensures
        trailing_ws(s) <= s.len(),
    decreases s.len(),
{
    if s.len() > 0 && is_unicode_ws(s.last()) {
        lemma_trailing_ws(s.drop_last());
    }
}

/// A string without its leading and trailing whitespace (`str::trim`).
pub open spec fn trimmed(s: Seq<char>) -> Seq<char> {
    let t = s.skip(leading_ws(s));
    t.take(t.len() - trailing_ws(t))
}

/// `s` without its leading and trailing whitespace.
pub fn trim_chars(s: &[char]) -> (r: Vec<char>)
    ensures
        r@ == trimmed(s@),
{
    proof {
        lemma_leading_ws(s@);
    }
    let start = leading_ws_exec(s);
    let t = slice_chars(s, start, s.len());
    let mut end = t.len();
    assert(t@.take(end as int) =~= t@);
    while end > 0 && is_whitespace(t[end - 1])
        invariant
            end <= t@.len(),
            trailing_ws(t@) == (t@.len() - end) + trailing_ws(t@.take(end as int)),
        decreases end,
    {
        assert(t@.take(end as int).drop_last() =~= t@.take(end - 1));
        end -= 1;
    }
    proof {
        lemma_trailing_ws(t@);
    }
    slice_chars(&t, 0, end)
}

/// The zero-based level a paragraph's `a:pPr/@lvl` selects: its value
/// trimmed and read as a decimal number, clamped to the last level a style
/// source can state — a numeral too large for a `usize` clamps too — and
/// zero for a value that is no number.
pub open spec fn spec_level_of_attribute(value: Seq<char>) -> nat {
    let n = match parse_usize(trimmed(value)) {
        Some(n) => n,
        None => if numeral(trimmed(value)) { 8 } else { 0 },
    };
    if n < 8 { n } else { 8 }
}

/// The zero-based level a paragraph's `a:pPr/@lvl` selects.
///
/// Out-of-range values are clamped rather than rejected: 0–8 is all a valid
/// document writes, and a document that writes more is still laid out at
/// some level by the application, so it resolves against the nearest level
/// that exists.
pub fn level_of_attribute(value: &str) -> (r: usize)
    ensures
        r == spec_level_of_attribute(value@),
{
    let t = trim_chars(&chars_of(value));
    let n = match parse_ordinal(&t) {
        Some(n) => n,
        None => if is_numeral(&t) { LEVELS - 1 } else { 0 },
    };
    if n < LEVELS - 1 { n } else { LEVELS - 1 }
}

/// Which of the theme's two fonts a `+mj-`/`+mn-` reference names.
#[derive(Debug, Clone, Copy, PartialEq, Eq, Structural)]
pub enum ThemeFont {
    /// `+mj-…`, `a:majorFont`: headings.
    Major,
    /// `+mn-…`, `a:minorFont`: body text.
    Minor,
}

pub open spec fn font_element(f: ThemeFont) -> Seq<char> {
    match f {
        ThemeFont::Major => "majorFont"@,
        ThemeFont::Minor => "minorFont"@,
    }
}

impl ThemeFont {
    /// The element carrying it in a theme's `a:fontScheme`.
    pub fn element(self) -> (r: &'static str)
        ensures
            r@ == font_element(self),
    {
        match self {
            ThemeFont::Major => "majorFont",
            ThemeFont::Minor => "minorFont",
        }
    }
}

/// Which script slot of a theme font a reference names.
#[derive(Debug, Clone, Copy, PartialEq, Eq, Structural)]
pub enum ThemeScript {
    /// `-lt`, `a:latin`.
    Latin,
    /// `-ea`, `a:ea`.
    EastAsian,
    /// `-cs`, `a:cs`.
    Complex,
}

pub open spec fn script_element(s: ThemeScript) -> Seq<char> {
    match s {
        ThemeScript::Latin => "latin"@,
        ThemeScript::EastAsian => "ea"@,
        ThemeScript::Complex => "cs"@,
    }
}

impl ThemeScript {
    /// The element carrying it under `a:majorFont` / `a:minorFont`.
    pub fn element(self) -> (r: &'static str)
        ensures
            r@ == script_element(self),
    {
        match self {
            ThemeScript::Latin => "latin",
            ThemeScript::EastAsian => "ea",
            ThemeScript::Complex => "cs",
        }
    }
}

/// A typeface as a document states it: a font named outright, or a
/// reference into the theme's font scheme. The two are not
/// interchangeable, and a reference is never reported as if it named a font.
#[derive(Debug, PartialEq, Eq)]
pub enum Typeface {
    /// A typeface named outright.
    Named(String),
    /// A reference into the theme's `a:fontScheme`.
    Theme(ThemeFont, ThemeScript),
}

impl Clone for Typeface {
    fn clone(&self) -> (r: Self)
        ensures
            r == *self,
    {
        match self {
            Typeface::Named(n) => Typeface::Named(n.clone()),
            Typeface::Theme(f, s) => Typeface::Theme(*f, *s),
        }
    }
}

/// A typeface as values: the name it states, or the slot it points at.
pub enum TypefaceView {
    Named(Seq<char>),
    Theme(ThemeFont, ThemeScript),
}

pub open spec fn typeface_view(t: Typeface) -> TypefaceView {
    match t {
        Typeface::Named(n) => TypefaceView::Named(n@),
        Typeface::Theme(f, s) => TypefaceView::Theme(f, s),
    }
}

/// What follows the first `c` in `s`, and what precedes it.
pub open spec fn split_first(s: Seq<char>, c: char) -> Option<(Seq<char>, Seq<char>)>
    decreases s.len(),
{
    if s.len() == 0 {
        None
    } else if s[0] == c {
        Some((seq![], s.drop_first()))
    } else {
        match split_first(s.drop_first(), c) {
            Some((head, tail)) => Some((seq![s[0]] + head, tail)),
            None => None,
        }
    }
}

fn split_first_exec(s: &[char], c: char) -> (r: Option<(Vec<char>, Vec<char>)>)
    ensures
        r matches Some(p) ==> split_first(s@, c) == Some((p.0@, p.1@)),
        r is None ==> split_first(s@, c) is None,
{
    let mut i: usize = 0;
    while i < s.len()
        invariant
            i <= s@.len(),
            forall|k: int| 0 <= k < i ==> s@[k] != c,
        decreases s@.len() - i,
    {
        if s[i] == c {
            proof {
                lemma_split_first_at(s@, c, i as int);
            }
            return Some((slice_chars(s, 0, i), slice_chars(s, i + 1, s.len())));
        }
        i += 1;
    }
    proof {
        lemma_split_first_none(s@, c);
    }
    None
}

proof fn lemma_split_first_at(s: Seq<char>, c: char, i: int)
    requires
        0 <= i < s.len(),
        s[i] == c,
        forall|k: int| 0 <= k < i ==> s[k] != c,
    ensures
        split_first(s, c) == Some((s.take(i), s.skip(i + 1))),
    decreases i,
{
    if i > 0 {
        lemma_split_first_at(s.drop_first(), c, i - 1);
        assert(seq![s[0]] + s.drop_first().take(i - 1) =~= s.take(i));
        assert(s.drop_first().skip(i) =~= s.skip(i + 1));
    } else {
        assert(s.take(0) =~= Seq::<char>::empty());
        assert(s.drop_first() =~= s.skip(1));
    }
}

proof fn lemma_split_first_none(s: Seq<char>, c: char)
    requires
        forall|k: int| 0 <= k < s.len() ==> s[k] != c,
    ensures
        split_first(s, c) is None,
    decreases s.len(),
{
    if s.len() > 0 {
        lemma_split_first_none(s.drop_first(), c);
    }
}

/// What a `@typeface` value states: nothing for an empty value or for a `+`
/// form naming no slot this module knows; a reference for `+mj-…`/`+mn-…`
/// with a known script; a name otherwise.
pub open spec fn spec_typeface(value: Seq<char>) -> Option<TypefaceView> {
    if value.len() == 0 {
        None
    } else if value[0] != '+' {
        Some(TypefaceView::Named(value))
    } else {
        match split_first(value.drop_first(), '-') {
            Some((font, script)) => {
                let f = if font == "mj"@ { Some(ThemeFont::Major) } else if font == "mn"@ { Some(ThemeFont::Minor) } else { None };
                let s = if script == "lt"@ {
                    Some(ThemeScript::Latin)
                } else if script == "ea"@ {
                    Some(ThemeScript::EastAsian)
                } else if script == "cs"@ {
                    Some(ThemeScript::Complex)
                } else {
                    None
                };
                match (f, s) {
                    (Some(f), Some(s)) => Some(TypefaceView::Theme(f, s)),
                    _ => None,
                }
            },
            None => None,
        }
    }
}

pub open spec fn opt_typeface_view(t: Option<Typeface>) -> Option<TypefaceView> {
    match t {
        Some(t) => Some(typeface_view(t)),
        None => None,
    }
}

impl Typeface {
    /// Read a `@typeface` attribute value.
    ///
    /// `None` for an empty value — which is how the stock Office theme
    /// states "no complex-script font" — and for a `+` form naming no slot
    /// this module knows, because a name beginning with `+` is reserved for
    /// the reference syntax and is not a font either way.
    pub fn parse(value: &str) -> (r: Option<Self>)
        ensures
            opt_typeface_view(r) == spec_typeface(value@),
    {
        let v = chars_of(value);
        if v.len() == 0 {
            return None;
        }
        if v[0] != '+' {
            return Some(Typeface::Named(owned(value)));
        }
        let rest = slice_chars(&v, 1, v.len());
        assert(rest@ =~= v@.drop_first());
        let (font, script) = match split_first_exec(&rest, '-') {
            Some(parts) => parts,
            None => return None,
        };
        let f = if chars_eq(&font, &chars_of("mj")) {
            ThemeFont::Major
        } else if chars_eq(&font, &chars_of("mn")) {
            ThemeFont::Minor
        } else {
            return None;
        };
        let s = if chars_eq(&script, &chars_of("lt")) {
            ThemeScript::Latin
        } else if chars_eq(&script, &chars_of("ea")) {
            ThemeScript::EastAsian
        } else if chars_eq(&script, &chars_of("cs")) {
            ThemeScript::Complex
        } else {
            return None;
        };
        Some(Typeface::Theme(f, s))
    }
}

// ------------------------------------------------------------------ font scheme

/// The three script slots one theme font states, as values.
pub struct SlotsView {
    pub latin: Option<Seq<char>>,
    pub east_asian: Option<Seq<char>>,
    pub complex: Option<Seq<char>>,
}

pub open spec fn opt_view(v: Option<String>) -> Option<Seq<char>> {
    match v {
        Some(s) => Some(s@),
        None => None,
    }
}

pub open spec fn slots_get(s: SlotsView, script: ThemeScript) -> Option<Seq<char>> {
    match script {
        ThemeScript::Latin => s.latin,
        ThemeScript::EastAsian => s.east_asian,
        ThemeScript::Complex => s.complex,
    }
}

pub open spec fn slots_set(s: SlotsView, script: ThemeScript, v: Option<Seq<char>>) -> SlotsView {
    match script {
        ThemeScript::Latin => SlotsView { latin: v, ..s },
        ThemeScript::EastAsian => SlotsView { east_asian: v, ..s },
        ThemeScript::Complex => SlotsView { complex: v, ..s },
    }
}

pub open spec fn no_slots() -> SlotsView {
    SlotsView { latin: None, east_asian: None, complex: None }
}

/// The three script slots one theme font states.
#[derive(Debug, PartialEq, Eq)]
pub struct FontSlots {
    latin: Option<String>,
    east_asian: Option<String>,
    complex: Option<String>,
}

impl View for FontSlots {
    type V = SlotsView;

    closed spec fn view(&self) -> SlotsView {
        SlotsView { latin: opt_view(self.latin), east_asian: opt_view(self.east_asian), complex: opt_view(self.complex) }
    }
}

fn clone_opt(v: &Option<String>) -> (r: Option<String>)
    ensures
        opt_view(r) == opt_view(*v),
{
    match v {
        Some(s) => Some(s.clone()),
        None => None,
    }
}

impl Clone for FontSlots {
    fn clone(&self) -> (r: Self)
        ensures
            r@ == self@,
    {
        FontSlots { latin: clone_opt(&self.latin), east_asian: clone_opt(&self.east_asian), complex: clone_opt(&self.complex) }
    }
}

impl FontSlots {
    fn new() -> (r: Self)
        ensures
            r@ == no_slots(),
    {
        FontSlots { latin: None, east_asian: None, complex: None }
    }

    fn set(&mut self, script: ThemeScript, value: Option<String>)
        ensures
            final(self)@ == slots_set(old(self)@, script, opt_view(value)),
    {
        match script {
            ThemeScript::Latin => self.latin = value,
            ThemeScript::EastAsian => self.east_asian = value,
            ThemeScript::Complex => self.complex = value,
        }
    }

    fn get(&self, script: ThemeScript) -> (r: Option<&str>)
        ensures
            r matches Some(v) ==> slots_get(self@, script) == Some(v@),
            r is None ==> slots_get(self@, script) is None,
    {
        let slot = match script {
            ThemeScript::Latin => &self.latin,
            ThemeScript::EastAsian => &self.east_asian,
            ThemeScript::Complex => &self.complex,
        };
        match slot {
            Some(v) => Some(v.as_str()),
            None => None,
        }
    }

    fn is_empty(&self) -> (r: bool)
        ensures
            r == (self@ == no_slots()),
    {
        self.latin.is_none() && self.east_asian.is_none() && self.complex.is_none()
    }
}

/// A theme's font scheme as values.
pub struct SchemeView {
    pub major: SlotsView,
    pub minor: SlotsView,
}

pub open spec fn scheme_slots(s: SchemeView, font: ThemeFont) -> SlotsView {
    match font {
        ThemeFont::Major => s.major,
        ThemeFont::Minor => s.minor,
    }
}

/// The typeface one slot of a scheme names, if it names one.
pub open spec fn scheme_typeface(s: SchemeView, font: ThemeFont, script: ThemeScript) -> Option<Seq<char>> {
    match slots_get(scheme_slots(s, font), script) {
        Some(v) => if v.len() > 0 { Some(v) } else { None },
        None => None,
    }
}

/// How a finding cites one slot: `fontScheme/minorFont/cs@typeface`.
pub open spec fn scheme_property(font: ThemeFont, script: ThemeScript) -> Seq<char> {
    "fontScheme/"@ + font_element(font) + "/"@ + script_element(script) + "@typeface"@
}

/// A theme's `a:fontScheme`: the two fonts every `+mj-`/`+mn-` reference in
/// the parts below it resolves against.
#[derive(Debug, PartialEq, Eq)]
pub struct FontScheme {
    major: FontSlots,
    minor: FontSlots,
}

impl View for FontScheme {
    type V = SchemeView;

    closed spec fn view(&self) -> SchemeView {
        SchemeView { major: self.major@, minor: self.minor@ }
    }
}

impl Clone for FontScheme {
    fn clone(&self) -> (r: Self)
        ensures
            r@ == self@,
    {
        FontScheme { major: self.major.clone(), minor: self.minor.clone() }
    }
}

impl Default for FontScheme {
    fn default() -> (r: Self)
        ensures
            r@ == (SchemeView { major: no_slots(), minor: no_slots() }),
    {
        FontScheme { major: FontSlots::new(), minor: FontSlots::new() }
    }
}

impl FontScheme {
    /// The typeface one slot names, if it names one.
    pub fn typeface(&self, font: ThemeFont, script: ThemeScript) -> (r: Option<&str>)
        ensures
            r matches Some(v) ==> scheme_typeface(self@, font, script) == Some(v@),
            r is None ==> scheme_typeface(self@, font, script) is None,
    {
        let found = match font {
            ThemeFont::Major => self.major.get(script),
            ThemeFont::Minor => self.minor.get(script),
        };
        match found {
            Some(v) => if !v.is_empty() {
                Some(v)
            } else {
                None
            },
            None => None,
        }
    }

    /// How a finding cites one slot: `fontScheme/minorFont/cs@typeface`.
    pub fn property(font: ThemeFont, script: ThemeScript) -> (r: String)
        ensures
            r@ == scheme_property(font, script),
    {
        let mut out = chars_of("fontScheme/");
        push_all(&mut out, &chars_of(font.element()));
        push_all(&mut out, &chars_of("/"));
        push_all(&mut out, &chars_of(script.element()));
        push_all(&mut out, &chars_of("@typeface"));
        string_of(&out)
    }

    pub fn is_empty(&self) -> (r: bool)
        ensures
            r == (self@.major == no_slots() && self@.minor == no_slots()),
    {
        self.major.is_empty() && self.minor.is_empty()
    }
}

/// Where a read of a theme's font scheme stands after some tokens: inside
/// `a:fontScheme` or not, which of its two fonts is open, and what has been
/// read.
pub struct SchemeState {
    pub in_scheme: bool,
    pub font: Option<ThemeFont>,
    pub scheme: SchemeView,
}

/// The slot an element inside a theme font states.
pub open spec fn script_of(name: Seq<char>) -> Option<ThemeScript> {
    if name == "a:latin"@ {
        Some(ThemeScript::Latin)
    } else if name == "a:ea"@ {
        Some(ThemeScript::EastAsian)
    } else if name == "a:cs"@ {
        Some(ThemeScript::Complex)
    } else {
        None
    }
}

/// A scheme slot takes a typeface name only: an empty value names no font,
/// and a `+` reference naming another slot would be circular.
pub open spec fn slot_value(v: Option<Seq<char>>) -> Option<Seq<char>> {
    match v {
        Some(x) => if x.len() > 0 && x[0] != '+' { Some(x) } else { None },
        None => None,
    }
}

/// One token's effect on a read of a theme's font scheme.
///
/// Only the `a:fontScheme` region is read: `a:latin` and `a:cs` also occur in
/// a theme's object defaults, which are not what a reference points at. An
/// `a:font script="…"` beside the slots is the application's per-script
/// fallback and is left alone.
pub open spec fn scheme_step(st: SchemeState, t: Token) -> SchemeState {
    if t.kind == Kind::Start || t.kind == Kind::Empty {
        let opening = t.kind == Kind::Start;
        let name = tag_name(t.text@);
        if name == "a:fontScheme"@ && opening {
            SchemeState { in_scheme: true, ..st }
        } else if name == "a:majorFont"@ && st.in_scheme && opening {
            SchemeState { font: Some(ThemeFont::Major), ..st }
        } else if name == "a:minorFont"@ && st.in_scheme && opening {
            SchemeState { font: Some(ThemeFont::Minor), ..st }
        } else {
            match (script_of(name), st.font) {
                (Some(script), Some(font)) => {
                    let v = slot_value(spec_attribute(t.text@, "typeface"@));
                    let scheme = match font {
                        ThemeFont::Major => SchemeView { major: slots_set(st.scheme.major, script, v), ..st.scheme },
                        ThemeFont::Minor => SchemeView { minor: slots_set(st.scheme.minor, script, v), ..st.scheme },
                    };
                    SchemeState { scheme, ..st }
                },
                _ => st,
            }
        }
    } else if t.kind == Kind::End {
        if t.text@ == "a:fontScheme"@ {
            SchemeState { in_scheme: false, ..st }
        } else if t.text@ == "a:majorFont"@ || t.text@ == "a:minorFont"@ {
            SchemeState { font: None, ..st }
        } else {
            st
        }
    } else {
        st
    }
}

/// The state a read of a font scheme reaches over a token stream.
pub open spec fn scheme_after(ev: Seq<Token>) -> SchemeState
    decreases ev.len(),
{
    if ev.len() == 0 {
        SchemeState { in_scheme: false, font: None, scheme: SchemeView { major: no_slots(), minor: no_slots() } }
    } else {
        scheme_step(scheme_after(ev.drop_last()), ev.last())
    }
}

fn is_name(name: &[char], lit: &str) -> (r: bool)
    ensures
        r == (name@ == lit@),
{
    chars_eq(name, &chars_of(lit))
}

impl FontScheme {
    /// The font scheme a theme part's tokens state.
    pub fn from_events(events: &[Token]) -> (r: Self)
        ensures
            r@ == scheme_after(events@).scheme,
    {
        let mut scheme = FontScheme::default();
        let mut in_scheme = false;
        let mut font: Option<ThemeFont> = None;
        let mut i: usize = 0;
        assert(events@.take(0) =~= Seq::<Token>::empty());
        while i < events.len()
            invariant
                i <= events@.len(),
                scheme_after(events@.take(i as int)) == (SchemeState { in_scheme, font, scheme: scheme@ }),
            decreases events@.len() - i,
        {
            let t = &events[i];
            assert(events@.take(i + 1).drop_last() =~= events@.take(i as int));
            assert(events@.take(i + 1).last() == *t);
            if t.kind == Kind::Start || t.kind == Kind::Empty {
                let opening = t.kind == Kind::Start;
                let name = tag_name_of(t.text.as_str());
                if is_name(&name, "a:fontScheme") && opening {
                    in_scheme = true;
                } else if is_name(&name, "a:majorFont") && in_scheme && opening {
                    font = Some(ThemeFont::Major);
                } else if is_name(&name, "a:minorFont") && in_scheme && opening {
                    font = Some(ThemeFont::Minor);
                } else {
                    let script = if is_name(&name, "a:latin") {
                        Some(ThemeScript::Latin)
                    } else if is_name(&name, "a:ea") {
                        Some(ThemeScript::EastAsian)
                    } else if is_name(&name, "a:cs") {
                        Some(ThemeScript::Complex)
                    } else {
                        None
                    };
                    match (script, font) {
                        (Some(script), Some(f)) => {
                            let raw = attribute(t, "typeface");
                            let value = match raw {
                                Some(v) => {
                                    let c = chars_of(v.as_str());
                                    if c.len() > 0 && c[0] != '+' {
                                        Some(v)
                                    } else {
                                        None
                                    }
                                },
                                None => None,
                            };
                            match f {
                                ThemeFont::Major => scheme.major.set(script, value),
                                ThemeFont::Minor => scheme.minor.set(script, value),
                            }
                        },
                        _ => {},
                    }
                }
            } else if t.kind == Kind::End {
                let name = chars_of(t.text.as_str());
                if is_name(&name, "a:fontScheme") {
                    in_scheme = false;
                } else if is_name(&name, "a:majorFont") || is_name(&name, "a:minorFont") {
                    font = None;
                }
            }
            i += 1;
        }
        assert(events@.take(i as int) =~= events@);
        scheme
    }

    /// Read the font scheme out of a theme part. Only a part the parser
    /// rejects fails.
    pub fn parse(part: &str, xml: &str) -> (r: Result<Self, Error>)
        ensures
            r is Ok <==> document_tokens(xml@) is Ok,
            r matches Err(e) ==> read_failure(part@, xml@, e),
            r matches Ok(s) ==> exists|ts: Seq<Token>| #[trigger] reads_as(xml@, ts) && s@ == scheme_after(ts).scheme,
    {
        let events = read_events(part, xml)?;
        assert(reads_as(xml@, events@));
        Ok(Self::from_events(&events))
    }
}

// ------------------------------------------------------------------ levels

/// What one style source states at one list level, as values.
pub struct LevelView {
    pub direction: Option<Direction>,
    pub alignment: Option<Alignment>,
    pub complex_font: Option<TypefaceView>,
}

/// The properties one style source states at one list level.
#[derive(Debug, PartialEq, Eq)]
pub struct Level {
    pub direction: Option<Direction>,
    pub alignment: Option<Alignment>,
    /// `a:defRPr/a:cs/@typeface`, which is a theme reference more often than
    /// it is a name.
    pub complex_font: Option<Typeface>,
}

impl View for Level {
    type V = LevelView;

    open spec fn view(&self) -> LevelView {
        LevelView { direction: self.direction, alignment: self.alignment, complex_font: opt_typeface_view(self.complex_font) }
    }
}

impl Clone for Level {
    fn clone(&self) -> (r: Self)
        ensures
            r@ == self@,
    {
        Level {
            direction: self.direction,
            alignment: self.alignment,
            complex_font: match &self.complex_font {
                Some(t) => Some(t.clone()),
                None => None,
            },
        }
    }
}

pub open spec fn level_is_empty(l: LevelView) -> bool {
    l.direction is None && l.alignment is None && l.complex_font is None
}

/// What an `a:lvlNpPr` tag's own attributes state: `rtl` and `algn`. The
/// font slot arrives later, from a child element.
pub open spec fn spec_read_level(content: Seq<char>) -> LevelView {
    LevelView {
        direction: match spec_attribute(content, "rtl"@) {
            Some(v) => Some(spec_direction_of(v)),
            None => None,
        },
        alignment: match spec_attribute(content, "algn"@) {
            Some(v) => spec_parse_alignment(v),
            None => None,
        },
        complex_font: None,
    }
}

impl Level {
    /// Read `rtl` and `algn` off an `a:lvlNpPr`.
    pub fn read(tag: &Token) -> (r: Self)
        ensures
            r@ == spec_read_level(tag.text@),
    {
        Level {
            direction: match attribute(tag, "rtl") {
                Some(v) => Some(crate::pptx::direction_of(v.as_str())),
                None => None,
            },
            alignment: match attribute(tag, "algn") {
                Some(v) => parse_alignment(v.as_str()),
                None => None,
            },
            complex_font: None,
        }
    }

    pub fn is_empty(&self) -> (r: bool)
        ensures
            r == level_is_empty(self@),
    {
        self.direction.is_none() && self.alignment.is_none() && self.complex_font.is_none()
    }
}

/// The list levels one style source states, level 0 being `a:lvl1pPr`.
/// Levels stating nothing are absent.
#[derive(Debug)]
pub struct Levels {
    slots: Vec<Option<Level>>,
}

pub open spec fn opt_level_view(l: Option<Level>) -> Option<LevelView> {
    match l {
        Some(l) => Some(l@),
        None => None,
    }
}

pub open spec fn no_levels() -> Seq<Option<LevelView>> {
    Seq::new(9, |i: int| None)
}

impl View for Levels {
    type V = Seq<Option<LevelView>>;

    closed spec fn view(&self) -> Seq<Option<LevelView>> {
        self.slots@.map_values(|l: Option<Level>| opt_level_view(l))
    }
}

impl Levels {
    #[verifier::type_invariant]
    spec fn nine_levels(self) -> bool {
        self.slots@.len() == 9
    }

    pub fn new() -> (r: Self)
        ensures
            r@ == no_levels(),
    {
        let mut slots: Vec<Option<Level>> = Vec::new();
        let mut i: usize = 0;
        while i < 9
            invariant
                i <= 9,
                slots@.len() == i,
                forall|k: int| 0 <= k < i ==> #[trigger] slots@[k] is None,
            decreases 9 - i,
        {
            slots.push(None);
            i += 1;
        }
        let r = Levels { slots };
        assert(r@ =~= no_levels());
        r
    }

    /// What this source states at one level.
    pub fn get(&self, level: usize) -> (r: Option<&Level>)
        ensures
            self@.len() == 9,
            r matches Some(l) ==> level < 9 && self@[level as int] == Some(l@),
            r is None ==> level >= 9 || self@[level as int] is None,
    {
        proof {
            use_type_invariant(self);
        }
        if level >= self.slots.len() {
            return None;
        }
        match &self.slots[level] {
            Some(l) => Some(l),
            None => None,
        }
    }

    /// File what a source states at one level, replacing what was there.
    pub fn insert(&mut self, level: usize, value: Level)
        requires
            level < 9,
        ensures
            final(self)@ == old(self)@.update(level as int, Some(value@)),
    {
        proof {
            use_type_invariant(&*self);
        }
        let mut current = Levels::new();
        std::mem::swap(self, &mut current);
        proof {
            use_type_invariant(&current);
        }
        let Levels { slots } = current;
        let mut slots = slots;
        let ghost before = slots@;
        slots.set(level, Some(value));
        assert(slots@.map_values(|l: Option<Level>| opt_level_view(l)) =~= before.map_values(|l: Option<Level>| opt_level_view(l)).update(level as int, Some(value@)));
        *self = Levels { slots };
    }

    /// Whether no level states anything.
    pub fn is_empty(&self) -> (r: bool)
        ensures
            r == (self@ == no_levels()),
    {
        proof {
            use_type_invariant(self);
        }
        let mut i: usize = 0;
        while i < self.slots.len()
            invariant
                i <= self.slots@.len(),
                self.slots@.len() == 9,
                forall|k: int| 0 <= k < i ==> #[trigger] self.slots@[k] is None,
            decreases self.slots@.len() - i,
        {
            if self.slots[i].is_some() {
                assert(self@[i as int] is Some);
                return false;
            }
            i += 1;
        }
        assert(self@ =~= no_levels());
        true
    }
}

// ------------------------------------------------------------------ text styles

/// Which of a master's named text styles governs a shape.
#[derive(Debug, Clone, Copy, PartialEq, Eq, Structural)]
pub enum TextStyle {
    /// `p:notesStyle`, first because a notes master has only this one and it
    /// governs every placeholder on a notes slide whatever its type.
    Notes,
    Title,
    Body,
    Other,
}

pub open spec fn style_element(s: TextStyle) -> Seq<char> {
    match s {
        TextStyle::Notes => "p:notesStyle"@,
        TextStyle::Title => "p:titleStyle"@,
        TextStyle::Body => "p:bodyStyle"@,
        TextStyle::Other => "p:otherStyle"@,
    }
}

/// The style named by an element, if it names one.
pub open spec fn style_named(name: Seq<char>) -> Option<TextStyle> {
    if name == style_element(TextStyle::Notes) {
        Some(TextStyle::Notes)
    } else if name == style_element(TextStyle::Title) {
        Some(TextStyle::Title)
    } else if name == style_element(TextStyle::Body) {
        Some(TextStyle::Body)
    } else if name == style_element(TextStyle::Other) {
        Some(TextStyle::Other)
    } else {
        None
    }
}

/// `lvl{n}pPr` for the zero-based level `level`.
pub open spec fn level_element(level: nat) -> Seq<char> {
    "lvl"@ + decimal(level + 1) + "pPr"@
}

/// How a finding cites a named style at one level: `bodyStyle/lvl2pPr`.
pub open spec fn style_property(s: TextStyle, level: nat) -> Seq<char> {
    style_element(s).skip(2) + "/"@ + level_element(level)
}

fn push_level_element(out: &mut Vec<char>, level: usize)
    requires
        level < usize::MAX,
    ensures
        final(out)@ == old(out)@ + level_element(level as nat),
{
    let ghost start = out@;
    push_all(out, &chars_of("lvl"));
    push_all(out, &chars_of(decimal_of(level + 1).as_str()));
    push_all(out, &chars_of("pPr"));
    assert(out@ =~= start + level_element(level as nat));
}

impl TextStyle {
    /// The element carrying this style in a master.
    pub fn element(self) -> (r: &'static str)
        ensures
            r@ == style_element(self),
    {
        match self {
            TextStyle::Notes => "p:notesStyle",
            TextStyle::Title => "p:titleStyle",
            TextStyle::Body => "p:bodyStyle",
            TextStyle::Other => "p:otherStyle",
        }
    }

    /// The style named by an element, if it names one.
    pub fn from_element(name: &str) -> (r: Option<Self>)
        ensures
            r == style_named(name@),
    {
        let n = chars_of(name);
        if chars_eq(&n, &chars_of(TextStyle::Notes.element())) {
            Some(TextStyle::Notes)
        } else if chars_eq(&n, &chars_of(TextStyle::Title.element())) {
            Some(TextStyle::Title)
        } else if chars_eq(&n, &chars_of(TextStyle::Body.element())) {
            Some(TextStyle::Body)
        } else if chars_eq(&n, &chars_of(TextStyle::Other.element())) {
            Some(TextStyle::Other)
        } else {
            None
        }
    }

    /// How a finding cites it: `bodyStyle/lvl2pPr`.
    pub fn property(self, level: usize) -> (r: String)
        requires
            level < usize::MAX,
        ensures
            r@ == style_property(self, level as nat),
    {
        let e = chars_of(self.element());
        proof {
            reveal_strlit("p:notesStyle");
            reveal_strlit("p:titleStyle");
            reveal_strlit("p:bodyStyle");
            reveal_strlit("p:otherStyle");
        }
        let mut out = slice_chars(&e, 2, e.len());
        let ghost head = out@;
        push_all(&mut out, &chars_of("/"));
        push_level_element(&mut out, level);
        assert(out@ =~= style_property(self, level as nat));
        string_of(&out)
    }
}

// ------------------------------------------------------------------ placeholders

/// A placeholder's identity as values: its type, and its index if stated.
pub struct PlaceholderView {
    pub kind: Seq<char>,
    pub idx: Option<u32>,
}

/// The master text style a placeholder of this type resolves against.
pub open spec fn spec_text_style(kind: Seq<char>) -> TextStyle {
    if kind == "title"@ || kind == "ctrTitle"@ {
        TextStyle::Title
    } else if kind == "body"@ || kind == "subTitle"@ || kind == "obj"@ {
        TextStyle::Body
    } else {
        TextStyle::Other
    }
}

/// Which of the master's text styles a placeholder resolves against is
/// decided by its type alone: a title or centred title the title style; a
/// body, subtitle or object placeholder the body style — a subtitle is body
/// text on every master — and every other type the other style. No type
/// reaches the notes style, which only a notes master's placeholders use.
pub proof fn lemma_text_style_by_type(kind: Seq<char>)
    ensures
        spec_text_style(kind) == TextStyle::Title <==> (kind == "title"@ || kind == "ctrTitle"@),
        spec_text_style(kind) == TextStyle::Body <==> (kind == "body"@ || kind == "subTitle"@ || kind == "obj"@),
        spec_text_style(kind) == TextStyle::Other <==> !(kind == "title"@ || kind == "ctrTitle"@ || kind == "body"@
            || kind == "subTitle"@ || kind == "obj"@),
        spec_text_style(kind) != TextStyle::Notes,
{
    reveal_strlit("title");
    reveal_strlit("ctrTitle");
    reveal_strlit("body");
    reveal_strlit("subTitle");
    reveal_strlit("obj");
    if kind == "body"@ || kind == "subTitle"@ || kind == "obj"@ {
        assert(kind != "title"@ && kind != "ctrTitle"@) by {
            assert("body"@.len() != "title"@.len() && "body"@.len() != "ctrTitle"@.len());
            assert("subTitle"@.len() != "title"@.len() && "subTitle"@[0] != "ctrTitle"@[0]);
            assert("obj"@.len() != "title"@.len() && "obj"@.len() != "ctrTitle"@.len());
        }
    }
}

/// What a `p:ph` tag states: `@type`, defaulted to `body` as the schema
/// defaults it, and `@idx` read as a `u32`.
pub open spec fn spec_read_placeholder(content: Seq<char>) -> PlaceholderView {
    PlaceholderView {
        kind: match spec_attribute(content, "type"@) {
            Some(t) => t,
            None => "body"@,
        },
        idx: match spec_attribute(content, "idx"@) {
            Some(v) => match parse_u32(v) {
                Some(n) => Some(n as u32),
                None => None,
            },
            None => None,
        },
    }
}

/// Whether a placeholder on a slide is answered by one above it: the same
/// index, an absent index being zero, and the same text style.
pub open spec fn placeholder_matches(a: PlaceholderView, b: PlaceholderView) -> bool {
    a.idx.unwrap_or(0) == b.idx.unwrap_or(0) && spec_text_style(a.kind) == spec_text_style(b.kind)
}

/// How a finding cites a placeholder's list style at one level:
/// `ph[type=body,idx=1]/lstStyle/lvl2pPr`.
pub open spec fn placeholder_property(p: PlaceholderView, level: nat) -> Seq<char> {
    match p.idx {
        Some(idx) => "ph[type="@ + p.kind + ",idx="@ + decimal(idx as nat) + "]/lstStyle/"@ + level_element(level),
        None => "ph[type="@ + p.kind + "]/lstStyle/"@ + level_element(level),
    }
}

/// A placeholder's identity, as a shape states it.
#[derive(Debug, PartialEq, Eq)]
pub struct Placeholder {
    /// `p:ph/@type`, defaulted to `body` as the schema defaults it.
    kind: String,
    /// `p:ph/@idx`. Absent means index zero.
    idx: Option<u32>,
}

impl View for Placeholder {
    type V = PlaceholderView;

    closed spec fn view(&self) -> PlaceholderView {
        PlaceholderView { kind: self.kind@, idx: self.idx }
    }
}

impl Clone for Placeholder {
    fn clone(&self) -> (r: Self)
        ensures
            r@ == self@,
    {
        Placeholder { kind: self.kind.clone(), idx: self.idx }
    }
}

impl Placeholder {
    /// A placeholder of the given type and index.
    pub fn new(kind: &str, idx: Option<u32>) -> (r: Self)
        ensures
            r@ == (PlaceholderView { kind: kind@, idx }),
    {
        Placeholder { kind: owned(kind), idx }
    }

    /// Read a `p:ph` element.
    pub fn read(tag: &Token) -> (r: Self)
        ensures
            r@ == spec_read_placeholder(tag.text@),
    {
        let kind = match attribute(tag, "type") {
            Some(t) => t,
            None => owned("body"),
        };
        let idx = match attribute(tag, "idx") {
            Some(v) => match parse_u32_exec(&chars_of(v.as_str())) {
                Some(n) => Some(n),
                None => None,
            },
            None => None,
        };
        Placeholder { kind, idx }
    }

    /// Whether a placeholder on a slide is answered by one on a layout or a
    /// master.
    pub fn matches(&self, other: &Self) -> (r: bool)
        ensures
            r == placeholder_matches(self@, other@),
    {
        let a = match self.idx {
            Some(n) => n,
            None => 0,
        };
        let b = match other.idx {
            Some(n) => n,
            None => 0,
        };
        if a != b {
            return false;
        }
        self.text_style() == other.text_style()
    }

    /// The master text style this placeholder resolves against.
    pub fn text_style(&self) -> (r: TextStyle)
        ensures
            r == spec_text_style(self@.kind),
    {
        let k = chars_of(self.kind.as_str());
        if chars_eq(&k, &chars_of("title")) || chars_eq(&k, &chars_of("ctrTitle")) {
            TextStyle::Title
        } else if chars_eq(&k, &chars_of("body")) || chars_eq(&k, &chars_of("subTitle")) || chars_eq(&k, &chars_of("obj")) {
            TextStyle::Body
        } else {
            TextStyle::Other
        }
    }

    /// How a finding cites it: `ph[type=body,idx=1]/lstStyle/lvl2pPr`.
    pub fn property(&self, level: usize) -> (r: String)
        requires
            level < usize::MAX,
        ensures
            r@ == placeholder_property(self@, level as nat),
    {
        let mut out = chars_of("ph[type=");
        push_all(&mut out, &chars_of(self.kind.as_str()));
        match self.idx {
            Some(idx) => {
                push_all(&mut out, &chars_of(",idx="));
                push_all(&mut out, &chars_of(decimal_of(idx as usize).as_str()));
            },
            None => {},
        }
        push_all(&mut out, &chars_of("]/lstStyle/"));
        push_level_element(&mut out, level);
        assert(out@ =~= placeholder_property(self@, level as nat));
        string_of(&out)
    }
}

// ------------------------------------------------------------------ part styles

/// Every style one part supplies, as values: each placeholder shape's own
/// list style in document order, and the master's named text styles.
pub struct StylesView {
    pub placeholders: Seq<(PlaceholderView, Seq<Option<LevelView>>)>,
    pub notes: Option<Seq<Option<LevelView>>>,
    pub title: Option<Seq<Option<LevelView>>>,
    pub body: Option<Seq<Option<LevelView>>>,
    pub other: Option<Seq<Option<LevelView>>>,
}

pub open spec fn named_slot(s: StylesView, style: TextStyle) -> Option<Seq<Option<LevelView>>> {
    match style {
        TextStyle::Notes => s.notes,
        TextStyle::Title => s.title,
        TextStyle::Body => s.body,
        TextStyle::Other => s.other,
    }
}

pub open spec fn with_named(s: StylesView, style: TextStyle, levels: Seq<Option<LevelView>>) -> StylesView {
    match style {
        TextStyle::Notes => StylesView { notes: Some(levels), ..s },
        TextStyle::Title => StylesView { title: Some(levels), ..s },
        TextStyle::Body => StylesView { body: Some(levels), ..s },
        TextStyle::Other => StylesView { other: Some(levels), ..s },
    }
}

pub open spec fn no_styles() -> StylesView {
    StylesView { placeholders: seq![], notes: None, title: None, body: None, other: None }
}

/// The first placeholder among `ps` that answers `want`.
pub open spec fn first_match(ps: Seq<(PlaceholderView, Seq<Option<LevelView>>)>, want: PlaceholderView) -> Option<(PlaceholderView, Seq<Option<LevelView>>)>
    decreases ps.len(),
{
    if ps.len() == 0 {
        None
    } else if placeholder_matches(want, ps[0].0) {
        Some(ps[0])
    } else {
        first_match(ps.drop_first(), want)
    }
}

/// The named text style governing `want`: a notes master's one style
/// answers whatever was asked for.
pub open spec fn spec_named(s: StylesView, want: TextStyle) -> Option<(TextStyle, Seq<Option<LevelView>>)> {
    match s.notes {
        Some(levels) => Some((TextStyle::Notes, levels)),
        None => match named_slot(s, want) {
            Some(levels) => Some((want, levels)),
            None => None,
        },
    }
}

pub open spec fn opt_levels_view(l: Option<Levels>) -> Option<Seq<Option<LevelView>>> {
    match l {
        Some(l) => Some(l@),
        None => None,
    }
}

pub open spec fn placeholder_views(v: Seq<(Placeholder, Levels)>) -> Seq<(PlaceholderView, Seq<Option<LevelView>>)> {
    v.map_values(|p: (Placeholder, Levels)| (p.0@, p.1@))
}

/// Every style one part supplies to the parts below it.
#[derive(Debug)]
pub struct PartStyles {
    /// Each placeholder shape's own `a:lstStyle`, in document order.
    placeholders: Vec<(Placeholder, Levels)>,
    /// The master's named text styles.
    notes: Option<Levels>,
    title: Option<Levels>,
    body: Option<Levels>,
    other: Option<Levels>,
}

impl View for PartStyles {
    type V = StylesView;

    closed spec fn view(&self) -> StylesView {
        StylesView {
            placeholders: placeholder_views(self.placeholders@),
            notes: opt_levels_view(self.notes),
            title: opt_levels_view(self.title),
            body: opt_levels_view(self.body),
            other: opt_levels_view(self.other),
        }
    }
}

impl PartStyles {
    pub fn new() -> (r: Self)
        ensures
            r@ == no_styles(),
    {
        let r = PartStyles { placeholders: Vec::new(), notes: None, title: None, body: None, other: None };
        assert(placeholder_views(r.placeholders@) =~= Seq::<(PlaceholderView, Seq<Option<LevelView>>)>::empty());
        r
    }

    /// The levels this part's matching placeholder shape states.
    pub fn placeholder(&self, want: &Placeholder) -> (r: Option<(&Placeholder, &Levels)>)
        ensures
            r matches Some(p) ==> first_match(self@.placeholders, want@) == Some((p.0@, p.1@)),
            r is None ==> first_match(self@.placeholders, want@) is None,
    {
        let ghost all = self@.placeholders;
        let mut i: usize = 0;
        assert(all.skip(0) =~= all);
        while i < self.placeholders.len()
            invariant
                i <= self.placeholders@.len(),
                all == placeholder_views(self.placeholders@),
                first_match(all, want@) == first_match(all.skip(i as int), want@),
            decreases self.placeholders@.len() - i,
        {
            let entry = &self.placeholders[i];
            assert(all.skip(i as int)[0] == (entry.0@, entry.1@));
            assert(all.skip(i as int).drop_first() =~= all.skip(i + 1));
            if want.matches(&entry.0) {
                return Some((&entry.0, &entry.1));
            }
            i += 1;
        }
        None
    }

    fn slot(&self, style: TextStyle) -> (r: &Option<Levels>)
        ensures
            opt_levels_view(*r) == named_slot(self@, style),
    {
        match style {
            TextStyle::Notes => &self.notes,
            TextStyle::Title => &self.title,
            TextStyle::Body => &self.body,
            TextStyle::Other => &self.other,
        }
    }

    /// The named text style governing `want` here, and which one it turned
    /// out to be.
    ///
    /// A notes master has one style for everything it lays out, so it
    /// answers with `p:notesStyle` whatever was asked for. No slide master
    /// carries one, so the preference costs nothing there.
    pub fn named(&self, want: TextStyle) -> (r: Option<(TextStyle, &Levels)>)
        ensures
            r matches Some(p) ==> spec_named(self@, want) == Some((p.0, p.1@)),
            r is None ==> spec_named(self@, want) is None,
    {
        match &self.notes {
            Some(levels) => Some((TextStyle::Notes, levels)),
            None => match self.slot(want) {
                Some(levels) => Some((want, levels)),
                None => None,
            },
        }
    }

    pub fn is_empty(&self) -> (r: bool)
        ensures
            r == (self@.placeholders.len() == 0 && self@.notes is None && self@.title is None && self@.body is None && self@.other is None),
    {
        self.placeholders.len() == 0 && self.notes.is_none() && self.title.is_none() && self.body.is_none() && self.other.is_none()
    }

    /// File a level under one of the named styles.
    fn file_named(&mut self, style: TextStyle, index: usize, level: Level)
        requires
            index < 9,
        ensures
            final(self)@ == with_named(old(self)@, style, match named_slot(old(self)@, style) {
                Some(levels) => levels,
                None => no_levels(),
            }.update(index as int, Some(level@))),
    {
        let current = match style {
            TextStyle::Notes => self.notes.take(),
            TextStyle::Title => self.title.take(),
            TextStyle::Body => self.body.take(),
            TextStyle::Other => self.other.take(),
        };
        let mut levels = match current {
            Some(levels) => levels,
            None => Levels::new(),
        };
        levels.insert(index, level);
        match style {
            TextStyle::Notes => self.notes = Some(levels),
            TextStyle::Title => self.title = Some(levels),
            TextStyle::Body => self.body = Some(levels),
            TextStyle::Other => self.other = Some(levels),
        }
    }
}

/// Where a read of a part's style sources stands after some tokens: the
/// placeholder the shape being read declares and the levels its own list
/// style has stated, whether a list style is open, which named style is
/// open, the `a:lvlNpPr` being read (held open because its font slot is a
/// child element), and what has been filed.
pub struct ParseState {
    pub shape: Option<PlaceholderView>,
    pub shape_levels: Seq<Option<LevelView>>,
    pub in_list_style: bool,
    pub named: Option<TextStyle>,
    pub open_level: Option<(nat, LevelView)>,
    pub styles: StylesView,
}

/// File a finished `a:lvlNpPr` under whichever style source encloses it: a
/// named style if one is open, else the shape's list style if one is open.
/// A level stating nothing is not filed.
pub open spec fn commit_level(st: ParseState, index: nat, level: LevelView) -> ParseState {
    if level_is_empty(level) {
        st
    } else {
        match st.named {
            Some(style) => ParseState {
                styles: with_named(st.styles, style, match named_slot(st.styles, style) {
                    Some(levels) => levels,
                    None => no_levels(),
                }.update(index as int, Some(level))),
                ..st
            },
            None => if st.in_list_style {
                ParseState { shape_levels: st.shape_levels.update(index as int, Some(level)), ..st }
            } else {
                st
            },
        }
    }
}

/// The elements that close a shape: a picture or a graphic frame can be a
/// placeholder as well as a shape can.
pub open spec fn is_shape_element(name: Seq<char>) -> bool {
    name == "p:sp"@ || name == "p:graphicFrame"@ || name == "p:pic"@ || name == "p:cxnSp"@
}

/// One token's effect on a read of a part's style sources.
pub open spec fn styles_step(st: ParseState, t: Token) -> ParseState {
    if t.kind == Kind::Start || t.kind == Kind::Empty {
        let opening = t.kind == Kind::Start;
        let name = tag_name(t.text@);
        if name == "p:ph"@ {
            ParseState { shape: Some(spec_read_placeholder(t.text@)), ..st }
        } else if name == "a:lstStyle"@ && opening {
            ParseState { in_list_style: true, ..st }
        } else if name == "a:cs"@ {
            match st.open_level {
                Some((i, lv)) => if lv.complex_font is None {
                    match spec_attribute(t.text@, "typeface"@) {
                        Some(v) => match spec_typeface(v) {
                            Some(tf) => ParseState { open_level: Some((i, LevelView { complex_font: Some(tf), ..lv })), ..st },
                            None => st,
                        },
                        None => st,
                    }
                } else {
                    st
                },
                None => st,
            }
        } else {
            match spec_level_of_element(name) {
                Some(index) => {
                    let level = spec_read_level(t.text@);
                    if opening {
                        ParseState { open_level: Some((index, level)), ..st }
                    } else {
                        commit_level(st, index, level)
                    }
                },
                None => if opening && style_named(name) is Some {
                    ParseState { named: style_named(name), ..st }
                } else {
                    st
                },
            }
        }
    } else if t.kind == Kind::End {
        let name = t.text@;
        if name == "a:lstStyle"@ {
            ParseState { in_list_style: false, ..st }
        } else if is_shape_element(name) {
            let styles = match st.shape {
                Some(ph) => if st.shape_levels != no_levels() {
                    StylesView { placeholders: st.styles.placeholders.push((ph, st.shape_levels)), ..st.styles }
                } else {
                    st.styles
                },
                None => st.styles,
            };
            ParseState { shape: None, shape_levels: no_levels(), styles, ..st }
        } else if spec_level_of_element(name) is Some {
            match st.open_level {
                Some((i, lv)) => commit_level(ParseState { open_level: None, ..st }, i, lv),
                None => st,
            }
        } else if style_named(name) is Some {
            ParseState { named: None, ..st }
        } else {
            st
        }
    } else {
        st
    }
}

/// The state a read of a part's style sources reaches over a token stream.
pub open spec fn styles_after(ev: Seq<Token>) -> ParseState
    decreases ev.len(),
{
    if ev.len() == 0 {
        ParseState {
            shape: None,
            shape_levels: no_levels(),
            in_list_style: false,
            named: None,
            open_level: None,
            styles: no_styles(),
        }
    } else {
        styles_step(styles_after(ev.drop_last()), ev.last())
    }
}

pub open spec fn opt_placeholder_view(p: Option<Placeholder>) -> Option<PlaceholderView> {
    match p {
        Some(p) => Some(p@),
        None => None,
    }
}

pub open spec fn open_view(o: Option<(usize, Level)>) -> Option<(nat, LevelView)> {
    match o {
        Some((i, l)) => Some((i as nat, l@)),
        None => None,
    }
}

/// File a finished level, as [`commit_level`] states.
fn commit(styles: &mut PartStyles, shape_levels: &mut Levels, named: Option<TextStyle>, in_list_style: bool, index: usize, level: Level)
    requires
        index < 9,
    ensures
        ({
            let st = ParseState {
                shape: None,
                shape_levels: old(shape_levels)@,
                in_list_style,
                named,
                open_level: None,
                styles: old(styles)@,
            };
            let after = commit_level(st, index as nat, level@);
            final(styles)@ == after.styles && final(shape_levels)@ == after.shape_levels
        }),
{
    if level.is_empty() {
        return;
    }
    match named {
        Some(style) => styles.file_named(style, index, level),
        None => if in_list_style {
            shape_levels.insert(index, level);
        },
    }
}

impl PartStyles {
    /// The style sources a part's tokens state.
    ///
    /// Everything else in the part is ignored, including its text: this
    /// answers what the part gives the parts below it.
    pub fn from_events(events: &[Token]) -> (r: Self)
        ensures
            r@ == styles_after(events@).styles,
    {
        let mut styles = PartStyles::new();
        let mut shape: Option<Placeholder> = None;
        let mut shape_levels = Levels::new();
        let mut in_list_style = false;
        let mut named: Option<TextStyle> = None;
        let mut open_level: Option<(usize, Level)> = None;
        let mut i: usize = 0;
        assert(events@.take(0) =~= Seq::<Token>::empty());
        while i < events.len()
            invariant
                i <= events@.len(),
                open_level matches Some((k, _)) ==> k < 9,
                styles_after(events@.take(i as int)) == (ParseState {
                    shape: opt_placeholder_view(shape),
                    shape_levels: shape_levels@,
                    in_list_style,
                    named,
                    open_level: open_view(open_level),
                    styles: styles@,
                }),
            decreases events@.len() - i,
        {
            let t = &events[i];
            assert(events@.take(i + 1).drop_last() =~= events@.take(i as int));
            assert(events@.take(i + 1).last() == *t);
            if t.kind == Kind::Start || t.kind == Kind::Empty {
                let opening = t.kind == Kind::Start;
                let name = tag_name_of(t.text.as_str());
                if is_name(&name, "p:ph") {
                    shape = Some(Placeholder::read(t));
                } else if is_name(&name, "a:lstStyle") && opening {
                    in_list_style = true;
                } else if is_name(&name, "a:cs") {
                    let current = open_level.take();
                    open_level = match current {
                        Some((k, lv)) => {
                            if lv.complex_font.is_none() {
                                let parsed = match attribute(t, "typeface") {
                                    Some(v) => Typeface::parse(v.as_str()),
                                    None => None,
                                };
                                match parsed {
                                    Some(tf) => Some((k, Level { complex_font: Some(tf), ..lv })),
                                    None => Some((k, lv)),
                                }
                            } else {
                                Some((k, lv))
                            }
                        },
                        None => None,
                    };
                } else {
                    let name_str = string_of(&name);
                    match level_of_element(name_str.as_str()) {
                        Some(index) => {
                            let level = Level::read(t);
                            if opening {
                                open_level = Some((index, level));
                            } else {
                                commit(&mut styles, &mut shape_levels, named, in_list_style, index, level);
                            }
                        },
                        None => {
                            if opening {
                                match TextStyle::from_element(name_str.as_str()) {
                                    Some(style) => named = Some(style),
                                    None => {},
                                }
                            }
                        },
                    }
                }
            } else if t.kind == Kind::End {
                let name = chars_of(t.text.as_str());
                if is_name(&name, "a:lstStyle") {
                    in_list_style = false;
                } else if is_name(&name, "p:sp") || is_name(&name, "p:graphicFrame") || is_name(&name, "p:pic") || is_name(&name, "p:cxnSp") {
                    let declared = shape.take();
                    let mut levels = Levels::new();
                    std::mem::swap(&mut levels, &mut shape_levels);
                    match declared {
                        Some(ph) => {
                            if !levels.is_empty() {
                                let ghost before = styles@;
                                styles.placeholders.push((ph, levels));
                                assert(styles@.placeholders =~= before.placeholders.push((ph@, levels@)));
                            }
                        },
                        None => {},
                    }
                } else {
                    match level_of_element(t.text.as_str()) {
                        Some(_) => {
                            match open_level.take() {
                                Some((index, level)) => {
                                    commit(&mut styles, &mut shape_levels, named, in_list_style, index, level);
                                },
                                None => {},
                            }
                        },
                        None => {
                            match TextStyle::from_element(t.text.as_str()) {
                                Some(_) => named = None,
                                None => {},
                            }
                        },
                    }
                }
            }
            i += 1;
        }
        assert(events@.take(i as int) =~= events@);
        styles
    }

    /// Read the style sources out of one part. Only a part the parser
    /// rejects fails.
    pub fn parse(part: &str, xml: &str) -> (r: Result<Self, Error>)
        ensures
            r is Ok <==> document_tokens(xml@) is Ok,
            r matches Err(e) ==> read_failure(part@, xml@, e),
            r matches Ok(s) ==> exists|ts: Seq<Token>| #[trigger] reads_as(xml@, ts) && s@ == styles_after(ts).styles,
    {
        let events = read_events(part, xml)?;
        assert(reads_as(xml@, events@));
        Ok(Self::from_events(&events))
    }
}

// ------------------------------------------------------------------ the index

/// The value last filed under `key`.
pub open spec fn last_value<V>(m: Seq<(Seq<char>, V)>, key: Seq<char>) -> Option<V>
    decreases m.len(),
{
    if m.len() == 0 {
        None
    } else if m.last().0 == key {
        Some(m.last().1)
    } else {
        last_value(m.drop_last(), key)
    }
}

/// Take from one style source whatever the paragraph has not resolved yet,
/// recording which part and property supplied it. A theme reference takes
/// the typeface the theme's scheme names, citing the theme; a reference the
/// theme does not answer leaves the slot unresolved.
pub open spec fn take_from(p: PropertiesView, l: LevelView, part: Seq<char>, property: Seq<char>, theme: Option<(Seq<char>, SchemeView)>) -> PropertiesView {
    PropertiesView {
        direction: match (p.direction, l.direction) {
            (ResolvedView::Unset, Some(d)) => ResolvedView::Inherited(d, part, property + "@rtl"@),
            _ => p.direction,
        },
        alignment: match (p.alignment, l.alignment) {
            (ResolvedView::Unset, Some(a)) => ResolvedView::Inherited(a, part, property + "@algn"@),
            _ => p.alignment,
        },
        complex_font: match (p.complex_font, l.complex_font) {
            (ResolvedView::Unset, Some(TypefaceView::Named(name))) =>
                ResolvedView::Inherited(name, part, property + "/defRPr/cs@typeface"@),
            (ResolvedView::Unset, Some(TypefaceView::Theme(font, script))) => match theme {
                Some((t, scheme)) => match scheme_typeface(scheme, font, script) {
                    Some(name) => ResolvedView::Inherited(name, t, scheme_property(font, script)),
                    None => ResolvedView::Unset,
                },
                None => ResolvedView::Unset,
            },
            _ => p.complex_font,
        },
        ..p
    }
}

/// One style source a paragraph consults: what it states at the
/// paragraph's level, the part it is in, and how a finding cites it.
pub struct Source {
    pub level: LevelView,
    pub part: Seq<char>,
    pub property: Seq<char>,
}

/// The source a part's placeholder shape offers: its list style at the
/// paragraph's level, if the part has a placeholder answering the
/// paragraph's and that level is stated.
pub open spec fn placeholder_sources(name: Seq<char>, styles: StylesView, placeholder: Option<PlaceholderView>, level: nat) -> Seq<Source> {
    match placeholder {
        Some(ph) => match first_match(styles.placeholders, ph) {
            Some((matched, levels)) => if level < levels.len() && levels[level as int] is Some {
                seq![Source { level: levels[level as int].unwrap(), part: name, property: placeholder_property(matched, level) }]
            } else {
                seq![]
            },
            None => seq![],
        },
        None => seq![],
    }
}

/// The source a part's named text style offers at the paragraph's level.
pub open spec fn named_sources(name: Seq<char>, styles: StylesView, want: TextStyle, level: nat) -> Seq<Source> {
    match spec_named(styles, want) {
        Some((style, levels)) => if level < levels.len() && levels[level as int] is Some {
            seq![Source { level: levels[level as int].unwrap(), part: name, property: style_property(style, level) }]
        } else {
            seq![]
        },
        None => seq![],
    }
}

/// The style sources one part of a chain offers a paragraph: its matching
/// placeholder's list style, then its named text style.
pub open spec fn sources_in(name: Seq<char>, styles: StylesView, placeholder: Option<PlaceholderView>, want: TextStyle, level: nat) -> Seq<Source> {
    placeholder_sources(name, styles, placeholder, level) + named_sources(name, styles, want, level)
}

/// The style sources a chain offers a paragraph, nearest first.
pub open spec fn chain_sources(chain: Seq<Seq<char>>, styles: Seq<(Seq<char>, StylesView)>, placeholder: Option<PlaceholderView>, want: TextStyle, level: nat) -> Seq<Source>
    decreases chain.len(),
{
    if chain.len() == 0 {
        seq![]
    } else {
        let rest = chain_sources(chain.drop_last(), styles, placeholder, want, level);
        match last_value(styles, chain.last()) {
            Some(s) => rest + sources_in(chain.last(), s, placeholder, want, level),
            None => rest,
        }
    }
}

/// Properties after taking from each source in turn.
pub open spec fn take_all(p: PropertiesView, sources: Seq<Source>, theme: Option<(Seq<char>, SchemeView)>) -> PropertiesView
    decreases sources.len(),
{
    if sources.len() == 0 {
        p
    } else {
        take_from(take_all(p, sources.drop_last(), theme), sources.last().level, sources.last().part, sources.last().property, theme)
    }
}

/// The index as values.
pub struct IndexView {
    pub styles: Seq<(Seq<char>, StylesView)>,
    pub chains: Seq<(Seq<char>, Seq<Seq<char>>)>,
    pub schemes: Seq<(Seq<char>, SchemeView)>,
    pub themes: Seq<(Seq<char>, Seq<char>)>,
}

/// The theme a part's font references resolve against, and its scheme.
pub open spec fn spec_scheme_for(ix: IndexView, part: Seq<char>) -> Option<(Seq<char>, SchemeView)> {
    match last_value(ix.themes, part) {
        Some(theme) => match last_value(ix.schemes, theme) {
            Some(scheme) => Some((theme, scheme)),
            None => None,
        },
        None => None,
    }
}

/// What resolving a paragraph of `part` leaves its properties as: each
/// property the paragraph left unset takes the nearest source that states
/// it; nothing changes for a part with no chain.
pub open spec fn spec_resolve(ix: IndexView, part: Seq<char>, placeholder: Option<PlaceholderView>, level: nat, p: PropertiesView) -> PropertiesView {
    match last_value(ix.chains, part) {
        Some(chain) => {
            let want = match placeholder {
                Some(ph) => spec_text_style(ph.kind),
                None => TextStyle::Other,
            };
            take_all(p, chain_sources(chain, ix.styles, placeholder, want, level), spec_scheme_for(ix, part))
        },
        None => p,
    }
}

pub open spec fn text_views(v: Seq<String>) -> Seq<Seq<char>> {
    v.map_values(|s: String| s@)
}

/// Every style source in one package, and the chain each part resolves
/// along.
#[derive(Debug)]
pub struct StyleIndex {
    styles: Vec<(String, PartStyles)>,
    /// Each part's chain, nearest first and including the part itself, with
    /// the parts that supply no styles already dropped.
    chains: Vec<(String, Vec<String>)>,
    /// Each theme part's font scheme.
    schemes: Vec<(String, FontScheme)>,
    /// The theme part each part resolves a `+mn-cs` reference against.
    themes: Vec<(String, String)>,
}

impl View for StyleIndex {
    type V = IndexView;

    closed spec fn view(&self) -> IndexView {
        IndexView {
            styles: self.styles@.map_values(|e: (String, PartStyles)| (e.0@, e.1@)),
            chains: self.chains@.map_values(|e: (String, Vec<String>)| (e.0@, text_views(e.1@))),
            schemes: self.schemes@.map_values(|e: (String, FontScheme)| (e.0@, e.1@)),
            themes: self.themes@.map_values(|e: (String, String)| (e.0@, e.1@)),
        }
    }
}

/// The parts of a chain that supply styles, in order.
pub open spec fn with_styles(styles: Seq<(Seq<char>, StylesView)>, chain: Seq<Seq<char>>) -> Seq<Seq<char>>
    decreases chain.len(),
{
    if chain.len() == 0 {
        seq![]
    } else {
        let rest = with_styles(styles, chain.drop_last());
        if last_value(styles, chain.last()) is Some {
            rest.push(chain.last())
        } else {
            rest
        }
    }
}

/// The chains recorded for `chains`, each keeping only the hops that supply
/// styles, and none recorded for a part whose chain keeps no hop.
pub open spec fn linked(styles: Seq<(Seq<char>, StylesView)>, chains: Seq<(Seq<char>, Seq<Seq<char>>)>) -> Seq<(Seq<char>, Seq<Seq<char>>)>
    decreases chains.len(),
{
    if chains.len() == 0 {
        seq![]
    } else {
        let rest = linked(styles, chains.drop_last());
        let sources = with_styles(styles, chains.last().1);
        if sources.len() > 0 {
            rest.push((chains.last().0, sources))
        } else {
            rest
        }
    }
}

pub open spec fn scheme_ref_view(t: Option<(&str, &FontScheme)>) -> Option<(Seq<char>, SchemeView)> {
    match t {
        Some((name, scheme)) => Some((name@, scheme@)),
        None => None,
    }
}

fn append(a: &str, b: &str) -> (r: String)
    ensures
        r@ == a@ + b@,
{
    let mut out = chars_of(a);
    push_all(&mut out, &chars_of(b));
    string_of(&out)
}

/// Take from one style source whatever the paragraph has not resolved yet,
/// as [`take_from`] states.
fn take(props: &mut Properties, level: &Level, part: &str, property: &str, theme: Option<(&str, &FontScheme)>)
    ensures
        final(props)@ == take_from(old(props)@, level@, part@, property@, scheme_ref_view(theme)),
{
    if props.direction.is_unset() {
        match level.direction {
            Some(direction) => {
                props.direction = Resolved::Inherited(direction, Origin::new(part, append(property, "@rtl")));
            },
            None => {},
        }
    }
    if props.alignment.is_unset() {
        match level.alignment {
            Some(alignment) => {
                props.alignment = Resolved::Inherited(alignment, Origin::new(part, append(property, "@algn")));
            },
            None => {},
        }
    }
    if props.complex_font.is_unset() {
        match &level.complex_font {
            Some(Typeface::Named(name)) => {
                props.complex_font = Resolved::Inherited(name.clone(), Origin::new(part, append(property, "/defRPr/cs@typeface")));
            },
            Some(Typeface::Theme(font, script)) => {
                props.complex_font = match theme {
                    Some((t, scheme)) => match scheme.typeface(*font, *script) {
                        Some(name) => Resolved::Inherited(owned(name), Origin::new(t, FontScheme::property(*font, *script))),
                        None => Resolved::Unset,
                    },
                    None => Resolved::Unset,
                };
            },
            None => {},
        }
    }
}

impl StyleIndex {
    /// An index with no styles, chains or themes.
    pub fn new() -> (r: Self)
        ensures
            r@.styles.len() == 0,
            r@.chains.len() == 0,
            r@.schemes.len() == 0,
            r@.themes.len() == 0,
    {
        StyleIndex { styles: Vec::new(), chains: Vec::new(), schemes: Vec::new(), themes: Vec::new() }
    }

    fn styles_of(&self, name: &str) -> (r: Option<&PartStyles>)
        ensures
            r matches Some(st) ==> last_value(self@.styles, name@) == Some(st@),
            r is None ==> last_value(self@.styles, name@) is None,
    {
        let ghost m = self@.styles;
        let want = chars_of(name);
        let mut i = self.styles.len();
        assert(m.take(i as int) =~= m);
        while i > 0
            invariant
                i <= self.styles@.len(),
                want@ == name@,
                m == self@.styles,
                last_value(m, name@) == last_value(m.take(i as int), name@),
            decreases i,
        {
            assert(m.take(i as int).drop_last() =~= m.take(i - 1));
            assert(m.take(i as int).last() == (self.styles@[i - 1].0@, self.styles@[i - 1].1@));
            if chars_eq(&chars_of(self.styles[i - 1].0.as_str()), &want) {
                return Some(&self.styles[i - 1].1);
            }
            i -= 1;
        }
        None
    }

    fn chain_of(&self, part: &str) -> (r: Option<&Vec<String>>)
        ensures
            r matches Some(c) ==> last_value(self@.chains, part@) == Some(text_views(c@)),
            r is None ==> last_value(self@.chains, part@) is None,
    {
        let ghost m = self@.chains;
        let want = chars_of(part);
        let mut i = self.chains.len();
        assert(m.take(i as int) =~= m);
        while i > 0
            invariant
                i <= self.chains@.len(),
                want@ == part@,
                m == self@.chains,
                last_value(m, part@) == last_value(m.take(i as int), part@),
            decreases i,
        {
            assert(m.take(i as int).drop_last() =~= m.take(i - 1));
            assert(m.take(i as int).last() == (self.chains@[i - 1].0@, text_views(self.chains@[i - 1].1@)));
            if chars_eq(&chars_of(self.chains[i - 1].0.as_str()), &want) {
                return Some(&self.chains[i - 1].1);
            }
            i -= 1;
        }
        None
    }

    fn theme_of(&self, part: &str) -> (r: Option<&String>)
        ensures
            r matches Some(t) ==> last_value(self@.themes, part@) == Some(t@),
            r is None ==> last_value(self@.themes, part@) is None,
    {
        let ghost m = self@.themes;
        let want = chars_of(part);
        let mut i = self.themes.len();
        assert(m.take(i as int) =~= m);
        while i > 0
            invariant
                i <= self.themes@.len(),
                want@ == part@,
                m == self@.themes,
                last_value(m, part@) == last_value(m.take(i as int), part@),
            decreases i,
        {
            assert(m.take(i as int).drop_last() =~= m.take(i - 1));
            assert(m.take(i as int).last() == (self.themes@[i - 1].0@, self.themes@[i - 1].1@));
            if chars_eq(&chars_of(self.themes[i - 1].0.as_str()), &want) {
                return Some(&self.themes[i - 1].1);
            }
            i -= 1;
        }
        None
    }

    fn scheme_of(&self, theme: &str) -> (r: Option<&FontScheme>)
        ensures
            r matches Some(s) ==> last_value(self@.schemes, theme@) == Some(s@),
            r is None ==> last_value(self@.schemes, theme@) is None,
    {
        let ghost m = self@.schemes;
        let want = chars_of(theme);
        let mut i = self.schemes.len();
        assert(m.take(i as int) =~= m);
        while i > 0
            invariant
                i <= self.schemes@.len(),
                want@ == theme@,
                m == self@.schemes,
                last_value(m, theme@) == last_value(m.take(i as int), theme@),
            decreases i,
        {
            assert(m.take(i as int).drop_last() =~= m.take(i - 1));
            assert(m.take(i as int).last() == (self.schemes@[i - 1].0@, self.schemes@[i - 1].1@));
            if chars_eq(&chars_of(self.schemes[i - 1].0.as_str()), &want) {
                return Some(&self.schemes[i - 1].1);
            }
            i -= 1;
        }
        None
    }

    /// The font scheme a part's `+mj-`/`+mn-` references resolve against.
    fn scheme_for(&self, part: &str) -> (r: Option<(&str, &FontScheme)>)
        ensures
            scheme_ref_view(r) == spec_scheme_for(self@, part@),
    {
        let theme = match self.theme_of(part) {
            Some(t) => t,
            None => return None,
        };
        match self.scheme_of(theme.as_str()) {
            Some(scheme) => Some((theme.as_str(), scheme)),
            None => None,
        }
    }
}

pub open spec fn opt_ph_view(p: Option<&Placeholder>) -> Option<PlaceholderView> {
    match p {
        Some(p) => Some(p@),
        None => None,
    }
}

/// What a theme reference resolves to for a part: the typeface the theme's
/// scheme names for that slot, and the theme part and property it is
/// written in; nothing for a named typeface or an unanswered reference.
pub open spec fn spec_theme_font(ix: IndexView, part: Seq<char>, typeface: TypefaceView) -> Option<(Seq<char>, Seq<char>, Seq<char>)> {
    match typeface {
        TypefaceView::Theme(font, script) => match spec_scheme_for(ix, part) {
            Some((theme, scheme)) => match scheme_typeface(scheme, font, script) {
                Some(name) => Some((name, theme, scheme_property(font, script))),
                None => None,
            },
            None => None,
        },
        TypefaceView::Named(_) => None,
    }
}

impl StyleIndex {
    /// Record a part's chain, keeping only the hops that supply styles.
    fn link(&mut self, part: &str, chain: &Vec<String>)
        ensures
            final(self)@.styles == old(self)@.styles,
            final(self)@.schemes == old(self)@.schemes,
            final(self)@.themes == old(self)@.themes,
            final(self)@.chains == (if with_styles(old(self)@.styles, text_views(chain@)).len() > 0 {
                old(self)@.chains.push((part@, with_styles(old(self)@.styles, text_views(chain@))))
            } else {
                old(self)@.chains
            }),
    {
        let mut sources: Vec<String> = Vec::new();
        let mut i: usize = 0;
        assert(text_views(chain@).take(0) =~= Seq::<Seq<char>>::empty());
        while i < chain.len()
            invariant
                i <= chain@.len(),
                self@ == old(self)@,
                text_views(sources@) == with_styles(self@.styles, text_views(chain@).take(i as int)),
            decreases chain@.len() - i,
        {
            assert(text_views(chain@).take(i + 1).drop_last() =~= text_views(chain@).take(i as int));
            assert(text_views(chain@).take(i + 1).last() == chain@[i as int]@);
            if self.styles_of(chain[i].as_str()).is_some() {
                let ghost before = sources@;
                sources.push(chain[i].clone());
                assert(text_views(sources@) =~= text_views(before).push(chain@[i as int]@));
            }
            i += 1;
        }
        assert(text_views(chain@).take(i as int) =~= text_views(chain@));
        if sources.len() > 0 {
            let ghost before = self@;
            self.chains.push((owned(part), sources));
            assert(self@.chains =~= before.chains.push((part@, with_styles(before.styles, text_views(chain@)))));
            assert(self@.styles =~= before.styles);
            assert(self@.schemes =~= before.schemes);
            assert(self@.themes =~= before.themes);
        }
    }

    /// Build an index from already-parsed parts: each part's styles (a later
    /// entry for a part replacing an earlier one), and each part's chain.
    pub fn from_parts(styles: Vec<(String, PartStyles)>, chains: Vec<(String, Vec<String>)>) -> (r: Self)
        ensures
            r@.styles == styles@.map_values(|e: (String, PartStyles)| (e.0@, e.1@)),
            r@.chains == linked(r@.styles, chains@.map_values(|e: (String, Vec<String>)| (e.0@, text_views(e.1@)))),
            r@.schemes.len() == 0,
            r@.themes.len() == 0,
    {
        let mut index = StyleIndex { styles, chains: Vec::new(), schemes: Vec::new(), themes: Vec::new() };
        let ghost cv = chains@.map_values(|e: (String, Vec<String>)| (e.0@, text_views(e.1@)));
        let mut i: usize = 0;
        assert(index@.chains =~= Seq::<(Seq<char>, Seq<Seq<char>>)>::empty());
        assert(cv.take(0) =~= Seq::<(Seq<char>, Seq<Seq<char>>)>::empty());
        while i < chains.len()
            invariant
                i <= chains@.len(),
                cv == chains@.map_values(|e: (String, Vec<String>)| (e.0@, text_views(e.1@))),
                index@.styles == styles@.map_values(|e: (String, PartStyles)| (e.0@, e.1@)),
                index@.chains == linked(index@.styles, cv.take(i as int)),
                index@.schemes.len() == 0,
                index@.themes.len() == 0,
            decreases chains@.len() - i,
        {
            assert(cv.take(i + 1).drop_last() =~= cv.take(i as int));
            assert(cv.take(i + 1).last() == (chains@[i as int].0@, text_views(chains@[i as int].1@)));
            index.link(chains[i].0.as_str(), &chains[i].1);
            i += 1;
        }
        assert(cv.take(i as int) =~= cv);
        index
    }

    /// Point parts at the theme their font references resolve against.
    pub fn with_theme(self, theme: &str, scheme: FontScheme, parts: Vec<String>) -> (r: Self)
        ensures
            r@.styles == self@.styles,
            r@.chains == self@.chains,
            r@.schemes == self@.schemes.push((theme@, scheme@)),
            r@.themes == self@.themes + text_views(parts@).map_values(|p: Seq<char>| (p, theme@)),
    {
        let mut index = self;
        let ghost start = index@;
        index.schemes.push((owned(theme), scheme));
        assert(index@.schemes =~= start.schemes.push((theme@, scheme@)));
        assert(index@.styles =~= start.styles);
        assert(index@.chains =~= start.chains);
        assert(index@.themes =~= start.themes);
        let mut i: usize = 0;
        while i < parts.len()
            invariant
                i <= parts@.len(),
                index@.styles == start.styles,
                index@.chains == start.chains,
                index@.schemes == start.schemes.push((theme@, scheme@)),
                index@.themes == start.themes + text_views(parts@).take(i as int).map_values(|p: Seq<char>| (p, theme@)),
            decreases parts@.len() - i,
        {
            let ghost before = index@;
            index.themes.push((parts[i].clone(), owned(theme)));
            assert(index@.themes =~= before.themes.push((parts@[i as int]@, theme@)));
            assert(text_views(parts@).take(i + 1) =~= text_views(parts@).take(i as int).push(parts@[i as int]@));
            assert(text_views(parts@).take(i + 1).map_values(|p: Seq<char>| (p, theme@)) =~= text_views(parts@).take(i as int).map_values(|p: Seq<char>| (p, theme@)).push((parts@[i as int]@, theme@)));
            assert(index@.themes =~= start.themes + text_views(parts@).take(i + 1).map_values(|p: Seq<char>| (p, theme@)));
            assert(index@.styles =~= before.styles);
            assert(index@.chains =~= before.chains);
            assert(index@.schemes =~= before.schemes);
            i += 1;
        }
        assert(text_views(parts@).take(i as int) =~= text_views(parts@));
        index
    }

    /// Resolve one theme reference a part states, naming the theme it came
    /// from: the theme is where the typeface a reader will see is written.
    /// A reference the theme answers with nothing resolves to nothing.
    pub fn theme_font(&self, part: &str, typeface: &Typeface) -> (r: Option<(String, Origin)>)
        ensures
            r matches Some(v) ==> spec_theme_font(self@, part@, typeface_view(*typeface)) == Some((v.0@, v.1.part@, v.1.property@)),
            r is None ==> spec_theme_font(self@, part@, typeface_view(*typeface)) is None,
    {
        let (font, script) = match typeface {
            Typeface::Theme(font, script) => (*font, *script),
            Typeface::Named(_) => return None,
        };
        let (theme, scheme) = match self.scheme_for(part) {
            Some(found) => found,
            None => return None,
        };
        match scheme.typeface(font, script) {
            Some(name) => Some((owned(name), Origin::new(theme, FontScheme::property(font, script)))),
            None => None,
        }
    }
}

proof fn lemma_take_all_short(p: PropertiesView, src: Source, theme: Option<(Seq<char>, SchemeView)>)
    ensures
        take_all(p, Seq::<Source>::empty(), theme) == p,
        take_all(p, seq![src], theme) == take_from(p, src.level, src.part, src.property, theme),
{
    assert(seq![src].drop_last() =~= Seq::<Source>::empty());
}

proof fn lemma_take_all_append(p: PropertiesView, a: Seq<Source>, b: Seq<Source>, theme: Option<(Seq<char>, SchemeView)>)
    ensures
        take_all(p, a + b, theme) == take_all(take_all(p, a, theme), b, theme),
    decreases b.len(),
{
    if b.len() == 0 {
        assert(a + b =~= a);
    } else {
        lemma_take_all_append(p, a, b.drop_last(), theme);
        assert((a + b).drop_last() =~= a + b.drop_last());
        assert((a + b).last() == b.last());
    }
}

impl StyleIndex {
    /// Fill in every property the paragraph left unset, from the nearest
    /// source above it that states one.
    ///
    /// `placeholder` is the one its shape declares, or `None` for a shape
    /// that is not a placeholder — a text box, a table, a chart's fallback
    /// drawing — which takes the master's `otherStyle` and nothing else.
    /// `level` is the paragraph's zero-based `a:pPr/@lvl`, and only that
    /// level of each source answers it.
    ///
    /// Nearest first: the part's own placeholder list style, the layout's,
    /// the master's, and last the master's named text style. A property
    /// already resolved is left alone, so a value the paragraph wrote still
    /// wins over the chain.
    pub fn resolve(&self, part: &str, placeholder: Option<&Placeholder>, level: usize, props: &mut Properties)
        ensures
            final(props)@ == spec_resolve(self@, part@, opt_ph_view(placeholder), level as nat, old(props)@),
    {
        let chain = match self.chain_of(part) {
            Some(c) => c,
            None => return,
        };
        let want = match placeholder {
            Some(ph) => ph.text_style(),
            None => TextStyle::Other,
        };
        let theme = self.scheme_for(part);
        let ghost ph = opt_ph_view(placeholder);
        let ghost cv = text_views(chain@);
        let mut i: usize = 0;
        assert(cv.take(0) =~= Seq::<Seq<char>>::empty());
        while i < chain.len()
            invariant
                i <= chain@.len(),
                cv == text_views(chain@),
                last_value(self@.chains, part@) == Some(cv),
                want == (match ph {
                    Some(p) => spec_text_style(p.kind),
                    None => TextStyle::Other,
                }),
                ph == opt_ph_view(placeholder),
                scheme_ref_view(theme) == spec_scheme_for(self@, part@),
                props@ == take_all(old(props)@, chain_sources(cv.take(i as int), self@.styles, ph, want, level as nat), scheme_ref_view(theme)),
            decreases chain@.len() - i,
        {
            let name = chain[i].as_str();
            let ghost before = chain_sources(cv.take(i as int), self@.styles, ph, want, level as nat);
            assert(cv.take(i + 1).drop_last() =~= cv.take(i as int));
            assert(cv.take(i + 1).last() == name@);
            match self.styles_of(name) {
                Some(styles) => {
                    let ghost sv = styles@;
                    let ghost fp = placeholder_sources(name@, sv, ph, level as nat);
                    let ghost fnm = named_sources(name@, sv, want, level as nat);
                    let ghost th = scheme_ref_view(theme);
                    proof {
                        lemma_take_all_short(take_all(old(props)@, before, th), Source { level: LevelView { direction: None, alignment: None, complex_font: None }, part: seq![], property: seq![] }, th);
                        lemma_take_all_append(old(props)@, before, fp, th);
                        lemma_take_all_append(old(props)@, before + fp, fnm, th);
                        assert(before + fp + fnm =~= before + sources_in(name@, sv, ph, want, level as nat));
                    }
                    match placeholder {
                        Some(want_ph) => match styles.placeholder(want_ph) {
                            Some((matched, levels)) => match levels.get(level) {
                                Some(stated) => {
                                    let property = matched.property(level);
                                    let ghost p0 = props@;
                                    take(props, stated, name, property.as_str(), theme);
                                    assert(fp =~= seq![Source { level: stated@, part: name@, property: property@ }]);
                                    proof {
                                        lemma_take_all_short(p0, Source { level: stated@, part: name@, property: property@ }, th);
                                    }
                                },
                                None => {
                                    assert(fp =~= Seq::<Source>::empty());
                                },
                            },
                            None => {
                                assert(fp =~= Seq::<Source>::empty());
                            },
                        },
                        None => {
                            assert(fp =~= Seq::<Source>::empty());
                        },
                    }
                    assert(props@ == take_all(take_all(old(props)@, before, th), fp, th));
                    assert(props@ == take_all(old(props)@, before + fp, th));
                    let ghost mid = props@;
                    proof {
                        lemma_take_all_short(props@, Source { level: LevelView { direction: None, alignment: None, complex_font: None }, part: seq![], property: seq![] }, th);
                    }
                    match styles.named(want) {
                        Some((style, levels)) => match levels.get(level) {
                            Some(stated) => {
                                let property = style.property(level);
                                let ghost p0 = props@;
                                take(props, stated, name, property.as_str(), theme);
                                assert(fnm =~= seq![Source { level: stated@, part: name@, property: property@ }]);
                                proof {
                                    lemma_take_all_short(p0, Source { level: stated@, part: name@, property: property@ }, th);
                                }
                            },
                            None => {
                                assert(fnm =~= Seq::<Source>::empty());
                            },
                        },
                        None => {
                            assert(fnm =~= Seq::<Source>::empty());
                        },
                    }
                    assert(props@ == take_all(mid, fnm, th));
                    assert(props@ == take_all(take_all(old(props)@, before + fp, th), fnm, th));
                },
                None => {},
            }
            i += 1;
        }
        assert(cv.take(i as int) =~= cv);
    }
}

/// Resolving never overwrites a property that is already resolved: a value
/// the paragraph wrote, or one it took from a nearer source, wins over
/// anything further up the chain.
pub proof fn lemma_resolve_keeps_resolved(ix: IndexView, part: Seq<char>, placeholder: Option<PlaceholderView>, level: nat, p: PropertiesView)
    ensures
        !(p.direction is Unset) ==> spec_resolve(ix, part, placeholder, level, p).direction == p.direction,
        !(p.alignment is Unset) ==> spec_resolve(ix, part, placeholder, level, p).alignment == p.alignment,
        !(p.complex_font is Unset) ==> spec_resolve(ix, part, placeholder, level, p).complex_font == p.complex_font,
{
    match last_value(ix.chains, part) {
        Some(chain) => {
            let want = match placeholder {
                Some(ph) => spec_text_style(ph.kind),
                None => TextStyle::Other,
            };
            lemma_take_all_keeps(p, chain_sources(chain, ix.styles, placeholder, want, level), spec_scheme_for(ix, part));
        },
        None => {},
    }
}

proof fn lemma_take_all_keeps(p: PropertiesView, sources: Seq<Source>, theme: Option<(Seq<char>, SchemeView)>)
    ensures
        !(p.direction is Unset) ==> take_all(p, sources, theme).direction == p.direction,
        !(p.alignment is Unset) ==> take_all(p, sources, theme).alignment == p.alignment,
        !(p.complex_font is Unset) ==> take_all(p, sources, theme).complex_font == p.complex_font,
    decreases sources.len(),
{
    if sources.len() > 0 {
        lemma_take_all_keeps(p, sources.drop_last(), theme);
    }
}

/// A property the chain states is resolved by the nearest source that states
/// it: once a source has filled a property, later sources leave it alone.
pub proof fn lemma_take_fills_once(p: PropertiesView, l: LevelView, part: Seq<char>, property: Seq<char>, theme: Option<(Seq<char>, SchemeView)>)
    ensures
        p.direction is Unset && l.direction is Some ==> take_from(p, l, part, property, theme).direction
            == ResolvedView::Inherited(l.direction.unwrap(), part, property + "@rtl"@),
        p.alignment is Unset && l.alignment is Some ==> take_from(p, l, part, property, theme).alignment
            == ResolvedView::Inherited(l.alignment.unwrap(), part, property + "@algn"@),
{
}


// ------------------------------------------------------------ a package's index

/// Whether a part in this role lays text out: the slides and everything a
/// slide inherits from.
pub open spec fn carries_text(role: Role) -> bool {
    ||| role == Role::Slide
    ||| role == Role::SlideLayout
    ||| role == Role::SlideMaster
    ||| role == Role::NotesSlide
    ||| role == Role::NotesMaster
    ||| role == Role::HandoutMaster
}

/// The names, in order, whose role in the graph is one that lays text out.
pub open spec fn text_parts_of(g: Seq<PartView>, names: Seq<Seq<char>>) -> Seq<Seq<char>>
    decreases names.len(),
{
    if names.len() == 0 {
        seq![]
    } else {
        let before = text_parts_of(g, names.drop_last());
        if carries_text(role_in(g, names.last())) {
            before.push(names.last())
        } else {
            before
        }
    }
}

/// The parts among `names` that lay text out, in order. A part's role comes
/// from the relationship that reaches it, never from where it is stored.
pub fn text_parts(graph: &RelationshipGraph, names: &[String]) -> (r: Vec<String>)
    ensures
        text_views(r@) == text_parts_of(graph@, text_views(names@)),
{
    let ghost nv = text_views(names@);
    let mut r: Vec<String> = Vec::new();
    let mut i: usize = 0;
    assert(nv.take(0) =~= Seq::<Seq<char>>::empty());
    assert(text_views(r@) =~= Seq::<Seq<char>>::empty());
    while i < names.len()
        invariant
            i <= names@.len(),
            nv == text_views(names@),
            nv.len() == names@.len(),
            text_views(r@) == text_parts_of(graph@, nv.take(i as int)),
        decreases names@.len() - i,
    {
        assert(nv.take(i + 1).drop_last() =~= nv.take(i as int));
        assert(nv.take(i + 1).last() == names@[i as int]@);
        let role = graph.role_of(names[i].as_str());
        if role == Role::Slide || role == Role::SlideLayout || role == Role::SlideMaster || role == Role::NotesSlide
            || role == Role::NotesMaster || role == Role::HandoutMaster {
            let ghost before = r@;
            r.push(names[i].clone());
            assert(text_views(r@) =~= text_views(before).push(names@[i as int]@));
        }
        i += 1;
    }
    assert(nv.take(i as int) =~= nv);
    r
}

/// Whether a part's styles state nothing.
pub open spec fn styles_empty(v: StylesView) -> bool {
    v.placeholders.len() == 0 && v.notes is None && v.title is None && v.body is None && v.other is None
}

/// Whether a font scheme states nothing.
pub open spec fn scheme_empty(v: SchemeView) -> bool {
    v.major == no_slots() && v.minor == no_slots()
}

/// The entries, in order, whose styles state something.
pub open spec fn stated_styles(s: Seq<(Seq<char>, StylesView)>) -> Seq<(Seq<char>, StylesView)>
    decreases s.len(),
{
    if s.len() == 0 {
        seq![]
    } else {
        let before = stated_styles(s.drop_last());
        if styles_empty(s.last().1) { before } else { before.push(s.last()) }
    }
}

/// The entries, in order, whose font scheme states something.
pub open spec fn stated_schemes(s: Seq<(Seq<char>, SchemeView)>) -> Seq<(Seq<char>, SchemeView)>
    decreases s.len(),
{
    if s.len() == 0 {
        seq![]
    } else {
        let before = stated_schemes(s.drop_last());
        if scheme_empty(s.last().1) { before } else { before.push(s.last()) }
    }
}

pub open spec fn style_views(v: Seq<(String, PartStyles)>) -> Seq<(Seq<char>, StylesView)> {
    v.map_values(|e: (String, PartStyles)| (e.0@, e.1@))
}

pub open spec fn style_parts(v: Seq<(String, PartStyles)>) -> Seq<Seq<char>> {
    v.map_values(|e: (String, PartStyles)| e.0@)
}

pub open spec fn scheme_views(v: Seq<(String, FontScheme)>) -> Seq<(Seq<char>, SchemeView)> {
    v.map_values(|e: (String, FontScheme)| (e.0@, e.1@))
}

/// Whether `chains` pairs each of `parts`, in order, with the part followed
/// by everything it inherits from in the graph.
pub open spec fn chains_walked(g: Seq<PartView>, parts: Seq<Seq<char>>, chains: Seq<(Seq<char>, Seq<Seq<char>>)>) -> bool {
    &&& chains.len() == parts.len()
    &&& forall|i: int| 0 <= i < parts.len() ==> {
        let c = #[trigger] chains[i];
        &&& c.0 == parts[i]
        &&& c.1.len() >= 1
        &&& c.1[0] == parts[i]
        &&& is_walk(g, parts[i], c.1.drop_first())
    }
}

/// Each of `parts`, in order, paired with the theme it inherits, `found[i]`,
/// where that theme's scheme is among `schemes`.
pub open spec fn themes_linked(parts: Seq<Seq<char>>, found: Seq<Option<String>>, schemes: Seq<(Seq<char>, SchemeView)>) -> Seq<(Seq<char>, Seq<char>)>
    decreases parts.len(),
{
    if parts.len() == 0 || found.len() != parts.len() {
        seq![]
    } else {
        let before = themes_linked(parts.drop_last(), found.drop_last(), schemes);
        match found.last() {
            Some(t) => if last_value(schemes, t@) is Some { before.push((parts.last(), t@)) } else { before },
            None => before,
        }
    }
}

fn scheme_known(schemes: &Vec<(String, FontScheme)>, name: &str) -> (r: bool)
    ensures
        r == last_value(schemes@.map_values(|e: (String, FontScheme)| (e.0@, e.1@)), name@) is Some,
{
    let ghost m = schemes@.map_values(|e: (String, FontScheme)| (e.0@, e.1@));
    let want = chars_of(name);
    let mut i = schemes.len();
    assert(m.take(i as int) =~= m);
    while i > 0
        invariant
            i <= schemes@.len(),
            want@ == name@,
            m == schemes@.map_values(|e: (String, FontScheme)| (e.0@, e.1@)),
            last_value(m, name@) == last_value(m.take(i as int), name@),
        decreases i,
    {
        assert(m.take(i as int).last() == (schemes@[i - 1].0@, schemes@[i - 1].1@));
        assert(m.take(i as int).drop_last() =~= m.take(i - 1));
        if chars_eq(&chars_of(schemes[i - 1].0.as_str()), &want) {
            return true;
        }
        i -= 1;
    }
    false
}

impl StyleIndex {
    /// Build a package's index from its relationship graph and the parts it
    /// has read: each text-laying part's styles, and each theme's font
    /// scheme. A part's chain comes from the graph, and a part is pointed at
    /// the theme it inherits when that theme's scheme states something.
    pub fn index_from(graph: &RelationshipGraph, styles: Vec<(String, PartStyles)>, schemes: Vec<(String, FontScheme)>) -> (r: Self)
        ensures
            r@.styles == stated_styles(style_views(styles@)),
            r@.schemes == stated_schemes(scheme_views(schemes@)),
            exists|chains: Seq<(Seq<char>, Seq<Seq<char>>)>, found: Seq<Option<String>>|
                #![trigger chains_walked(graph@, style_parts(styles@), chains), themes_linked(style_parts(styles@), found, r@.schemes)]
                chains_walked(graph@, style_parts(styles@), chains)
                && r@.chains == linked(r@.styles, chains)
                && found.len() == styles@.len()
                && (forall|i: int| 0 <= i < found.len() ==> ancestor_role_is(graph@, styles@[i].0@, Role::Theme, #[trigger] found[i]))
                && r@.themes == themes_linked(style_parts(styles@), found, r@.schemes),
    {
        let ghost given = styles@;
        let ghost sv = style_views(given);
        let ghost parts = style_parts(given);
        let n = styles.len();
        let mut styles = styles;
        // Each entry is moved, not copied: emptied onto a stack, then taken
        // back off it in the order given.
        let mut stack: Vec<(String, PartStyles)> = Vec::new();
        while styles.len() > 0
            invariant
                styles@.len() + stack@.len() == n,
                n == given.len(),
                forall|j: int| 0 <= j < styles@.len() ==> #[trigger] styles@[j] == given[j],
                forall|j: int| 0 <= j < stack@.len() ==> #[trigger] stack@[j] == given[n - 1 - j],
            decreases styles@.len(),
        {
            let e = styles.pop().unwrap();
            stack.push(e);
        }
        let mut index = StyleIndex::new();
        let mut names: Vec<String> = Vec::new();
        let mut i: usize = 0;
        assert(sv.take(0) =~= Seq::<(Seq<char>, StylesView)>::empty());
        assert(index@.styles =~= Seq::<(Seq<char>, StylesView)>::empty());
        while i < n
            invariant
                i <= n,
                n == given.len(),
                stack@.len() == n - i,
                forall|j: int| 0 <= j < stack@.len() ==> #[trigger] stack@[j] == given[n - 1 - j],
                sv == style_views(given),
                parts == style_parts(given),
                text_views(names@) == parts.take(i as int),
                index@.styles == stated_styles(sv.take(i as int)),
                index@.chains.len() == 0,
                index@.schemes.len() == 0,
                index@.themes.len() == 0,
            decreases n - i,
        {
            let (name, st) = stack.pop().unwrap();
            assert(given[i as int] == (name, st));
            assert(sv.take(i + 1).drop_last() =~= sv.take(i as int));
            assert(sv.take(i + 1).last() == (name@, st@));
            let ghost before_names = names@;
            names.push(name.clone());
            assert(text_views(names@) =~= text_views(before_names).push(name@));
            assert(parts.take(i + 1) =~= parts.take(i as int).push(name@));
            if !st.is_empty() {
                let ghost before = index@;
                index.styles.push((name, st));
                assert(index@.styles =~= before.styles.push((sv[i as int].0, sv[i as int].1)));
                assert(index@.chains =~= before.chains);
                assert(index@.schemes =~= before.schemes);
                assert(index@.themes =~= before.themes);
            }
            i += 1;
        }
        assert(sv.take(n as int) =~= sv);
        assert(parts.take(n as int) =~= parts);
        let ghost mut cs: Seq<(Seq<char>, Seq<Seq<char>>)> = seq![];
        let mut k: usize = 0;
        assert(index@.chains =~= linked(index@.styles, cs));
        while k < names.len()
            invariant
                k <= names@.len(),
                names@.len() == n,
                text_views(names@) == parts,
                index@.styles == stated_styles(sv),
                index@.chains == linked(index@.styles, cs),
                index@.schemes.len() == 0,
                index@.themes.len() == 0,
                cs.len() == k,
                forall|j: int| 0 <= j < k ==> {
                    let c = #[trigger] cs[j];
                    &&& c.0 == parts[j]
                    &&& c.1.len() >= 1
                    &&& c.1[0] == parts[j]
                    &&& is_walk(graph@, parts[j], c.1.drop_first())
                },
            decreases names@.len() - k,
        {
            let chain = graph.inheritance_chain(names[k].as_str());
            assert(text_views(chain@).drop_first() =~= crate::rels::names(chain@).drop_first());
            let ghost before = cs;
            index.link(names[k].as_str(), &chain);
            proof {
                cs = cs.push((names@[k as int]@, text_views(chain@)));
                assert(cs.drop_last() =~= before);
                assert(names@[k as int]@ == parts[k as int]);
            }
            k += 1;
        }
        let n2 = schemes.len();
        let ghost given2 = schemes@;
        let ghost mv = scheme_views(given2);
        let mut schemes = schemes;
        let mut stack2: Vec<(String, FontScheme)> = Vec::new();
        while schemes.len() > 0
            invariant
                schemes@.len() + stack2@.len() == n2,
                n2 == given2.len(),
                forall|j: int| 0 <= j < schemes@.len() ==> #[trigger] schemes@[j] == given2[j],
                forall|j: int| 0 <= j < stack2@.len() ==> #[trigger] stack2@[j] == given2[n2 - 1 - j],
            decreases schemes@.len(),
        {
            let e = schemes.pop().unwrap();
            stack2.push(e);
        }
        let mut m: usize = 0;
        assert(mv.take(0) =~= Seq::<(Seq<char>, SchemeView)>::empty());
        while m < n2
            invariant
                m <= n2,
                n2 == given2.len(),
                stack2@.len() == n2 - m,
                forall|j: int| 0 <= j < stack2@.len() ==> #[trigger] stack2@[j] == given2[n2 - 1 - j],
                mv == scheme_views(given2),
                index@.styles == stated_styles(sv),
                index@.chains == linked(index@.styles, cs),
                index@.schemes == stated_schemes(mv.take(m as int)),
                index@.themes.len() == 0,
            decreases n2 - m,
        {
            let (name, scheme) = stack2.pop().unwrap();
            assert(given2[m as int] == (name, scheme));
            assert(mv.take(m + 1).drop_last() =~= mv.take(m as int));
            assert(mv.take(m + 1).last() == (name@, scheme@));
            if !scheme.is_empty() {
                let ghost before = index@;
                index.schemes.push((name, scheme));
                assert(index@.schemes =~= before.schemes.push((mv[m as int].0, mv[m as int].1)));
                assert(index@.styles =~= before.styles);
                assert(index@.chains =~= before.chains);
                assert(index@.themes =~= before.themes);
            }
            m += 1;
        }
        assert(mv.take(n2 as int) =~= mv);
        let ghost mut found: Seq<Option<String>> = seq![];
        let mut t: usize = 0;
        assert(parts.take(0) =~= Seq::<Seq<char>>::empty());
        assert(index@.themes =~= themes_linked(parts.take(0), found, index@.schemes));
        while t < names.len()
            invariant
                t <= names@.len(),
                names@.len() == n,
                n == given.len(),
                text_views(names@) == parts,
                parts == style_parts(given),
                index@.styles == stated_styles(sv),
                index@.chains == linked(index@.styles, cs),
                index@.schemes == stated_schemes(mv),
                found.len() == t,
                forall|j: int| 0 <= j < t ==> ancestor_role_is(graph@, given[j].0@, Role::Theme, #[trigger] found[j]),
                index@.themes == themes_linked(parts.take(t as int), found, index@.schemes),
            decreases names@.len() - t,
        {
            let theme = graph.theme_of(names[t].as_str());
            let ghost before = index@;
            let ghost before_found = found;
            proof {
                found = found.push(theme);
                assert(found.drop_last() =~= before_found);
                assert(parts.take(t + 1).drop_last() =~= parts.take(t as int));
                assert(parts.take(t + 1).last() == names@[t as int]@);
                assert(names@[t as int]@ == given[t as int].0@);
            }
            match theme {
                Some(th) => {
                    if scheme_known(&index.schemes, th.as_str()) {
                        index.themes.push((names[t].clone(), th));
                        assert(index@.themes =~= before.themes.push((names@[t as int]@, found.last()->Some_0@)));
                    }
                },
                None => {},
            }
            assert(index@.styles =~= before.styles);
            assert(index@.chains =~= before.chains);
            assert(index@.schemes =~= before.schemes);
            t += 1;
        }
        assert(parts.take(n as int) =~= parts);
        assert(chains_walked(graph@, parts, cs));
        assert(themes_linked(parts, found, index@.schemes) == index@.themes);
        index
    }
}

} // verus!
