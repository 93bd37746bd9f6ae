//! The OPC relationship graph: which part a part inherits from.
//!
//! A property a PowerPoint paragraph leaves unset is taken from its
//! placeholder on the slide layout, from the layout's slide master, and
//! finally from the master's theme. OOXML does not write that chain into the
//! parts: it writes it into the package's relationship items, one
//! `_rels/<part>.rels` beside each part that has outgoing edges. This module
//! reads those items and answers one question — given a part, which parts
//! does it inherit from, in order.
//!
//! A part's [`Role`] comes from the relationship type that points *at* it, not
//! from its name, and each step up the chain follows exactly the one
//! relationship kind that role inherits from.
use vstd::prelude::*;
use vstd::std_specs::iter::IteratorSpec;
use crate::error::Error;
use crate::opc::{decode_escapes, percent_decode, resolve, source_dir, source_part, spec_resolve, spec_source_dir, spec_source_part, utf8_lossy};
use crate::strs::{chars_eq, chars_of, has_prefix, lemma_lex_asymmetric, lemma_lex_irreflexive, lemma_lex_total, lemma_lex_transitive, lex_less, lex_lt, owned, slice_chars, starts_with, string_of};
use crate::xml::{document_tokens, read_failure, reads_as, attribute, read_events, spec_attribute, tag_name, tag_name_of, Kind, Token};

verus! {

broadcast use vstd::string::group_string_axioms;

/// The namespace every relationship type named in this module lives under.
///
/// Matched in full rather than by its last segment: Microsoft extensions live
/// under a different namespace with the same shape.
pub const OFFICE: &'static str = "http://schemas.openxmlformats.org/officeDocument/2006/relationships/";

/// The key under which the package's own `_rels/.rels` is filed: it describes
/// the package root, which is not a part and so has no part name.
pub const PACKAGE_ROOT: &'static str = "";

/// What a relationship points at.
#[derive(Debug, PartialEq, Eq)]
pub enum Target {
    /// A part of this package, named as the package stores it.
    Part(String),
    /// A URI outside the package. Never resolved, never read.
    External(String),
}

impl Clone for Target {
    fn clone(&self) -> (r: Self)
        ensures
            r == *self,
    {
        match self {
            Target::Part(name) => Target::Part(name.clone()),
            Target::External(uri) => Target::External(uri.clone()),
        }
    }
}

/// A relationship as the values it holds.
pub struct RelationshipView {
    pub id: Seq<char>,
    pub relationship_type: Seq<char>,
    /// Whether the target lies outside the package.
    pub external: bool,
    pub target: Seq<char>,
}

/// The last segment of a relationship type in the standard namespace.
pub open spec fn kind_of_type(relationship_type: Seq<char>) -> Option<Seq<char>> {
    if has_prefix(relationship_type, OFFICE@) {
        Some(relationship_type.skip(OFFICE@.len() as int))
    } else {
        None
    }
}

impl RelationshipView {
    pub open spec fn kind(self) -> Option<Seq<char>> {
        kind_of_type(self.relationship_type)
    }

    /// The part this points at; nothing for an external target.
    pub open spec fn part(self) -> Option<Seq<char>> {
        if self.external {
            None
        } else {
            Some(self.target)
        }
    }

    pub open spec fn is(self, kind: Seq<char>) -> bool {
        self.kind() == Some(kind)
    }
}

/// One `<Relationship>` entry.
#[derive(Debug, PartialEq, Eq)]
pub struct Relationship {
    id: String,
    relationship_type: String,
    target: Target,
    /// The type's last segment in the standard namespace, kept beside it.
    kind: Option<String>,
}

impl View for Relationship {
    type V = RelationshipView;

    closed spec fn view(&self) -> RelationshipView {
        RelationshipView {
            id: self.id@,
            relationship_type: self.relationship_type@,
            external: self.target is External,
            target: match self.target {
                Target::Part(name) => name@,
                Target::External(uri) => uri@,
            },
        }
    }
}

impl Clone for Relationship {
    fn clone(&self) -> (r: Self)
        ensures
            r@ == self@,
    {
        proof {
            use_type_invariant(self);
        }
        Relationship {
            id: self.id.clone(),
            relationship_type: self.relationship_type.clone(),
            target: self.target.clone(),
            kind: match &self.kind {
                Some(k) => Some(k.clone()),
                None => None,
            },
        }
    }
}

/// Strip the standard namespace off a relationship type.
fn strip_office(relationship_type: &str) -> (r: Option<String>)
    ensures
        r matches Some(k) ==> kind_of_type(relationship_type@) == Some(k@),
        r is None ==> kind_of_type(relationship_type@) is None,
{
    let t = chars_of(relationship_type);
    let ns = chars_of(OFFICE);
    if starts_with(&t, &ns) {
        Some(string_of(&slice_chars(&t, ns.len(), t.len())))
    } else {
        None
    }
}

impl Relationship {
    #[verifier::type_invariant]
    spec fn kind_is_cached(self) -> bool {
        match self.kind {
            Some(k) => kind_of_type(self.relationship_type@) == Some(k@),
            None => kind_of_type(self.relationship_type@) is None,
        }
    }

    fn new(id: String, relationship_type: String, target: Target) -> (r: Self)
        ensures
            r@ == (RelationshipView {
                id: id@,
                relationship_type: relationship_type@,
                external: target is External,
                target: match target {
                    Target::Part(name) => name@,
                    Target::External(uri) => uri@,
                },
            }),
    {
        let kind = strip_office(relationship_type.as_str());
        Relationship { id, relationship_type, target, kind }
    }

    /// The `r:id` a part uses to refer to this relationship.
    pub fn id(&self) -> (r: &str)
        ensures
            r@ == self@.id,
    {
        self.id.as_str()
    }

    /// The relationship type, in full.
    pub fn relationship_type(&self) -> (r: &str)
        ensures
            r@ == self@.relationship_type,
    {
        self.relationship_type.as_str()
    }

    /// The type's last segment, for a type in the standard namespace:
    /// `slideLayout`, `theme`, `image`. `None` for any other namespace.
    pub fn kind(&self) -> (r: Option<&str>)
        ensures
            r matches Some(k) ==> self@.kind() == Some(k@),
            r is None ==> self@.kind() is None,
    {
        proof {
            use_type_invariant(self);
        }
        match &self.kind {
            Some(k) => Some(k.as_str()),
            None => None,
        }
    }

    /// Whether this is a standard relationship of the given kind.
    pub fn is(&self, kind: &str) -> (r: bool)
        ensures
            r == self@.is(kind@),
    {
        match self.kind() {
            Some(k) => chars_eq(&chars_of(k), &chars_of(kind)),
            None => false,
        }
    }

    pub fn target(&self) -> (r: &Target)
        ensures
            (r is External) == self@.external,
            r matches Target::Part(name) ==> name@ == self@.target,
            r matches Target::External(uri) ==> uri@ == self@.target,
    {
        &self.target
    }

    /// The part this points at, or `None` when the target is external.
    pub fn part(&self) -> (r: Option<&str>)
        ensures
            r matches Some(name) ==> self@.part() == Some(name@),
            r is None ==> self@.part() is None,
    {
        match &self.target {
            Target::Part(name) => Some(name.as_str()),
            Target::External(_) => None,
        }
    }
}

// ------------------------------------------------------------------ parsing

/// What follows the first `c` in `name`, if `c` occurs.
pub open spec fn after_first(name: Seq<char>, c: char) -> Option<Seq<char>>
    decreases name.len(),
{
    if name.len() == 0 {
        None
    } else if name[0] == c {
        Some(name.drop_first())
    } else {
        after_first(name.drop_first(), c)
    }
}

/// An element name without its namespace prefix: what follows the first `:`
/// (`QName::local_name`).
pub open spec fn local_name(name: Seq<char>) -> Seq<char> {
    match after_first(name, ':') {
        Some(rest) => rest,
        None => name,
    }
}

fn local_name_of(name: &[char]) -> (r: Vec<char>)
    ensures
        r@ == local_name(name@),
{
    let mut i: usize = 0;
    assert(name@.skip(0) =~= name@);
    while i < name.len()
        invariant
            i <= name@.len(),
            after_first(name@, ':') == after_first(name@.skip(i as int), ':'),
        decreases name@.len() - i,
    {
        if name[i] == ':' {
            assert(name@.skip(i as int).drop_first() =~= name@.skip(i + 1));
            return slice_chars(name, i + 1, name.len());
        }
        assert(name@.skip(i as int).drop_first() =~= name@.skip(i + 1));
        i += 1;
    }
    slice_chars(name, 0, name.len())
}

/// The relationship a start or empty `<Relationship>` tag declares, read
/// against the directory its targets resolve in; nothing for any other
/// token, or for an entry missing its `Id`, `Type` or `Target`.
pub open spec fn entry_of(dir: Seq<char>, t: Token) -> Option<RelationshipView> {
    if (t.kind == Kind::Start || t.kind == Kind::Empty) && local_name(tag_name(t.text@)) == "Relationship"@ {
        match (
            spec_attribute(t.text@, "Id"@),
            spec_attribute(t.text@, "Type"@),
            spec_attribute(t.text@, "Target"@),
        ) {
            (Some(id), Some(relationship_type), Some(raw)) => {
                let external = spec_attribute(t.text@, "TargetMode"@) == Some("External"@);
                Some(RelationshipView {
                    id,
                    relationship_type,
                    external,
                    target: if external { raw } else { spec_resolve(dir, raw) },
                })
            },
            _ => None,
        }
    } else {
        None
    }
}

/// Every relationship a token stream declares, in order.
pub open spec fn entries(dir: Seq<char>, ts: Seq<Token>) -> Seq<RelationshipView>
    decreases ts.len(),
{
    if ts.len() == 0 {
        seq![]
    } else {
        let rest = entries(dir, ts.drop_last());
        match entry_of(dir, ts.last()) {
            Some(e) => rest.push(e),
            None => rest,
        }
    }
}

/// The relationship one token declares, if it declares one.
fn entry(dir: &str, t: &Token) -> (r: Option<Relationship>)
    ensures
        r matches Some(rel) ==> entry_of(dir@, *t) == Some(rel@),
        r is None ==> entry_of(dir@, *t) is None,
{
    if t.kind != Kind::Start && t.kind != Kind::Empty {
        return None;
    }
    let name = local_name_of(&tag_name_of(t.text.as_str()));
    if !chars_eq(&name, &chars_of("Relationship")) {
        return None;
    }
    let id = match attribute(t, "Id") {
        Some(v) => v,
        None => return None,
    };
    let relationship_type = match attribute(t, "Type") {
        Some(v) => v,
        None => return None,
    };
    let raw = match attribute(t, "Target") {
        Some(v) => v,
        None => return None,
    };
    let external = match attribute(t, "TargetMode") {
        Some(mode) => chars_eq(&chars_of(mode.as_str()), &chars_of("External")),
        None => false,
    };
    let target = if external {
        Target::External(raw)
    } else {
        Target::Part(resolve(dir, raw.as_str()))
    };
    Some(Relationship::new(id, relationship_type, target))
}

/// Every relationship one part declares, in the order its `.rels` lists them.
#[derive(Debug)]
pub struct PartRelationships {
    source: String,
    items: Vec<Relationship>,
}

/// A part's relationships as values.
pub struct PartView {
    pub source: Seq<char>,
    pub items: Seq<RelationshipView>,
}

pub open spec fn views_of(items: Seq<Relationship>) -> Seq<RelationshipView> {
    items.map_values(|r: Relationship| r@)
}

impl View for PartRelationships {
    type V = PartView;

    closed spec fn view(&self) -> PartView {
        PartView { source: self.source@, items: views_of(self.items@) }
    }
}

impl Clone for PartRelationships {
    fn clone(&self) -> (r: Self)
        ensures
            r@ == self@,
    {
        let mut items: Vec<Relationship> = Vec::new();
        let mut i: usize = 0;
        while i < self.items.len()
            invariant
                i <= self.items@.len(),
                items@.len() == i,
                forall|j: int| 0 <= j < i ==> (#[trigger] items@[j])@ == self.items@[j]@,
            decreases self.items@.len() - i,
        {
            items.push(self.items[i].clone());
            i += 1;
        }
        assert(views_of(items@) =~= views_of(self.items@));
        PartRelationships { source: self.source.clone(), items }
    }
}

impl Default for PartRelationships {
    fn default() -> (r: Self)
        ensures
            r@.source == Seq::<char>::empty(),
            r@.items == Seq::<RelationshipView>::empty(),
    {
        let r = PartRelationships { source: String::new(), items: Vec::new() };
        assert(views_of(r.items@) =~= Seq::<RelationshipView>::empty());
        r
    }
}

/// The relationships a token stream declares for the part `rels_part` describes.
pub open spec fn spec_relationships_in(rels_part: Seq<char>, ts: Seq<Token>) -> PartView {
    PartView { source: spec_source_part(rels_part), items: entries(spec_source_dir(rels_part), ts) }
}

impl PartRelationships {
    /// The relationships a `.rels` item's token stream declares.
    ///
    /// `rels_part` is the item's own name — `ppt/slides/_rels/slide1.xml.rels`
    /// — because a target resolves against the directory of the part being
    /// described. An entry missing an attribute is skipped rather than
    /// failing the read: it is one edge this graph does not have.
    pub fn from_events(rels_part: &str, events: &[Token]) -> (r: Self)
        ensures
            r@ == spec_relationships_in(rels_part@, events@),
    {
        let dir = source_dir(rels_part);
        let mut items: Vec<Relationship> = Vec::new();
        let mut i: usize = 0;
        while i < events.len()
            invariant
                i <= events@.len(),
                dir@ == spec_source_dir(rels_part@),
                views_of(items@) == entries(dir@, events@.take(i as int)),
            decreases events@.len() - i,
        {
            assert(events@.take(i + 1).drop_last() =~= events@.take(i as int));
            match entry(dir.as_str(), &events[i]) {
                Some(rel) => {
                    items.push(rel);
                    assert(views_of(items@) =~= entries(dir@, events@.take(i as int)).push(rel@));
                },
                None => {},
            }
            i += 1;
        }
        assert(events@.take(i as int) =~= events@);
        PartRelationships { source: source_part(rels_part), items }
    }

    /// Parse one `.rels` item: read it with quick-xml and keep what its
    /// tokens declare. Only a document the parser rejects fails.
    pub fn parse(rels_part: &str, xml: &str) -> (r: Result<Self, Error>)
        ensures
            r is Ok <==> document_tokens(xml@) is Ok,
            r matches Err(e) ==> read_failure(rels_part@, xml@, e),
            r matches Ok(p) ==> exists|ts: Seq<Token>| #[trigger] reads_as(xml@, ts) && p@ == spec_relationships_in(rels_part@, ts),
    {
        let events = read_events(rels_part, xml)?;
        assert(reads_as(xml@, events@));
        Ok(Self::from_events(rels_part, &events))
    }
}

// ------------------------------------------------------------------ queries

/// The first relationship with the given `r:id`.
pub open spec fn find_id(items: Seq<RelationshipView>, id: Seq<char>) -> Option<RelationshipView>
    decreases items.len(),
{
    if items.len() == 0 {
        None
    } else if items[0].id == id {
        Some(items[0])
    } else {
        find_id(items.drop_first(), id)
    }
}

/// Every standard relationship of one kind, in document order.
pub open spec fn all_of_kind(items: Seq<RelationshipView>, kind: Seq<char>) -> Seq<RelationshipView>
    decreases items.len(),
{
    if items.len() == 0 {
        seq![]
    } else {
        let rest = all_of_kind(items.drop_last(), kind);
        if items.last().is(kind) {
            rest.push(items.last())
        } else {
            rest
        }
    }
}

/// The part the first standard relationship of one kind that reaches a part
/// points at.
pub open spec fn first_part(items: Seq<RelationshipView>, kind: Seq<char>) -> Option<Seq<char>>
    decreases items.len(),
{
    if items.len() == 0 {
        None
    } else if items[0].is(kind) && !items[0].external {
        Some(items[0].target)
    } else {
        first_part(items.drop_first(), kind)
    }
}

/// The names of the parts a package stores.
pub open spec fn names_of(known: Seq<&str>) -> Seq<Seq<char>> {
    known.map_values(|s: &str| s@)
}

/// What a name reads as once percent-decoded.
pub open spec fn decoded(name: Seq<char>) -> Seq<char> {
    utf8_lossy(decode_escapes(vstd::utf8::encode_utf8(name)))
}

/// A relationship re-pointed at the name a package stores: a part target the
/// package does not store, whose decoded form it does, takes the decoded form.
pub open spec fn realigned(v: RelationshipView, known: Seq<Seq<char>>) -> RelationshipView {
    if !v.external && !known.contains(v.target) && known.contains(decoded(v.target)) {
        RelationshipView { target: decoded(v.target), ..v }
    } else {
        v
    }
}

fn is_known(known: &[&str], name: &str) -> (r: bool)
    ensures
        r == names_of(known@).contains(name@),
{
    let want = chars_of(name);
    let mut i: usize = 0;
    while i < known.len()
        invariant
            i <= known@.len(),
            want@ == name@,
            forall|j: int| 0 <= j < i ==> known@[j]@ != name@,
        decreases known@.len() - i,
    {
        if chars_eq(&chars_of(known[i]), &want) {
            assert(names_of(known@)[i as int] == name@);
            return true;
        }
        i += 1;
    }
    proof {
        if names_of(known@).contains(name@) {
            let j = choose|j: int| 0 <= j < names_of(known@).len() && names_of(known@)[j] == name@;
            assert(known@[j]@ == name@);
        }
    }
    false
}

impl PartRelationships {
    /// The part these relationships belong to. [`PACKAGE_ROOT`] for `_rels/.rels`.
    pub fn source(&self) -> (r: &str)
        ensures
            r@ == self@.source,
    {
        self.source.as_str()
    }

    /// The relationships, in the order the `.rels` lists them.
    pub fn iter(&self) -> (r: std::slice::Iter<'_, Relationship>)
        ensures
            views_of(vstd::std_specs::slice::into_iter_elts(r)) == self@.items,
    {
        let r = self.items.as_slice().iter();
        proof {
            broadcast use vstd::std_specs::slice::axiom_spec_slice_iter;
            assert(vstd::std_specs::slice::into_iter_elts(r) =~= self.items@);
        }
        r
    }

    /// The relationship a part refers to by `r:id`.
    pub fn by_id(&self, id: &str) -> (r: Option<&Relationship>)
        ensures
            r matches Some(rel) ==> find_id(self@.items, id@) == Some(rel@),
            r is None ==> find_id(self@.items, id@) is None,
    {
        let want = chars_of(id);
        let mut i: usize = 0;
        assert(views_of(self.items@).skip(0) =~= views_of(self.items@));
        while i < self.items.len()
            invariant
                i <= self.items@.len(),
                want@ == id@,
                find_id(views_of(self.items@), id@) == find_id(views_of(self.items@).skip(i as int), id@),
            decreases self.items@.len() - i,
        {
            assert(views_of(self.items@).skip(i as int)[0] == self.items@[i as int]@);
            assert(views_of(self.items@).skip(i as int).drop_first() =~= views_of(self.items@).skip(i + 1));
            if chars_eq(&chars_of(self.items[i].id()), &want) {
                return Some(&self.items[i]);
            }
            i += 1;
        }
        None
    }

    /// Every standard relationship of one kind, in document order.
    pub fn of_kind(&self, kind: &str) -> (r: Vec<&Relationship>)
        ensures
            r@.map_values(|x: &Relationship| x@) == all_of_kind(self@.items, kind@),
    {
        let mut out: Vec<&Relationship> = Vec::new();
        let mut i: usize = 0;
        while i < self.items.len()
            invariant
                i <= self.items@.len(),
                out@.map_values(|x: &Relationship| x@) == all_of_kind(views_of(self.items@).take(i as int), kind@),
            decreases self.items@.len() - i,
        {
            assert(views_of(self.items@).take(i + 1).drop_last() =~= views_of(self.items@).take(i as int));
            assert(views_of(self.items@).take(i + 1).last() == self.items@[i as int]@);
            if self.items[i].is(kind) {
                let ghost before = out@;
                out.push(&self.items[i]);
                assert(out@.map_values(|x: &Relationship| x@) =~= before.map_values(|x: &Relationship| x@).push(self.items@[i as int]@));
            }
            i += 1;
        }
        assert(views_of(self.items@).take(i as int) =~= views_of(self.items@));
        out
    }

    /// The first part reached by a standard relationship of one kind.
    ///
    /// First rather than only: a slide master lists many `slideLayout`
    /// relationships. For the kinds the graph walks upward there is one.
    pub fn first_part_of_kind(&self, kind: &str) -> (r: Option<&str>)
        ensures
            r matches Some(name) ==> first_part(self@.items, kind@) == Some(name@),
            r is None ==> first_part(self@.items, kind@) is None,
    {
        let mut i: usize = 0;
        assert(views_of(self.items@).skip(0) =~= views_of(self.items@));
        while i < self.items.len()
            invariant
                i <= self.items@.len(),
                first_part(views_of(self.items@), kind@) == first_part(views_of(self.items@).skip(i as int), kind@),
            decreases self.items@.len() - i,
        {
            assert(views_of(self.items@).skip(i as int)[0] == self.items@[i as int]@);
            assert(views_of(self.items@).skip(i as int).drop_first() =~= views_of(self.items@).skip(i + 1));
            if self.items[i].is(kind) {
                match self.items[i].part() {
                    Some(name) => return Some(name),
                    None => {},
                }
            }
            i += 1;
        }
        None
    }

    /// Re-point targets at the names the package actually stores.
    ///
    /// A target and the item it names are normally encoded the same way, and
    /// then this changes nothing. When they are not, the decoded form is the
    /// one that can be read, so it wins. A target matching neither is left as
    /// resolved: a dangling relationship keeps the name it asked for.
    pub fn realign(&mut self, known: &[&str])
        ensures
            final(self)@.source == old(self)@.source,
            final(self)@.items == old(self)@.items.map_values(|v: RelationshipView| realigned(v, names_of(known@))),
    {
        let ghost want = old(self)@.items.map_values(|v: RelationshipView| realigned(v, names_of(known@)));
        let mut items: Vec<Relationship> = Vec::new();
        let mut i: usize = 0;
        while i < self.items.len()
            invariant
                i <= self.items@.len(),
                self@ == old(self)@,
                want == views_of(self.items@).map_values(|v: RelationshipView| realigned(v, names_of(known@))),
                items@.len() == i,
                forall|j: int| 0 <= j < i ==> (#[trigger] items@[j])@ == want[j],
            decreases self.items@.len() - i,
        {
            let item = &self.items[i];
            let ghost v = item@;
            assert(views_of(self.items@)[i as int] == v);
            let next = match item.part() {
                Some(name) => {
                    if is_known(known, name) {
                        item.clone()
                    } else {
                        let candidate = percent_decode(name);
                        if is_known(known, candidate.as_str()) {
                            Relationship::new(item.id.clone(), item.relationship_type.clone(), Target::Part(candidate))
                        } else {
                            item.clone()
                        }
                    }
                },
                None => item.clone(),
            };
            items.push(next);
            i += 1;
        }
        self.items = items;
        assert(views_of(self.items@) =~= want);
    }
}

// ------------------------------------------------------------------ roles

/// What a part is, as the graph reaches it.
///
/// Ordered so that a part reached by two different relationship types — which
/// no well-formed package produces — resolves to the same role on every run.
#[derive(Debug, Clone, Copy, PartialEq, Eq, Structural, PartialOrd, Ord)]
pub enum Role {
    /// The package's main story: a presentation, or a Word document, named
    /// for the relationship that reaches both.
    OfficeDocument,
    Slide,
    SlideLayout,
    SlideMaster,
    NotesSlide,
    NotesMaster,
    HandoutMaster,
    Theme,
    /// Reached by no relationship, or by one whose type this graph does not
    /// place in the inheritance chain — an image, a chart, an embedding.
    Other,
}

impl Default for Role {
    fn default() -> (r: Role)
        ensures
            r == Role::Other,
    {
        Role::Other
    }
}

/// A role's place in the order roles are declared in.
pub open spec fn role_rank(r: Role) -> nat {
    match r {
        Role::OfficeDocument => 0,
        Role::Slide => 1,
        Role::SlideLayout => 2,
        Role::SlideMaster => 3,
        Role::NotesSlide => 4,
        Role::NotesMaster => 5,
        Role::HandoutMaster => 6,
        Role::Theme => 7,
        Role::Other => 8,
    }
}

/// The earlier-declared of two roles.
pub open spec fn lower(a: Role, b: Role) -> Role {
    if role_rank(a) <= role_rank(b) {
        a
    } else {
        b
    }
}

/// The role a part takes from the relationship kind pointing at it.
pub open spec fn role_for_kind(kind: Seq<char>) -> Role {
    if kind == "officeDocument"@ {
        Role::OfficeDocument
    } else if kind == "slide"@ {
        Role::Slide
    } else if kind == "slideLayout"@ {
        Role::SlideLayout
    } else if kind == "slideMaster"@ {
        Role::SlideMaster
    } else if kind == "notesSlide"@ {
        Role::NotesSlide
    } else if kind == "notesMaster"@ {
        Role::NotesMaster
    } else if kind == "handoutMaster"@ {
        Role::HandoutMaster
    } else if kind == "theme"@ {
        Role::Theme
    } else {
        Role::Other
    }
}

/// The relationship kind that leads one step up the inheritance chain.
pub open spec fn parent_kind(r: Role) -> Option<Seq<char>> {
    match r {
        Role::Slide => Some("slideLayout"@),
        Role::SlideLayout | Role::HandoutMaster => Some("slideMaster"@),
        Role::NotesSlide => Some("notesMaster"@),
        Role::SlideMaster | Role::NotesMaster => Some("theme"@),
        Role::OfficeDocument | Role::Theme | Role::Other => None,
    }
}

fn same(a: &str, b: &str) -> (r: bool)
    ensures
        r == (a@ == b@),
{
    chars_eq(&chars_of(a), &chars_of(b))
}

impl Role {
    fn rank(self) -> (r: u8)
        ensures
            r == role_rank(self),
    {
        match self {
            Role::OfficeDocument => 0,
            Role::Slide => 1,
            Role::SlideLayout => 2,
            Role::SlideMaster => 3,
            Role::NotesSlide => 4,
            Role::NotesMaster => 5,
            Role::HandoutMaster => 6,
            Role::Theme => 7,
            Role::Other => 8,
        }
    }

    /// The role a part takes from the relationship kind pointing at it.
    pub fn from_kind(kind: &str) -> (r: Self)
        ensures
            r == role_for_kind(kind@),
    {
        if same(kind, "officeDocument") {
            Role::OfficeDocument
        } else if same(kind, "slide") {
            Role::Slide
        } else if same(kind, "slideLayout") {
            Role::SlideLayout
        } else if same(kind, "slideMaster") {
            Role::SlideMaster
        } else if same(kind, "notesSlide") {
            Role::NotesSlide
        } else if same(kind, "notesMaster") {
            Role::NotesMaster
        } else if same(kind, "handoutMaster") {
            Role::HandoutMaster
        } else if same(kind, "theme") {
            Role::Theme
        } else {
            Role::Other
        }
    }

    /// The relationship kind that leads one step up the inheritance chain.
    ///
    /// `None` ends the walk. A theme is the top; the main document part is
    /// beside the chain rather than above it — it owns the masters, and a
    /// property is never inherited from it by this route.
    pub fn inherits_from(self) -> (r: Option<&'static str>)
        ensures
            r matches Some(k) ==> parent_kind(self) == Some(k@),
            r is None ==> parent_kind(self) is None,
    {
        match self {
            Role::Slide => Some("slideLayout"),
            Role::SlideLayout | Role::HandoutMaster => Some("slideMaster"),
            Role::NotesSlide => Some("notesMaster"),
            Role::SlideMaster | Role::NotesMaster => Some("theme"),
            Role::OfficeDocument | Role::Theme | Role::Other => None,
        }
    }
}

// ------------------------------------------------------------------ the graph

/// The parts with the source `part` dropped.
pub open spec fn without_source(g: Seq<PartView>, part: Seq<char>) -> Seq<PartView>
    decreases g.len(),
{
    if g.len() == 0 {
        seq![]
    } else {
        let rest = without_source(g.drop_last(), part);
        if g.last().source == part {
            rest
        } else {
            rest.push(g.last())
        }
    }
}

/// Parts filed by source, a later part replacing an earlier one with the
/// same source.
pub open spec fn filed(parts: Seq<PartView>) -> Seq<PartView>
    decreases parts.len(),
{
    if parts.len() == 0 {
        seq![]
    } else {
        without_source(filed(parts.drop_last()), parts.last().source).push(parts.last())
    }
}

/// The last part filed under `part`.
pub open spec fn lookup(g: Seq<PartView>, part: Seq<char>) -> Option<PartView>
    decreases g.len(),
{
    if g.len() == 0 {
        None
    } else if g.last().source == part {
        Some(g.last())
    } else {
        lookup(g.drop_last(), part)
    }
}

/// The role one relationship gives `part`: its kind's role if it reaches
/// `part`, and `Other` otherwise.
pub open spec fn edge_role(v: RelationshipView, part: Seq<char>) -> Role {
    if v.part() == Some(part) {
        match v.kind() {
            Some(k) => role_for_kind(k),
            None => Role::Other,
        }
    } else {
        Role::Other
    }
}

/// The earliest-declared role any of `items` gives `part`.
pub open spec fn role_among(items: Seq<RelationshipView>, part: Seq<char>) -> Role
    decreases items.len(),
{
    if items.len() == 0 {
        Role::Other
    } else {
        lower(role_among(items.drop_last(), part), edge_role(items.last(), part))
    }
}

/// The earliest-declared role any relationship of the graph gives `part`;
/// `Other` when nothing places it in the chain.
pub open spec fn role_in(g: Seq<PartView>, part: Seq<char>) -> Role
    decreases g.len(),
{
    if g.len() == 0 {
        Role::Other
    } else {
        lower(role_in(g.drop_last(), part), role_among(g.last().items, part))
    }
}

/// The first part `part` reaches by a standard relationship of one kind.
pub open spec fn first_part_from(g: Seq<PartView>, part: Seq<char>, kind: Seq<char>) -> Option<Seq<char>> {
    match lookup(g, part) {
        Some(p) => first_part(p.items, kind),
        None => None,
    }
}

pub open spec fn part_views(parts: Seq<PartRelationships>) -> Seq<PartView> {
    parts.map_values(|p: PartRelationships| p@)
}

pub open spec fn distinct_sources(g: Seq<PartView>) -> bool {
    forall|i: int, j: int| 0 <= i < j < g.len() ==> #[trigger] g[i].source != #[trigger] g[j].source
}

/// Every relationship in a package, filed by the part that declares it.
#[derive(Debug)]
pub struct RelationshipGraph {
    by_source: Vec<PartRelationships>,
}

impl View for RelationshipGraph {
    type V = Seq<PartView>;

    closed spec fn view(&self) -> Seq<PartView> {
        part_views(self.by_source@)
    }
}

impl RelationshipGraph {
    #[verifier::type_invariant]
    spec fn one_entry_per_source(self) -> bool {
        distinct_sources(part_views(self.by_source@))
    }

    /// Build a graph from already-parsed items; a later item for the same
    /// part replaces an earlier one.
    pub fn from_parts(parts: Vec<PartRelationships>) -> (r: Self)
        ensures
            r@ == filed(part_views(parts@)),
            forall|p: Seq<char>| #[trigger] lookup(r@, p) == lookup(part_views(parts@), p),
    {
        let mut by_source: Vec<PartRelationships> = Vec::new();
        let mut i: usize = 0;
        let ghost input = part_views(parts@);
        let mut parts = parts;
        proof {
            assert(input.take(0) =~= Seq::<PartView>::empty());
        }
        while i < parts.len()
            invariant
                i <= parts@.len(),
                input == part_views(parts@),
                part_views(by_source@) == filed(input.take(i as int)),
                distinct_sources(part_views(by_source@)),
            decreases parts@.len() - i,
        {
            let item = parts[i].clone();
            assert(item@ == input[i as int]);
            let mut kept: Vec<PartRelationships> = Vec::new();
            let mut j: usize = 0;
            let ghost before = part_views(by_source@);
            while j < by_source.len()
                invariant
                    j <= by_source@.len(),
                    before == part_views(by_source@),
                    distinct_sources(before),
                    part_views(kept@) == without_source(before.take(j as int), item@.source),
                    forall|k: int| 0 <= k < kept@.len() ==> (#[trigger] part_views(kept@)[k]).source != item@.source,
                    distinct_sources(part_views(kept@)),
                    forall|k: int| 0 <= k < kept@.len() ==> exists|m: int| 0 <= m < j && #[trigger] part_views(kept@)[k] == before[m],
                decreases by_source@.len() - j,
            {
                assert(before.take(j + 1).drop_last() =~= before.take(j as int));
                if !same(by_source[j].source(), item.source()) {
                    let ghost kv = part_views(kept@);
                    kept.push(by_source[j].clone());
                    assert(part_views(kept@) =~= kv.push(before[j as int]));
                    assert forall|k: int| 0 <= k < part_views(kept@).len() implies exists|m: int| 0 <= m < j + 1 && #[trigger] part_views(kept@)[k] == before[m] by {
                        if k == kv.len() {
                            assert(part_views(kept@)[k] == before[j as int]);
                        } else {
                            assert(part_views(kept@)[k] == kv[k]);
                        }
                    }
                    assert forall|a: int, b: int| 0 <= a < b < part_views(kept@).len() implies #[trigger] part_views(kept@)[a].source != #[trigger] part_views(kept@)[b].source by {
                        if b == kv.len() {
                            assert(part_views(kept@)[a] == kv[a]);
                            let m = choose|m: int| 0 <= m < j && #[trigger] kv[a] == before[m];
                            assert(before[m].source != before[j as int].source);
                        } else {
                            assert(part_views(kept@)[a] == kv[a]);
                            assert(part_views(kept@)[b] == kv[b]);
                        }
                    }
                }
                j += 1;
            }
            assert(before.take(j as int) =~= before);
            let ghost kv = part_views(kept@);
            kept.push(item);
            assert(part_views(kept@) =~= kv.push(input[i as int]));
            assert(input.take(i + 1).drop_last() =~= input.take(i as int));
            assert(input.take(i + 1).last() == input[i as int]);
            assert forall|a: int, b: int| 0 <= a < b < part_views(kept@).len() implies #[trigger] part_views(kept@)[a].source != #[trigger] part_views(kept@)[b].source by {
                if b == kv.len() {
                    assert(part_views(kept@)[a] == kv[a]);
                } else {
                    assert(part_views(kept@)[a] == kv[a]);
                    assert(part_views(kept@)[b] == kv[b]);
                }
            }
            by_source = kept;
            i += 1;
        }
        assert(input.take(i as int) =~= input);
        proof {
            assert forall|p: Seq<char>| #[trigger] lookup(filed(input), p) == lookup(input, p) by {
                lemma_filed_keeps_last(input, p);
            }
        }
        RelationshipGraph { by_source }
    }
}

impl RelationshipGraph {
    /// The relationships one part declares, if it declares any.
    pub fn of(&self, part: &str) -> (r: Option<&PartRelationships>)
        ensures
            r matches Some(p) ==> lookup(self@, part@) == Some(p@),
            r is None ==> lookup(self@, part@) is None,
    {
        let want = chars_of(part);
        let mut i: usize = self.by_source.len();
        assert(part_views(self.by_source@).take(i as int) =~= part_views(self.by_source@));
        while i > 0
            invariant
                i <= self.by_source@.len(),
                want@ == part@,
                lookup(self@, part@) == lookup(part_views(self.by_source@).take(i as int), part@),
            decreases i,
        {
            let ghost g = part_views(self.by_source@).take(i as int);
            assert(g.drop_last() =~= part_views(self.by_source@).take(i - 1));
            assert(g.last() == self.by_source@[i - 1]@);
            if chars_eq(&chars_of(self.by_source[i - 1].source()), &want) {
                return Some(&self.by_source[i - 1]);
            }
            i -= 1;
        }
        None
    }

    /// Resolve one `r:id` against the part that used it.
    pub fn target_of(&self, part: &str, id: &str) -> (r: Option<&str>)
        ensures
            r matches Some(name) ==> (lookup(self@, part@) matches Some(p) && find_id(p.items, id@) matches Some(v) && v.part() == Some(name@)),
            r is None ==> !(lookup(self@, part@) matches Some(p) && find_id(p.items, id@) matches Some(v) && v.part() is Some),
    {
        match self.of(part) {
            Some(rels) => match rels.by_id(id) {
                Some(rel) => rel.part(),
                None => None,
            },
            None => None,
        }
    }

    /// The first part `part` reaches by a standard relationship of one kind.
    pub fn first_part_of_kind(&self, part: &str, kind: &str) -> (r: Option<&str>)
        ensures
            r matches Some(name) ==> first_part_from(self@, part@, kind@) == Some(name@),
            r is None ==> first_part_from(self@, part@, kind@) is None,
    {
        match self.of(part) {
            Some(rels) => rels.first_part_of_kind(kind),
            None => None,
        }
    }

    /// The main document part, reached from the package root: a presentation
    /// in a `.pptx`, `word/document.xml` in a `.docx`.
    pub fn office_document(&self) -> (r: Option<&str>)
        ensures
            r matches Some(name) ==> first_part_from(self@, PACKAGE_ROOT@, "officeDocument"@) == Some(name@),
            r is None ==> first_part_from(self@, PACKAGE_ROOT@, "officeDocument"@) is None,
    {
        self.first_part_of_kind(PACKAGE_ROOT, "officeDocument")
    }

    /// What the graph reaches this part as: the earliest-declared role among
    /// the relationships that point at it, `Other` when none places it in
    /// the chain.
    pub fn role_of(&self, part: &str) -> (r: Role)
        ensures
            r == role_in(self@, part@),
    {
        let want = chars_of(part);
        let mut best = Role::Other;
        let mut i: usize = 0;
        assert(part_views(self.by_source@).take(0) =~= Seq::<PartView>::empty());
        while i < self.by_source.len()
            invariant
                i <= self.by_source@.len(),
                want@ == part@,
                best == role_in(part_views(self.by_source@).take(i as int), part@),
            decreases self.by_source@.len() - i,
        {
            let rels = &self.by_source[i];
            let ghost items = rels@.items;
            let mut here = Role::Other;
            let mut j: usize = 0;
            assert(views_of(rels.items@).take(0) =~= Seq::<RelationshipView>::empty());
            while j < rels.items.len()
                invariant
                    j <= rels.items@.len(),
                    want@ == part@,
                    items == views_of(rels.items@),
                    here == role_among(views_of(rels.items@).take(j as int), part@),
                decreases rels.items@.len() - j,
            {
                let item = &rels.items[j];
                assert(views_of(rels.items@).take(j + 1).drop_last() =~= views_of(rels.items@).take(j as int));
                assert(views_of(rels.items@).take(j + 1).last() == item@);
                let role = match (item.kind(), item.part()) {
                    (Some(kind), Some(name)) => {
                        if chars_eq(&chars_of(name), &want) {
                            Role::from_kind(kind)
                        } else {
                            Role::Other
                        }
                    },
                    _ => Role::Other,
                };
                if role.rank() < here.rank() {
                    here = role;
                }
                j += 1;
            }
            assert(views_of(rels.items@).take(j as int) =~= items);
            assert(part_views(self.by_source@).take(i + 1).drop_last() =~= part_views(self.by_source@).take(i as int));
            assert(part_views(self.by_source@).take(i + 1).last() == rels@);
            if here.rank() < best.rank() {
                best = here;
            }
            i += 1;
        }
        assert(part_views(self.by_source@).take(i as int) =~= part_views(self.by_source@));
        best
    }
}

// ------------------------------------------------------------------ the walk

/// One step up from `part`: the part its role's parent kind leads to.
pub open spec fn next_of(g: Seq<PartView>, part: Seq<char>) -> Option<Seq<char>> {
    match parent_kind(role_in(g, part)) {
        Some(kind) => first_part_from(g, part, kind),
        None => None,
    }
}

/// The part a walk stands on before its `i`-th step.
pub open spec fn walk_from(part: Seq<char>, chain: Seq<Seq<char>>, i: int) -> Seq<char> {
    if i == 0 {
        part
    } else {
        chain[i - 1]
    }
}

/// Whether `chain` is the walk up from `part`: each entry is one step up
/// from the one before it, no part is visited twice, `part` itself is never
/// revisited, and the walk ends where no step leads on or the next step
/// would revisit a part.
pub open spec fn is_walk(g: Seq<PartView>, part: Seq<char>, chain: Seq<Seq<char>>) -> bool {
    &&& forall|i: int| 0 <= i < chain.len() ==> next_of(g, #[trigger] walk_from(part, chain, i)) == Some(chain[i])
    &&& chain.no_duplicates()
    &&& !chain.contains(part)
    &&& match next_of(g, walk_from(part, chain, chain.len() as int)) {
        None => true,
        Some(n) => n == part || chain.contains(n),
    }
}

pub open spec fn names(v: Seq<String>) -> Seq<Seq<char>> {
    v.map_values(|s: String| s@)
}

/// The targets of some relationships, in order.
pub open spec fn targets(items: Seq<RelationshipView>) -> Seq<Seq<char>> {
    items.map_values(|v: RelationshipView| v.target)
}

/// Every target of every relationship in the graph.
pub open spec fn all_targets(g: Seq<PartView>) -> Seq<Seq<char>>
    decreases g.len(),
{
    if g.len() == 0 {
        seq![]
    } else {
        all_targets(g.drop_last()) + targets(g.last().items)
    }
}

proof fn lemma_first_part_is_target(items: Seq<RelationshipView>, kind: Seq<char>)
    ensures
        first_part(items, kind) matches Some(n) ==> targets(items).contains(n),
    decreases items.len(),
{
    if items.len() > 0 {
        lemma_first_part_is_target(items.drop_first(), kind);
        let t = targets(items);
        if items[0].is(kind) && !items[0].external {
            assert(t[0] == items[0].target);
        } else if let Some(n) = first_part(items.drop_first(), kind) {
            let k = choose|k: int| 0 <= k < items.drop_first().len() && #[trigger] targets(items.drop_first())[k] == n;
            assert(t[k + 1] == n);
        }
    }
}

proof fn lemma_lookup_targets(g: Seq<PartView>, part: Seq<char>, n: Seq<char>)
    requires
        lookup(g, part) matches Some(p) && targets(p.items).contains(n),
    ensures
        all_targets(g).contains(n),
    decreases g.len(),
{
    let last = targets(g.last().items);
    if g.last().source == part {
        let k = choose|k: int| 0 <= k < last.len() && #[trigger] last[k] == n;
        assert((all_targets(g.drop_last()) + last)[all_targets(g.drop_last()).len() + k] == n);
    } else {
        lemma_lookup_targets(g.drop_last(), part, n);
        let k = choose|k: int| 0 <= k < all_targets(g.drop_last()).len() && #[trigger] all_targets(g.drop_last())[k] == n;
        assert((all_targets(g.drop_last()) + last)[k] == n);
    }
}

proof fn lemma_step_is_target(g: Seq<PartView>, part: Seq<char>)
    ensures
        next_of(g, part) matches Some(n) ==> all_targets(g).contains(n),
{
    if let Some(kind) = parent_kind(role_in(g, part)) {
        if let Some(p) = lookup(g, part) {
            lemma_first_part_is_target(p.items, kind);
            if let Some(n) = first_part(p.items, kind) {
                lemma_lookup_targets(g, part, n);
            }
        }
    }
}

/// A walk never has more parts than the graph has relationships.
proof fn lemma_walk_bounded(g: Seq<PartView>, chain: Seq<Seq<char>>)
    requires
        chain.no_duplicates(),
        forall|i: int| 0 <= i < chain.len() ==> all_targets(g).contains(#[trigger] chain[i]),
    ensures
        chain.len() <= all_targets(g).len(),
{
    chain.unique_seq_to_set();
    all_targets(g).lemma_cardinality_of_set();
    assert(chain.to_set().subset_of(all_targets(g).to_set()));
    vstd::set_lib::lemma_len_subset(chain.to_set(), all_targets(g).to_set());
}

fn holds(chain: &Vec<String>, name: &str) -> (r: bool)
    ensures
        r == names(chain@).contains(name@),
{
    let want = chars_of(name);
    let mut i: usize = 0;
    while i < chain.len()
        invariant
            i <= chain@.len(),
            want@ == name@,
            forall|j: int| 0 <= j < i ==> chain@[j]@ != name@,
        decreases chain@.len() - i,
    {
        if chars_eq(&chars_of(chain[i].as_str()), &want) {
            assert(names(chain@)[i as int] == name@);
            return true;
        }
        i += 1;
    }
    proof {
        if names(chain@).contains(name@) {
            let j = choose|j: int| 0 <= j < names(chain@).len() && names(chain@)[j] == name@;
            assert(chain@[j]@ == name@);
        }
    }
    false
}

impl RelationshipGraph {
    /// The parts `part` inherits from, nearest first, excluding `part` itself.
    ///
    /// A slide gives its layout, that layout's master and that master's theme.
    /// A part with no role in the chain gives nothing. A package whose
    /// relationships form a cycle ends the walk at the repeat rather than
    /// looping.
    pub fn ancestors(&self, part: &str) -> (r: Vec<String>)
        ensures
            is_walk(self@, part@, names(r@)),
    {
        let mut chain: Vec<String> = Vec::new();
        let mut here = owned(part);
        let ghost g = self@;
        loop
            invariant
                g == self@,
                here@ == walk_from(part@, names(chain@), chain@.len() as int),
                forall|i: int| 0 <= i < chain@.len() ==> next_of(g, #[trigger] walk_from(part@, names(chain@), i)) == Some(names(chain@)[i]),
                names(chain@).no_duplicates(),
                !names(chain@).contains(part@),
                forall|i: int| 0 <= i < chain@.len() ==> all_targets(g).contains(#[trigger] names(chain@)[i]),
                chain@.len() <= all_targets(g).len(),
            ensures
                is_walk(g, part@, names(chain@)),
            decreases all_targets(g).len() - chain@.len(),
        {
            let kind = match self.role_of(here.as_str()).inherits_from() {
                Some(kind) => kind,
                None => break,
            };
            let next = match self.first_part_of_kind(here.as_str(), kind) {
                Some(next) => next,
                None => break,
            };
            if same(next, part) || holds(&chain, next) {
                break;
            }
            proof {
                lemma_step_is_target(g, here@);
            }
            let ghost before = names(chain@);
            chain.push(owned(next));
            here = owned(next);
            proof {
                let c = names(chain@);
                assert(c =~= before.push(next@));
                assert forall|i: int| 0 <= i < c.len() implies next_of(g, #[trigger] walk_from(part@, c, i)) == Some(c[i]) by {
                    if i < before.len() {
                        assert(walk_from(part@, c, i) == walk_from(part@, before, i));
                    }
                }
                assert forall|i: int| 0 <= i < c.len() implies all_targets(g).contains(#[trigger] c[i]) by {
                    if i < before.len() {
                        assert(c[i] == before[i]);
                    }
                }
                lemma_walk_bounded(g, c);
            }
        }
        chain
    }

    /// `part` followed by everything it inherits from.
    pub fn inheritance_chain(&self, part: &str) -> (r: Vec<String>)
        ensures
            r@.len() >= 1,
            r@[0]@ == part@,
            is_walk(self@, part@, names(r@).drop_first()),
    {
        let mut chain: Vec<String> = Vec::new();
        chain.push(owned(part));
        let rest = self.ancestors(part);
        let mut i: usize = 0;
        while i < rest.len()
            invariant
                i <= rest@.len(),
                chain@.len() == i + 1,
                chain@[0]@ == part@,
                names(chain@).drop_first() == names(rest@).take(i as int),
            decreases rest@.len() - i,
        {
            let ghost before = chain@;
            chain.push(rest[i].clone());
            assert(names(chain@).drop_first() =~= names(rest@).take(i + 1));
            i += 1;
        }
        assert(names(rest@).take(i as int) =~= names(rest@));
        chain
    }
}

// ------------------------------------------------------------------ by role

/// Whether names are in strictly increasing order.
pub open spec fn strictly_sorted(s: Seq<Seq<char>>) -> bool {
    forall|i: int, j: int| 0 <= i < j < s.len() ==> lex_lt(#[trigger] s[i], #[trigger] s[j])
}

/// Whether the graph reaches `part` as `role`; no part is listed as `Other`.
pub open spec fn has_role(g: Seq<PartView>, role: Role, part: Seq<char>) -> bool {
    role != Role::Other && role_in(g, part) == role
}

proof fn lemma_role_among_reaches(items: Seq<RelationshipView>, part: Seq<char>)
    ensures
        role_among(items, part) != Role::Other ==> targets(items).contains(part),
    decreases items.len(),
{
    if items.len() > 0 {
        lemma_role_among_reaches(items.drop_last(), part);
        let t = targets(items);
        if role_among(items.drop_last(), part) != Role::Other {
            let k = choose|k: int| 0 <= k < targets(items.drop_last()).len() && #[trigger] targets(items.drop_last())[k] == part;
            assert(t[k] == part);
        } else if role_among(items, part) != Role::Other {
            assert(t[items.len() - 1] == part);
        }
    }
}

proof fn lemma_role_in_reaches(g: Seq<PartView>, part: Seq<char>)
    ensures
        role_in(g, part) != Role::Other ==> all_targets(g).contains(part),
    decreases g.len(),
{
    if g.len() > 0 {
        lemma_role_in_reaches(g.drop_last(), part);
        lemma_role_among_reaches(g.last().items, part);
        let a = all_targets(g.drop_last());
        let b = targets(g.last().items);
        if role_in(g.drop_last(), part) != Role::Other {
            let k = choose|k: int| 0 <= k < a.len() && #[trigger] a[k] == part;
            assert((a + b)[k] == part);
        } else if role_in(g, part) != Role::Other {
            let k = choose|k: int| 0 <= k < b.len() && #[trigger] b[k] == part;
            assert((a + b)[a.len() + k] == part);
        }
    }
}

proof fn lemma_contains_push(s: Seq<Seq<char>>, t: Seq<char>, n: Seq<char>)
    ensures
        s.push(t).contains(n) <==> (s.contains(n) || n == t),
{
    if s.push(t).contains(n) {
        let i = choose|i: int| 0 <= i < s.push(t).len() && s.push(t)[i] == n;
        if i < s.len() {
            assert(s[i] == n);
        }
    }
    if s.contains(n) {
        let i = choose|i: int| 0 <= i < s.len() && s[i] == n;
        assert(s.push(t)[i] == n);
    }
    if n == t {
        assert(s.push(t)[s.len() as int] == n);
    }
}

/// Insert a name into a strictly sorted list unless it is already there.
fn insert_sorted<'a>(list: &mut Vec<&'a str>, name: &'a str)
    requires
        strictly_sorted(names_of(old(list)@)),
    ensures
        strictly_sorted(names_of(final(list)@)),
        forall|n: Seq<char>| names_of(final(list)@).contains(n) <==> (names_of(old(list)@).contains(n) || n == name@),
{
    let want = chars_of(name);
    let mut k: usize = 0;
    while k < list.len()
        invariant
            k <= list@.len(),
            list@ == old(list)@,
            want@ == name@,
            forall|i: int| 0 <= i < k ==> lex_lt(#[trigger] names_of(list@)[i], name@),
        ensures
            k <= list@.len(),
            list@ == old(list)@,
            forall|i: int| 0 <= i < k ==> lex_lt(#[trigger] names_of(list@)[i], name@),
            k < list@.len() ==> !lex_lt(names_of(list@)[k as int], name@),
        decreases list@.len() - k,
    {
        if !lex_less(&chars_of(list[k]), &want) {
            break;
        }
        k += 1;
    }
    let ghost old_names = names_of(list@);
    if k < list.len() && chars_eq(&chars_of(list[k]), &want) {
        assert(old_names[k as int] == name@);
        proof {
            assert forall|n: Seq<char>| old_names.contains(n) <==> (old_names.contains(n) || n == name@) by {
                if n == name@ {
                    assert(old_names[k as int] == n);
                }
            }
        }
        return;
    }
    proof {
        if k < old_names.len() {
            assert(old_names[k as int] != name@);
            lemma_lex_total(old_names[k as int], name@);
            assert(lex_lt(name@, old_names[k as int]));
        }
    }
    list.insert(k, name);
    proof {
        let nn = names_of(list@);
        assert(nn =~= old_names.insert(k as int, name@));
        assert forall|i: int, j: int| 0 <= i < j < nn.len() implies lex_lt(#[trigger] nn[i], #[trigger] nn[j]) by {
            if j < k {
                assert(nn[i] == old_names[i] && nn[j] == old_names[j]);
            } else if j == k {
                assert(nn[i] == old_names[i]);
            } else {
                assert(nn[j] == old_names[j - 1]);
                assert(lex_lt(name@, old_names[j - 1])) by {
                    if j - 1 > k {
                        assert(lex_lt(old_names[k as int], old_names[j - 1]));
                        lemma_lex_transitive(name@, old_names[k as int], old_names[j - 1]);
                    }
                }
                if i < k {
                    assert(nn[i] == old_names[i]);
                    lemma_lex_transitive(nn[i], name@, nn[j]);
                } else if i > k {
                    assert(nn[i] == old_names[i - 1]);
                }
            }
        }
        assert forall|n: Seq<char>| nn.contains(n) <==> (old_names.contains(n) || n == name@) by {
            if nn.contains(n) {
                let i = choose|i: int| 0 <= i < nn.len() && nn[i] == n;
                if i < k {
                    assert(old_names[i] == n);
                } else if i > k {
                    assert(old_names[i - 1] == n);
                }
            }
            if old_names.contains(n) {
                let i = choose|i: int| 0 <= i < old_names.len() && old_names[i] == n;
                if i < k {
                    assert(nn[i] == n);
                } else {
                    assert(nn[i + 1] == n);
                }
            }
            if n == name@ {
                assert(nn[k as int] == n);
            }
        }
    }
}

impl RelationshipGraph {
    /// Every part with one role, in name order.
    pub fn parts_with_role(&self, role: Role) -> (r: Vec<&str>)
        ensures
            strictly_sorted(names_of(r@)),
            forall|n: Seq<char>| names_of(r@).contains(n) <==> has_role(self@, role, n),
    {
        let mut found: Vec<&str> = Vec::new();
        if role == Role::Other {
            return found;
        }
        let ghost g = self@;
        let ghost mut seen: Seq<Seq<char>> = seq![];
        let mut i: usize = 0;
        assert(g.take(0) =~= Seq::<PartView>::empty());
        while i < self.by_source.len()
            invariant
                i <= self.by_source@.len(),
                g == self@,
                g == part_views(self.by_source@),
                role != Role::Other,
                seen == all_targets(g.take(i as int)),
                strictly_sorted(names_of(found@)),
                forall|n: Seq<char>| names_of(found@).contains(n) <==> (seen.contains(n) && has_role(g, role, n)),
            decreases self.by_source@.len() - i,
        {
            let rels = &self.by_source[i];
            let ghost tj = targets(views_of(rels.items@));
            let ghost before = seen;
            let mut j: usize = 0;
            assert(before + tj.take(0) =~= before);
            while j < rels.items.len()
                invariant
                    j <= rels.items@.len(),
                    g == self@,
                    role != Role::Other,
                    tj == targets(views_of(rels.items@)),
                    seen == before + tj.take(j as int),
                    strictly_sorted(names_of(found@)),
                    forall|n: Seq<char>| names_of(found@).contains(n) <==> (seen.contains(n) && has_role(g, role, n)),
                decreases rels.items@.len() - j,
            {
                let item = &rels.items[j];
                assert(tj[j as int] == item@.target);
                let name: &str = match item.target() {
                    Target::Part(name) => name.as_str(),
                    Target::External(uri) => uri.as_str(),
                };
                let ghost old_seen = seen;
                proof {
                    seen = seen.push(name@);
                    assert(seen =~= before + tj.take(j + 1));
                }
                if self.role_of(name) == role {
                    let ghost old_found = names_of(found@);
                    insert_sorted(&mut found, name);
                    proof {
                        assert forall|n: Seq<char>| names_of(found@).contains(n) <==> (seen.contains(n) && has_role(g, role, n)) by {
                            lemma_contains_push(old_seen, name@, n);
                        }
                    }
                } else {
                    proof {
                        assert forall|n: Seq<char>| names_of(found@).contains(n) <==> (seen.contains(n) && has_role(g, role, n)) by {
                            lemma_contains_push(old_seen, name@, n);
                        }
                    }
                }
                j += 1;
            }
            assert(tj.take(j as int) =~= tj);
            assert(g.take(i + 1).drop_last() =~= g.take(i as int));
            assert(g.take(i + 1).last() == rels@);
            assert(seen == all_targets(g.take(i + 1)));
            i += 1;
        }
        assert(g.take(i as int) =~= g);
        assert(seen == all_targets(g));
        proof {
            assert forall|n: Seq<char>| names_of(found@).contains(n) <==> has_role(g, role, n) by {
                lemma_role_in_reaches(g, n);
                assert(names_of(found@).contains(n) <==> (seen.contains(n) && has_role(g, role, n)));
                if has_role(g, role, n) {
                    assert(role_in(g, n) != Role::Other);
                    assert(all_targets(g).contains(n));
                    assert(seen.contains(n));
                }
            }
        }
        found
    }
}

// ------------------------------------------------------------------ laws

proof fn lemma_walks_agree(g: Seq<PartView>, part: Seq<char>, a: Seq<Seq<char>>, b: Seq<Seq<char>>, i: int)
    requires
        is_walk(g, part, a),
        is_walk(g, part, b),
        0 <= i <= a.len(),
        i <= b.len(),
    ensures
        forall|k: int| 0 <= k < i ==> a[k] == b[k],
    decreases i,
{
    if i > 0 {
        lemma_walks_agree(g, part, a, b, i - 1);
        assert(walk_from(part, a, i - 1) == walk_from(part, b, i - 1));
        assert(next_of(g, walk_from(part, a, i - 1)) == Some(a[i - 1]));
        assert(next_of(g, walk_from(part, b, i - 1)) == Some(b[i - 1]));
    }
}

proof fn lemma_walk_not_longer(g: Seq<PartView>, part: Seq<char>, a: Seq<Seq<char>>, b: Seq<Seq<char>>)
    requires
        is_walk(g, part, a),
        is_walk(g, part, b),
    ensures
        b.len() <= a.len(),
{
    if a.len() < b.len() {
        let m = a.len() as int;
        lemma_walks_agree(g, part, a, b, m);
        assert(walk_from(part, a, m) == walk_from(part, b, m));
        assert(next_of(g, walk_from(part, b, m)) == Some(b[m]));
        let n = b[m];
        if n == part {
            assert(b.contains(part));
        } else {
            let k = choose|k: int| 0 <= k < a.len() && a[k] == n;
            assert(b[k] == n);
        }
    }
}

/// The walk up from a part is determined by the graph: there is exactly one
/// chain of ancestors, so [`RelationshipGraph::ancestors`] and the tail of
/// [`RelationshipGraph::inheritance_chain`] name the same parts.
pub proof fn lemma_walk_unique(g: Seq<PartView>, part: Seq<char>, a: Seq<Seq<char>>, b: Seq<Seq<char>>)
    requires
        is_walk(g, part, a),
        is_walk(g, part, b),
    ensures
        a == b,
{
    lemma_walk_not_longer(g, part, a, b);
    lemma_walk_not_longer(g, part, b, a);
    lemma_walks_agree(g, part, a, b, a.len() as int);
    assert(a =~= b);
}

proof fn lemma_role_among_least(items: Seq<RelationshipView>, part: Seq<char>)
    ensures
        forall|j: int| 0 <= j < items.len() ==> role_rank(role_among(items, part)) <= role_rank(#[trigger] edge_role(items[j], part)),
        role_among(items, part) == Role::Other || exists|j: int| 0 <= j < items.len() && #[trigger] edge_role(items[j], part) == role_among(items, part),
    decreases items.len(),
{
    if items.len() > 0 {
        let rest = items.drop_last();
        lemma_role_among_least(rest, part);
        assert forall|j: int| 0 <= j < items.len() implies role_rank(role_among(items, part)) <= role_rank(#[trigger] edge_role(items[j], part)) by {
            if j < rest.len() {
                assert(items[j] == rest[j]);
            }
        }
        if role_among(items, part) != Role::Other {
            if role_among(items, part) == edge_role(items.last(), part) {
                assert(edge_role(items[items.len() - 1], part) == role_among(items, part));
            } else {
                let j = choose|j: int| 0 <= j < rest.len() && #[trigger] edge_role(rest[j], part) == role_among(rest, part);
                assert(items[j] == rest[j]);
            }
        }
    }
}

/// A part reached more than one way takes the earliest-declared role among
/// the relationships that reach it, whatever order the graph holds them in:
/// no relationship gives it a role declared before its role, and unless its
/// role is `Other` some relationship gives it exactly that role.
pub proof fn lemma_role_is_least(g: Seq<PartView>, part: Seq<char>)
    ensures
        forall|i: int, j: int| 0 <= i < g.len() && 0 <= j < g[i].items.len()
            ==> role_rank(role_in(g, part)) <= role_rank(#[trigger] edge_role(g[i].items[j], part)),
        role_in(g, part) == Role::Other || exists|i: int, j: int| 0 <= i < g.len() && 0 <= j < g[i].items.len()
            && #[trigger] edge_role(g[i].items[j], part) == role_in(g, part),
    decreases g.len(),
{
    if g.len() > 0 {
        let rest = g.drop_last();
        lemma_role_is_least(rest, part);
        lemma_role_among_least(g.last().items, part);
        assert forall|i: int, j: int| 0 <= i < g.len() && 0 <= j < g[i].items.len()
            implies role_rank(role_in(g, part)) <= role_rank(#[trigger] edge_role(g[i].items[j], part)) by {
            if i < rest.len() {
                assert(g[i] == rest[i]);
            } else {
                assert(g[i] == g.last());
            }
        }
        if role_in(g, part) != Role::Other {
            if role_in(g, part) == role_among(g.last().items, part) {
                let j = choose|j: int| 0 <= j < g.last().items.len() && #[trigger] edge_role(g.last().items[j], part) == role_among(g.last().items, part);
                assert(g[g.len() - 1] == g.last());
                assert(edge_role(g[g.len() - 1].items[j], part) == role_in(g, part));
            } else {
                let (i, j) = choose|i: int, j: int| 0 <= i < rest.len() && 0 <= j < rest[i].items.len()
                    && #[trigger] edge_role(rest[i].items[j], part) == role_in(rest, part);
                assert(g[i] == rest[i]);
                assert(edge_role(g[i].items[j], part) == role_in(g, part));
            }
        }
    }
}

/// Whether every part of `a` is among `b`.
pub open spec fn parts_among(a: Seq<PartView>, b: Seq<PartView>) -> bool {
    forall|i: int| 0 <= i < a.len() ==> exists|k: int| 0 <= k < b.len() && #[trigger] b[k] == #[trigger] a[i]
}

proof fn lemma_without_absent(g: Seq<PartView>, q: Seq<char>)
    requires
        forall|i: int| 0 <= i < g.len() ==> (#[trigger] g[i]).source != q,
    ensures
        without_source(g, q) == g,
    decreases g.len(),
{
    if g.len() > 0 {
        let d = g.drop_last();
        assert forall|i: int| 0 <= i < d.len() implies (#[trigger] d[i]).source != q by {
            assert(d[i] == g[i]);
        }
        lemma_without_absent(d, q);
        assert(g[g.len() - 1].source != q);
        assert(d.push(g.last()) =~= g);
    }
}

proof fn lemma_filed_distinct(parts: Seq<PartView>)
    requires
        distinct_sources(parts),
    ensures
        filed(parts) == parts,
    decreases parts.len(),
{
    if parts.len() > 0 {
        let d = parts.drop_last();
        assert forall|i: int, j: int| 0 <= i < j < d.len() implies (#[trigger] d[i]).source != (#[trigger] d[j]).source by {
            assert(d[i] == parts[i] && d[j] == parts[j]);
        }
        lemma_filed_distinct(d);
        assert forall|i: int| 0 <= i < d.len() implies (#[trigger] d[i]).source != parts.last().source by {
            assert(d[i] == parts[i]);
            assert(parts[parts.len() - 1] == parts.last());
        }
        lemma_without_absent(d, parts.last().source);
        assert(d.push(parts.last()) =~= parts);
    }
}

proof fn lemma_role_bounded_by(a: Seq<PartView>, b: Seq<PartView>, part: Seq<char>)
    requires
        parts_among(b, a),
    ensures
        role_rank(role_in(a, part)) <= role_rank(role_in(b, part)),
{
    lemma_role_is_least(a, part);
    lemma_role_is_least(b, part);
    if role_in(b, part) != Role::Other {
        let (i, j) = choose|i: int, j: int| 0 <= i < b.len() && 0 <= j < b[i].items.len()
            && #[trigger] edge_role(b[i].items[j], part) == role_in(b, part);
        let k = choose|k: int| 0 <= k < a.len() && #[trigger] a[k] == #[trigger] b[i];
        assert(edge_role(a[k].items[j], part) == role_in(b, part));
    }
}

/// A part's role is independent of the order the `.rels` items were given
/// in: two graphs built from the same items, each source once, give every
/// part the same role.
pub proof fn lemma_role_order_independent(parts: Seq<PartView>, others: Seq<PartView>, part: Seq<char>)
    requires
        distinct_sources(parts),
        distinct_sources(others),
        parts_among(parts, others),
        parts_among(others, parts),
    ensures
        role_in(filed(parts), part) == role_in(filed(others), part),
{
    assert(filed(parts) == parts) by {
        lemma_filed_distinct(parts);
    }
    assert(filed(others) == others) by {
        lemma_filed_distinct(others);
    }
    let a = role_in(parts, part);
    let b = role_in(others, part);
    assert(role_rank(a) <= role_rank(b)) by {
        lemma_role_bounded_by(parts, others, part);
    }
    assert(role_rank(b) <= role_rank(a)) by {
        lemma_role_bounded_by(others, parts, part);
    }
    lemma_rank_injective(a, b);
}

proof fn lemma_rank_injective(a: Role, b: Role)
    requires
        role_rank(a) == role_rank(b),
    ensures
        a == b,
{
}

proof fn lemma_lookup_without(g: Seq<PartView>, q: Seq<char>, p: Seq<char>)
    ensures
        lookup(without_source(g, q), p) == (if p == q { None } else { lookup(g, p) }),
    decreases g.len(),
{
    if g.len() > 0 {
        lemma_lookup_without(g.drop_last(), q, p);
        let rest = without_source(g.drop_last(), q);
        assert(rest.push(g.last()).drop_last() =~= rest);
    }
}

/// Filing parts keeps, for each source, the last part given for it.
pub proof fn lemma_filed_keeps_last(parts: Seq<PartView>, p: Seq<char>)
    ensures
        lookup(filed(parts), p) == lookup(parts, p),
    decreases parts.len(),
{
    if parts.len() > 0 {
        lemma_filed_keeps_last(parts.drop_last(), p);
        let kept = without_source(filed(parts.drop_last()), parts.last().source);
        lemma_lookup_without(filed(parts.drop_last()), parts.last().source, p);
        assert(kept.push(parts.last()).drop_last() =~= kept);
    }
}

// ------------------------------------------------------------------ named ancestors

/// The first part of a chain the graph reaches as `role`.
pub open spec fn first_with_role(g: Seq<PartView>, chain: Seq<Seq<char>>, role: Role) -> Option<Seq<char>>
    decreases chain.len(),
{
    if chain.len() == 0 {
        None
    } else if role_in(g, chain[0]) == role {
        Some(chain[0])
    } else {
        first_with_role(g, chain.drop_first(), role)
    }
}

/// The first ancestor of `part` the graph reaches as `role`, whatever walk
/// is taken (there is only one).
pub open spec fn ancestor_role_is(g: Seq<PartView>, part: Seq<char>, role: Role, r: Option<String>) -> bool {
    forall|c: Seq<Seq<char>>| #[trigger] is_walk(g, part, c) ==> first_with_role(g, c, role) == match r {
        Some(name) => Some(name@),
        None => None,
    }
}

impl RelationshipGraph {
    fn ancestor_with_role(&self, part: &str, role: Role) -> (r: Option<String>)
        ensures
            ancestor_role_is(self@, part@, role, r),
    {
        let chain = self.ancestors(part);
        let ghost c = names(chain@);
        let mut i: usize = 0;
        assert(c.skip(0) =~= c);
        let mut found: Option<String> = None;
        while i < chain.len()
            invariant_except_break
                found is None,
            invariant
                i <= chain@.len(),
                c == names(chain@),
                first_with_role(self@, c, role) == first_with_role(self@, c.skip(i as int), role),
            ensures
                found matches Some(n) ==> first_with_role(self@, c, role) == Some(n@),
                found is None ==> first_with_role(self@, c, role) is None,
            decreases chain@.len() - i,
        {
            assert(c.skip(i as int)[0] == chain@[i as int]@);
            assert(c.skip(i as int).drop_first() =~= c.skip(i + 1));
            if self.role_of(chain[i].as_str()) == role {
                found = Some(chain[i].clone());
                break;
            }
            i += 1;
        }
        proof {
            assert forall|w: Seq<Seq<char>>| #[trigger] is_walk(self@, part@, w) implies first_with_role(self@, w, role) == match found {
                Some(name) => Some(name@),
                None => None,
            } by {
                lemma_walk_unique(self@, part@, c, w);
            }
        }
        found
    }

    /// The slide layout in this part's chain.
    pub fn layout_of(&self, part: &str) -> (r: Option<String>)
        ensures
            ancestor_role_is(self@, part@, Role::SlideLayout, r),
    {
        self.ancestor_with_role(part, Role::SlideLayout)
    }

    /// The master in this part's chain — a slide master, or the notes master
    /// behind a notes slide.
    pub fn master_of(&self, part: &str) -> (r: Option<String>)
        ensures
            r is Some ==> (ancestor_role_is(self@, part@, Role::SlideMaster, r)
                || (ancestor_role_is(self@, part@, Role::SlideMaster, None) && ancestor_role_is(self@, part@, Role::NotesMaster, r))),
            r is None ==> ancestor_role_is(self@, part@, Role::SlideMaster, None) && ancestor_role_is(self@, part@, Role::NotesMaster, None),
    {
        match self.ancestor_with_role(part, Role::SlideMaster) {
            Some(master) => Some(master),
            None => self.ancestor_with_role(part, Role::NotesMaster),
        }
    }

    /// The theme at the top of this part's chain.
    pub fn theme_of(&self, part: &str) -> (r: Option<String>)
        ensures
            ancestor_role_is(self@, part@, Role::Theme, r),
    {
        self.ancestor_with_role(part, Role::Theme)
    }
}

} // verus!
