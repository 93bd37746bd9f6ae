//! The token stream a part is read into and written back out of.
//!
//! Reading is quick-xml's: [`read_events`] drives its pull parser and keeps
//! each event as a [`Token`] holding the event's raw text exactly as the
//! parser delivered it. Writing is the inverse framing quick-xml's writer
//! applies to each event — a start tag's content between `<` and `>`, and so
//! on — which is short enough to state and is stated here, so that "a token
//! nobody touched is written back as it was read" is a property of the code
//! rather than a hope.
use vstd::prelude::*;
use crate::error::Error;
use crate::strs::{chars_of, push_all, string_of};
use quick_xml::events::{BytesStart, BytesText, Event};
use quick_xml::{Reader, XmlVersion};

verus! {

/// What kind of event a token is.
#[derive(Debug, Clone, Copy, PartialEq, Eq, Structural)]
pub enum Kind {
    /// `<name attrs>`.
    Start,
    /// `</name>`.
    End,
    /// `<name attrs/>`.
    Empty,
    /// Escaped character data.
    Text,
    /// `<![CDATA[...]]>`.
    CData,
    /// `<!--...-->`.
    Comment,
    /// `<?xml ...?>`.
    Decl,
    /// `<?target ...?>`.
    PI,
    /// `<!DOCTYPE ...>`.
    DocType,
    /// `&name;` or `&#n;` inside text.
    GeneralRef,
}

/// One event of a part, with its raw text: for a tag, everything between the
/// delimiters; for text, the still-escaped characters.
#[derive(Debug)]
pub struct Token {
    pub kind: Kind,
    pub text: String,
}

impl Clone for Token {
    fn clone(&self) -> (r: Self)
        ensures
            r == *self,
    {
        Token { kind: self.kind, text: self.text.clone() }
    }
}

/// A token as its kind and the characters of its text.
pub open spec fn tview(t: Token) -> (Kind, Seq<char>) {
    (t.kind, t.text@)
}

/// A token stream as kinds and characters.
pub open spec fn tviews(s: Seq<Token>) -> Seq<(Kind, Seq<char>)> {
    s.map_values(|t: Token| tview(t))
}

/// Whether a character is XML whitespace, as quick-xml splits a tag's name
/// from its attributes.
pub open spec fn is_xml_space(c: char) -> bool {
    c == ' ' || c == '\t' || c == '\r' || c == '\n'
}

/// The length of the element name at the start of a tag's content: the
/// characters before its first XML whitespace.
pub open spec fn name_len(content: Seq<char>) -> nat
    decreases content.len(),
{
    if content.len() == 0 || is_xml_space(content[0]) {
        0
    } else {
        1 + name_len(content.drop_first())
    }
}

pub proof fn lemma_name_len(content: Seq<char>)
    ensures
        name_len(content) <= content.len(),
        forall|j: int| 0 <= j < name_len(content) ==> !is_xml_space(#[trigger] content[j]),
        name_len(content) < content.len() ==> is_xml_space(content[name_len(content) as int]),
    decreases content.len(),
{
    if content.len() > 0 && !is_xml_space(content[0]) {
        lemma_name_len(content.drop_first());
        assert forall|j: int| 0 <= j < name_len(content) implies !is_xml_space(#[trigger] content[j]) by {
            if j > 0 {
                assert(content[j] == content.drop_first()[j - 1]);
            }
        }
    }
}

/// The element name a tag's content begins with.
pub open spec fn tag_name(content: Seq<char>) -> Seq<char> {
    content.take(name_len(content) as int)
}

/// The element a token opens or closes: the name of a start, empty or end
/// tag, and nothing for any other event.
pub open spec fn element_name(t: Token) -> Option<Seq<char>> {
    match t.kind {
        Kind::Start | Kind::Empty => Some(tag_name(t.text@)),
        Kind::End => Some(t.text@),
        _ => None,
    }
}

/// The name a start or empty tag opens, as `name_of` reports it.
pub open spec fn opened_name(t: Token) -> Option<Seq<char>> {
    match t.kind {
        Kind::Start | Kind::Empty => Some(tag_name(t.text@)),
        _ => None,
    }
}

/// How many characters of `content` the element name takes.
pub fn tag_name_len(content: &[char]) -> (n: usize)
    ensures
        n == name_len(content@),
{
    let mut i: usize = 0;
    assert(content@.skip(0) =~= content@);
    while i < content.len() && !(content[i] == ' ' || content[i] == '\t' || content[i] == '\r'
        || content[i] == '\n')
        invariant
            i <= content@.len(),
            name_len(content@) == i + name_len(content@.skip(i as int)),
        decreases content@.len() - i,
    {
        assert(content@.skip(i as int).drop_first() =~= content@.skip(i + 1));
        i += 1;
    }
    i
}

/// The element name at the start of a tag's content.
pub fn tag_name_of(content: &str) -> (r: Vec<char>)
    ensures
        r@ == tag_name(content@),
{
    let c = chars_of(content);
    let n = tag_name_len(&c);
    proof {
        lemma_name_len(c@);
    }
    crate::strs::slice_chars(&c, 0, n)
}

/// The element a start or empty token opens.
pub fn name_of(t: &Token) -> (r: Option<Vec<char>>)
    ensures
        r matches Some(n) ==> opened_name(*t) == Some(n@),
        r is None ==> opened_name(*t) is None,
{
    match t.kind {
        Kind::Start | Kind::Empty => Some(tag_name_of(t.text.as_str())),
        _ => None,
    }
}

/// Whether a token opens or closes (per `kind`) an element named `name`.
pub fn is_tag(t: &Token, kind: Kind, name: &[char]) -> (r: bool)
    ensures
        r == (t.kind == kind && element_name(*t) == Some(name@)),
{
    if t.kind != kind {
        return false;
    }
    match t.kind {
        Kind::Start | Kind::Empty => {
            let n = tag_name_of(t.text.as_str());
            crate::strs::chars_eq(&n, name)
        },
        Kind::End => {
            let n = chars_of(t.text.as_str());
            crate::strs::chars_eq(&n, name)
        },
        _ => false,
    }
}

// ------------------------------------------------------------------ writing

/// `<`, `>` and the other delimiters quick-xml's writer frames each event in.
pub open spec fn open_delim(kind: Kind) -> Seq<char> {
    match kind {
        Kind::Start | Kind::Empty => seq!['<'],
        Kind::End => seq!['<', '/'],
        Kind::Text => seq![],
        Kind::CData => seq!['<', '!', '[', 'C', 'D', 'A', 'T', 'A', '['],
        Kind::Comment => seq!['<', '!', '-', '-'],
        Kind::Decl | Kind::PI => seq!['<', '?'],
        Kind::DocType => seq!['<', '!', 'D', 'O', 'C', 'T', 'Y', 'P', 'E', ' '],
        Kind::GeneralRef => seq!['&'],
    }
}

pub open spec fn close_delim(kind: Kind) -> Seq<char> {
    match kind {
        Kind::Start | Kind::End | Kind::DocType => seq!['>'],
        Kind::Empty => seq!['/', '>'],
        Kind::Text => seq![],
        Kind::CData => seq![']', ']', '>'],
        Kind::Comment => seq!['-', '-', '>'],
        Kind::Decl | Kind::PI => seq!['?', '>'],
        Kind::GeneralRef => seq![';'],
    }
}

/// One token as it appears in a part.
pub open spec fn serialized(t: Token) -> Seq<char> {
    open_delim(t.kind) + t.text@ + close_delim(t.kind)
}

/// A token stream as it appears in a part.
pub open spec fn serialized_all(ts: Seq<Token>) -> Seq<char>
    decreases ts.len(),
{
    if ts.len() == 0 {
        seq![]
    } else {
        serialized_all(ts.drop_last()) + serialized(ts.last())
    }
}

fn open_delim_exec(kind: Kind) -> (r: Vec<char>)
    ensures
        r@ == open_delim(kind),
{
    let r = match kind {
        Kind::Start | Kind::Empty => vec!['<'],
        Kind::End => vec!['<', '/'],
        Kind::Text => vec![],
        Kind::CData => vec!['<', '!', '[', 'C', 'D', 'A', 'T', 'A', '['],
        Kind::Comment => vec!['<', '!', '-', '-'],
        Kind::Decl | Kind::PI => vec!['<', '?'],
        Kind::DocType => vec!['<', '!', 'D', 'O', 'C', 'T', 'Y', 'P', 'E', ' '],
        Kind::GeneralRef => vec!['&'],
    };
    assert(r@ =~= open_delim(kind));
    r
}

fn close_delim_exec(kind: Kind) -> (r: Vec<char>)
    ensures
        r@ == close_delim(kind),
{
    let r = match kind {
        Kind::Start | Kind::End | Kind::DocType => vec!['>'],
        Kind::Empty => vec!['/', '>'],
        Kind::Text => vec![],
        Kind::CData => vec![']', ']', '>'],
        Kind::Comment => vec!['-', '-', '>'],
        Kind::Decl | Kind::PI => vec!['?', '>'],
        Kind::GeneralRef => vec![';'],
    };
    assert(r@ =~= close_delim(kind));
    r
}

/// Write an event stream back out as a part.
///
/// Every token is framed exactly as quick-xml's writer frames the event it
/// came from, and nothing is added between tokens.
pub fn write_events(part: &str, events: &[Token]) -> (r: Result<String, Error>)
    ensures
        r matches Ok(s) && s@ == serialized_all(events@),
{
    let mut out: Vec<char> = Vec::new();
    let mut i: usize = 0;
    while i < events.len()
        invariant
            i <= events@.len(),
            out@ == serialized_all(events@.take(i as int)),
        decreases events@.len() - i,
    {
        let t = &events[i];
        push_all(&mut out, &open_delim_exec(t.kind));
        push_all(&mut out, &chars_of(t.text.as_str()));
        push_all(&mut out, &close_delim_exec(t.kind));
        assert(events@.take(i + 1).drop_last() =~= events@.take(i as int));
        i += 1;
    }
    assert(events@.take(events@.len() as int) =~= events@);
    Ok(string_of(&out))
}


// ------------------------------------------------------------------ escaping

/// What quick-xml's `escape` writes for one character.
pub open spec fn escape_char(c: char) -> Seq<char> {
    if c == '<' {
        seq!['&', 'l', 't', ';']
    } else if c == '>' {
        seq!['&', 'g', 't', ';']
    } else if c == '&' {
        seq!['&', 'a', 'm', 'p', ';']
    } else if c == '\'' {
        seq!['&', 'a', 'p', 'o', 's', ';']
    } else if c == '"' {
        seq!['&', 'q', 'u', 'o', 't', ';']
    } else if c == '\r' {
        seq!['&', '#', '1', '3', ';']
    } else {
        seq![c]
    }
}

/// A string escaped for XML: each character replaced as [`escape_char`] says.
pub open spec fn escaped(s: Seq<char>) -> Seq<char>
    decreases s.len(),
{
    if s.len() == 0 {
        seq![]
    } else {
        escaped(s.drop_last()) + escape_char(s.last())
    }
}

/// Escaping leaves no quote character behind, so an escaped value can stand
/// between either kind of quote.
pub proof fn lemma_escaped_has_no_quote(s: Seq<char>)
    ensures
        forall|j: int| 0 <= j < escaped(s).len() ==> escaped(s)[j] != '"' && escaped(s)[j] != '\'',
    decreases s.len(),
{
    if s.len() > 0 {
        lemma_escaped_has_no_quote(s.drop_last());
        let a = escaped(s.drop_last());
        let b = escape_char(s.last());
        assert forall|j: int| 0 <= j < escaped(s).len() implies escaped(s)[j] != '"' && escaped(s)[j]
            != '\'' by {
            if j >= a.len() {
                assert(escaped(s)[j] == b[j - a.len()]);
            } else {
                assert(escaped(s)[j] == a[j]);
            }
        }
    }
}

/// Escape a string for XML (`quick_xml::escape::escape`): `<`, `>`, `&`, `'`,
/// `"` and carriage return become references, every other character stays.
#[verifier::external_body]
pub(crate) fn escape(raw: &str) -> (r: String)
    ensures
        r@ == escaped(raw@),
{
    quick_xml::escape::escape(raw).into_owned()
}

/// What quick-xml's `unescape` makes of a string: the predefined entities and
/// character references replaced, or `None` for a reference it cannot resolve.
pub uninterp spec fn unescaped(raw: Seq<char>) -> Option<Seq<char>>;

/// Resolve entity and character references (`quick_xml::escape::unescape`).
/// A string with no `&` in it comes back unchanged.
#[verifier::external_body]
pub(crate) fn unescape(raw: &str) -> (r: Option<String>)
    ensures
        r matches Some(v) ==> unescaped(raw@) == Some(v@),
        r is None ==> unescaped(raw@) is None,
        r is Some || raw@.contains('&'),
        r matches Some(v) ==> v@ == raw@ || raw@.contains('&'),
{
    quick_xml::escape::unescape(raw).ok().map(|v| v.into_owned())
}

/// Text content with XML 1.0 end-of-line normalisation applied: each `\r\n`
/// and each lone `\r` becomes one `\n`; every other character stays.
pub open spec fn xml10_eols(raw: Seq<char>) -> Seq<char>
    decreases raw.len(),
{
    if raw.len() == 0 {
        seq![]
    } else if raw[0] == '\r' {
        if raw.len() > 1 && raw[1] == '\n' {
            seq!['\n'] + xml10_eols(raw.skip(2))
        } else {
            seq!['\n'] + xml10_eols(raw.skip(1))
        }
    } else {
        seq![raw[0]] + xml10_eols(raw.skip(1))
    }
}

/// Normalise line ends in text content (`BytesText::xml10_content`): `\r\n`
/// and a lone `\r` both become `\n`. Text with no `\r` comes back unchanged.
#[verifier::external_body]
pub(crate) fn xml10_content(raw: &str) -> (r: String)
    ensures
        r@ == xml10_eols(raw@),
        r@ == raw@ || raw@.contains('\r'),
{
    BytesText::from_escaped(raw).xml10_content().into_owned()
}

/// The attributes quick-xml parses out of a tag's content, in order, each with
/// its normalised value, or `None` for a value that does not normalise.
/// Malformed attributes are skipped, as `Iterator::flatten` skips them.
pub uninterp spec fn parsed_attributes(content: Seq<char>) -> Seq<(Seq<char>, Option<Seq<char>>)>;

pub open spec fn attribute_views(a: Seq<(String, Option<String>)>) -> Seq<(Seq<char>, Option<Seq<char>>)> {
    a.map_values(|p: (String, Option<String>)| (p.0@, match p.1 {
        Some(v) => Some(v@),
        None => None,
    }))
}

/// Parse a tag's attributes (`BytesStart::attributes`, each value through
/// `Attribute::normalized_value` for XML 1.0).
#[verifier::external_body]
pub(crate) fn attributes_of(content: &str) -> (r: Vec<(String, Option<String>)>)
    ensures
        attribute_views(r@) == parsed_attributes(content@),
{
    let tag = BytesStart::from_content(content, quick_xml::utils::name_len(content.as_bytes()));
    tag.attributes()
        .flatten()
        .map(|a| (a.key.as_ref().to_string(), a.normalized_value(XmlVersion::Implicit1_0).ok().map(|v| v.into_owned())))
        .collect()
}

/// The value of the first attribute named `name` among parsed attributes.
pub open spec fn first_value(attrs: Seq<(Seq<char>, Option<Seq<char>>)>, name: Seq<char>) -> Option<Seq<char>>
    decreases attrs.len(),
{
    if attrs.len() == 0 {
        None
    } else if attrs[0].0 == name {
        attrs[0].1
    } else {
        first_value(attrs.drop_first(), name)
    }
}

/// An attribute's normalised value, as the part scanners read it.
pub open spec fn spec_attribute(content: Seq<char>, name: Seq<char>) -> Option<Seq<char>> {
    first_value(parsed_attributes(content), name)
}

/// Read an attribute's normalised value off a start or empty tag, the way
/// every part scanner reads one: the first attribute of that name decides.
pub fn attribute(tag: &Token, name: &str) -> (r: Option<String>)
    ensures
        r matches Some(v) ==> spec_attribute(tag.text@, name@) == Some(v@),
        r is None ==> spec_attribute(tag.text@, name@) is None,
{
    let attrs = attributes_of(tag.text.as_str());
    assert(attribute_views(attrs@).skip(0) =~= attribute_views(attrs@));
    let want = chars_of(name);
    let mut i: usize = 0;
    while i < attrs.len()
        invariant
            i <= attrs@.len(),
            want@ == name@,
            spec_attribute(tag.text@, name@) == first_value(attribute_views(attrs@).skip(i as int), name@),
            attribute_views(attrs@) == parsed_attributes(tag.text@),
        decreases attrs@.len() - i,
    {
        let ghost rest = attribute_views(attrs@).skip(i as int);
        assert(rest[0] == (attrs@[i as int].0@, match attrs@[i as int].1 {
            Some(v) => Some(v@),
            None => None,
        }));
        if crate::strs::chars_eq(&chars_of(attrs[i].0.as_str()), &want) {
            return match &attrs[i].1 {
                Some(v) => Some(v.clone()),
                None => None,
            };
        }
        assert(rest.drop_first() =~= attribute_views(attrs@).skip(i + 1));
        i += 1;
    }
    None
}

// ------------------------------------------------------------------ reading

#[verifier::external_type_specification]
#[verifier::external_body]
#[verifier::reject_recursive_types(R)]
pub struct ExReader<R>(Reader<R>);

#[verifier::external_type_specification]
#[verifier::external_body]
pub struct ExEvent<'a>(Event<'a>);

/// What the read at position `n` (counting from 0) of quick-xml's pull
/// parser over `doc`, in its default configuration, delivers: the event as
/// its kind and raw text, `None` for the end of the document, or the text of
/// the parser's error. The parser is deterministic, so this depends on the
/// document and the position alone.
pub uninterp spec fn parser_token(doc: Seq<char>, n: nat) -> Result<Option<(Kind, Seq<char>)>, Seq<char>>;

/// A read's outcome as values.
pub open spec fn token_result(r: Result<Option<Token>, String>) -> Result<Option<(Kind, Seq<char>)>, Seq<char>> {
    match r {
        Ok(Some(t)) => Ok(Some(tview(t))),
        Ok(None) => Ok(None),
        Err(m) => Err(m@),
    }
}

/// A pull parser over a document, with the document it reads and how many
/// reads it has served.
struct XmlReader<'a> {
    reader: Reader<&'a [u8]>,
    doc: Ghost<Seq<char>>,
    reads: Ghost<nat>,
}

impl<'a> View for XmlReader<'a> {
    type V = (Seq<char>, nat);

    closed spec fn view(&self) -> (Seq<char>, nat) {
        (self.doc@, self.reads@)
    }
}

/// A pull parser over `xml` (`quick_xml::Reader::from_str`), with
/// quick-xml's default configuration.
#[verifier::external_body]
fn reader_for<'a>(xml: &'a str) -> Reader<&'a [u8]> {
    Reader::from_str(xml)
}

/// A parser over `xml` that has served no read yet.
fn open_reader<'a>(xml: &'a str) -> (r: XmlReader<'a>)
    ensures
        r@ == (xml@, 0nat),
{
    XmlReader { reader: reader_for(xml), doc: Ghost(xml@), reads: Ghost(0nat) }
}

/// The next read of a parser (`quick_xml::Reader::read_event`): the event as
/// a token, `None` for the end of the document, or the text of the parser's
/// error. What comes back is what the parser delivers at this position of
/// this document, and the reader has served one read more.
#[verifier::external_body]
fn next_token(reader: &mut XmlReader) -> (r: Result<Option<Token>, String>)
    ensures
        token_result(r) == parser_token(old(reader)@.0, old(reader)@.1),
        final(reader)@ == (old(reader)@.0, old(reader)@.1 + 1),
{
    let event = match reader.reader.read_event() {
        Ok(event) => event,
        Err(e) => return Err(e.to_string()),
    };
    match kind_of(&event) {
        Some(kind) => Ok(Some(Token { kind, text: text_of(&event) })),
        None => Ok(None),
    }
}

/// Which variant an event is, `None` for the end of the document.
#[verifier::external_body]
fn kind_of(event: &Event) -> Option<Kind> {
    match event {
        Event::Start(_) => Some(Kind::Start),
        Event::End(_) => Some(Kind::End),
        Event::Empty(_) => Some(Kind::Empty),
        Event::Text(_) => Some(Kind::Text),
        Event::CData(_) => Some(Kind::CData),
        Event::Comment(_) => Some(Kind::Comment),
        Event::Decl(_) => Some(Kind::Decl),
        Event::PI(_) => Some(Kind::PI),
        Event::DocType(_) => Some(Kind::DocType),
        Event::GeneralRef(_) => Some(Kind::GeneralRef),
        Event::Eof => None,
    }
}

/// An event's raw text (`<Event as Deref>::deref`): what lies between its
/// delimiters, exactly as the parser found it.
#[verifier::external_body]
fn text_of(event: &Event) -> String {
    event.to_string()
}

/// How many reads a document of `doc`'s UTF-8 length can take before its
/// end: the parser consumes at least one byte for every event it reports.
pub open spec fn read_bound(doc: Seq<char>) -> nat {
    (vstd::utf8::encode_utf8(doc).len() as usize) as nat
}

/// Why reading stopped when the parser never reported the end.
pub open spec fn unfinished() -> Seq<char> {
    "the parser did not reach the end of the document"@
}

/// A read's tokens with more put in front of them; an error stays as it is.
pub open spec fn prefixed(p: Seq<(Kind, Seq<char>)>, r: Result<Seq<(Kind, Seq<char>)>, Seq<char>>) -> Result<Seq<(Kind, Seq<char>)>, Seq<char>> {
    match r {
        Ok(s) => Ok(p + s),
        Err(m) => Err(m),
    }
}

/// What reading from position `n` on gives: the tokens up to the end of the
/// document, or the first error; past `bound` the read gives up.
pub open spec fn tokens_from(doc: Seq<char>, bound: nat, n: nat) -> Result<Seq<(Kind, Seq<char>)>, Seq<char>>
    decreases bound + 1 - n,
{
    if n > bound {
        Err(unfinished())
    } else {
        match parser_token(doc, n) {
            Err(m) => Err(m),
            Ok(None) => Ok(seq![]),
            Ok(Some(t)) => prefixed(seq![t], tokens_from(doc, bound, n + 1)),
        }
    }
}

/// The tokens a document reads as, or the first error the parser reports.
pub open spec fn document_tokens(doc: Seq<char>) -> Result<Seq<(Kind, Seq<char>)>, Seq<char>> {
    tokens_from(doc, read_bound(doc), 0)
}

/// The tokens a document reads as up to its end or the parser's first
/// error, whichever comes first.
pub open spec fn tokens_before_failure(doc: Seq<char>, bound: nat, n: nat) -> Seq<(Kind, Seq<char>)>
    decreases bound + 1 - n,
{
    if n > bound {
        seq![]
    } else {
        match parser_token(doc, n) {
            Ok(Some(t)) => seq![t] + tokens_before_failure(doc, bound, n + 1),
            _ => seq![],
        }
    }
}

/// The name of the first element a document opens, read from position `n`
/// on: `None` when the document ends, or the parser fails, first.
pub open spec fn first_opened_from(doc: Seq<char>, bound: nat, n: nat) -> Option<Seq<char>>
    decreases bound + 1 - n,
{
    if n > bound {
        None
    } else {
        match parser_token(doc, n) {
            Ok(Some(t)) => if t.0 == Kind::Start || t.0 == Kind::Empty {
                Some(tag_name(t.1))
            } else {
                first_opened_from(doc, bound, n + 1)
            },
            _ => None,
        }
    }
}

/// The name of the first element a document opens.
pub open spec fn document_element(doc: Seq<char>) -> Option<Seq<char>> {
    first_opened_from(doc, read_bound(doc), 0)
}

/// Whether `ts` is the token stream the document `xml` reads as.
pub open spec fn reads_as(xml: Seq<char>, ts: Seq<Token>) -> bool {
    document_tokens(xml) == Ok::<Seq<(Kind, Seq<char>)>, Seq<char>>(tviews(ts))
}

/// Whether `e` is the error reading `xml` as part `part` gives: the part's
/// name and the parser's first error.
pub open spec fn read_failure(part: Seq<char>, xml: Seq<char>, e: Error) -> bool {
    e is Format && (document_tokens(xml) matches Err(m) && e->Format_0@ == part_error(part, m))
}

/// The tokens a document reads as up to the parser's first error.
pub open spec fn lenient_tokens(xml: Seq<char>) -> Seq<(Kind, Seq<char>)> {
    tokens_before_failure(xml, read_bound(xml), 0)
}

/// A parser error's message, prefixed with the part it came from.
pub open spec fn part_error(part: Seq<char>, message: Seq<char>) -> Seq<char> {
    part + ": "@ + message
}

/// Prefix a parser error with the part it came from.
fn format_error(part: &str, message: String) -> (r: Error)
    ensures
        r is Format,
        r->Format_0@ == part_error(part@, message@),
{
    let mut s = String::from_str(part);
    s.append(": ");
    s.append(message.as_str());
    Error::Format(s)
}

proof fn lemma_prefixed_push(p: Seq<(Kind, Seq<char>)>, t: (Kind, Seq<char>), r: Result<Seq<(Kind, Seq<char>)>, Seq<char>>)
    ensures
        prefixed(p, prefixed(seq![t], r)) == prefixed(p.push(t), r),
{
    if let Ok(s) = r {
        assert(p + (seq![t] + s) =~= p.push(t) + s);
    }
}

/// Read a part into an owned event stream, up to the end of the document.
///
/// The tokens are what quick-xml's parser delivered; no end-of-document
/// marker is among them. The parser consumes at least one byte for every
/// event it reports, so the document ends within one read more than it has
/// bytes; the loop is bounded by that count.
pub fn read_events(part: &str, xml: &str) -> (r: Result<Vec<Token>, Error>)
    ensures
        r matches Ok(ev) ==> document_tokens(xml@) == Ok::<Seq<(Kind, Seq<char>)>, Seq<char>>(tviews(ev@)),
        r matches Err(e) ==> e is Format && (document_tokens(xml@) matches Err(m) && e->Format_0@ == part_error(part@, m)),
        r is Ok <==> document_tokens(xml@) is Ok,
{
    let mut reader = open_reader(xml);
    let mut events: Vec<Token> = Vec::new();
    let bound = xml.len();
    let ghost doc = xml@;
    let mut reads: usize = 0;
    assert(prefixed(tviews(events@), tokens_from(doc, bound as nat, 0)) == tokens_from(doc, bound as nat, 0)) by {
        if let Ok(s) = tokens_from(doc, bound as nat, 0) {
            assert(tviews(events@) + s =~= s);
        }
    }
    loop
        invariant
            reads <= bound,
            doc == xml@,
            bound as nat == read_bound(doc),
            reader@ == (doc, reads as nat),
            document_tokens(doc) == prefixed(tviews(events@), tokens_from(doc, bound as nat, reads as nat)),
        decreases bound - reads,
    {
        let next = next_token(&mut reader);
        match next {
            Err(message) => {
                return Err(format_error(part, message));
            },
            Ok(None) => {
                assert(tviews(events@) + seq![] =~= tviews(events@));
                return Ok(events);
            },
            Ok(Some(t)) => {
                let ghost before = events@;
                proof {
                    lemma_prefixed_push(tviews(before), tview(t), tokens_from(doc, bound as nat, (reads + 1) as nat));
                }
                events.push(t);
                assert(tviews(events@) =~= tviews(before).push(tview(t)));
            },
        }
        if reads == bound {
            return Err(format_error(part, String::from_str("the parser did not reach the end of the document")));
        }
        reads += 1;
    }
}

/// The name of the first element a document opens, read no further than
/// that: `None` when the document ends, or the parser fails, before any
/// element opens.
pub(crate) fn first_element(xml: &str) -> (r: Option<Vec<char>>)
    ensures
        r matches Some(n) ==> document_element(xml@) == Some(n@),
        r is None ==> document_element(xml@) is None,
{
    let mut reader = open_reader(xml);
    let bound = xml.len();
    let ghost doc = xml@;
    let mut reads: usize = 0;
    loop
        invariant
            reads <= bound,
            doc == xml@,
            bound as nat == read_bound(doc),
            reader@ == (doc, reads as nat),
            document_element(doc) == first_opened_from(doc, bound as nat, reads as nat),
        decreases bound - reads,
    {
        let next = next_token(&mut reader);
        match next {
            Ok(Some(t)) => {
                if t.kind == Kind::Start || t.kind == Kind::Empty {
                    return Some(tag_name_of(t.text.as_str()));
                }
            },
            _ => {
                return None;
            },
        }
        if reads == bound {
            assert(first_opened_from(doc, bound as nat, (reads + 1) as nat) is None);
            return None;
        }
        reads += 1;
    }
}

/// What a text event contributes to the text it is part of: its content
/// with line ends normalised and references resolved, or as it stands when a
/// reference does not resolve.
pub open spec fn decoded_text(raw: Seq<char>) -> Seq<char> {
    let r = xml10_eols(raw);
    match unescaped(r) {
        Some(u) => u,
        None => r,
    }
}

/// What a character or entity reference contributes to the text it is part
/// of: the character it resolves to, or the reference as written.
pub open spec fn decoded_reference(raw: Seq<char>) -> Seq<char> {
    let full = seq!['&'] + raw + seq![';'];
    match unescaped(full) {
        Some(u) => u,
        None => full,
    }
}

pub fn decode_text(raw: &str) -> (r: Vec<char>)
    ensures
        r@ == decoded_text(raw@),
{
    let r = xml10_content(raw);
    match unescape(r.as_str()) {
        Some(u) => chars_of(u.as_str()),
        None => chars_of(r.as_str()),
    }
}

pub fn decode_reference(raw: &str) -> (r: Vec<char>)
    ensures
        r@ == decoded_reference(raw@),
{
    let mut full: Vec<char> = Vec::new();
    full.push('&');
    push_all(&mut full, &chars_of(raw));
    full.push(';');
    assert(full@ =~= seq!['&'] + raw@ + seq![';']);
    let written = string_of(&full);
    match unescape(written.as_str()) {
        Some(u) => chars_of(u.as_str()),
        None => full,
    }
}

/// Read a part into an owned event stream up to the end of the document or
/// the first event the parser rejects, whichever comes first: the readers of
/// optional workbook parts take what they can and leave the rest.
pub fn read_events_lenient(xml: &str) -> (r: Vec<Token>)
    ensures
        tviews(r@) == tokens_before_failure(xml@, read_bound(xml@), 0),
{
    let mut reader = open_reader(xml);
    let mut events: Vec<Token> = Vec::new();
    let bound = xml.len();
    let ghost doc = xml@;
    let mut reads: usize = 0;
    assert(tviews(events@) + tokens_before_failure(doc, bound as nat, 0) =~= tokens_before_failure(doc, bound as nat, 0));
    loop
        invariant
            reads <= bound,
            doc == xml@,
            bound as nat == read_bound(doc),
            reader@ == (doc, reads as nat),
            tokens_before_failure(doc, bound as nat, 0) == tviews(events@) + tokens_before_failure(doc, bound as nat, reads as nat),
        decreases bound - reads,
    {
        let next = next_token(&mut reader);
        match next {
            Ok(Some(t)) => {
                let ghost before = events@;
                events.push(t);
                assert(tviews(events@) =~= tviews(before).push(tview(t)));
                assert(tviews(before) + (seq![tview(t)] + tokens_before_failure(doc, bound as nat, (reads + 1) as nat))
                    =~= tviews(events@) + tokens_before_failure(doc, bound as nat, (reads + 1) as nat));
            },
            _ => {
                assert(tviews(events@) + seq![] =~= tviews(events@));
                return events;
            },
        }
        if reads == bound {
            assert(tviews(events@) + seq![] =~= tviews(events@));
            return events;
        }
        reads += 1;
    }
}

} // verus!
