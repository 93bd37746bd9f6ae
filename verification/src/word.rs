//! WordprocessingML's repair vocabulary, and its numbering.
//!
//! A paragraph is `w:p`, its direction `w:pPr/w:bidi/@w:val` — always
//! written out, since an empty `w:bidi` means on — its alignment
//! `w:pPr/w:jc`, which Word reads relative to the paragraph's own direction,
//! and a table's direction `w:tblPr/w:bidiVisual`. A run's complex-script
//! language and font are `w:rPr/w:lang/@w:bidi` and `w:rPr/w:rFonts/@w:cs`.
//! Every edit is one of the token operations — find or create a child in
//! schema position, set one attribute on one tag, rewrite the text of the
//! paragraph's own runs — so every token a repair does not address comes out
//! as it went in. Paragraphs and tables are numbered as the scanner numbers
//! them: every one in the part, those inside an `mc:Fallback` excepted.
//!
//! DrawingML answers a typed bullet with `a:buChar`, an attribute on the
//! paragraph. Word has no such thing: a list is a `w:numPr` pointing into
//! `word/numbering.xml`, and a paragraph cannot carry the definition itself.
//! [`bullet_list`] finds a definition the document already stores —
//! preferring one that draws the marker the author typed — and a repair
//! points at it. A document with no bulleted list at all gets no answer,
//! because creating the numbering part, its content type and its
//! relationship is three new parts rather than an edit.
use vstd::prelude::*;
use crate::error::Error;
use crate::strs::{chars_eq, chars_of, push_char};
use crate::token::{
    direct_children, element_end, element_range, find_direct_child, get_attribute,
    lemma_element_end_bounds, opens_element, spec_direct_children, spec_find_direct_child,
    spec_get_attribute, copy_range,
};
use crate::xml::{document_tokens, read_failure, reads_as, is_tag, opened_name, read_events, serialized_all, write_events, Kind, Token, tviews, escaped};
use crate::text::{Fix, FixView, fix_views, spec_describe, Alignment, Direction};
use crate::token::{
    child_or_insert, found_or_inserted, lemma_found_child, order_view, ranges_outside, depth_before,
    depth_at, text_content_ranges_outside, remove_at_offsets_in, strip_leading_marker_in,
    spec_text_ranges, spec_runs, spec_read_content, replace_from, remove_each, sort_desc,
    without_marker, ranges_rewritten, map_ranges, read_runs, string_views, range_pairs,
    ordered_ranges, is_unicode_ws, is_whitespace, spec_remove_attribute, remove_attribute,
    ranges_counted, element_ranges_outside, splice_tokens, range_views, passthrough,
};
use crate::rewrite::{
    chained, chain_of, link, lemma_chain_start, lemma_chain_push, tag_set, set_tag, opens, is_named,
    asks_normalisation, refusal, table_refusal, only_directions, first_other, lemma_first_other,
    first_other_exec, refuse, missing_message, missing_message_exec, first_missing,
    listing, no_listing, refused_in, refused_exec, lemma_refused_in_none, only_directions_everywhere,
};
use crate::sheet::{deletions, collect_deletions};
use crate::strs::{push_all, string_of};
use crate::plan::{count, count_of, holds_no_repair, ByIndex};

verus! {

broadcast use vstd::string::group_string_axioms;

/// Indices as integers.
pub open spec fn ints(v: Seq<usize>) -> Seq<int> {
    v.map_values(|k: usize| k as int)
}

/// Every index whose token opens an element called `name`, in document order.
pub open spec fn starts_named(ev: Seq<Token>, name: Seq<char>, n: int) -> Seq<int>
    decreases n,
{
    if n <= 0 {
        seq![]
    } else if opened_name(ev[n - 1]) == Some(name) {
        starts_named(ev, name, n - 1).push(n - 1)
    } else {
        starts_named(ev, name, n - 1)
    }
}

proof fn lemma_starts_named_open(ev: Seq<Token>, name: Seq<char>, n: int)
    requires
        0 <= n <= ev.len(),
    ensures
        forall|k: int| 0 <= k < starts_named(ev, name, n).len() ==>
            opens_element(ev, #[trigger] starts_named(ev, name, n)[k]) && starts_named(ev, name, n)[k] < n,
    decreases n,
{
    if n > 0 {
        lemma_starts_named_open(ev, name, n - 1);
        let prev = starts_named(ev, name, n - 1);
        let cur = starts_named(ev, name, n);
        assert forall|k: int| 0 <= k < cur.len() implies opens_element(ev, #[trigger] cur[k]) && cur[k] < n by {
            if k < prev.len() {
                assert(cur[k] == prev[k]);
            } else {
                assert(cur[k] == n - 1);
            }
        }
    }
}

/// The indices of every element called `name`, in document order.
pub fn element_starts(events: &[Token], name: &str) -> (out: Vec<usize>)
    ensures
        ints(out@) == starts_named(events@, name@, events@.len() as int),
        forall|k: int| 0 <= k < out@.len() ==> opens_element(events@, #[trigger] out@[k] as int),
{
    let want = chars_of(name);
    let mut out: Vec<usize> = Vec::new();
    let mut i: usize = 0;
    while i < events.len()
        invariant
            i <= events@.len(),
            want@ == name@,
            ints(out@) == starts_named(events@, name@, i as int),
        decreases events@.len() - i,
    {
        if is_tag(&events[i], Kind::Start, &want) || is_tag(&events[i], Kind::Empty, &want) {
            let ghost before = out@;
            out.push(i);
            assert(ints(out@) =~= before.map_values(|k: usize| k as int).push(i as int));
        }
        i += 1;
    }
    proof {
        lemma_starts_named_open(events@, name@, events@.len() as int);
        assert forall|k: int| 0 <= k < out@.len() implies opens_element(events@, #[trigger] out@[k] as int) by {
            assert(ints(out@)[k] == out@[k] as int);
        }
    }
    out
}

/// One attribute of the tag at `at`, for a start or empty tag.
pub open spec fn attribute_at(ev: Seq<Token>, at: int, name: Seq<char>) -> Option<Seq<char>> {
    if opens_element(ev, at) {
        spec_get_attribute(ev[at].text@, name)
    } else {
        None
    }
}

fn attribute(events: &[Token], at: usize, name: &str) -> (r: Option<String>)
    requires
        at < events@.len(),
    ensures
        r matches Some(v) ==> attribute_at(events@, at as int, name@) == Some(v@),
        r is None ==> attribute_at(events@, at as int, name@) is None,
{
    match events[at].kind {
        Kind::Start | Kind::Empty => get_attribute(&events[at], name),
        _ => None,
    }
}

/// The direct children of the element at `at`, as indices into `ev`.
pub open spec fn children_at(ev: Seq<Token>, at: int) -> Seq<int> {
    spec_direct_children(ev.subrange(at, element_end(ev, at))).map_values(|k: int| at + k)
}

fn children(events: &[Token], at: usize) -> (out: Vec<usize>)
    requires
        opens_element(events@, at as int),
    ensures
        ints(out@) == children_at(events@, at as int),
        forall|k: int| 0 <= k < out@.len() ==> at < #[trigger] out@[k] < events@.len(),
{
    let range = element_range(events, at);
    let inner = copy_range(events, range.start, range.end);
    let kids = direct_children(&inner);
    let mut out: Vec<usize> = Vec::new();
    let mut j: usize = 0;
    while j < kids.len()
        invariant
            j <= kids@.len(),
            range.start == at,
            range.end == element_end(events@, at as int),
            at < range.end <= events@.len(),
            inner@ == events@.subrange(at as int, range.end as int),
            ints(kids@) == spec_direct_children(inner@),
            forall|k: int| 0 <= k < kids@.len() ==> 1 <= #[trigger] kids@[k] < inner@.len(),
            out@.len() == j,
            forall|k: int| 0 <= k < j ==> #[trigger] out@[k] == at + kids@[k],
        decreases kids@.len() - j,
    {
        out.push(at + kids[j]);
        j += 1;
    }
    assert(ints(out@) =~= children_at(events@, at as int)) by {
        assert forall|k: int| 0 <= k < out@.len() implies #[trigger] ints(out@)[k] == children_at(events@, at as int)[k] by {
            assert(ints(kids@)[k] == kids@[k] as int);
        }
    }
    out
}

/// The first of `kids` that is a level-zero `w:lvl`.
pub open spec fn first_level_zero(ev: Seq<Token>, kids: Seq<int>) -> Option<int>
    decreases kids.len(),
{
    if kids.len() == 0 {
        None
    } else if opened_name(ev[kids[0]]) == Some("w:lvl"@) && attribute_at(ev, kids[0], "w:ilvl"@) == Some("0"@) {
        Some(kids[0])
    } else {
        first_level_zero(ev, kids.drop_first())
    }
}

/// The `w:val` of the direct child of `at` called `name`.
pub open spec fn child_value(ev: Seq<Token>, at: int, name: Seq<char>) -> Option<Seq<char>> {
    match spec_find_direct_child(ev, at, name) {
        Some(i) => attribute_at(ev, i, "w:val"@),
        None => None,
    }
}

/// An `w:abstractNum` whose first level draws a bullet: its id, and the glyph
/// that level draws if it states one.
pub open spec fn bullet_abstract(ev: Seq<Token>, at: int) -> Option<(Seq<char>, Option<Seq<char>>)> {
    match attribute_at(ev, at, "w:abstractNumId"@) {
        Some(id) => match first_level_zero(ev, children_at(ev, at)) {
            Some(level) => if child_value(ev, level, "w:numFmt"@) == Some("bullet"@) {
                Some((id, child_value(ev, level, "w:lvlText"@)))
            } else {
                None
            },
            None => None,
        },
        None => None,
    }
}

/// The bulleted abstract definitions among `starts`, in document order.
pub open spec fn bullet_abstracts(ev: Seq<Token>, starts: Seq<int>) -> Seq<(Seq<char>, Option<Seq<char>>)>
    decreases starts.len(),
{
    if starts.len() == 0 {
        seq![]
    } else {
        let rest = bullet_abstracts(ev, starts.drop_last());
        match bullet_abstract(ev, starts.last()) {
            Some(entry) => rest.push(entry),
            None => rest,
        }
    }
}

/// What the last definition with this id draws; a later definition with the
/// same id replaces an earlier one.
pub open spec fn drawn_by(defs: Seq<(Seq<char>, Option<Seq<char>>)>, id: Seq<char>) -> Option<Option<Seq<char>>>
    decreases defs.len(),
{
    if defs.len() == 0 {
        None
    } else if defs.last().0 == id {
        Some(defs.last().1)
    } else {
        drawn_by(defs.drop_last(), id)
    }
}

/// Whether any of `kids` is a `w:lvlOverride`.
pub open spec fn overrides(ev: Seq<Token>, kids: Seq<int>) -> bool {
    exists|k: int| 0 <= k < kids.len() && opened_name(ev[#[trigger] kids[k]]) == Some("w:lvlOverride"@)
}

/// A `w:num` that points at a bulleted definition and overrides nothing: its
/// id, and whether the definition draws `typed`.
pub open spec fn bullet_num(ev: Seq<Token>, at: int, defs: Seq<(Seq<char>, Option<Seq<char>>)>, typed: Seq<char>) -> Option<(Seq<char>, bool)> {
    match attribute_at(ev, at, "w:numId"@) {
        Some(num_id) => if overrides(ev, children_at(ev, at)) {
            None
        } else {
            match child_value(ev, at, "w:abstractNumId"@) {
                Some(abstract_id) => match drawn_by(defs, abstract_id) {
                    Some(drawn) => Some((num_id, drawn == Some(typed))),
                    None => None,
                },
                None => None,
            }
        },
        None => None,
    }
}

/// The first list among `nums` that draws `typed` (`exact`), or the first
/// that does not (`!exact`).
pub open spec fn first_list(ev: Seq<Token>, nums: Seq<int>, defs: Seq<(Seq<char>, Option<Seq<char>>)>, typed: Seq<char>, exact: bool) -> Option<Seq<char>>
    decreases nums.len(),
{
    if nums.len() == 0 {
        None
    } else {
        match bullet_num(ev, nums[0], defs, typed) {
            Some((id, draws)) => if draws == exact {
                Some(id)
            } else {
                first_list(ev, nums.drop_first(), defs, typed, exact)
            },
            None => first_list(ev, nums.drop_first(), defs, typed, exact),
        }
    }
}

/// The `w:numId` a typed `marker` becomes: the first list in document order
/// whose definition draws that marker, else the first bulleted list.
pub open spec fn spec_bullet_list(ev: Seq<Token>, marker: char) -> Option<Seq<char>> {
    let defs = bullet_abstracts(ev, starts_named(ev, "w:abstractNum"@, ev.len() as int));
    let nums = starts_named(ev, "w:num"@, ev.len() as int);
    match first_list(ev, nums, defs, seq![marker], true) {
        Some(id) => Some(id),
        None => first_list(ev, nums, defs, seq![marker], false),
    }
}

fn first_level_zero_exec(events: &[Token], kids: &Vec<usize>) -> (r: Option<usize>)
    requires
        forall|k: int| 0 <= k < kids@.len() ==> #[trigger] kids@[k] < events@.len(),
    ensures
        r matches Some(i) ==> first_level_zero(events@, ints(kids@)) == Some(i as int) && opens_element(events@, i as int),
        r is None ==> first_level_zero(events@, ints(kids@)) is None,
{
    let ghost all = ints(kids@);
    let lvl = chars_of("w:lvl");
    let mut j: usize = 0;
    assert(all.skip(0) =~= all);
    while j < kids.len()
        invariant
            j <= kids@.len(),
            all == ints(kids@),
            lvl@ == "w:lvl"@,
            forall|k: int| 0 <= k < kids@.len() ==> #[trigger] kids@[k] < events@.len(),
            first_level_zero(events@, all) == first_level_zero(events@, all.skip(j as int)),
        decreases kids@.len() - j,
    {
        let ghost rest = all.skip(j as int);
        assert(rest[0] == kids@[j as int] as int);
        let k = kids[j];
        if is_tag(&events[k], Kind::Start, &lvl) || is_tag(&events[k], Kind::Empty, &lvl) {
            let ilvl = attribute(events, k, "w:ilvl");
            let zero = match &ilvl {
                Some(v) => chars_eq(&chars_of(v.as_str()), &chars_of("0")),
                None => false,
            };
            if zero {
                return Some(k);
            }
        }
        assert(rest.drop_first() =~= all.skip(j + 1));
        j += 1;
    }
    None
}

fn child_value_exec(events: &[Token], at: usize, name: &str) -> (r: Option<String>)
    requires
        opens_element(events@, at as int),
    ensures
        r matches Some(v) ==> child_value(events@, at as int, name@) == Some(v@),
        r is None ==> child_value(events@, at as int, name@) is None,
{
    match find_direct_child(events, at, name) {
        Some(i) => attribute(events, i, "w:val"),
        None => None,
    }
}

fn bullet_abstract_exec(events: &[Token], at: usize) -> (r: Option<(String, Option<String>)>)
    requires
        opens_element(events@, at as int),
    ensures
        r matches Some(e) ==> bullet_abstract(events@, at as int) == Some((e.0@, match e.1 {
            Some(t) => Some(t@),
            None => None,
        })),
        r is None ==> bullet_abstract(events@, at as int) is None,
{
    let id = match attribute(events, at, "w:abstractNumId") {
        Some(id) => id,
        None => return None,
    };
    let kids = children(events, at);
    let level = match first_level_zero_exec(events, &kids) {
        Some(level) => level,
        None => return None,
    };
    let format = child_value_exec(events, level, "w:numFmt");
    let bullet = match &format {
        Some(f) => chars_eq(&chars_of(f.as_str()), &chars_of("bullet")),
        None => false,
    };
    if !bullet {
        return None;
    }
    Some((id, child_value_exec(events, level, "w:lvlText")))
}

pub open spec fn def_views(defs: Seq<(String, Option<String>)>) -> Seq<(Seq<char>, Option<Seq<char>>)> {
    defs.map_values(|d: (String, Option<String>)| (d.0@, match d.1 {
        Some(t) => Some(t@),
        None => None,
    }))
}

fn bullet_abstracts_exec(events: &[Token], starts: &Vec<usize>) -> (defs: Vec<(String, Option<String>)>)
    requires
        forall|k: int| 0 <= k < starts@.len() ==> opens_element(events@, #[trigger] starts@[k] as int),
    ensures
        def_views(defs@) == bullet_abstracts(events@, ints(starts@)),
{
    let mut defs: Vec<(String, Option<String>)> = Vec::new();
    let mut i: usize = 0;
    while i < starts.len()
        invariant
            i <= starts@.len(),
            forall|k: int| 0 <= k < starts@.len() ==> opens_element(events@, #[trigger] starts@[k] as int),
            def_views(defs@) == bullet_abstracts(events@, ints(starts@).take(i as int)),
        decreases starts@.len() - i,
    {
        assert(ints(starts@).take(i + 1).drop_last() =~= ints(starts@).take(i as int));
        assert(ints(starts@).take(i + 1).last() == starts@[i as int] as int);
        match bullet_abstract_exec(events, starts[i]) {
            Some(entry) => {
                let ghost before = defs@;
                defs.push(entry);
                assert(def_views(defs@) =~= def_views(before).push(def_views(defs@).last()));
            },
            None => {},
        }
        i += 1;
    }
    assert(ints(starts@).take(i as int) =~= ints(starts@));
    defs
}

/// Whether the last definition with this id exists, and if so whether it
/// draws `typed`.
fn drawn_by_exec(defs: &Vec<(String, Option<String>)>, id: &str, typed: &[char]) -> (r: Option<bool>)
    ensures
        r matches Some(draws) ==> drawn_by(def_views(defs@), id@) matches Some(drawn) && draws == (drawn == Some(typed@)),
        r is None ==> drawn_by(def_views(defs@), id@) is None,
{
    let want = chars_of(id);
    let mut i: usize = defs.len();
    assert(def_views(defs@).take(i as int) =~= def_views(defs@));
    while i > 0
        invariant
            i <= defs@.len(),
            want@ == id@,
            drawn_by(def_views(defs@), id@) == drawn_by(def_views(defs@).take(i as int), id@),
        decreases i,
    {
        let ghost d = def_views(defs@).take(i as int);
        assert(d.drop_last() =~= def_views(defs@).take(i - 1));
        assert(d.last() == def_views(defs@)[i - 1]);
        if chars_eq(&chars_of(defs[i - 1].0.as_str()), &want) {
            return Some(match &defs[i - 1].1 {
                Some(t) => chars_eq(&chars_of(t.as_str()), typed),
                None => false,
            });
        }
        i -= 1;
    }
    None
}

fn overrides_exec(events: &[Token], kids: &Vec<usize>) -> (r: bool)
    requires
        forall|k: int| 0 <= k < kids@.len() ==> #[trigger] kids@[k] < events@.len(),
    ensures
        r == overrides(events@, ints(kids@)),
{
    let want = chars_of("w:lvlOverride");
    let mut j: usize = 0;
    while j < kids.len()
        invariant
            j <= kids@.len(),
            want@ == "w:lvlOverride"@,
            forall|k: int| 0 <= k < kids@.len() ==> #[trigger] kids@[k] < events@.len(),
            forall|k: int| 0 <= k < j ==> opened_name(events@[#[trigger] ints(kids@)[k]]) != Some("w:lvlOverride"@),
        decreases kids@.len() - j,
    {
        assert(ints(kids@)[j as int] == kids@[j as int] as int);
        if is_tag(&events[kids[j]], Kind::Start, &want) || is_tag(&events[kids[j]], Kind::Empty, &want) {
            return true;
        }
        j += 1;
    }
    false
}

fn bullet_num_exec(events: &[Token], at: usize, defs: &Vec<(String, Option<String>)>, typed: &[char]) -> (r: Option<(String, bool)>)
    requires
        opens_element(events@, at as int),
    ensures
        r matches Some(e) ==> bullet_num(events@, at as int, def_views(defs@), typed@) == Some((e.0@, e.1)),
        r is None ==> bullet_num(events@, at as int, def_views(defs@), typed@) is None,
{
    let num_id = match attribute(events, at, "w:numId") {
        Some(id) => id,
        None => return None,
    };
    let kids = children(events, at);
    if overrides_exec(events, &kids) {
        return None;
    }
    let abstract_id = match child_value_exec(events, at, "w:abstractNumId") {
        Some(id) => id,
        None => return None,
    };
    match drawn_by_exec(defs, abstract_id.as_str(), typed) {
        Some(draws) => Some((num_id, draws)),
        None => None,
    }
}

fn first_list_exec(events: &[Token], nums: &Vec<usize>, defs: &Vec<(String, Option<String>)>, typed: &[char], exact: bool) -> (r: Option<String>)
    requires
        forall|k: int| 0 <= k < nums@.len() ==> opens_element(events@, #[trigger] nums@[k] as int),
    ensures
        r matches Some(id) ==> first_list(events@, ints(nums@), def_views(defs@), typed@, exact) == Some(id@),
        r is None ==> first_list(events@, ints(nums@), def_views(defs@), typed@, exact) is None,
{
    let ghost all = ints(nums@);
    let mut j: usize = 0;
    assert(all.skip(0) =~= all);
    while j < nums.len()
        invariant
            j <= nums@.len(),
            all == ints(nums@),
            forall|k: int| 0 <= k < nums@.len() ==> opens_element(events@, #[trigger] nums@[k] as int),
            first_list(events@, all, def_views(defs@), typed@, exact) == first_list(events@, all.skip(j as int), def_views(defs@), typed@, exact),
        decreases nums@.len() - j,
    {
        let ghost rest = all.skip(j as int);
        assert(rest[0] == nums@[j as int] as int);
        assert(rest.drop_first() =~= all.skip(j + 1));
        match bullet_num_exec(events, nums[j], defs, typed) {
            Some((id, draws)) => {
                if draws == exact {
                    return Some(id);
                }
            },
            None => {},
        }
        j += 1;
    }
    None
}

/// The `w:numId` a typed `marker` becomes, read off a numbering part's
/// tokens: the first list in document order whose definition draws that
/// marker, else the first bulleted list, else none. A `w:num` that
/// overrides a level is never offered, since the override can restate what
/// the level draws.
pub fn bullet_list_in(events: &[Token], marker: char) -> (r: Option<String>)
    ensures
        r matches Some(id) ==> spec_bullet_list(events@, marker) == Some(id@),
        r is None ==> spec_bullet_list(events@, marker) is None,
{
    let abstract_starts = element_starts(events, "w:abstractNum");
    let defs = bullet_abstracts_exec(events, &abstract_starts);
    let nums = element_starts(events, "w:num");
    let mut typed: Vec<char> = Vec::new();
    typed.push(marker);
    assert(typed@ =~= seq![marker]);
    match first_list_exec(events, &nums, &defs, &typed, true) {
        Some(id) => Some(id),
        None => first_list_exec(events, &nums, &defs, &typed, false),
    }
}

/// The `w:numId` of a list in a numbering part that draws a bullet,
/// preferring one whose first level draws `marker` itself; `None` when the
/// document defines no bulleted list. Only a part the parser rejects fails.
pub fn bullet_list(part: &str, xml: &str, marker: char) -> (r: Result<Option<String>, Error>)
    ensures
        r is Ok <==> document_tokens(xml@) is Ok,
        r matches Err(e) ==> read_failure(part@, xml@, e),
        r matches Ok(found) ==> exists|ts: Seq<Token>| #[trigger] reads_as(xml@, ts) && spec_bullet_list(ts, marker) == match found {
            Some(id) => Some(id@),
            None => None,
        },
{
    let events = read_events(part, xml)?;
    assert(reads_as(xml@, events@));
    let found = bullet_list_in(&events, marker);
    assert(spec_bullet_list(events@, marker) == match found {
        Some(id) => Some(id@),
        None => None,
    });
    Ok(found)
}

/// `CT_P`: `w:pPr` precedes every run.
pub open spec fn w_p_order() -> Seq<Seq<char>> {
    seq!["w:pPr"@]
}

fn w_p_order_exec() -> (r: [&'static str; 1])
    ensures
        order_view(r@) == w_p_order(),
{
    let r = ["w:pPr"];
    assert(order_view(r@) =~= w_p_order());
    r
}

/// `CT_R`: `w:rPr` precedes the run's content.
pub open spec fn w_r_order() -> Seq<Seq<char>> {
    seq!["w:rPr"@]
}

fn w_r_order_exec() -> (r: [&'static str; 1])
    ensures
        order_view(r@) == w_r_order(),
{
    let r = ["w:rPr"];
    assert(order_view(r@) =~= w_r_order());
    r
}

/// `CT_PPr`, in schema sequence order: `CT_PPrBase`, the paragraph mark's run
/// properties, the section properties and the revision record.
pub open spec fn w_ppr_order() -> Seq<Seq<char>> {
    seq!["w:pStyle"@, "w:keepNext"@, "w:keepLines"@, "w:pageBreakBefore"@, "w:framePr"@, "w:widowControl"@, "w:numPr"@, "w:suppressLineNumbers"@, "w:pBdr"@, "w:shd"@, "w:tabs"@, "w:suppressAutoHyphens"@, "w:kinsoku"@, "w:wordWrap"@, "w:overflowPunct"@, "w:topLinePunct"@, "w:autoSpaceDE"@, "w:autoSpaceDN"@, "w:bidi"@, "w:adjustRightInd"@, "w:snapToGrid"@, "w:spacing"@, "w:ind"@, "w:contextualSpacing"@, "w:mirrorIndents"@, "w:suppressOverlap"@, "w:jc"@, "w:textDirection"@, "w:textAlignment"@, "w:textboxTightWrap"@, "w:outlineLvl"@, "w:divId"@, "w:cnfStyle"@, "w:rPr"@, "w:sectPr"@, "w:pPrChange"@]
}

fn w_ppr_order_exec() -> (r: [&'static str; 36])
    ensures
        order_view(r@) == w_ppr_order(),
{
    let r = ["w:pStyle", "w:keepNext", "w:keepLines", "w:pageBreakBefore", "w:framePr", "w:widowControl", "w:numPr", "w:suppressLineNumbers", "w:pBdr", "w:shd", "w:tabs", "w:suppressAutoHyphens", "w:kinsoku", "w:wordWrap", "w:overflowPunct", "w:topLinePunct", "w:autoSpaceDE", "w:autoSpaceDN", "w:bidi", "w:adjustRightInd", "w:snapToGrid", "w:spacing", "w:ind", "w:contextualSpacing", "w:mirrorIndents", "w:suppressOverlap", "w:jc", "w:textDirection", "w:textAlignment", "w:textboxTightWrap", "w:outlineLvl", "w:divId", "w:cnfStyle", "w:rPr", "w:sectPr", "w:pPrChange"];
    assert(order_view(r@) =~= w_ppr_order());
    r
}

/// `CT_RPr`, in schema sequence order, with the four revision markers
/// `CT_ParaRPr` puts in front of the same sequence.
pub open spec fn w_rpr_order() -> Seq<Seq<char>> {
    seq!["w:ins"@, "w:del"@, "w:moveFrom"@, "w:moveTo"@, "w:rStyle"@, "w:rFonts"@, "w:b"@, "w:bCs"@, "w:i"@, "w:iCs"@, "w:caps"@, "w:smallCaps"@, "w:strike"@, "w:dstrike"@, "w:outline"@, "w:shadow"@, "w:emboss"@, "w:imprint"@, "w:noProof"@, "w:snapToGrid"@, "w:vanish"@, "w:webHidden"@, "w:color"@, "w:spacing"@, "w:w"@, "w:kern"@, "w:position"@, "w:sz"@, "w:szCs"@, "w:highlight"@, "w:u"@, "w:effect"@, "w:bdr"@, "w:shd"@, "w:fitText"@, "w:vertAlign"@, "w:rtl"@, "w:cs"@, "w:em"@, "w:lang"@, "w:eastAsianLayout"@, "w:specVanish"@, "w:oMath"@, "w:rPrChange"@]
}

fn w_rpr_order_exec() -> (r: [&'static str; 44])
    ensures
        order_view(r@) == w_rpr_order(),
{
    let r = ["w:ins", "w:del", "w:moveFrom", "w:moveTo", "w:rStyle", "w:rFonts", "w:b", "w:bCs", "w:i", "w:iCs", "w:caps", "w:smallCaps", "w:strike", "w:dstrike", "w:outline", "w:shadow", "w:emboss", "w:imprint", "w:noProof", "w:snapToGrid", "w:vanish", "w:webHidden", "w:color", "w:spacing", "w:w", "w:kern", "w:position", "w:sz", "w:szCs", "w:highlight", "w:u", "w:effect", "w:bdr", "w:shd", "w:fitText", "w:vertAlign", "w:rtl", "w:cs", "w:em", "w:lang", "w:eastAsianLayout", "w:specVanish", "w:oMath", "w:rPrChange"];
    assert(order_view(r@) =~= w_rpr_order());
    r
}

/// `CT_Tbl`: the properties, then the grid, then the rows.
pub open spec fn w_tbl_order() -> Seq<Seq<char>> {
    seq!["w:tblPr"@, "w:tblGrid"@, "w:tr"@]
}

fn w_tbl_order_exec() -> (r: [&'static str; 3])
    ensures
        order_view(r@) == w_tbl_order(),
{
    let r = ["w:tblPr", "w:tblGrid", "w:tr"];
    assert(order_view(r@) =~= w_tbl_order());
    r
}

/// `CT_TblPr`, in schema sequence order.
pub open spec fn w_tblpr_order() -> Seq<Seq<char>> {
    seq!["w:tblStyle"@, "w:tblpPr"@, "w:tblOverlap"@, "w:bidiVisual"@, "w:tblStyleRowBandSize"@, "w:tblStyleColBandSize"@, "w:tblW"@, "w:jc"@, "w:tblCellSpacing"@, "w:tblInd"@, "w:tblBorders"@, "w:shd"@, "w:tblLayout"@, "w:tblCellMar"@, "w:tblLook"@, "w:tblCaption"@, "w:tblDescription"@, "w:tblPrChange"@]
}

fn w_tblpr_order_exec() -> (r: [&'static str; 18])
    ensures
        order_view(r@) == w_tblpr_order(),
{
    let r = ["w:tblStyle", "w:tblpPr", "w:tblOverlap", "w:bidiVisual", "w:tblStyleRowBandSize", "w:tblStyleColBandSize", "w:tblW", "w:jc", "w:tblCellSpacing", "w:tblInd", "w:tblBorders", "w:shd", "w:tblLayout", "w:tblCellMar", "w:tblLook", "w:tblCaption", "w:tblDescription", "w:tblPrChange"];
    assert(order_view(r@) =~= w_tblpr_order());
    r
}

/// `CT_NumPr`, in schema sequence order.
pub open spec fn w_numpr_order() -> Seq<Seq<char>> {
    seq!["w:ilvl"@, "w:numId"@, "w:numberingChange"@, "w:ins"@]
}

fn w_numpr_order_exec() -> (r: [&'static str; 4])
    ensures
        order_view(r@) == w_numpr_order(),
{
    let r = ["w:ilvl", "w:numId", "w:numberingChange", "w:ins"];
    assert(order_view(r@) =~= w_numpr_order());
    r
}

/// Regions whose runs are not the paragraph's own: a text box nests whole
/// paragraphs inside a run, and a fallback repeats what its choice says.
pub open spec fn nested() -> Seq<Seq<char>> {
    seq!["w:txbxContent"@, "mc:Fallback"@]
}

fn nested_exec() -> (r: [&'static str; 2])
    ensures
        order_view(r@) == nested(),
{
    let r = ["w:txbxContent", "mc:Fallback"];
    assert(order_view(r@) =~= nested());
    r
}

/// Regions whose elements the scanner does not count.
pub open spec fn uncounted() -> Seq<Seq<char>> {
    seq!["mc:Fallback"@]
}

fn uncounted_exec() -> (r: [&'static str; 1])
    ensures
        order_view(r@) == uncounted(),
{
    let r = ["mc:Fallback"];
    assert(order_view(r@) =~= uncounted());
    r
}


/// The element a run's characters live in.
pub open spec fn w_t() -> Seq<char> {
    "w:t"@
}

/// The list each typed marker is converted to: the marker and the list's
/// `w:numId`, the first entry for a marker deciding.
pub type Bullets = Vec<(char, String)>;

pub open spec fn bullets_view(b: Seq<(char, String)>) -> Seq<(char, Seq<char>)> {
    b.map_values(|e: (char, String)| (e.0, e.1@))
}

/// The list a typed `marker` is converted to.
pub open spec fn bullet_for(b: Seq<(char, Seq<char>)>, marker: char) -> Option<Seq<char>>
    decreases b.len(),
{
    if b.len() == 0 {
        None
    } else if b[0].0 == marker {
        Some(b[0].1)
    } else {
        bullet_for(b.drop_first(), marker)
    }
}

pub(crate) fn find_bullet(bullets: &Bullets, marker: char) -> (r: Option<&String>)
    ensures
        r matches Some(id) ==> bullet_for(bullets_view(bullets@), marker) == Some(id@),
        r is None ==> bullet_for(bullets_view(bullets@), marker) is None,
{
    let ghost bv = bullets_view(bullets@);
    let mut k: usize = 0;
    assert(bv.skip(0) =~= bv);
    while k < bullets.len()
        invariant
            k <= bullets@.len(),
            bv == bullets_view(bullets@),
            bullet_for(bv, marker) == bullet_for(bv.skip(k as int), marker),
        decreases bullets@.len() - k,
    {
        assert(bv.skip(k as int)[0] == (bullets@[k as int].0, bullets@[k as int].1@));
        assert(bv.skip(k as int).drop_first() =~= bv.skip(k + 1));
        if bullets[k].0 == marker {
            return Some(&bullets[k].1);
        }
        k += 1;
    }
    None
}

/// An `ST_OnOff` value written out in full: `<w:bidi/>` is on, so
/// left-to-right must say `0`.
pub open spec fn on_off(d: Direction) -> Seq<char> {
    if d == Direction::Rtl { "1"@ } else { "0"@ }
}

fn on_off_exec(d: Direction) -> (r: &'static str)
    ensures
        r@ == on_off(d),
{
    if d == Direction::Rtl { "1" } else { "0" }
}

/// An alignment as `w:jc` writes it, relative to the paragraph's own edges;
/// `None` for a physical edge, which Word has no spelling for.
pub open spec fn word_alignment(a: Alignment) -> Option<Seq<char>> {
    match a {
        Alignment::Start => Some("start"@),
        Alignment::End => Some("end"@),
        Alignment::Center => Some("center"@),
        Alignment::Justify => Some("both"@),
        Alignment::Distributed => Some("distribute"@),
        Alignment::Left | Alignment::Right => None,
    }
}

fn word_alignment_exec(a: Alignment) -> (r: Option<&'static str>)
    ensures
        r matches Some(v) ==> word_alignment(a) == Some(v@),
        r is None ==> word_alignment(a) is None,
{
    match a {
        Alignment::Start => Some("start"),
        Alignment::End => Some("end"),
        Alignment::Center => Some("center"),
        Alignment::Justify => Some("both"),
        Alignment::Distributed => Some("distribute"),
        Alignment::Left | Alignment::Right => None,
    }
}

/// Why a physical edge is refused.
pub open spec fn edge_reason() -> Seq<char> {
    "w:jc names the paragraph's own start and end edges, and Word has no spelling for a physical one"@
}

/// Why a typed bullet with no list to join is refused.
pub open spec fn list_reason() -> Seq<char> {
    "this document defines no bulleted list for a paragraph to join"@
}

/// The error a repair Word cannot express is refused with.
pub open spec fn word_refusal(part: Seq<char>, fix: FixView, reason: Seq<char>) -> Seq<char> {
    part + ": cannot "@ + spec_describe(fix) + "; "@ + reason
}

pub(crate) fn word_refuse(part: &str, fix: &Fix, reason: &str) -> (e: Error)
    ensures
        e == Error::Format(e->Format_0) && e->Format_0@ == word_refusal(part@, fix@, reason@),
{
    let mut m = chars_of(part);
    push_all(&mut m, &chars_of(": cannot "));
    push_all(&mut m, &chars_of(fix.describe()));
    push_all(&mut m, &chars_of("; "));
    push_all(&mut m, &chars_of(reason));
    Error::Format(string_of(&m))
}

/// Why one repair cannot be made on a paragraph, if it cannot.
pub open spec fn fix_refusal(part: Seq<char>, f: FixView, bullets: Seq<(char, Seq<char>)>) -> Option<Seq<char>> {
    match f {
        FixView::SetAlignment(a) => if word_alignment(a) is None { Some(word_refusal(part, f, edge_reason())) } else { None },
        FixView::ConvertLiteralBullet(m) => if bullet_for(bullets, m) is None { Some(word_refusal(part, f, list_reason())) } else { None },
        _ => None,
    }
}

/// The refusal of the first repair in a paragraph's list that cannot be made.
pub open spec fn para_refusal(part: Seq<char>, fixes: Seq<FixView>, bullets: Seq<(char, Seq<char>)>) -> Option<Seq<char>>
    decreases fixes.len(),
{
    if fixes.len() == 0 {
        None
    } else {
        match fix_refusal(part, fixes[0], bullets) {
            Some(m) => Some(m),
            None => para_refusal(part, fixes.drop_first(), bullets),
        }
    }
}

fn para_refusal_exec(part: &str, fixes: &[Fix], bullets: &Bullets) -> (r: Option<Error>)
    ensures
        r matches Some(e) ==> e == Error::Format(e->Format_0)
            && para_refusal(part@, fix_views(fixes@), bullets_view(bullets@)) == Some(e->Format_0@),
        r is None ==> para_refusal(part@, fix_views(fixes@), bullets_view(bullets@)) is None,
{
    let ghost fv = fix_views(fixes@);
    let ghost bv = bullets_view(bullets@);
    let mut k: usize = 0;
    assert(fv.skip(0) =~= fv);
    while k < fixes.len()
        invariant
            k <= fixes@.len(),
            fv == fix_views(fixes@),
            fv.len() == fixes@.len(),
            bv == bullets_view(bullets@),
            para_refusal(part@, fv, bv) == para_refusal(part@, fv.skip(k as int), bv),
        decreases fixes@.len() - k,
    {
        assert(fv.skip(k as int)[0] == fv[k as int]);
        assert(fv.skip(k as int).drop_first() =~= fv.skip(k + 1));
        match &fixes[k] {
            Fix::SetAlignment(a) => {
                if word_alignment_exec(*a).is_none() {
                    return Some(word_refuse(part, &fixes[k], "w:jc names the paragraph's own start and end edges, and Word has no spelling for a physical one"));
                }
            },
            Fix::ConvertLiteralBullet { marker } => {
                if find_bullet(bullets, *marker).is_none() {
                    return Some(word_refuse(part, &fixes[k], "this document defines no bulleted list for a paragraph to join"));
                }
            },
            _ => {},
        }
        k += 1;
    }
    None
}

/// The content ranges of the paragraph's own runs: every `w:t` outside the
/// text boxes and fallbacks nested in it.
pub open spec fn own_ranges(ev: Seq<Token>) -> Seq<(int, int)> {
    ranges_outside(ev, spec_text_ranges(ev, w_t()), nested())
}

/// The characters at `dels` (byte offsets into the paragraph's own text as
/// scanned) removed, largest first, in one pass.
pub open spec fn w_controls_removed(old: Seq<Token>, new: Seq<Token>, dels: Seq<int>) -> bool {
    if dels.len() == 0 {
        new == old
    } else {
        let rs = own_ranges(old);
        let before = spec_runs(old, rs);
        tviews(new) == replace_from(tviews(old), rs, before, remove_each(before, sort_desc(dels)), 0)
    }
}

/// Presentation forms normalised in the paragraph's own runs when any
/// repair asks.
pub open spec fn w_forms_normalised<F: Fn(&str) -> String>(old: Seq<Token>, new: Seq<Token>, fixes: Seq<FixView>, f: F) -> bool {
    if fixes.contains(FixView::NormalizePresentationForms) {
        ranges_rewritten(old, new, own_ranges(old), f)
    } else {
        new == old
    }
}

/// A typed `marker`, and the whitespace after it, stripped from the start of
/// the paragraph's first own run.
pub open spec fn w_marker_stripped(old: Seq<Token>, new: Seq<Token>, marker: char) -> bool {
    let rs = own_ranges(old);
    if rs.len() == 0 {
        new == old
    } else {
        let first = rs[0];
        match without_marker(spec_read_content(old.subrange(first.0, first.1)), marker) {
            Some(t) => tviews(new) == tviews(old).take(first.0) + seq![(Kind::Text, escaped(t))] + tviews(old).skip(first.1),
            None => new == old,
        }
    }
}

pub open spec fn w_marker_link(fixes: Seq<FixView>) -> spec_fn(int, Seq<Token>, Seq<Token>) -> bool {
    |i: int, a: Seq<Token>, b: Seq<Token>|
        match fixes[i] {
            FixView::ConvertLiteralBullet(m) => w_marker_stripped(a, b, m),
            _ => b == a,
        }
}

/// Whether text starts or ends with whitespace, which a `w:t` without
/// `xml:space="preserve"` would lose.
pub open spec fn padded(s: Seq<char>) -> bool {
    s.len() > 0 && (is_unicode_ws(s[0]) || is_unicode_ws(s.last()))
}

/// Step `k` of marking changed runs: a run whose text changed and is now
/// padded gets `xml:space="preserve"` on its `w:t`.
pub open spec fn preserve_link(rs: Seq<(int, int)>, before: Seq<Seq<char>>, after: Seq<Seq<char>>) -> spec_fn(int, Seq<Token>, Seq<Token>) -> bool {
    |k: int, a: Seq<Token>, b: Seq<Token>|
        if before[k] != after[k] && padded(after[k]) && rs[k].0 > 0 {
            tag_set(a, b, rs[k].0 - 1, "xml:space"@, "preserve"@)
        } else {
            b == a
        }
}

/// The runs whose text the repair changed, and which now start or end with
/// whitespace, marked as significant-whitespace — where the paragraph still
/// has as many own runs as it had.
pub open spec fn space_preserved(before: Seq<Seq<char>>, old: Seq<Token>, new: Seq<Token>) -> bool {
    let rs = own_ranges(old);
    if rs.len() != before.len() {
        new == old
    } else {
        chained(old, new, rs.len(), preserve_link(rs, before, spec_runs(old, rs)))
    }
}

/// The paragraph's `w:pPr`, found or created, at `q`.
pub open spec fn w_ppr_got(old: Seq<Token>, mid: Seq<Token>, q: int) -> bool {
    found_or_inserted(old, mid, 0, w_p_order(), "w:pPr"@, q) && opens_element(mid, q)
}

/// A child of the paragraph's `w:pPr`, found or created in schema position,
/// with one attribute written.
pub open spec fn ppr_child_set(old: Seq<Token>, new: Seq<Token>, child: Seq<char>, attr: Seq<char>, value: Seq<char>) -> bool {
    if !opens_element(old, 0) {
        new == old
    } else {
        exists|m1: Seq<Token>, q: int, m2: Seq<Token>, c: int|
            #![trigger w_ppr_got(old, m1, q), found_or_inserted(m1, m2, q, w_ppr_order(), child, c)]
            w_ppr_got(old, m1, q) && found_or_inserted(m1, m2, q, w_ppr_order(), child, c) && opens_element(m2, c)
                && tag_set(m2, new, c, attr, value)
    }
}

/// One attribute removed from the tag at `at`; every other token as it was.
pub open spec fn attr_removed(old: Seq<Token>, new: Seq<Token>, at: int, name: Seq<char>) -> bool {
    if opens_element(old, at) {
        &&& new.len() == old.len()
        &&& new[at].kind == old[at].kind
        &&& new[at].text@ == spec_remove_attribute(old[at].text@, name)
        &&& forall|j: int| 0 <= j < old.len() && j != at ==> new[j] == old[j]
    } else {
        new == old
    }
}

fn remove_tag_attribute(events: &mut Vec<Token>, at: usize, name: &str)
    ensures
        attr_removed(old(events)@, final(events)@, at as int, name@),
{
    if opens(events, at) {
        let t = remove_attribute(&events[at], name);
        events.set(at, t);
    }
}

/// The complex-script language written on one run-property element: its
/// `w:lang`, found or created, carries `w:bidi`.
pub open spec fn w_lang_edit(v: Seq<char>) -> spec_fn(Seq<Token>, Seq<Token>, int) -> bool {
    |a: Seq<Token>, b: Seq<Token>, at: int|
        exists|mid: Seq<Token>, c: int|
            #[trigger] found_or_inserted(a, mid, at, w_rpr_order(), "w:lang"@, c) && opens_element(mid, c)
                && tag_set(mid, b, c, "w:bidi"@, v)
}

/// The complex-script typeface written on one run-property element: its
/// `w:rFonts`, found or created, carries `w:cs`, and the theme reference
/// `w:cstheme` beside it goes.
pub open spec fn w_font_edit(v: Seq<char>) -> spec_fn(Seq<Token>, Seq<Token>, int) -> bool {
    |a: Seq<Token>, b: Seq<Token>, at: int|
        exists|mid: Seq<Token>, c: int, m2: Seq<Token>|
            #![trigger found_or_inserted(a, mid, at, w_rpr_order(), "w:rFonts"@, c), tag_set(mid, m2, c, "w:cs"@, v)]
            found_or_inserted(a, mid, at, w_rpr_order(), "w:rFonts"@, c) && opens_element(mid, c)
                && tag_set(mid, m2, c, "w:cs"@, v) && attr_removed(m2, b, c, "w:cstheme"@)
}

/// Every run's start outside the nested regions, in document order.
pub open spec fn run_starts(ev: Seq<Token>, n: int) -> Seq<int>
    decreases n,
{
    if n <= 0 || n > ev.len() {
        seq![]
    } else if opened_name(ev[n - 1]) == Some("w:r"@) && depth_before(ev, n - 1, nested()) == 0 {
        run_starts(ev, n - 1).push(n - 1)
    } else {
        run_starts(ev, n - 1)
    }
}

/// One run visited for its properties: its `w:rPr`, found or created, edited.
pub open spec fn w_run_step(a: Seq<Token>, b: Seq<Token>, i: int, edit: spec_fn(Seq<Token>, Seq<Token>, int) -> bool) -> bool {
    if 0 <= i < a.len() && opened_name(a[i]) == Some("w:r"@) {
        exists|mid: Seq<Token>, p: int|
            #[trigger] found_or_inserted(a, mid, i, w_r_order(), "w:rPr"@, p) && opens_element(mid, p) && edit(mid, b, p)
    } else {
        b == a
    }
}

/// Step `j` of the run walk: the runs back to front, so that a `w:rPr`
/// created moves none still to be visited.
pub open spec fn w_run_link(kids: Seq<int>, edit: spec_fn(Seq<Token>, Seq<Token>, int) -> bool) -> spec_fn(int, Seq<Token>, Seq<Token>) -> bool {
    |j: int, a: Seq<Token>, b: Seq<Token>| w_run_step(a, b, kids[kids.len() - 1 - j], edit)
}

/// The paragraph mark's own run properties edited, where the paragraph
/// already states them.
pub open spec fn w_mark_step(a: Seq<Token>, b: Seq<Token>, edit: spec_fn(Seq<Token>, Seq<Token>, int) -> bool) -> bool {
    if opens_element(a, 0) {
        match spec_find_direct_child(a, 0, "w:pPr"@) {
            Some(pp) => match spec_find_direct_child(a, pp, "w:rPr"@) {
                Some(r) => edit(a, b, r),
                None => b == a,
            },
            None => b == a,
        }
    } else {
        b == a
    }
}

/// Every run-property element the paragraph owns edited: each own run's,
/// back to front, then the paragraph mark's.
pub open spec fn w_run_properties_edited(old: Seq<Token>, new: Seq<Token>, edit: spec_fn(Seq<Token>, Seq<Token>, int) -> bool) -> bool {
    let kids = run_starts(old, old.len() as int);
    exists|mid: Seq<Token>| #[trigger] chained(old, mid, kids.len(), w_run_link(kids, edit)) && w_mark_step(mid, new, edit)
}

/// A typed bullet pointed at list `id`: the paragraph's `w:numPr`, found or
/// created, with `w:ilvl` 0 and `w:numId` the list.
pub open spec fn w_bullet_set(old: Seq<Token>, new: Seq<Token>, id: Seq<char>) -> bool {
    if !opens_element(old, 0) {
        new == old
    } else {
        exists|m1: Seq<Token>, q: int, m2: Seq<Token>, np: int, m3: Seq<Token>, l: int, m4: Seq<Token>|
            #![trigger w_ppr_got(old, m1, q), found_or_inserted(m1, m2, q, w_ppr_order(), "w:numPr"@, np), found_or_inserted(m2, m3, np, w_numpr_order(), "w:ilvl"@, l), tag_set(m3, m4, l, "w:val"@, "0"@)]
            w_ppr_got(old, m1, q) && found_or_inserted(m1, m2, q, w_ppr_order(), "w:numPr"@, np) && opens_element(m2, np)
                && found_or_inserted(m2, m3, np, w_numpr_order(), "w:ilvl"@, l) && tag_set(m3, m4, l, "w:val"@, "0"@)
                && w_num_id_set(m4, new, np, id)
    }
}

/// The `w:numId` of the `w:numPr` at `np`, found or created, naming `id`.
pub open spec fn w_num_id_set(old: Seq<Token>, new: Seq<Token>, np: int, id: Seq<char>) -> bool {
    if opens_element(old, np) {
        exists|m: Seq<Token>, n: int|
            #[trigger] found_or_inserted(old, m, np, w_numpr_order(), "w:numId"@, n) && tag_set(m, new, n, "w:val"@, id)
    } else {
        new == old
    }
}

/// Step `i` of the structural pass: the `i`th repair landing on the
/// paragraph's properties or on its runs'.
pub open spec fn w_structure_link(fixes: Seq<FixView>, bullets: Seq<(char, Seq<char>)>) -> spec_fn(int, Seq<Token>, Seq<Token>) -> bool {
    |i: int, a: Seq<Token>, b: Seq<Token>|
        match fixes[i] {
            FixView::SetDirection(d) => ppr_child_set(a, b, "w:bidi"@, "w:val"@, on_off(d)),
            FixView::SetAlignment(al) => match word_alignment(al) {
                Some(v) => ppr_child_set(a, b, "w:jc"@, "w:val"@, v),
                None => false,
            },
            FixView::SetLanguage(v) => w_run_properties_edited(a, b, w_lang_edit(v)),
            FixView::SetComplexFont(v) => w_run_properties_edited(a, b, w_font_edit(v)),
            FixView::ConvertLiteralBullet(m) => match bullet_for(bullets, m) {
                Some(id) => w_bullet_set(a, b, id),
                None => false,
            },
            _ => b == a,
        }
}

/// Every repair for one Word paragraph applied: the characters the
/// deletions name removed in one pass, presentation forms normalised, typed
/// markers stripped, the runs whose text changed and is now padded marked to
/// keep their whitespace, and then each repair's structural edit in the order
/// given.
pub open spec fn word_paragraph_fixed<F: Fn(&str) -> String>(old: Seq<Token>, new: Seq<Token>, fixes: Seq<FixView>, bullets: Seq<(char, Seq<char>)>, f: F) -> bool {
    exists|s1: Seq<Token>, s2: Seq<Token>, s3: Seq<Token>, s4: Seq<Token>|
        #![trigger w_controls_removed(old, s1, deletions(fixes)), w_forms_normalised(s1, s2, fixes, f), chained(s2, s3, fixes.len(), w_marker_link(fixes)), space_preserved(spec_runs(old, own_ranges(old)), s3, s4)]
        w_controls_removed(old, s1, deletions(fixes)) && w_forms_normalised(s1, s2, fixes, f)
            && chained(s2, s3, fixes.len(), w_marker_link(fixes))
            && space_preserved(spec_runs(old, own_ranges(old)), s3, s4)
            && chained(s4, new, fixes.len(), w_structure_link(fixes, bullets))
}

fn ensure_w_ppr(para: &mut Vec<Token>) -> (q: usize)
    requires
        opens_element(old(para)@, 0),
    ensures
        w_ppr_got(old(para)@, final(para)@, q as int),
        q < final(para)@.len(),
{
    let order = w_p_order_exec();
    child_or_insert(para, 0, &order, "w:pPr")
}

fn set_ppr_child(para: &mut Vec<Token>, child: &str, attr: &str, value: &str)
    ensures
        ppr_child_set(old(para)@, final(para)@, child@, attr@, value@),
{
    if opens(para, 0) {
        let q = ensure_w_ppr(para);
        let ghost m1 = para@;
        let order = w_ppr_order_exec();
        let c = child_or_insert(para, q, &order, child);
        let ghost m2 = para@;
        set_tag(para, c, attr, value);
        proof {
            assert(w_ppr_got(old(para)@, m1, q as int));
            assert(found_or_inserted(m1, m2, q as int, w_ppr_order(), child@, c as int));
        }
    }
}

fn set_bullet(para: &mut Vec<Token>, id: &str)
    ensures
        w_bullet_set(old(para)@, final(para)@, id@),
{
    if opens(para, 0) {
        let q = ensure_w_ppr(para);
        let ghost m1 = para@;
        let order = w_ppr_order_exec();
        let np = child_or_insert(para, q, &order, "w:numPr");
        let ghost m2 = para@;
        let norder = w_numpr_order_exec();
        let l = child_or_insert(para, np, &norder, "w:ilvl");
        let ghost m3 = para@;
        set_tag(para, l, "w:val", "0");
        let ghost m4 = para@;
        if opens(para, np) {
            let n = child_or_insert(para, np, &norder, "w:numId");
            let ghost m5 = para@;
            set_tag(para, n, "w:val", id);
            proof {
                assert(found_or_inserted(m4, m5, np as int, w_numpr_order(), "w:numId"@, n as int));
                assert(w_num_id_set(m4, para@, np as int, id@));
            }
        }
        proof {
            reveal_strlit("w:val");
            reveal_strlit("0");
            assert(w_ppr_got(old(para)@, m1, q as int));
            assert(found_or_inserted(m1, m2, q as int, w_ppr_order(), "w:numPr"@, np as int));
            assert(found_or_inserted(m2, m3, np as int, w_numpr_order(), "w:ilvl"@, l as int));
            assert(tag_set(m3, m4, l as int, "w:val"@, "0"@));
        }
    }
}

/// What is written on each run-property element.
enum WordRunEdit<'a> {
    Language(&'a str),
    ComplexFont(&'a str),
}

spec fn word_run_edit_spec(e: WordRunEdit) -> spec_fn(Seq<Token>, Seq<Token>, int) -> bool {
    match e {
        WordRunEdit::Language(v) => w_lang_edit(v@),
        WordRunEdit::ComplexFont(v) => w_font_edit(v@),
    }
}

fn edit_word_run_property(para: &mut Vec<Token>, at: usize, e: &WordRunEdit)
    requires
        opens_element(old(para)@, at as int),
    ensures
        word_run_edit_spec(*e)(old(para)@, final(para)@, at as int),
{
    let ghost before = para@;
    let order = w_rpr_order_exec();
    match e {
        WordRunEdit::Language(v) => {
            let c = child_or_insert(para, at, &order, "w:lang");
            let ghost mid = para@;
            set_tag(para, c, "w:bidi", v);
            proof {
                assert(found_or_inserted(before, mid, at as int, w_rpr_order(), "w:lang"@, c as int));
            }
        },
        WordRunEdit::ComplexFont(v) => {
            let c = child_or_insert(para, at, &order, "w:rFonts");
            let ghost mid = para@;
            set_tag(para, c, "w:cs", v);
            let ghost m2 = para@;
            remove_tag_attribute(para, c, "w:cstheme");
            proof {
                assert(found_or_inserted(before, mid, at as int, w_rpr_order(), "w:rFonts"@, c as int));
                assert(tag_set(mid, m2, c as int, "w:cs"@, v@));
            }
        },
    }
}

fn run_starts_exec(para: &Vec<Token>) -> (r: Vec<usize>)
    ensures
        r@.map_values(|k: usize| k as int) == run_starts(para@, para@.len() as int),
        forall|k: int| 0 <= k < r@.len() ==> #[trigger] r@[k] < para@.len(),
{
    let nest = nested_exec();
    let mut out: Vec<usize> = Vec::new();
    let mut i: usize = 0;
    while i < para.len()
        invariant
            i <= para@.len(),
            order_view(nest@) == nested(),
            out@.map_values(|k: usize| k as int) == run_starts(para@, i as int),
            forall|k: int| 0 <= k < out@.len() ==> #[trigger] out@[k] < i,
        decreases para@.len() - i,
    {
        let ghost before = out@;
        if is_named(&para[i], "w:r") && depth_at(para, i, &nest) == 0 {
            out.push(i);
            assert(out@.map_values(|k: usize| k as int) =~= before.map_values(|k: usize| k as int).push(i as int));
        } else {
            assert(out@.map_values(|k: usize| k as int) =~= before.map_values(|k: usize| k as int));
        }
        i += 1;
    }
    out
}

/// Edit every run-property element the paragraph owns, creating `w:rPr` for
/// own runs that lack one: runs back to front, then the paragraph mark's.
fn edit_word_run_properties(para: &mut Vec<Token>, e: &WordRunEdit)
    ensures
        w_run_properties_edited(old(para)@, final(para)@, word_run_edit_spec(*e)),
{
    let ghost start = para@;
    let kids = run_starts_exec(para);
    let ghost kv = kids@.map_values(|k: usize| k as int);
    let ghost link = w_run_link(kv, word_run_edit_spec(*e));
    let n = kids.len();
    let ghost mut states: Seq<Seq<Token>> = seq![start];
    proof {
        lemma_chain_start(start, link);
    }
    let rorder = w_r_order_exec();
    let mut j: usize = 0;
    while j < n
        invariant
            j <= n == kids@.len(),
            kv == kids@.map_values(|k: usize| k as int),
            kv == run_starts(start, start.len() as int),
            link == w_run_link(kv, word_run_edit_spec(*e)),
            order_view(rorder@) == w_r_order(),
            chain_of(states, j as nat, link),
            states[0] == start,
            states[j as int] == para@,
        decreases n - j,
    {
        let i = kids[n - 1 - j];
        let ghost before = para@;
        assert(kv[kv.len() - 1 - j] == i as int);
        if i < para.len() && is_named(&para[i], "w:r") {
            let p = child_or_insert(para, i, &rorder, "w:rPr");
            let ghost mid = para@;
            edit_word_run_property(para, p, e);
            proof {
                assert(found_or_inserted(before, mid, i as int, w_r_order(), "w:rPr"@, p as int));
            }
        }
        proof {
            assert(w_run_step(before, para@, i as int, word_run_edit_spec(*e)));
            lemma_chain_push(states, j as nat, link, para@);
            states = states.push(para@);
        }
        j += 1;
    }
    let ghost mid = para@;
    proof {
        assert(chained(start, mid, kv.len(), link));
    }
    if opens(para, 0) {
        proof {
            lemma_found_child(para@, 0, "w:pPr"@);
        }
        if let Some(pp) = find_direct_child(para, 0, "w:pPr") {
            proof {
                lemma_found_child(para@, pp as int, "w:rPr"@);
            }
            if let Some(r) = find_direct_child(para, pp, "w:rPr") {
                edit_word_run_property(para, r, e);
            }
        }
    }
    assert(w_mark_step(mid, para@, word_run_edit_spec(*e)));
}

fn own_text(para: &Vec<Token>) -> (r: Vec<std::ops::Range<usize>>)
    ensures
        range_pairs(r@) == own_ranges(para@),
        ordered_ranges(range_pairs(r@), para@.len() as int),
{
    let nest = nested_exec();
    text_content_ranges_outside(para, "w:t", &nest)
}

fn is_padded(s: &String) -> (r: bool)
    ensures
        r == padded(s@),
{
    let c = chars_of(s.as_str());
    c.len() > 0 && (is_whitespace(c[0]) || is_whitespace(c[c.len() - 1]))
}

fn text_differs(a: &String, b: &String) -> (r: bool)
    ensures
        r == (a@ != b@),
{
    !chars_eq(&chars_of(a.as_str()), &chars_of(b.as_str()))
}

/// Mark the own runs whose text changed, and now starts or ends with
/// whitespace, as significant-whitespace.
fn preserve_space(para: &mut Vec<Token>, before: &Vec<String>)
    ensures
        space_preserved(string_views(before@), old(para)@, final(para)@),
{
    let ranges = own_text(para);
    if ranges.len() != before.len() {
        return;
    }
    proof {
        assert forall|k: int| 0 <= k < ranges@.len() implies (#[trigger] ranges@[k]).start <= ranges@[k].end <= para@.len() by {
            assert(range_pairs(ranges@)[k] == (ranges@[k].start as int, ranges@[k].end as int));
        }
    }
    let after = read_runs(para, &ranges);
    let ghost start = para@;
    let ghost rs = range_pairs(ranges@);
    let ghost bv = string_views(before@);
    let ghost av = string_views(after@);
    let ghost link = preserve_link(rs, bv, av);
    let ghost mut states: Seq<Seq<Token>> = seq![start];
    proof {
        lemma_chain_start(start, link);
        assert(av.len() == rs.len());
    }
    let mut k: usize = 0;
    while k < ranges.len()
        invariant
            k <= ranges@.len() == before@.len(),
            rs == range_pairs(ranges@),
            rs == own_ranges(start),
            bv == string_views(before@),
            av == string_views(after@),
            av == spec_runs(start, rs),
            after@.len() == ranges@.len(),
            link == preserve_link(rs, bv, av),
            chain_of(states, k as nat, link),
            states[0] == start,
            states[k as int] == para@,
        decreases ranges@.len() - k,
    {
        let ghost cur = para@;
        assert(rs[k as int] == (ranges@[k as int].start as int, ranges@[k as int].end as int));
        assert(bv[k as int] == before@[k as int]@ && av[k as int] == after@[k as int]@);
        if text_differs(&before[k], &after[k]) && is_padded(&after[k]) && ranges[k].start > 0 {
            set_tag(para, ranges[k].start - 1, "xml:space", "preserve");
        }
        proof {
            reveal_strlit("xml:space");
            reveal_strlit("preserve");
            assert(link(k as int, cur, para@));
            lemma_chain_push(states, k as nat, link, para@);
            states = states.push(para@);
        }
        k += 1;
    }
}

/// Apply every repair for one paragraph, whose events are `para`.
///
/// A repair Word cannot express — a physical edge, or a typed bullet with no
/// list in `bullets` to join — refuses the paragraph before anything is
/// changed. Otherwise text first, in a fixed order whatever order the repairs
/// arrived in: the deletions of every repair in one pass, because they index
/// the same scanned text, then presentation forms normalised with
/// `normalize`, then typed markers stripped, and the runs whose text changed
/// and now start or end with whitespace marked to keep it. Then each
/// repair's structural edit, in order.
pub fn apply_to_paragraph<F: Fn(&str) -> String>(part: &str, para: &mut Vec<Token>, fixes: &[Fix], bullets: &Bullets, normalize: &F)
    -> (r: Result<(), Error>)
    requires
        forall|s: &str| call_requires(normalize, (s,)),
    ensures
        r is Err <==> para_refusal(part@, fix_views(fixes@), bullets_view(bullets@)) is Some,
        r matches Err(e) ==> e == Error::Format(e->Format_0)
            && para_refusal(part@, fix_views(fixes@), bullets_view(bullets@)) == Some(e->Format_0@)
            && final(para)@ == old(para)@,
        r is Ok ==> word_paragraph_fixed(old(para)@, final(para)@, fix_views(fixes@), bullets_view(bullets@), normalize),
{
    if let Some(e) = para_refusal_exec(part, fixes, bullets) {
        return Err(e);
    }
    let ghost fv = fix_views(fixes@);
    let ghost bv = bullets_view(bullets@);
    let ghost s0 = para@;
    let n = fixes.len();

    let first_ranges = own_text(para);
    proof {
        assert forall|k: int| 0 <= k < first_ranges@.len() implies (#[trigger] first_ranges@[k]).start <= first_ranges@[k].end <= para@.len() by {
            assert(range_pairs(first_ranges@)[k] == (first_ranges@[k].start as int, first_ranges@[k].end as int));
        }
    }
    let text_before = read_runs(para, &first_ranges);

    // Deletions, in one pass.
    let dels = collect_deletions(fixes);
    if dels.len() > 0 {
        let ranges = own_text(para);
        remove_at_offsets_in(para, &ranges, dels.as_slice());
    } else {
        assert(deletions(fv).len() == 0);
    }
    let ghost s1 = para@;
    assert(w_controls_removed(s0, s1, deletions(fv)));

    // Presentation forms, once, if any repair asks.
    if asks_normalisation(fixes) {
        let ranges = own_text(para);
        map_ranges(para, &ranges, normalize);
    }
    let ghost s2 = para@;
    assert(w_forms_normalised(s1, s2, fv, normalize));

    // Typed markers.
    let ghost mut st2: Seq<Seq<Token>> = seq![s2];
    proof {
        lemma_chain_start(s2, w_marker_link(fv));
    }
    let mut k: usize = 0;
    while k < n
        invariant
            k <= n == fixes@.len(),
            fv == fix_views(fixes@),
            chain_of(st2, k as nat, w_marker_link(fv)),
            st2[0] == s2,
            st2[k as int] == para@,
        decreases n - k,
    {
        if let Fix::ConvertLiteralBullet { marker } = &fixes[k] {
            let ranges = own_text(para);
            strip_leading_marker_in(para, &ranges, *marker);
        }
        proof {
            lemma_chain_push(st2, k as nat, w_marker_link(fv), para@);
            st2 = st2.push(para@);
        }
        k += 1;
    }
    let ghost s3 = para@;
    proof {
        assert(chained(s2, s3, fv.len(), w_marker_link(fv)));
    }

    preserve_space(para, &text_before);
    let ghost s4 = para@;

    // Structure, in the order given.
    let ghost mut st3: Seq<Seq<Token>> = seq![s4];
    proof {
        lemma_chain_start(s4, w_structure_link(fv, bv));
    }
    let mut k: usize = 0;
    while k < n
        invariant
            k <= n == fixes@.len(),
            fv == fix_views(fixes@),
            bv == bullets_view(bullets@),
            para_refusal(part@, fv, bv) is None,
            chain_of(st3, k as nat, w_structure_link(fv, bv)),
            st3[0] == s4,
            st3[k as int] == para@,
        decreases n - k,
    {
        proof {
            lemma_para_refusal_none(part@, fv, bv, k as int);
        }
        match &fixes[k] {
            Fix::SetDirection(d) => set_ppr_child(para, "w:bidi", "w:val", on_off_exec(*d)),
            Fix::SetAlignment(a) => {
                if let Some(v) = word_alignment_exec(*a) {
                    set_ppr_child(para, "w:jc", "w:val", v);
                }
            },
            Fix::SetLanguage(v) => edit_word_run_properties(para, &WordRunEdit::Language(v.as_str())),
            Fix::SetComplexFont(v) => edit_word_run_properties(para, &WordRunEdit::ComplexFont(v.as_str())),
            Fix::ConvertLiteralBullet { marker } => {
                if let Some(id) = find_bullet(bullets, *marker) {
                    set_bullet(para, id.as_str());
                }
            },
            Fix::RemoveControls(_) | Fix::RemoveTatweel(_) | Fix::NormalizePresentationForms => {},
        }
        proof {
            reveal_strlit("w:bidi");
            reveal_strlit("w:jc");
            reveal_strlit("w:val");
            lemma_chain_push(st3, k as nat, w_structure_link(fv, bv), para@);
            st3 = st3.push(para@);
        }
        k += 1;
    }
    proof {
        assert(chained(s4, para@, fv.len(), w_structure_link(fv, bv)));
        assert(string_views(text_before@) == spec_runs(s0, own_ranges(s0)));
        assert(space_preserved(spec_runs(s0, own_ranges(s0)), s3, s4));
    }
    Ok(())
}

/// No repair of a list that refuses nothing is refused.
proof fn lemma_para_refusal_none(part: Seq<char>, fixes: Seq<FixView>, bullets: Seq<(char, Seq<char>)>, k: int)
    requires
        para_refusal(part, fixes, bullets) is None,
        0 <= k < fixes.len(),
    ensures
        fix_refusal(part, fixes[k], bullets) is None,
    decreases k,
{
    if k > 0 {
        lemma_para_refusal_none(part, fixes.drop_first(), bullets, k - 1);
        assert(fixes.drop_first()[k - 1] == fixes[k]);
    }
}


// ------------------------------------------------------------ tables

/// A table's direction set: its `w:tblPr` found or created first in the
/// table, `w:bidiVisual` found or created inside that in schema position,
/// and `@w:val` written on it — when `at` opens an element at all.
pub open spec fn w_table_step(old: Seq<Token>, new: Seq<Token>, at: int, d: Direction) -> bool {
    if opens_element(old, at) {
        exists|m1: Seq<Token>, p: int, m2: Seq<Token>, q: int|
            #![trigger found_or_inserted(old, m1, at, w_tbl_order(), "w:tblPr"@, p), found_or_inserted(m1, m2, p, w_tblpr_order(), "w:bidiVisual"@, q)]
            found_or_inserted(old, m1, at, w_tbl_order(), "w:tblPr"@, p) && opens_element(m1, p)
                && found_or_inserted(m1, m2, p, w_tblpr_order(), "w:bidiVisual"@, q) && opens_element(m2, q)
                && tag_set(m2, new, q, "w:val"@, on_off(d))
    } else {
        new == old
    }
}

/// Step `i` of a table's repairs: the `i`th repair, a direction, lands on
/// the table at `at`.
pub open spec fn w_table_link(fixes: Seq<FixView>, at: int) -> spec_fn(int, Seq<Token>, Seq<Token>) -> bool {
    |i: int, a: Seq<Token>, b: Seq<Token>|
        match fixes[i] {
            FixView::SetDirection(d) => w_table_step(a, b, at, d),
            _ => false,
        }
}

/// Each direction repair in turn, on the table at `at`.
pub open spec fn w_table_fixed(old: Seq<Token>, new: Seq<Token>, at: int, fixes: Seq<FixView>) -> bool {
    chained(old, new, fixes.len(), w_table_link(fixes, at))
}

/// Apply every repair for one table, whose `w:tbl` starts at `at`. A
/// table's one property of its own is its direction, `w:tblPr/w:bidiVisual`;
/// anything else a plan names on a table is refused rather than guessed at.
pub fn apply_to_table(part: &str, events: &mut Vec<Token>, at: usize, fixes: &[Fix]) -> (r: Result<(), Error>)
    ensures
        r is Ok <==> only_directions(fix_views(fixes@)),
        r is Ok ==> w_table_fixed(old(events)@, final(events)@, at as int, fix_views(fixes@)),
        r matches Err(e) ==> first_other(fix_views(fixes@)) matches Some(f)
            && e == Error::Format(e->Format_0) && e->Format_0@ == refusal(part@, f, table_refusal()),
        r is Err ==> final(events)@ == old(events)@,
{
    let ghost fv = fix_views(fixes@);
    let ghost start = events@;
    proof {
        lemma_first_other(fv);
    }
    if let Some(f) = first_other_exec(fixes) {
        return Err(refuse(part, f, "a table; only its direction is a table's own"));
    }
    let order = w_tbl_order_exec();
    let inner = w_tblpr_order_exec();
    let mut k: usize = 0;
    let ghost mut states: Seq<Seq<Token>> = seq![start];
    proof {
        lemma_chain_start(start, w_table_link(fv, at as int));
    }
    while k < fixes.len()
        invariant
            k <= fixes@.len(),
            fv == fix_views(fixes@),
            fv.len() == fixes@.len(),
            only_directions(fv),
            order_view(order@) == w_tbl_order(),
            order_view(inner@) == w_tblpr_order(),
            chain_of(states, k as nat, w_table_link(fv, at as int)),
            states[0] == start,
            states[k as int] == events@,
        decreases fixes@.len() - k,
    {
        assert(fv[k as int] is SetDirection);
        if let Fix::SetDirection(d) = &fixes[k] {
            let ghost mid = events@;
            if opens(events, at) {
                let p = child_or_insert(events, at, &order, "w:tblPr");
                let ghost m1 = events@;
                let q = child_or_insert(events, p, &inner, "w:bidiVisual");
                let ghost m2 = events@;
                set_tag(events, q, "w:val", on_off_exec(*d));
                proof {
                    assert(found_or_inserted(mid, m1, at as int, w_tbl_order(), "w:tblPr"@, p as int));
                    assert(found_or_inserted(m1, m2, p as int, w_tblpr_order(), "w:bidiVisual"@, q as int));
                }
            }
            proof {
                assert(fv[k as int] == FixView::SetDirection(*d));
                assert(w_table_step(mid, events@, at as int, *d));
                lemma_chain_push(states, k as nat, w_table_link(fv, at as int), events@);
                states = states.push(events@);
            }
        }
        k += 1;
    }
    Ok(())
}

// ------------------------------------------------------------ a whole part

/// Everything to change in one part of a Word document: repairs keyed by
/// paragraph index and by table index, each 1-based and counted as the
/// scanner counts them — every `w:p` or `w:tbl` in the part, those inside an
/// `mc:Fallback` excepted.
pub struct PartPlan {
    pub paragraphs: ByIndex<Vec<Fix>>,
    pub tables: ByIndex<Vec<Fix>>,
}

/// How many repairs a Word part's plan carries.
pub open spec fn word_plan_count(p: PartPlan) -> nat {
    count(p.paragraphs) + count(p.tables)
}

impl PartPlan {
    pub fn new() -> (p: Self)
        ensures
            p.paragraphs@ == Map::<usize, Vec<Fix>>::empty(),
            p.tables@ == Map::<usize, Vec<Fix>>::empty(),
            p.paragraphs.key_order() == Seq::<usize>::empty(),
            p.tables.key_order() == Seq::<usize>::empty(),
            word_plan_count(p) == 0,
    {
        PartPlan { paragraphs: ByIndex::new(), tables: ByIndex::new() }
    }

    /// How many repairs the plan carries.
    pub fn len(&self) -> (n: usize)
        requires
            word_plan_count(*self) <= usize::MAX,
        ensures
            n == word_plan_count(*self),
    {
        let a = count_of(&self.paragraphs);
        let b = count_of(&self.tables);
        a + b
    }

    pub fn is_empty(&self) -> (r: bool)
        ensures
            r <==> word_plan_count(*self) == 0,
    {
        holds_no_repair(&self.paragraphs) && holds_no_repair(&self.tables)
    }
}

impl Default for PartPlan {
    fn default() -> (p: Self)
        ensures
            p.paragraphs@ == Map::<usize, Vec<Fix>>::empty(),
            p.tables@ == Map::<usize, Vec<Fix>>::empty(),
            word_plan_count(p) == 0,
    {
        PartPlan::new()
    }
}

/// Every element called `name` in a part, counted as the scanner counts them.
pub open spec fn counted(ev: Seq<Token>, name: Seq<char>) -> Seq<(int, int, int)> {
    ranges_counted(ev, name, ev.len() as int, uncounted())
}

/// Where the `k`th counted element called `name` begins and ends.
pub open spec fn located(ev: Seq<Token>, name: Seq<char>, k: usize) -> Option<(int, int)> {
    let rs = counted(ev, name);
    if 1 <= k <= rs.len() {
        Some((rs[k - 1].1, rs[k - 1].2))
    } else {
        None
    }
}

proof fn lemma_counted_bounds(ev: Seq<Token>, name: Seq<char>, n: int, u: Seq<Seq<char>>)
    requires
        n <= ev.len(),
    ensures
        forall|j: int| 0 <= j < ranges_counted(ev, name, n, u).len() ==> {
            let e = #[trigger] ranges_counted(ev, name, n, u)[j];
            &&& 0 <= e.1 < e.2 <= ev.len()
            &&& opens_element(ev, e.1)
            &&& opened_name(ev[e.1]) == Some(name)
        },
    decreases n,
{
    if n > 0 {
        lemma_counted_bounds(ev, name, n - 1, u);
        let before = ranges_counted(ev, name, n - 1, u);
        let all = ranges_counted(ev, name, n, u);
        if opened_name(ev[n - 1]) == Some(name) {
            lemma_element_end_bounds(ev, n - 1);
        }
        assert forall|j: int| 0 <= j < all.len() implies {
            let e = #[trigger] all[j];
            &&& 0 <= e.1 < e.2 <= ev.len()
            &&& opens_element(ev, e.1)
            &&& opened_name(ev[e.1]) == Some(name)
        } by {
            if j < before.len() {
                assert(all[j] == before[j]);
            }
        }
    }
}

proof fn lemma_depth_local(a: Seq<Token>, b: Seq<Token>, i: int, n: int, u: Seq<Seq<char>>)
    requires
        0 <= i <= n <= a.len(),
        n <= b.len(),
        a.take(n) == b.take(n),
    ensures
        depth_before(a, i, u) == depth_before(b, i, u),
    decreases i,
{
    if i > 0 {
        lemma_depth_local(a, b, i - 1, n, u);
        assert(a[i - 1] == a.take(n)[i - 1]);
        assert(b[i - 1] == b.take(n)[i - 1]);
    }
}

/// How many elements are counted among the first `m` tokens depends on those
/// tokens alone.
proof fn lemma_counted_local(a: Seq<Token>, b: Seq<Token>, name: Seq<char>, m: int, n: int, u: Seq<Seq<char>>)
    requires
        0 <= m <= n <= a.len(),
        n <= b.len(),
        a.take(n) == b.take(n),
    ensures
        ranges_counted(a, name, m, u).len() == ranges_counted(b, name, m, u).len(),
    decreases m,
{
    if m > 0 {
        lemma_counted_local(a, b, name, m - 1, n, u);
        lemma_depth_local(a, b, m - 1, n, u);
        assert(a[m - 1] == a.take(n)[m - 1]);
        assert(b[m - 1] == b.take(n)[m - 1]);
    }
}

proof fn lemma_counted_grows(ev: Seq<Token>, name: Seq<char>, m: int, n: int, u: Seq<Seq<char>>)
    requires
        0 <= m <= n,
    ensures
        ranges_counted(ev, name, m, u).len() <= ranges_counted(ev, name, n, u).len(),
    decreases n - m,
{
    if m < n {
        lemma_counted_grows(ev, name, m, n - 1, u);
    }
}

/// The `j`th counted element has exactly `j` counted before it.
proof fn lemma_counted_before(ev: Seq<Token>, name: Seq<char>, n: int, u: Seq<Seq<char>>)
    requires
        0 <= n,
    ensures
        forall|j: int| 0 <= j < ranges_counted(ev, name, n, u).len() ==> {
            let e = #[trigger] ranges_counted(ev, name, n, u)[j];
            &&& 0 <= e.1 < n
            &&& ranges_counted(ev, name, e.1, u).len() == j
        },
    decreases n,
{
    if n > 0 {
        lemma_counted_before(ev, name, n - 1, u);
        let before = ranges_counted(ev, name, n - 1, u);
        let all = ranges_counted(ev, name, n, u);
        assert forall|j: int| 0 <= j < all.len() implies {
            let e = #[trigger] all[j];
            &&& 0 <= e.1 < n
            &&& ranges_counted(ev, name, e.1, u).len() == j
        } by {
            if j < before.len() {
                assert(all[j] == before[j]);
            }
        }
    }
}

/// Every key numbers an element when none is missing.
proof fn lemma_none_missing(keys: Seq<usize>, n: int)
    requires
        first_missing(keys, n) is None,
    ensures
        forall|i: int| 0 <= i < keys.len() ==> 1 <= #[trigger] keys[i] <= n,
    decreases keys.len(),
{
    if keys.len() > 0 {
        lemma_none_missing(keys.drop_first(), n);
        assert forall|i: int| 0 <= i < keys.len() implies 1 <= #[trigger] keys[i] <= n by {
            if i > 0 {
                assert(keys[i] == keys.drop_first()[i - 1]);
            }
        }
    }
}

/// Splicing new tokens in place of an element leaves every element before
/// it where it was: each key below the element's own still numbers one.
proof fn lemma_splice_keeps_earlier(old: Seq<Token>, new: Seq<Token>, name: Seq<char>, k: usize, p: Seq<Token>, key: usize)
    requires
        located(old, name, k) matches Some(se) && new == old.take(se.0) + p + old.skip(se.1),
        1 <= key < k,
    ensures
        located(new, name, key) is Some,
{
    let se = located(old, name, k)->Some_0;
    let u = uncounted();
    lemma_counted_bounds(old, name, old.len() as int, u);
    lemma_counted_before(old, name, old.len() as int, u);
    let s = se.0;
    assert(ranges_counted(old, name, s, u).len() == k - 1);
    assert(new.take(s) =~= old.take(s));
    lemma_counted_local(old, new, name, s, s, u);
    lemma_counted_grows(new, name, s, new.len() as int, u);
}

/// Find the `k`th counted element called `name`, or the error that says the
/// report and the document have come apart.
fn locate(part: &str, events: &[Token], name: &str, k: usize, what: &str) -> (r: Result<(usize, usize), Error>)
    ensures
        r is Ok <==> located(events@, name@, k) is Some,
        r matches Ok((s, e)) ==> located(events@, name@, k) == Some((s as int, e as int)) && s < e <= events@.len()
            && opens_element(events@, s as int),
        r matches Err(e) ==> e == Error::Format(e->Format_0) && e->Format_0@ == missing_message(part@, what@, k),
{
    let u = uncounted_exec();
    let ranges = element_ranges_outside(events, name, &u);
    proof {
        lemma_counted_bounds(events@, name@, events@.len() as int, uncounted());
    }
    if 1 <= k && k <= ranges.len() {
        let s = ranges[k - 1].1.start;
        let e = ranges[k - 1].1.end;
        assert(range_views(ranges@)[k - 1] == (ranges@[k - 1].0 as int, s as int, e as int));
        Ok((s, e))
    } else {
        Err(Error::Format(missing_message_exec(part, what, k)))
    }
}


/// The first key, in increasing order, that numbers none of the part's
/// counted elements called `name`, as the error it is refused with.
pub open spec fn w_missing(part: Seq<char>, ev: Seq<Token>, r: (Map<usize, Vec<Fix>>, Seq<usize>), name: Seq<char>, what: Seq<char>) -> Option<Seq<char>> {
    match first_missing(r.1, counted(ev, name).len() as int) {
        Some(k) => Some(missing_message(part, what, k)),
        None => None,
    }
}

/// The refusal of the last paragraph, in key order, whose repairs Word
/// cannot write.
pub open spec fn last_para_refused(part: Seq<char>, m: Map<usize, Vec<Fix>>, keys: Seq<usize>, bullets: Seq<(char, Seq<char>)>) -> Option<Seq<char>>
    decreases keys.len(),
{
    if keys.len() == 0 {
        None
    } else {
        match para_refusal(part, fix_views(m[keys.last()]@), bullets) {
            Some(s) => Some(s),
            None => last_para_refused(part, m, keys.drop_last(), bullets),
        }
    }
}

/// Why a plan is refused on a part, if it is: the first paragraph key, then
/// the first table key, that numbers nothing in the part; then the last
/// paragraph given a repair Word cannot write; then the last table given a
/// repair that is not a direction.
pub open spec fn word_plan_refusal(
    part: Seq<char>,
    ev: Seq<Token>,
    paragraphs: (Map<usize, Vec<Fix>>, Seq<usize>),
    tables: (Map<usize, Vec<Fix>>, Seq<usize>),
    bullets: Seq<(char, Seq<char>)>,
) -> Option<Seq<char>> {
    let r1 = w_missing(part, ev, paragraphs, "w:p"@, "paragraph"@);
    let r2 = w_missing(part, ev, tables, "w:tbl"@, "table"@);
    let r3 = last_para_refused(part, paragraphs.0, paragraphs.1, bullets);
    let r4 = refused_in(part, tables, table_refusal());
    if r1 is Some {
        r1
    } else if r2 is Some {
        r2
    } else if r3 is Some {
        r3
    } else {
        r4
    }
}

fn w_missing_exec(part: &str, events: &[Token], r: &ByIndex<Vec<Fix>>, name: &str, what: &str) -> (m: Option<String>)
    ensures
        m matches Some(s) ==> w_missing(part@, events@, listing(*r), name@, what@) == Some(s@),
        m is None ==> w_missing(part@, events@, listing(*r), name@, what@) is None,
{
    let u = uncounted_exec();
    let ranges = element_ranges_outside(events, name, &u);
    let n = ranges.len();
    assert(range_views(ranges@).len() == n);
    let keys = r.keys();
    let ghost ks = r.key_order();
    let mut i: usize = 0;
    assert(ks.skip(0) =~= ks);
    while i < keys.len()
        invariant
            i <= keys@.len(),
            keys@ == ks,
            ks == r.key_order(),
            n == counted(events@, name@).len(),
            first_missing(ks, n as int) == first_missing(ks.skip(i as int), n as int),
        decreases keys@.len() - i,
    {
        assert(ks.skip(i as int)[0] == keys@[i as int]);
        assert(ks.skip(i as int).drop_first() =~= ks.skip(i + 1));
        let k = keys[i];
        if k < 1 || k > n {
            assert(first_missing(ks, n as int) == Some(k));
            return Some(missing_message_exec(part, what, k));
        }
        i += 1;
    }
    None
}

fn last_para_refused_exec(part: &str, r: &ByIndex<Vec<Fix>>, bullets: &Bullets) -> (m: Option<String>)
    ensures
        m matches Some(s) ==> last_para_refused(part@, r@, r.key_order(), bullets_view(bullets@)) == Some(s@),
        m is None ==> last_para_refused(part@, r@, r.key_order(), bullets_view(bullets@)) is None,
{
    let ghost bv = bullets_view(bullets@);
    let keys = r.keys();
    let ghost ks = r.key_order();
    let mut i: usize = keys.len();
    assert(ks.take(ks.len() as int) =~= ks);
    while i > 0
        invariant
            i <= keys@.len(),
            keys@ == ks,
            ks == r.key_order(),
            bv == bullets_view(bullets@),
            forall|k: usize| r@.contains_key(k) <==> keys@.contains(k),
            last_para_refused(part@, r@, ks, bv) == last_para_refused(part@, r@, ks.take(i as int), bv),
        decreases i,
    {
        let k = keys[i - 1];
        assert(ks.take(i as int).last() == k);
        assert(ks.take(i as int).drop_last() =~= ks.take(i - 1));
        assert(keys@.contains(k)) by {
            assert(keys@[i - 1] == k);
        }
        let list = r.get(k).unwrap();
        match para_refusal_exec(part, list.as_slice(), bullets) {
            Some(Error::Format(s)) => {
                return Some(s);
            },
            Some(_) => {
                return None;
            },
            None => {},
        }
        i -= 1;
    }
    None
}

proof fn lemma_none_para_refused(part: Seq<char>, m: Map<usize, Vec<Fix>>, keys: Seq<usize>, bullets: Seq<(char, Seq<char>)>)
    requires
        last_para_refused(part, m, keys, bullets) is None,
    ensures
        forall|i: int| 0 <= i < keys.len() ==> para_refusal(part, fix_views(m[#[trigger] keys[i]]@), bullets) is None,
    decreases keys.len(),
{
    if keys.len() > 0 {
        lemma_none_para_refused(part, m, keys.drop_last(), bullets);
        assert forall|i: int| 0 <= i < keys.len() implies para_refusal(part, fix_views(m[#[trigger] keys[i]]@), bullets) is None by {
            if i < keys.len() - 1 {
                assert(keys[i] == keys.drop_last()[i]);
            }
        }
    }
}

/// Turn "no paragraph key is refused" into a statement over the map.
fn paragraphs_accepted(part: &str, r: &ByIndex<Vec<Fix>>, bullets: &Bullets)
    requires
        last_para_refused(part@, r@, r.key_order(), bullets_view(bullets@)) is None,
    ensures
        forall|k: usize| r@.contains_key(k) ==> para_refusal(part@, fix_views(#[trigger] r@[k]@), bullets_view(bullets@)) is None,
{
    let keys = r.keys();
    proof {
        lemma_none_para_refused(part@, r@, r.key_order(), bullets_view(bullets@));
        assert forall|k: usize| r@.contains_key(k) implies para_refusal(part@, fix_views(#[trigger] r@[k]@), bullets_view(bullets@)) is None by {
            assert(keys@.contains(k));
            let i = choose|i: int| 0 <= i < keys@.len() && keys@[i] == k;
            assert(r.key_order()[i] == k);
        }
    }
}

/// Why a plan is refused on a part, if it is.
fn word_refusal_of(part: &str, events: &[Token], plan: &PartPlan, bullets: &Bullets) -> (m: Option<String>)
    ensures
        m matches Some(s) ==> word_plan_refusal(part@, events@, listing(plan.paragraphs), listing(plan.tables), bullets_view(bullets@)) == Some(s@),
        m is None ==> word_plan_refusal(part@, events@, listing(plan.paragraphs), listing(plan.tables), bullets_view(bullets@)) is None,
{
    if let Some(m) = w_missing_exec(part, events, &plan.paragraphs, "w:p", "paragraph") {
        return Some(m);
    }
    if let Some(m) = w_missing_exec(part, events, &plan.tables, "w:tbl", "table") {
        return Some(m);
    }
    if let Some(m) = last_para_refused_exec(part, &plan.paragraphs, bullets) {
        return Some(m);
    }
    refused_exec(part, &plan.tables, "a table; only its direction is a table's own")
}

/// Step `j` of the paragraph pass: the plan's paragraphs back to front, each
/// found afresh in the part as it then stands — a paragraph in a text box
/// sits inside another, and repairing the inner one moves the outer one's
/// end — given its repairs and spliced back in place.
pub open spec fn w_paragraph_link<F: Fn(&str) -> String>(keys: Seq<usize>, pm: Map<usize, Vec<Fix>>, bullets: Seq<(char, Seq<char>)>, f: F) -> spec_fn(int, Seq<Token>, Seq<Token>) -> bool {
    |j: int, a: Seq<Token>, b: Seq<Token>| w_paragraph_step(a, b, keys[keys.len() - 1 - j], pm, bullets, f)
}

/// Paragraph `k` found in the part as it stands, given its repairs and
/// spliced back in place.
pub open spec fn w_paragraph_step<F: Fn(&str) -> String>(a: Seq<Token>, b: Seq<Token>, k: usize, pm: Map<usize, Vec<Fix>>, bullets: Seq<(char, Seq<char>)>, f: F) -> bool {
    match located(a, "w:p"@, k) {
        Some(se) => exists|p: Seq<Token>|
            #[trigger] word_paragraph_fixed(a.subrange(se.0, se.1), p, fix_views(pm[k]@), bullets, f)
                && b == a.take(se.0) + p + a.skip(se.1),
        None => false,
    }
}

/// Every paragraph the plan names given its repairs.
pub open spec fn w_paragraphs_applied<F: Fn(&str) -> String>(old: Seq<Token>, new: Seq<Token>, r: (Map<usize, Vec<Fix>>, Seq<usize>), bullets: Seq<(char, Seq<char>)>, f: F) -> bool {
    chained(old, new, r.1.len(), w_paragraph_link(r.1, r.0, bullets, f))
}

/// Step `j` of the table pass: the plan's tables back to front, each found
/// afresh, given its directions.
pub open spec fn w_table_pass_link(keys: Seq<usize>, tm: Map<usize, Vec<Fix>>) -> spec_fn(int, Seq<Token>, Seq<Token>) -> bool {
    |j: int, a: Seq<Token>, b: Seq<Token>| w_table_pass_step(a, b, keys[keys.len() - 1 - j], tm)
}

/// Table `k` found in the part as it stands and given its directions.
pub open spec fn w_table_pass_step(a: Seq<Token>, b: Seq<Token>, k: usize, tm: Map<usize, Vec<Fix>>) -> bool {
    match located(a, "w:tbl"@, k) {
        Some(se) => w_table_fixed(a, b, se.0, fix_views(tm[k]@)),
        None => false,
    }
}

/// Every table the plan names given its directions.
pub open spec fn w_tables_applied(old: Seq<Token>, new: Seq<Token>, r: (Map<usize, Vec<Fix>>, Seq<usize>)) -> bool {
    chained(old, new, r.1.len(), w_table_pass_link(r.1, r.0))
}

/// The table pass came to step `j` with the part standing at `mid`, and the
/// key whose turn it was numbered no table there.
pub open spec fn w_tables_stopped(old: Seq<Token>, mid: Seq<Token>, j: int, r: (Map<usize, Vec<Fix>>, Seq<usize>)) -> bool {
    &&& 0 <= j < r.1.len()
    &&& chained(old, mid, j as nat, w_table_pass_link(r.1, r.0))
    &&& located(mid, "w:tbl"@, r.1[r.1.len() - 1 - j]) is None
}

/// A whole plan applied to a part's tokens: the paragraphs, then the tables.
pub open spec fn word_plan_applied<F: Fn(&str) -> String>(
    old: Seq<Token>,
    new: Seq<Token>,
    paragraphs: (Map<usize, Vec<Fix>>, Seq<usize>),
    tables: (Map<usize, Vec<Fix>>, Seq<usize>),
    bullets: Seq<(char, Seq<char>)>,
    f: F,
) -> bool {
    exists|s1: Seq<Token>| #[trigger] w_paragraphs_applied(old, s1, paragraphs, bullets, f) && w_tables_applied(s1, new, tables)
}

/// The plan and the part came apart while the plan was applied: a table key,
/// when its turn came, numbered no table in the part as the paragraph
/// repairs before it had left it, and `msg` says which.
pub open spec fn word_plan_stopped<F: Fn(&str) -> String>(
    part: Seq<char>,
    old: Seq<Token>,
    paragraphs: (Map<usize, Vec<Fix>>, Seq<usize>),
    tables: (Map<usize, Vec<Fix>>, Seq<usize>),
    bullets: Seq<(char, Seq<char>)>,
    f: F,
    msg: Seq<char>,
) -> bool {
    exists|s1: Seq<Token>, mid: Seq<Token>, j: int|
        #![trigger w_paragraphs_applied(old, s1, paragraphs, bullets, f), w_tables_stopped(s1, mid, j, tables)]
        w_paragraphs_applied(old, s1, paragraphs, bullets, f) && w_tables_stopped(s1, mid, j, tables)
            && msg == missing_message(part, "table"@, tables.1[tables.1.len() - 1 - j])
}

fn apply_w_paragraphs<F: Fn(&str) -> String>(part: &str, events: &mut Vec<Token>, plan: &ByIndex<Vec<Fix>>, bullets: &Bullets, normalize: &F)
    requires
        forall|s: &str| call_requires(normalize, (s,)),
        forall|k: usize| plan@.contains_key(k) ==> para_refusal(part@, fix_views(#[trigger] plan@[k]@), bullets_view(bullets@)) is None,
        forall|i: int| 0 <= i < plan.key_order().len() ==> 1 <= #[trigger] plan.key_order()[i] <= counted(old(events)@, "w:p"@).len(),
    ensures
        w_paragraphs_applied(old(events)@, final(events)@, listing(*plan), bullets_view(bullets@), normalize),
{
    let ghost start = events@;
    let ghost bv = bullets_view(bullets@);
    let keys = plan.keys();
    let ghost ks = plan.key_order();
    let ghost lk = w_paragraph_link(ks, plan@, bv, normalize);
    let n = keys.len();
    let ghost mut states: Seq<Seq<Token>> = seq![start];
    proof {
        lemma_chain_start(start, lk);
    }
    let mut j: usize = 0;
    while j < n
        invariant
            j <= n == keys@.len(),
            keys@ == ks,
            ks == plan.key_order(),
            forall|a: int, b: int| 0 <= a < b < keys@.len() ==> keys@[a] < keys@[b],
            bv == bullets_view(bullets@),
            lk == w_paragraph_link(ks, plan@, bv, normalize),
            forall|k: usize| plan@.contains_key(k) <==> keys@.contains(k),
            forall|s: &str| call_requires(normalize, (s,)),
            forall|k: usize| plan@.contains_key(k) ==> para_refusal(part@, fix_views(#[trigger] plan@[k]@), bv) is None,
            forall|i: int| 0 <= i < n - j ==> 1 <= #[trigger] ks[i] && located(events@, "w:p"@, ks[i]) is Some,
            chain_of(states, j as nat, lk),
            states[0] == start,
            start == old(events)@,
            states[j as int] == events@,
        decreases n - j,
    {
        let k = keys[n - 1 - j];
        assert(keys@.contains(k)) by {
            assert(keys@[n - 1 - j] == k);
        }
        let ghost before = events@;
        assert(ks[ks.len() - 1 - j] == k);
        assert(located(before, "w:p"@, ks[n - 1 - j]) is Some);
        if let Ok((from, to)) = locate(part, events, "w:p", k, "paragraph") {
            let list = plan.get(k).unwrap();
            let mut para = copy_range(events, from, to);
            if apply_to_paragraph(part, &mut para, list.as_slice(), bullets, normalize).is_ok() {
                let ghost p = para@;
                splice_tokens(events, from, to, para);
                proof {
                    assert(located(before, "w:p"@, k) == Some((from as int, to as int)));
                    assert(word_paragraph_fixed(before.subrange(from as int, to as int), p, fix_views(plan@[k]@), bv, normalize));
                    assert(events@ == before.take(from as int) + p + before.skip(to as int));
                    let se = located(before, "w:p"@, k)->Some_0;
                    assert(se == (from as int, to as int));
                    assert(word_paragraph_fixed(before.subrange(se.0, se.1), p, fix_views(plan@[k]@), bv, normalize)
                        && events@ == before.take(se.0) + p + before.skip(se.1));
                    assert(w_paragraph_step(before, events@, k, plan@, bv, normalize));
                    lemma_chain_push(states, j as nat, lk, events@);
                    states = states.push(events@);
                    assert forall|i: int| 0 <= i < n - (j + 1) implies 1 <= #[trigger] ks[i] && located(events@, "w:p"@, ks[i]) is Some by {
                        assert(ks[i] < k);
                        lemma_splice_keeps_earlier(before, events@, "w:p"@, k, p, ks[i]);
                    }
                }
            }
        }
        j += 1;
    }
}

fn apply_w_tables(part: &str, events: &mut Vec<Token>, plan: &ByIndex<Vec<Fix>>) -> (r: Result<(), Error>)
    requires
        forall|k: usize| plan@.contains_key(k) ==> only_directions(fix_views(#[trigger] plan@[k]@)),
    ensures
        r is Ok ==> w_tables_applied(old(events)@, final(events)@, listing(*plan)),
        r matches Err(e) ==> e == Error::Format(e->Format_0) && exists|mid: Seq<Token>, j: int|
            #[trigger] w_tables_stopped(old(events)@, mid, j, listing(*plan))
                && e->Format_0@ == missing_message(part@, "table"@, plan.key_order()[plan.key_order().len() - 1 - j]),
{
    let ghost start = events@;
    let keys = plan.keys();
    let ghost ks = plan.key_order();
    let ghost lk = w_table_pass_link(ks, plan@);
    let n = keys.len();
    let ghost mut states: Seq<Seq<Token>> = seq![start];
    proof {
        lemma_chain_start(start, lk);
    }
    let mut j: usize = 0;
    while j < n
        invariant
            j <= n == keys@.len(),
            keys@ == ks,
            ks == plan.key_order(),
            lk == w_table_pass_link(ks, plan@),
            forall|k: usize| plan@.contains_key(k) <==> keys@.contains(k),
            forall|k: usize| plan@.contains_key(k) ==> only_directions(fix_views(#[trigger] plan@[k]@)),
            chain_of(states, j as nat, lk),
            states[0] == start,
            start == old(events)@,
            states[j as int] == events@,
        decreases n - j,
    {
        let k = keys[n - 1 - j];
        assert(keys@.contains(k)) by {
            assert(keys@[n - 1 - j] == k);
        }
        let ghost before = events@;
        match locate(part, events, "w:tbl", k, "table") {
            Err(e) => {
                proof {
                    assert(keys@[n - 1 - j] == k);
                    assert(ks[ks.len() - 1 - j] == k);
                    assert(chain_of(states, j as nat, lk));
                    assert(w_tables_stopped(start, before, j as int, listing(*plan)));
                    assert(e->Format_0@ == missing_message(part@, "table"@, plan.key_order()[plan.key_order().len() - 1 - j]));
                }
                return Err(e);
            },
            Ok((from, _to)) => {
                let list = plan.get(k).unwrap();
                apply_to_table(part, events, from, list.as_slice())?;
                proof {
                    lemma_chain_push(states, j as nat, lk, events@);
                    states = states.push(events@);
                }
            },
        }
        j += 1;
    }
    Ok(())
}

/// Apply a whole plan to a part's tokens. Refused, with the reason, when the
/// plan names a paragraph or a table the part lacks, asks a paragraph for an
/// alignment Word cannot spell or a list the document does not define, or
/// gives a table a repair that is not its direction; otherwise every token
/// the plan does not address comes out as it went in.
pub fn apply_events<F: Fn(&str) -> String>(part: &str, events: Vec<Token>, plan: &PartPlan, bullets: &Bullets, normalize: &F)
    -> (r: Result<Vec<Token>, Error>)
    requires
        forall|s: &str| call_requires(normalize, (s,)),
    ensures
        r matches Err(e) ==> e == Error::Format(e->Format_0),
        word_plan_refusal(part@, events@, listing(plan.paragraphs), listing(plan.tables), bullets_view(bullets@)) matches Some(m)
            ==> (r matches Err(e) && e->Format_0@ == m),
        r matches Err(e) ==> word_plan_refusal(part@, events@, listing(plan.paragraphs), listing(plan.tables), bullets_view(bullets@)) == Some(e->Format_0@)
            || (word_plan_refusal(part@, events@, listing(plan.paragraphs), listing(plan.tables), bullets_view(bullets@)) is None
                && word_plan_stopped(part@, events@, listing(plan.paragraphs), listing(plan.tables), bullets_view(bullets@), normalize, e->Format_0@)),
        r matches Ok(out) ==> word_plan_refusal(part@, events@, listing(plan.paragraphs), listing(plan.tables), bullets_view(bullets@)) is None
            && word_plan_applied(events@, out@, listing(plan.paragraphs), listing(plan.tables), bullets_view(bullets@), normalize),
{
    if let Some(m) = word_refusal_of(part, &events, plan, bullets) {
        return Err(Error::Format(m));
    }
    let ghost ev0 = events@;
    let ghost bv = bullets_view(bullets@);
    proof {
        lemma_refused_in_none(part@, listing(plan.tables), table_refusal());
    }
    paragraphs_accepted(part, &plan.paragraphs, bullets);
    only_directions_everywhere(&plan.tables);
    proof {
        let ks = plan.paragraphs.key_order();
        lemma_none_missing(ks, counted(ev0, "w:p"@).len() as int);
    }
    let mut events = events;
    apply_w_paragraphs(part, &mut events, &plan.paragraphs, bullets, normalize);
    let ghost s1 = events@;
    match apply_w_tables(part, &mut events, &plan.tables) {
        Ok(()) => {
            proof {
                assert(w_paragraphs_applied(ev0, s1, listing(plan.paragraphs), bv, normalize));
            }
            Ok(events)
        },
        Err(e) => {
            proof {
                assert(w_paragraphs_applied(ev0, s1, listing(plan.paragraphs), bv, normalize));
                let (mid, j) = choose|mid: Seq<Token>, j: int|
                    #[trigger] w_tables_stopped(s1, mid, j, listing(plan.tables))
                        && e->Format_0@ == missing_message(part@, "table"@, plan.tables.key_order()[plan.tables.key_order().len() - 1 - j]);
                assert(w_tables_stopped(s1, mid, j, listing(plan.tables)));
            }
            Err(e)
        },
    }
}


/// Apply a whole part's plan — paragraphs, then tables — leaving every token
/// it does not address untouched. `bullets` names the list each typed marker
/// joins (see [`bullet_list`]). A plan with no repairs in it gives the part
/// back as read. Refused when the part does not read, when the plan names a
/// paragraph or table the part lacks, or when it asks for what Word cannot
/// write: a page edge as an alignment, a typed bullet with no list to join,
/// anything but a direction on a table.
pub fn apply_plan<F: Fn(&str) -> String>(part: &str, xml: &str, plan: &PartPlan, bullets: &Bullets, normalize: &F)
    -> (r: Result<String, Error>)
    requires
        forall|s: &str| call_requires(normalize, (s,)),
    ensures
        r matches Err(e) ==> e is Format,
        document_tokens(xml@) is Err ==> (r matches Err(e) && read_failure(part@, xml@, e)),
        word_plan_count(*plan) == 0 ==> (r is Ok <==> document_tokens(xml@) is Ok),
        word_plan_count(*plan) == 0 ==> (r matches Ok(s) ==> exists|ev: Seq<Token>| #[trigger] reads_as(xml@, ev) && s@ == serialized_all(ev)),
        word_plan_count(*plan) != 0 ==> (r matches Err(e) ==> read_failure(part@, xml@, e) || exists|ev: Seq<Token>|
            #[trigger] reads_as(xml@, ev) && (word_plan_refusal(part@, ev, listing(plan.paragraphs), listing(plan.tables), bullets_view(bullets@)) == Some(e->Format_0@)
                || (word_plan_refusal(part@, ev, listing(plan.paragraphs), listing(plan.tables), bullets_view(bullets@)) is None
                    && word_plan_stopped(part@, ev, listing(plan.paragraphs), listing(plan.tables), bullets_view(bullets@), normalize, e->Format_0@)))),
        word_plan_count(*plan) != 0 ==> (r matches Ok(s) ==> exists|ev: Seq<Token>, out: Seq<Token>|
            #[trigger] word_plan_applied(ev, out, listing(plan.paragraphs), listing(plan.tables), bullets_view(bullets@), normalize)
            && reads_as(xml@, ev)
            && word_plan_refusal(part@, ev, listing(plan.paragraphs), listing(plan.tables), bullets_view(bullets@)) is None
            && s@ == serialized_all(out)),
{
    if plan.is_empty() {
        return passthrough(part, xml);
    }
    let events = read_events(part, xml)?;
    let ghost ev = events@;
    assert(reads_as(xml@, ev));
    let out = apply_events(part, events, plan, bullets, normalize)?;
    let ghost o = out@;
    let s = write_events(part, &out);
    proof {
        assert(word_plan_applied(ev, o, listing(plan.paragraphs), listing(plan.tables), bullets_view(bullets@), normalize));
    }
    s
}

/// Apply repairs to a part's paragraphs alone, with no list for a typed
/// bullet to join.
pub fn apply<F: Fn(&str) -> String>(part: &str, xml: &str, fixes: ByIndex<Vec<Fix>>, normalize: &F) -> (r: Result<String, Error>)
    requires
        forall|s: &str| call_requires(normalize, (s,)),
    ensures
        r matches Err(e) ==> e is Format,
        document_tokens(xml@) is Err ==> (r matches Err(e) && read_failure(part@, xml@, e)),
        count(fixes) == 0 ==> (r is Ok <==> document_tokens(xml@) is Ok),
        count(fixes) == 0 ==> (r matches Ok(s) ==> exists|ev: Seq<Token>| #[trigger] reads_as(xml@, ev) && s@ == serialized_all(ev)),
        count(fixes) != 0 ==> (r matches Err(e) ==> read_failure(part@, xml@, e) || exists|ev: Seq<Token>|
            #[trigger] reads_as(xml@, ev) && (word_plan_refusal(part@, ev, listing(fixes), no_listing(), Seq::empty()) == Some(e->Format_0@)
                || (word_plan_refusal(part@, ev, listing(fixes), no_listing(), Seq::empty()) is None
                    && word_plan_stopped(part@, ev, listing(fixes), no_listing(), Seq::empty(), normalize, e->Format_0@)))),
        count(fixes) != 0 ==> (r matches Ok(s) ==> exists|ev: Seq<Token>, out: Seq<Token>|
            #[trigger] word_plan_applied(ev, out, listing(fixes), no_listing(), Seq::empty(), normalize)
            && reads_as(xml@, ev)
            && word_plan_refusal(part@, ev, listing(fixes), no_listing(), Seq::empty()) is None
            && s@ == serialized_all(out)),
{
    let mut plan = PartPlan::new();
    plan.paragraphs = fixes;
    let bullets: Bullets = Vec::new();
    assert(bullets_view(bullets@) =~= Seq::<(char, Seq<char>)>::empty());
    assert(listing(plan.tables) == no_listing());
    assert(count(plan.tables) == 0);
    apply_plan(part, xml, &plan, &bullets, normalize)
}


/// What repairing one part with a plan gives, as [`apply_plan`] states it:
/// a part that does not read is refused so; a plan with nothing in it gives
/// the part back as read; otherwise the part as read, with the plan applied,
/// or the refusal the plan meets there.
pub open spec fn word_repaired<F: Fn(&str) -> String>(part: Seq<char>, xml: Seq<char>, plan: PartPlan, bullets: Seq<(char, Seq<char>)>, f: F, r: Result<Seq<char>, Error>) -> bool {
    &&& r matches Err(e) ==> e is Format
    &&& document_tokens(xml) is Err ==> (r matches Err(e) && read_failure(part, xml, e))
    &&& word_plan_count(plan) == 0 ==> (r is Ok <==> document_tokens(xml) is Ok)
    &&& word_plan_count(plan) == 0 ==> (r matches Ok(s) ==> exists|ev: Seq<Token>| #[trigger] reads_as(xml, ev) && s == serialized_all(ev))
    &&& word_plan_count(plan) != 0 ==> (r matches Err(e) ==> read_failure(part, xml, e) || exists|ev: Seq<Token>|
            #[trigger] reads_as(xml, ev) && (word_plan_refusal(part, ev, listing(plan.paragraphs), listing(plan.tables), bullets) == Some(e->Format_0@)
                || (word_plan_refusal(part, ev, listing(plan.paragraphs), listing(plan.tables), bullets) is None
                    && word_plan_stopped(part, ev, listing(plan.paragraphs), listing(plan.tables), bullets, f, e->Format_0@))))
    &&& word_plan_count(plan) != 0 ==> (r matches Ok(s) ==> exists|ev: Seq<Token>, out: Seq<Token>|
            #[trigger] word_plan_applied(ev, out, listing(plan.paragraphs), listing(plan.tables), bullets, f)
            && reads_as(xml, ev)
            && word_plan_refusal(part, ev, listing(plan.paragraphs), listing(plan.tables), bullets) is None
            && s == serialized_all(out))
}

/// The `w:numId` a typed marker joins, from a numbering part's tokens, or
/// none where the document has no numbering part.
pub open spec fn list_for(numbering: Option<Seq<Token>>, marker: char) -> Option<Seq<char>> {
    match numbering {
        Some(ev) => spec_bullet_list(ev, marker),
        None => None,
    }
}

pub open spec fn tokens_view(numbering: Option<&[Token]>) -> Option<Seq<Token>> {
    match numbering {
        Some(ev) => Some(ev@),
        None => None,
    }
}

/// The list a typed marker joins, read off a numbering part's tokens.
pub(crate) fn list_for_exec(numbering: Option<&[Token]>, marker: char) -> (r: Option<String>)
    ensures
        r matches Some(id) ==> list_for(tokens_view(numbering), marker) == Some(id@),
        r is None ==> list_for(tokens_view(numbering), marker) is None,
{
    match numbering {
        Some(ev) => bullet_list_in(ev, marker),
        None => None,
    }
}

/// Looking a marker up after one more entry is added at the end finds what
/// it found before, else the new entry if it is that marker's.
pub proof fn lemma_bullet_for_push(b: Seq<(char, Seq<char>)>, x: (char, Seq<char>), m: char)
    ensures
        bullet_for(b.push(x), m) == match bullet_for(b, m) {
            Some(v) => Some(v),
            None => if x.0 == m { Some(x.1) } else { None },
        },
    decreases b.len(),
{
    if b.len() > 0 {
        assert(b.push(x)[0] == b[0]);
        assert(b.push(x).drop_first() =~= b.drop_first().push(x));
        lemma_bullet_for_push(b.drop_first(), x, m);
    } else {
        assert(b.push(x)[0] == x);
        assert(b.push(x).drop_first() =~= Seq::<(char, Seq<char>)>::empty());
        assert(bullet_for(b.push(x).drop_first(), m) is None);
    }
}

} // verus!
