//! DrawingML's repair vocabulary: which element and which attribute each
//! repair lands on, and where a created element goes.
//!
//! A paragraph is `a:p`, its direction `a:pPr/@rtl`, a table's
//! `a:tblPr/@rtl`, a text body's column order `a:bodyPr/@rtlCol`, and a chart
//! container's `c:txPr/a:p/a:pPr/@rtl`. Every edit here is one of the token
//! operations — find or create a child in schema position, set one attribute
//! on one tag, rewrite the text of the runs — with a DrawingML name in it, so
//! every token a repair does not address comes out as it went in.
use vstd::prelude::*;
use crate::chart::{spec_element, spec_label, ChartText};
use crate::error::Error;
use crate::ids::{decimal, decimal_of};
use crate::plan::{count, holds_no_repair, of_kind, plan_count, ByIndex, ChartTextFixes, ColumnFixes, Inherited, PartFixes, PartPlan, TableFixes};
use crate::pptx::{spec_direction_of, spec_parse_alignment};
use crate::strs::{chars_of, push_all, push_char, string_of};
use crate::text::{fix_views, spec_describe, Alignment, Direction, Fix, FixView};
use crate::token::{
    child_or_insert, copy_range, direct_children, element_end, element_ranges, splice_tokens, find_direct_child, range_views,
    ranges_named, found_or_inserted, get_attribute,
    insert_children, inserted, is_true, lemma_found_child, map_runs, opens_element, order_view, passthrough,
    runs_rewritten,
    remove_at_offsets, remove_each, replace_from, set_attribute, sort_desc, spec_direct_children,
    spec_find_direct_child, spec_get_attribute, spec_is_true, spec_read_content, spec_runs,
    spec_set_attribute, spec_text_ranges, strip_leading_marker, without_marker,
};
use crate::xml::{document_tokens, read_failure, reads_as, escaped, is_tag, opened_name, read_events, serialized_all, tviews, write_events, Kind, Token};

verus! {

broadcast use vstd::string::group_string_axioms;

// ------------------------------------------------------------ schema orders

/// `CT_TextParagraph`: `a:pPr` precedes every run.
pub open spec fn a_p_order() -> Seq<Seq<char>> {
    seq!["a:pPr"@]
}

fn a_p_order_exec() -> (r: [&'static str; 1])
    ensures
        order_view(r@) == a_p_order(),
{
    let r = ["a:pPr"];
    assert(order_view(r@) =~= a_p_order());
    r
}

/// `CT_RegularTextRun`: `a:rPr` precedes `a:t`.
pub open spec fn a_r_order() -> Seq<Seq<char>> {
    seq!["a:rPr"@]
}

fn a_r_order_exec() -> (r: [&'static str; 1])
    ensures
        order_view(r@) == a_r_order(),
{
    let r = ["a:rPr"];
    assert(order_view(r@) =~= a_r_order());
    r
}

/// `CT_Table`: `a:tblPr` first, then the grid, then the rows.
pub open spec fn tbl_order() -> Seq<Seq<char>> {
    seq!["a:tblPr"@, "a:tblGrid"@, "a:tr"@]
}

fn tbl_order_exec() -> (r: [&'static str; 3])
    ensures
        order_view(r@) == tbl_order(),
{
    let r = ["a:tblPr", "a:tblGrid", "a:tr"];
    assert(order_view(r@) =~= tbl_order());
    r
}

/// `CT_TextParagraphProperties`, in schema sequence order.
pub open spec fn ppr_order() -> Seq<Seq<char>> {
    seq![
        "a:lnSpc"@, "a:spcBef"@, "a:spcAft"@, "a:buClrTx"@, "a:buClr"@, "a:buSzTx"@, "a:buSzPct"@,
        "a:buSzPts"@, "a:buFontTx"@, "a:buFont"@, "a:buNone"@, "a:buAutoNum"@, "a:buChar"@,
        "a:tabLst"@, "a:defRPr"@, "a:extLst"@,
    ]
}

fn ppr_order_exec() -> (r: [&'static str; 16])
    ensures
        order_view(r@) == ppr_order(),
{
    let r = [
        "a:lnSpc", "a:spcBef", "a:spcAft", "a:buClrTx", "a:buClr", "a:buSzTx", "a:buSzPct",
        "a:buSzPts", "a:buFontTx", "a:buFont", "a:buNone", "a:buAutoNum", "a:buChar",
        "a:tabLst", "a:defRPr", "a:extLst",
    ];
    assert(order_view(r@) =~= ppr_order());
    r
}

/// `CT_TextCharacterProperties`, in schema sequence order.
pub open spec fn rpr_order() -> Seq<Seq<char>> {
    seq![
        "a:ln"@, "a:noFill"@, "a:solidFill"@, "a:gradFill"@, "a:blipFill"@, "a:pattFill"@,
        "a:grpFill"@, "a:effectLst"@, "a:effectDag"@, "a:highlight"@, "a:uLnTx"@, "a:uLn"@,
        "a:uFillTx"@, "a:uFill"@, "a:latin"@, "a:ea"@, "a:cs"@, "a:sym"@, "a:hlinkClick"@,
        "a:hlinkMouseOver"@, "a:rtl"@, "a:extLst"@,
    ]
}

fn rpr_order_exec() -> (r: [&'static str; 22])
    ensures
        order_view(r@) == rpr_order(),
{
    let r = [
        "a:ln", "a:noFill", "a:solidFill", "a:gradFill", "a:blipFill", "a:pattFill",
        "a:grpFill", "a:effectLst", "a:effectDag", "a:highlight", "a:uLnTx", "a:uLn",
        "a:uFillTx", "a:uFill", "a:latin", "a:ea", "a:cs", "a:sym", "a:hlinkClick",
        "a:hlinkMouseOver", "a:rtl", "a:extLst",
    ];
    assert(order_view(r@) =~= rpr_order());
    r
}

// ------------------------------------------------------------ values

/// Lower a direction-relative alignment onto DrawingML's `algn`, which has
/// only physical values: `Start` is the side reading begins on — the right
/// in right-to-left text, the left otherwise.
pub open spec fn spec_drawingml_alignment(alignment: Alignment, rtl: bool) -> Seq<char> {
    match alignment {
        Alignment::Start => if rtl { "r"@ } else { "l"@ },
        Alignment::End => if rtl { "l"@ } else { "r"@ },
        Alignment::Left => "l"@,
        Alignment::Right => "r"@,
        Alignment::Center => "ctr"@,
        Alignment::Justify => "just"@,
        Alignment::Distributed => "dist"@,
    }
}

pub fn drawingml_alignment(alignment: Alignment, rtl: bool) -> (r: &'static str)
    ensures
        r@ == spec_drawingml_alignment(alignment, rtl),
{
    match alignment {
        Alignment::Start => if rtl { "r" } else { "l" },
        Alignment::End => if rtl { "l" } else { "r" },
        Alignment::Left => "l",
        Alignment::Right => "r",
        Alignment::Center => "ctr",
        Alignment::Justify => "just",
        Alignment::Distributed => "dist",
    }
}

/// The page edge an alignment puts text against in text running `rtl`:
/// `Start` and `End` resolve to a physical side, the rest are themselves.
pub open spec fn physical(alignment: Alignment, rtl: bool) -> Alignment {
    match alignment {
        Alignment::Start => if rtl { Alignment::Right } else { Alignment::Left },
        Alignment::End => if rtl { Alignment::Left } else { Alignment::Right },
        _ => alignment,
    }
}

/// Reading back what a repair writes gives the edge it meant: the value
/// lowered for an alignment, read as `algn`, is that alignment's physical
/// edge — and `Start` and `End` land on opposite edges.
pub proof fn lemma_alignment_round_trip(alignment: Alignment, rtl: bool)
    ensures
        spec_parse_alignment(spec_drawingml_alignment(alignment, rtl)) == Some(physical(alignment, rtl)),
        spec_drawingml_alignment(Alignment::Start, rtl) == spec_drawingml_alignment(Alignment::End, !rtl),
        spec_drawingml_alignment(Alignment::Start, rtl) != spec_drawingml_alignment(Alignment::End, rtl),
{
    reveal_strlit("l");
    reveal_strlit("r");
    reveal_strlit("ctr");
    reveal_strlit("just");
    reveal_strlit("justLow");
    reveal_strlit("dist");
    reveal_strlit("thaiDist");
    assert("l"@ != "r"@) by {
        assert("l"@[0] != "r"@[0]);
    }
    assert("ctr"@ != "l"@ && "ctr"@ != "r"@) by {
        assert("ctr"@.len() != "l"@.len());
    }
    assert("just"@ != "l"@ && "just"@ != "r"@ && "just"@ != "ctr"@) by {
        assert("just"@.len() != "l"@.len());
        assert("just"@.len() != "ctr"@.len());
    }
    assert("dist"@ != "l"@ && "dist"@ != "r"@ && "dist"@ != "ctr"@ && "dist"@ != "just"@ && "dist"@ != "justLow"@) by {
        assert("dist"@.len() != "l"@.len());
        assert("dist"@.len() != "ctr"@.len());
        assert("dist"@[0] != "just"@[0]);
        assert("dist"@.len() != "justLow"@.len());
    }
}

/// The value an `rtl`-style attribute is written with.
pub open spec fn rtl_value(d: Direction) -> Seq<char> {
    if d == Direction::Rtl {
        "1"@
    } else {
        "0"@
    }
}

pub(crate) fn rtl_value_exec(d: Direction) -> (r: &'static str)
    ensures
        r@ == rtl_value(d),
{
    if d == Direction::Rtl {
        "1"
    } else {
        "0"
    }
}

// ------------------------------------------------------------ token edits

/// `new` is `old` with the tag at `at` carrying `name="value"`, written as
/// the attribute editor writes it; every other token as it was. A token
/// that opens no element is left alone.
pub open spec fn tag_set(old: Seq<Token>, new: Seq<Token>, at: int, name: Seq<char>, value: Seq<char>) -> bool {
    if opens_element(old, at) {
        &&& new.len() == old.len()
        &&& new[at].kind == old[at].kind
        &&& new[at].text@ == spec_set_attribute(old[at].text@, name, value)
        &&& forall|j: int| 0 <= j < old.len() && j != at ==> new[j] == old[j]
    } else {
        new == old
    }
}

/// Set one attribute on the tag at `at`.
pub(crate) fn set_tag(events: &mut Vec<Token>, at: usize, name: &str, value: &str)
    ensures
        tag_set(old(events)@, final(events)@, at as int, name@, value@),
{
    if opens(events, at) {
        let t = set_attribute(&events[at], name, value);
        events.set(at, t);
    }
}

pub(crate) fn opens(events: &Vec<Token>, at: usize) -> (r: bool)
    ensures
        r == opens_element(events@, at as int),
{
    at < events.len() && (events[at].kind == Kind::Start || events[at].kind == Kind::Empty)
}

/// Writing an attribute a tag already states a second time, with the same
/// value, changes nothing the first write left: every token reads the same.
pub proof fn lemma_tag_set_twice(a: Seq<Token>, b: Seq<Token>, c: Seq<Token>, at: int, name: Seq<char>, value: Seq<char>)
    requires
        tag_set(a, b, at, name, value),
        tag_set(b, c, at, name, value),
        opens_element(a, at) ==> spec_get_attribute(a[at].text@, name) is Some,
    ensures
        tviews(c) == tviews(b),
{
    if opens_element(a, at) {
        crate::token::lemma_set_present_twice(a[at].text@, name, value);
        assert(tviews(c) =~= tviews(b));
    }
}

/// Whether every repair in a list is a direction.
pub open spec fn only_directions(fixes: Seq<FixView>) -> bool {
    forall|k: int| 0 <= k < fixes.len() ==> #[trigger] fixes[k] is SetDirection
}

/// The first repair in a list that is not a direction.
pub open spec fn first_other(fixes: Seq<FixView>) -> Option<FixView>
    decreases fixes.len(),
{
    if fixes.len() == 0 {
        None
    } else if !(fixes[0] is SetDirection) {
        Some(fixes[0])
    } else {
        first_other(fixes.drop_first())
    }
}

pub proof fn lemma_first_other(fixes: Seq<FixView>)
    ensures
        first_other(fixes) is None <==> only_directions(fixes),
    decreases fixes.len(),
{
    if fixes.len() > 0 {
        lemma_first_other(fixes.drop_first());
        if fixes[0] is SetDirection {
            assert forall|k: int| 0 <= k < fixes.len() && only_directions(fixes.drop_first()) implies #[trigger] fixes[k] is SetDirection by {
                if k > 0 {
                    assert(fixes[k] == fixes.drop_first()[k - 1]);
                }
            }
            assert forall|k: int| 0 <= k < fixes.drop_first().len() && only_directions(fixes) implies #[trigger] fixes.drop_first()[k] is SetDirection by {
                assert(fixes.drop_first()[k] == fixes[k + 1]);
            }
        }
    }
}

/// The error a repair that is not a container's own is refused with.
pub open spec fn refusal(part: Seq<char>, fix: FixView, what: Seq<char>) -> Seq<char> {
    part + ": cannot "@ + spec_describe(fix) + " on "@ + what
}

pub(crate) fn refuse(part: &str, fix: &Fix, what: &str) -> (r: Error)
    ensures
        r == Error::Format(r->Format_0) && r->Format_0@ == refusal(part@, fix@, what@),
{
    let mut m = chars_of(part);
    push_all(&mut m, &chars_of(": cannot "));
    push_all(&mut m, &chars_of(fix.describe()));
    push_all(&mut m, &chars_of(" on "));
    push_all(&mut m, &chars_of(what));
    Error::Format(string_of(&m))
}

// ------------------------------------------------------------ text bodies

/// `states` walks from its first entry to its last in `n` steps, step `i`
/// taking `states[i]` to `states[i + 1]`.
pub open spec fn chain_of(states: Seq<Seq<Token>>, n: nat, step: spec_fn(int, Seq<Token>, Seq<Token>) -> bool) -> bool {
    &&& states.len() == n + 1
    &&& forall|i: int| 0 <= i < n ==> #[trigger] link(states, i, step)
}

/// Step `i` of a walk through `states`.
pub open spec fn link(states: Seq<Seq<Token>>, i: int, step: spec_fn(int, Seq<Token>, Seq<Token>) -> bool) -> bool {
    step(i, states[i], states[i + 1])
}

/// `new` is reached from `old` by `n` steps, each as `step` says.
pub open spec fn chained(old: Seq<Token>, new: Seq<Token>, n: nat, step: spec_fn(int, Seq<Token>, Seq<Token>) -> bool) -> bool {
    exists|states: Seq<Seq<Token>>|
        #[trigger] chain_of(states, n, step) && states[0] == old && states[n as int] == new
}

pub(crate) proof fn lemma_chain_start(old: Seq<Token>, step: spec_fn(int, Seq<Token>, Seq<Token>) -> bool)
    ensures
        chain_of(seq![old], 0, step),
{
}

pub(crate) proof fn lemma_chain_push(states: Seq<Seq<Token>>, n: nat, step: spec_fn(int, Seq<Token>, Seq<Token>) -> bool, new: Seq<Token>)
    requires
        chain_of(states, n, step),
        step(n as int, states[n as int], new),
    ensures
        chain_of(states.push(new), n + 1, step),
        states.push(new)[0] == states[0],
        states.push(new)[(n + 1) as int] == new,
{
    let t = states.push(new);
    assert forall|i: int| 0 <= i < n + 1 implies #[trigger] link(t, i, step) by {
        if i < n {
            assert(link(states, i, step));
        }
    }
}

/// Step `i` of a text body's repairs: the `i`th repair, a direction, sets
/// the column order on the `a:bodyPr` at `at`.
pub open spec fn column_step(fixes: Seq<FixView>, at: int) -> spec_fn(int, Seq<Token>, Seq<Token>) -> bool {
    |i: int, a: Seq<Token>, b: Seq<Token>|
        match fixes[i] {
            FixView::SetDirection(d) => tag_set(a, b, at, "rtlCol"@, rtl_value(d)),
            _ => false,
        }
}

/// A text body's column order set by each direction repair in turn, on its
/// `a:bodyPr` at `at`.
pub open spec fn columns_fixed(old: Seq<Token>, new: Seq<Token>, at: int, fixes: Seq<FixView>) -> bool {
    chained(old, new, fixes.len(), column_step(fixes, at))
}

/// What a text body that is not a column body's own is refused with.
pub open spec fn body_refusal() -> Seq<char> {
    "a text body; only its column direction is the body's own"@
}

/// Apply every repair for one multi-column text body, whose `a:bodyPr` is
/// at `at`. Its one property is `@rtlCol`; anything else a plan names on it
/// is refused.
pub fn apply_to_columns(part: &str, events: &mut Vec<Token>, at: usize, fixes: &[Fix]) -> (r: Result<(), Error>)
    ensures
        r is Ok <==> only_directions(fix_views(fixes@)),
        r is Ok ==> columns_fixed(old(events)@, final(events)@, at as int, fix_views(fixes@)),
        r matches Err(e) ==> first_other(fix_views(fixes@)) matches Some(f)
            && e == Error::Format(e->Format_0) && e->Format_0@ == refusal(part@, f, body_refusal()),
{
    let ghost fv = fix_views(fixes@);
    let ghost start = events@;
    proof {
        lemma_first_other(fv);
    }
    let mut k: usize = 0;
    let ghost mut states: Seq<Seq<Token>> = seq![start];
    proof {
        lemma_chain_start(start, column_step(fv, at as int));
    }
    assert(fv.take(0) =~= Seq::<FixView>::empty());
    assert(fv.skip(0) =~= fv);
    while k < fixes.len()
        invariant
            k <= fixes@.len(),
            fv == fix_views(fixes@),
            fv.len() == fixes@.len(),
            only_directions(fv.take(k as int)),
            first_other(fv) == first_other(fv.skip(k as int)),
            chain_of(states, k as nat, column_step(fv, at as int)),
            states[0] == start,
            states[k as int] == events@,
        decreases fixes@.len() - k,
    {
        assert(fv.skip(k as int)[0] == fv[k as int]);
        match &fixes[k] {
            Fix::SetDirection(d) => {
                let ghost mid = events@;
                set_tag(events, at, "rtlCol", rtl_value_exec(*d));
                proof {
                    assert(fv[k as int] == FixView::SetDirection(*d));
                    reveal_strlit("rtlCol");
                    lemma_chain_push(states, k as nat, column_step(fv, at as int), events@);
                    states = states.push(events@);
                    assert(only_directions(fv.take(k + 1))) by {
                        assert forall|j: int| 0 <= j < k + 1 implies #[trigger] fv.take(k + 1)[j] is SetDirection by {
                            if j < k {
                                assert(fv.take(k + 1)[j] == fv.take(k as int)[j]);
                            }
                        }
                    }
                    assert(fv.skip(k as int).drop_first() =~= fv.skip(k + 1));
                }
            },
            other => {
                proof {
                    assert(!only_directions(fv)) by {
                        assert(!(fv[k as int] is SetDirection));
                    }
                }
                return Err(refuse(part, other, "a text body; only its column direction is the body's own"));
            },
        }
        k += 1;
    }
    assert(fv.take(k as int) =~= fv);
    Ok(())
}

// ------------------------------------------------------------ tables

/// A table's direction set: its `a:tblPr` found or created first in the
/// table, and `@rtl` written on it — when `at` opens an element at all.
pub open spec fn table_step(old: Seq<Token>, new: Seq<Token>, at: int, d: Direction) -> bool {
    if opens_element(old, at) {
        exists|mid: Seq<Token>, p: int|
            #[trigger] found_or_inserted(old, mid, at, tbl_order(), "a:tblPr"@, p) && opens_element(mid, p)
                && tag_set(mid, new, p, "rtl"@, rtl_value(d))
    } else {
        new == old
    }
}

/// Step `i` of a table's repairs: the `i`th repair, a direction, lands on
/// the table at `at`.
pub open spec fn table_link(fixes: Seq<FixView>, at: int) -> spec_fn(int, Seq<Token>, Seq<Token>) -> bool {
    |i: int, a: Seq<Token>, b: Seq<Token>|
        match fixes[i] {
            FixView::SetDirection(d) => table_step(a, b, at, d),
            _ => false,
        }
}

/// Each direction repair in turn, on the table at `at`.
pub open spec fn table_fixed(old: Seq<Token>, new: Seq<Token>, at: int, fixes: Seq<FixView>) -> bool {
    chained(old, new, fixes.len(), table_link(fixes, at))
}

pub open spec fn table_refusal() -> Seq<char> {
    "a table; only its direction is a table's own"@
}

/// Apply every repair for one table, whose `a:tbl` starts at `at`. A
/// table's one property is its direction; anything else a plan names on it
/// is refused rather than guessed at.
pub fn apply_to_table(part: &str, events: &mut Vec<Token>, at: usize, fixes: &[Fix]) -> (r: Result<(), Error>)
    ensures
        r is Ok <==> only_directions(fix_views(fixes@)),
        r is Ok ==> table_fixed(old(events)@, final(events)@, at as int, fix_views(fixes@)),
        r matches Err(e) ==> first_other(fix_views(fixes@)) matches Some(f)
            && e == Error::Format(e->Format_0) && e->Format_0@ == refusal(part@, f, table_refusal()),
{
    let ghost fv = fix_views(fixes@);
    let ghost start = events@;
    proof {
        lemma_first_other(fv);
    }
    let order = tbl_order_exec();
    let mut k: usize = 0;
    let ghost mut states: Seq<Seq<Token>> = seq![start];
    proof {
        lemma_chain_start(start, table_link(fv, at as int));
    }
    assert(fv.take(0) =~= Seq::<FixView>::empty());
    assert(fv.skip(0) =~= fv);
    while k < fixes.len()
        invariant
            k <= fixes@.len(),
            fv == fix_views(fixes@),
            fv.len() == fixes@.len(),
            order_view(order@) == tbl_order(),
            only_directions(fv.take(k as int)),
            first_other(fv) == first_other(fv.skip(k as int)),
            chain_of(states, k as nat, table_link(fv, at as int)),
            states[0] == start,
            states[k as int] == events@,
        decreases fixes@.len() - k,
    {
        assert(fv.skip(k as int)[0] == fv[k as int]);
        match &fixes[k] {
            Fix::SetDirection(d) => {
                let ghost mid = events@;
                if opens(events, at) {
                    let p = child_or_insert(events, at, &order, "a:tblPr");
                    let ghost m2 = events@;
                    set_tag(events, p, "rtl", rtl_value_exec(*d));
                    proof {
                        reveal_strlit("rtl");
                        assert(found_or_inserted(mid, m2, at as int, tbl_order(), "a:tblPr"@, p as int));
                    }
                }
                proof {
                    assert(fv[k as int] == FixView::SetDirection(*d));
                    assert(table_step(mid, events@, at as int, *d));
                    lemma_chain_push(states, k as nat, table_link(fv, at as int), events@);
                    states = states.push(events@);
                    assert(only_directions(fv.take(k + 1))) by {
                        assert forall|j: int| 0 <= j < k + 1 implies #[trigger] fv.take(k + 1)[j] is SetDirection by {
                            if j < k {
                                assert(fv.take(k + 1)[j] == fv.take(k as int)[j]);
                            }
                        }
                    }
                    assert(fv.skip(k as int).drop_first() =~= fv.skip(k + 1));
                }
            },
            other => {
                proof {
                    assert(!only_directions(fv)) by {
                        assert(!(fv[k as int] is SetDirection));
                    }
                }
                return Err(refuse(part, other, "a table; only its direction is a table's own"));
            },
        }
        k += 1;
    }
    assert(fv.take(k as int) =~= fv);
    Ok(())
}


// ------------------------------------------------------------ chart text

/// `CT_CatAx`, in schema sequence order: `c:txPr` sits between `c:spPr`
/// and `c:crossAx`.
pub open spec fn cat_ax_order() -> Seq<Seq<char>> {
    seq![
        "c:axId"@, "c:scaling"@, "c:delete"@, "c:axPos"@, "c:majorGridlines"@, "c:minorGridlines"@,
        "c:title"@, "c:numFmt"@, "c:majorTickMark"@, "c:minorTickMark"@, "c:tickLblPos"@, "c:spPr"@,
        "c:txPr"@, "c:crossAx"@, "c:crosses"@, "c:crossesAt"@, "c:auto"@, "c:lblAlgn"@,
        "c:lblOffset"@, "c:tickLblSkip"@, "c:tickMarkSkip"@, "c:noMultiLvlLbl"@, "c:extLst"@,
    ]
}

/// `CT_Legend`, in schema sequence order.
pub open spec fn legend_order() -> Seq<Seq<char>> {
    seq!["c:legendPos"@, "c:legendEntry"@, "c:layout"@, "c:overlay"@, "c:spPr"@, "c:txPr"@, "c:extLst"@]
}

/// `CT_DLbls`, in schema sequence order: the individually formatted labels
/// first, then the settings that govern all of them.
pub open spec fn dlbls_order() -> Seq<Seq<char>> {
    seq![
        "c:dLbl"@, "c:delete"@, "c:numFmt"@, "c:spPr"@, "c:txPr"@, "c:dLblPos"@, "c:showLegendKey"@,
        "c:showVal"@, "c:showCatName"@, "c:showSerName"@, "c:showPercent"@, "c:showBubbleSize"@,
        "c:separator"@, "c:showLeaderLines"@, "c:leaderLines"@, "c:extLst"@,
    ]
}

/// `CT_TextBody` as a chart declares it: all three children, in this order.
pub open spec fn txpr_order() -> Seq<Seq<char>> {
    seq!["a:bodyPr"@, "a:lstStyle"@, "a:p"@]
}

/// The schema sequence of the element a chart text container is.
pub open spec fn chart_text_order(kind: ChartText) -> Seq<Seq<char>> {
    match kind {
        ChartText::CategoryAxis => cat_ax_order(),
        ChartText::Legend => legend_order(),
        ChartText::DataLabels => dlbls_order(),
    }
}

fn cat_ax_order_exec() -> (r: [&'static str; 23])
    ensures
        order_view(r@) == cat_ax_order(),
{
    let r = [
        "c:axId", "c:scaling", "c:delete", "c:axPos", "c:majorGridlines", "c:minorGridlines",
        "c:title", "c:numFmt", "c:majorTickMark", "c:minorTickMark", "c:tickLblPos", "c:spPr",
        "c:txPr", "c:crossAx", "c:crosses", "c:crossesAt", "c:auto", "c:lblAlgn",
        "c:lblOffset", "c:tickLblSkip", "c:tickMarkSkip", "c:noMultiLvlLbl", "c:extLst",
    ];
    assert(order_view(r@) =~= cat_ax_order());
    r
}

fn legend_order_exec() -> (r: [&'static str; 7])
    ensures
        order_view(r@) == legend_order(),
{
    let r = ["c:legendPos", "c:legendEntry", "c:layout", "c:overlay", "c:spPr", "c:txPr", "c:extLst"];
    assert(order_view(r@) =~= legend_order());
    r
}

fn dlbls_order_exec() -> (r: [&'static str; 16])
    ensures
        order_view(r@) == dlbls_order(),
{
    let r = [
        "c:dLbl", "c:delete", "c:numFmt", "c:spPr", "c:txPr", "c:dLblPos", "c:showLegendKey",
        "c:showVal", "c:showCatName", "c:showSerName", "c:showPercent", "c:showBubbleSize",
        "c:separator", "c:showLeaderLines", "c:leaderLines", "c:extLst",
    ];
    assert(order_view(r@) =~= dlbls_order());
    r
}

fn txpr_order_exec() -> (r: [&'static str; 3])
    ensures
        order_view(r@) == txpr_order(),
{
    let r = ["a:bodyPr", "a:lstStyle", "a:p"];
    assert(order_view(r@) =~= txpr_order());
    r
}

/// Insert `children` into the chart container at `at`, in the position its
/// kind's schema sequence gives them.
fn insert_in_container(events: &mut Vec<Token>, at: usize, kind: ChartText, children: Vec<Token>)
    requires
        opens_element(old(events)@, at as int),
    ensures
        inserted(old(events)@, final(events)@, at as int, chart_text_order(kind), children@),
{
    match kind {
        ChartText::CategoryAxis => {
            let o = cat_ax_order_exec();
            insert_children(events, at, &o, children);
        },
        ChartText::Legend => {
            let o = legend_order_exec();
            insert_children(events, at, &o, children);
        },
        ChartText::DataLabels => {
            let o = dlbls_order_exec();
            insert_children(events, at, &o, children);
        },
    }
}

/// The DrawingML namespace, for the chart part that does not already
/// declare a prefix for it.
pub open spec fn dml_namespace() -> Seq<char> {
    "http://schemas.openxmlformats.org/drawingml/2006/main"@
}

/// A tag's content with one attribute written after the name, as a tag
/// built from scratch carries it.
pub open spec fn with_attribute(name: Seq<char>, attr: Seq<char>, value: Seq<char>) -> Seq<char> {
    name + " "@ + attr + "=\""@ + value + "\""@
}

fn tag_with(name: &str, attr: &str, value: &str) -> (t: String)
    ensures
        t@ == with_attribute(name@, attr@, value@),
{
    let mut c = chars_of(name);
    push_all(&mut c, &chars_of(" "));
    push_all(&mut c, &chars_of(attr));
    push_all(&mut c, &chars_of("=\""));
    push_all(&mut c, &chars_of(value));
    push_all(&mut c, &chars_of("\""));
    string_of(&c)
}

fn token(kind: Kind, text: &str) -> (t: Token)
    ensures
        t.kind == kind && t.text@ == text@,
{
    Token { kind, text: String::from_str(text) }
}

/// The `c:txPr` a chart container is given when it has none: one direction
/// and nothing else, declaring the DrawingML prefix when the part does not.
pub open spec fn spec_text_properties(rtl: Seq<char>, declare: bool) -> Seq<(Kind, Seq<char>)> {
    seq![
        (Kind::Start, if declare { with_attribute("c:txPr"@, "xmlns:a"@, dml_namespace()) } else { "c:txPr"@ }),
        (Kind::Empty, "a:bodyPr"@),
        (Kind::Empty, "a:lstStyle"@),
        (Kind::Start, "a:p"@),
        (Kind::Empty, with_attribute("a:pPr"@, "rtl"@, rtl)),
        (Kind::Empty, "a:endParaRPr"@),
        (Kind::End, "a:p"@),
        (Kind::End, "c:txPr"@),
    ]
}

fn text_properties(rtl: &str, declare_namespace: bool) -> (r: Vec<Token>)
    ensures
        tviews(r@) == spec_text_properties(rtl@, declare_namespace),
{
    let head = if declare_namespace {
        tag_with("c:txPr", "xmlns:a", "http://schemas.openxmlformats.org/drawingml/2006/main")
    } else {
        String::from_str("c:txPr")
    };
    let r = vec![
        Token { kind: Kind::Start, text: head },
        token(Kind::Empty, "a:bodyPr"),
        token(Kind::Empty, "a:lstStyle"),
        token(Kind::Start, "a:p"),
        Token { kind: Kind::Empty, text: tag_with("a:pPr", "rtl", rtl) },
        token(Kind::Empty, "a:endParaRPr"),
        token(Kind::End, "a:p"),
        token(Kind::End, "c:txPr"),
    ];
    assert(tviews(r@) =~= spec_text_properties(rtl@, declare_namespace));
    r
}

/// The paragraph a `c:txPr` without one is given.
pub open spec fn spec_direction_paragraph(rtl: Seq<char>) -> Seq<(Kind, Seq<char>)> {
    seq![(Kind::Start, "a:p"@), (Kind::Empty, with_attribute("a:pPr"@, "rtl"@, rtl)), (Kind::End, "a:p"@)]
}

fn direction_paragraph(rtl: &str) -> (r: Vec<Token>)
    ensures
        tviews(r@) == spec_direction_paragraph(rtl@),
{
    let r = vec![
        token(Kind::Start, "a:p"),
        Token { kind: Kind::Empty, text: tag_with("a:pPr", "rtl", rtl) },
        token(Kind::End, "a:p"),
    ];
    assert(tviews(r@) =~= spec_direction_paragraph(rtl@));
    r
}

/// The index of the part's first tag, if it has one.
pub open spec fn first_tag_from(ev: Seq<Token>, i: int) -> Option<int>
    decreases ev.len() - i,
{
    if i < 0 || i >= ev.len() {
        None
    } else if ev[i].kind == Kind::Start || ev[i].kind == Kind::Empty {
        Some(i)
    } else {
        first_tag_from(ev, i + 1)
    }
}

/// Whether the part's root element declares a prefix bound to DrawingML:
/// its first tag carries `xmlns:a`.
pub open spec fn spec_declares_drawingml(ev: Seq<Token>) -> bool {
    match first_tag_from(ev, 0) {
        Some(i) => spec_get_attribute(ev[i].text@, "xmlns:a"@) is Some,
        None => false,
    }
}

pub fn declares_drawingml(events: &[Token]) -> (r: bool)
    ensures
        r == spec_declares_drawingml(events@),
{
    let mut i: usize = 0;
    while i < events.len()
        invariant
            i <= events@.len(),
            first_tag_from(events@, 0) == first_tag_from(events@, i as int),
        decreases events@.len() - i,
    {
        if events[i].kind == Kind::Start || events[i].kind == Kind::Empty {
            return get_attribute(&events[i], "xmlns:a").is_some();
        }
        i += 1;
    }
    false
}

/// One direction landing on the chart container at `at`: a whole `c:txPr`
/// created in schema position when it has none; a paragraph created in a
/// `c:txPr` without one; otherwise the `@rtl` of its first paragraph's
/// `a:pPr`, found or created.
pub open spec fn chart_step(old: Seq<Token>, new: Seq<Token>, at: int, kind: ChartText, d: Direction, declare: bool) -> bool {
    if !opens_element(old, at) {
        new == old
    } else {
        match spec_find_direct_child(old, at, "c:txPr"@) {
            None => exists|children: Seq<Token>|
                #[trigger] inserted(old, new, at, chart_text_order(kind), children)
                    && tviews(children) == spec_text_properties(rtl_value(d), declare),
            Some(t) => match spec_find_direct_child(old, t, "a:p"@) {
                None => exists|children: Seq<Token>|
                    #[trigger] inserted(old, new, t, txpr_order(), children)
                        && tviews(children) == spec_direction_paragraph(rtl_value(d)),
                Some(p) => exists|mid: Seq<Token>, q: int|
                    #[trigger] found_or_inserted(old, mid, p, a_p_order(), "a:pPr"@, q) && opens_element(mid, q)
                        && tag_set(mid, new, q, "rtl"@, rtl_value(d)),
            },
        }
    }
}

/// Step `i` of a chart container's repairs.
pub open spec fn chart_link(fixes: Seq<FixView>, at: int, kind: ChartText, declare: bool) -> spec_fn(int, Seq<Token>, Seq<Token>) -> bool {
    |i: int, a: Seq<Token>, b: Seq<Token>|
        match fixes[i] {
            FixView::SetDirection(d) => chart_step(a, b, at, kind, d, declare),
            _ => false,
        }
}

/// Each direction repair in turn, on the chart container at `at`.
pub open spec fn chart_text_fixed(old: Seq<Token>, new: Seq<Token>, at: int, kind: ChartText, fixes: Seq<FixView>, declare: bool) -> bool {
    chained(old, new, fixes.len(), chart_link(fixes, at, kind, declare))
}

/// What a chart container is refused anything but a direction with.
pub open spec fn chart_refusal(kind: ChartText) -> Seq<char> {
    "a chart's "@ + spec_label(kind) + "; only its direction is the container's own"@
}

fn chart_refusal_exec(kind: ChartText) -> (r: String)
    ensures
        r@ == chart_refusal(kind),
{
    let mut c = chars_of("a chart's ");
    push_all(&mut c, &chars_of(kind.label()));
    push_all(&mut c, &chars_of("; only its direction is the container's own"));
    string_of(&c)
}

/// Apply every repair for one chart text container, whose element starts at
/// `at`. Its one property is the direction its strings are laid out in,
/// held in `c:txPr/a:p/a:pPr/@rtl`; most charts have no `c:txPr`, so the
/// usual case is creating one.
pub fn apply_to_chart_text(
    part: &str,
    events: &mut Vec<Token>,
    at: usize,
    kind: ChartText,
    fixes: &[Fix],
    declare_namespace: bool,
) -> (r: Result<(), Error>)
    ensures
        r is Ok <==> only_directions(fix_views(fixes@)),
        r is Ok ==> chart_text_fixed(old(events)@, final(events)@, at as int, kind, fix_views(fixes@), declare_namespace),
        r matches Err(e) ==> first_other(fix_views(fixes@)) matches Some(f)
            && e == Error::Format(e->Format_0) && e->Format_0@ == refusal(part@, f, chart_refusal(kind)),
{
    let ghost fv = fix_views(fixes@);
    let ghost start = events@;
    let ghost link = chart_link(fv, at as int, kind, declare_namespace);
    proof {
        lemma_first_other(fv);
    }
    let tx_order = txpr_order_exec();
    let p_order = a_p_order_exec();
    let mut k: usize = 0;
    let ghost mut states: Seq<Seq<Token>> = seq![start];
    proof {
        lemma_chain_start(start, link);
    }
    assert(fv.take(0) =~= Seq::<FixView>::empty());
    assert(fv.skip(0) =~= fv);
    while k < fixes.len()
        invariant
            k <= fixes@.len(),
            fv == fix_views(fixes@),
            fv.len() == fixes@.len(),
            link == chart_link(fv, at as int, kind, declare_namespace),
            order_view(tx_order@) == txpr_order(),
            order_view(p_order@) == a_p_order(),
            only_directions(fv.take(k as int)),
            first_other(fv) == first_other(fv.skip(k as int)),
            chain_of(states, k as nat, link),
            states[0] == start,
            states[k as int] == events@,
        decreases fixes@.len() - k,
    {
        assert(fv.skip(k as int)[0] == fv[k as int]);
        let d = match &fixes[k] {
            Fix::SetDirection(d) => *d,
            other => {
                proof {
                    assert(!only_directions(fv)) by {
                        assert(!(fv[k as int] is SetDirection));
                    }
                }
                let what = chart_refusal_exec(kind);
                return Err(refuse(part, other, what.as_str()));
            },
        };
        let ghost before = events@;
        let rtl = rtl_value_exec(d);
        if opens(events, at) {
            proof {
                lemma_found_child(events@, at as int, "c:txPr"@);
            }
            match find_direct_child(events, at, "c:txPr") {
                None => {
                    let created = text_properties(rtl, declare_namespace);
                    let ghost c = created@;
                    insert_in_container(events, at, kind, created);
                    assert(inserted(before, events@, at as int, chart_text_order(kind), c));
                },
                Some(txpr) => {
                    proof {
                        lemma_found_child(events@, txpr as int, "a:p"@);
                    }
                    match find_direct_child(events, txpr, "a:p") {
                        None => {
                            let created = direction_paragraph(rtl);
                            let ghost c = created@;
                            insert_children(events, txpr, &tx_order, created);
                            assert(inserted(before, events@, txpr as int, txpr_order(), c));
                        },
                        Some(paragraph) => {
                            let ppr = child_or_insert(events, paragraph, &p_order, "a:pPr");
                            let ghost m = events@;
                            set_tag(events, ppr, "rtl", rtl);
                            proof {
                                reveal_strlit("rtl");
                                assert(found_or_inserted(before, m, paragraph as int, a_p_order(), "a:pPr"@, ppr as int));
                            }
                        },
                    }
                },
            }
        }
        proof {
            assert(fv[k as int] == FixView::SetDirection(d));
            assert(chart_step(before, events@, at as int, kind, d, declare_namespace));
            lemma_chain_push(states, k as nat, link, events@);
            states = states.push(events@);
            assert(only_directions(fv.take(k + 1))) by {
                assert forall|j: int| 0 <= j < k + 1 implies #[trigger] fv.take(k + 1)[j] is SetDirection by {
                    if j < k {
                        assert(fv.take(k + 1)[j] == fv.take(k as int)[j]);
                    }
                }
            }
            assert(fv.skip(k as int).drop_first() =~= fv.skip(k + 1));
        }
        k += 1;
    }
    assert(fv.take(k as int) =~= fv);
    Ok(())
}


// ------------------------------------------------------------ paragraphs

/// The element a run's characters live in.
pub open spec fn a_t() -> Seq<char> {
    "a:t"@
}

/// The characters at `offsets` (bytes into the paragraph's text as scanned)
/// removed from its runs, largest offset first.
pub open spec fn controls_removed(old: Seq<Token>, new: Seq<Token>, offsets: Seq<usize>) -> bool {
    let ranges = spec_text_ranges(old, a_t());
    let before = spec_runs(old, ranges);
    let after = remove_each(before, sort_desc(offsets.map_values(|v: usize| v as int)));
    tviews(new) == replace_from(tviews(old), ranges, before, after, 0)
}

/// A typed `marker` (and the whitespace around it) stripped from the front
/// of the paragraph's first run.
pub open spec fn marker_stripped(old: Seq<Token>, new: Seq<Token>, marker: char) -> bool {
    let ranges = spec_text_ranges(old, a_t());
    if ranges.len() == 0 {
        new == old
    } else {
        let first = ranges[0];
        match without_marker(spec_read_content(old.subrange(first.0, first.1)), marker) {
            Some(t) => tviews(new) == tviews(old).take(first.0) + seq![(Kind::Text, escaped(t))]
                + tviews(old).skip(first.1),
            None => new == old,
        }
    }
}

/// Step `i` of the first pass: the `i`th repair, if it removes characters
/// (controls or tatweel) at scanned offsets.
pub open spec fn control_link(fixes: Seq<FixView>) -> spec_fn(int, Seq<Token>, Seq<Token>) -> bool {
    |i: int, a: Seq<Token>, b: Seq<Token>|
        match fixes[i] {
            FixView::RemoveControls(o) => controls_removed(a, b, o),
            FixView::RemoveTatweel(o) => controls_removed(a, b, o),
            _ => b == a,
        }
}

/// Step `i` of the third pass: the `i`th repair, if it converts a bullet,
/// strips the typed marker.
pub open spec fn marker_link(fixes: Seq<FixView>) -> spec_fn(int, Seq<Token>, Seq<Token>) -> bool {
    |i: int, a: Seq<Token>, b: Seq<Token>|
        match fixes[i] {
            FixView::ConvertLiteralBullet(m) => marker_stripped(a, b, m),
            _ => b == a,
        }
}

/// The second pass: presentation forms normalised when any repair asks.
pub open spec fn forms_normalised<F: Fn(&str) -> String>(old: Seq<Token>, new: Seq<Token>, fixes: Seq<FixView>, f: F) -> bool {
    if fixes.contains(FixView::NormalizePresentationForms) {
        runs_rewritten(old, new, a_t(), f)
    } else {
        new == old
    }
}

/// The direction the first direction repair in a list sets, as right-to-left
/// or not.
pub open spec fn declared_rtl(fixes: Seq<FixView>) -> Option<bool>
    decreases fixes.len(),
{
    if fixes.len() == 0 {
        None
    } else {
        match fixes[0] {
            FixView::SetDirection(d) => Some(d == Direction::Rtl),
            _ => declared_rtl(fixes.drop_first()),
        }
    }
}

/// The paragraph's `a:pPr` found, or created first in the paragraph, at `q`.
pub open spec fn ppr_ensured(old: Seq<Token>, mid: Seq<Token>, q: int) -> bool {
    found_or_inserted(old, mid, 0, a_p_order(), "a:pPr"@, q) && opens_element(mid, q)
}

/// A direction written on the paragraph's `a:pPr`.
pub open spec fn direction_set(old: Seq<Token>, new: Seq<Token>, d: Direction) -> bool {
    if !opens_element(old, 0) {
        new == old
    } else {
        exists|mid: Seq<Token>, q: int| #[trigger] ppr_ensured(old, mid, q) && tag_set(mid, new, q, "rtl"@, rtl_value(d))
    }
}

/// Which way an alignment is lowered: the direction being repaired to, else
/// the paragraph's own `@rtl`, else what it inherits; only then left to right.
pub open spec fn lowering_rtl(declared: Option<bool>, ppr: Token, inherited: Option<Direction>) -> bool {
    match declared {
        Some(r) => r,
        None => match spec_get_attribute(ppr.text@, "rtl"@) {
            Some(v) => spec_is_true(v),
            None => inherited == Some(Direction::Rtl),
        },
    }
}

/// An alignment lowered onto `algn` and written on the paragraph's `a:pPr`.
pub open spec fn alignment_set(old: Seq<Token>, new: Seq<Token>, alignment: Alignment, declared: Option<bool>, inherited: Option<Direction>) -> bool {
    if !opens_element(old, 0) {
        new == old
    } else {
        exists|mid: Seq<Token>, q: int|
            #[trigger] ppr_ensured(old, mid, q) && tag_set(mid, new, q, "algn"@,
                spec_drawingml_alignment(alignment, lowering_rtl(declared, mid[q], inherited)))
    }
}

/// The right and hanging indent a converted bullet's paragraph is given, in
/// EMU: PowerPoint's own default for a first-level bullet.
pub open spec fn bullet_indent() -> Seq<char> {
    "342900"@
}

pub open spec fn bullet_hang() -> Seq<char> {
    "-342900"@
}

/// A typed bullet made a native list: the hanging indent on the `a:pPr`, and
/// an `a:buChar` with the marker found or created in schema position.
pub open spec fn bullet_set(old: Seq<Token>, new: Seq<Token>, marker: char) -> bool {
    if !opens_element(old, 0) {
        new == old
    } else {
        exists|m1: Seq<Token>, q: int, m2: Seq<Token>, m3: Seq<Token>, m4: Seq<Token>, b: int|
            #![trigger ppr_ensured(old, m1, q), tag_set(m1, m2, q, "marR"@, bullet_indent()), tag_set(m2, m3, q, "indent"@, bullet_hang()), found_or_inserted(m3, m4, q, ppr_order(), "a:buChar"@, b)]
            ppr_ensured(old, m1, q) && tag_set(m1, m2, q, "marR"@, bullet_indent())
                && tag_set(m2, m3, q, "indent"@, bullet_hang())
                && found_or_inserted(m3, m4, q, ppr_order(), "a:buChar"@, b) && opens_element(m4, b)
                && tag_set(m4, new, b, "char"@, seq![marker])
    }
}

/// A language written on one run-property element.
pub open spec fn lang_edit(v: Seq<char>) -> spec_fn(Seq<Token>, Seq<Token>, int) -> bool {
    |a: Seq<Token>, b: Seq<Token>, at: int| tag_set(a, b, at, "lang"@, v)
}

/// A complex-script typeface written on one run-property element's `a:cs`,
/// found or created in schema position.
pub open spec fn cs_edit(v: Seq<char>) -> spec_fn(Seq<Token>, Seq<Token>, int) -> bool {
    |a: Seq<Token>, b: Seq<Token>, at: int|
        exists|mid: Seq<Token>, c: int|
            #[trigger] found_or_inserted(a, mid, at, rpr_order(), "a:cs"@, c) && opens_element(mid, c)
                && tag_set(mid, b, c, "typeface"@, v)
}

/// One child of a paragraph visited for its run properties: a run's `a:rPr`
/// (created if it has none), the `a:endParaRPr`, or the default run
/// properties in the `a:pPr`, when it has them.
pub open spec fn run_property_step(a: Seq<Token>, b: Seq<Token>, i: int, edit: spec_fn(Seq<Token>, Seq<Token>, int) -> bool) -> bool {
    if !(0 <= i < a.len()) {
        b == a
    } else if opened_name(a[i]) == Some("a:r"@) {
        exists|mid: Seq<Token>, p: int|
            #[trigger] found_or_inserted(a, mid, i, a_r_order(), "a:rPr"@, p) && opens_element(mid, p) && edit(mid, b, p)
    } else if opened_name(a[i]) == Some("a:endParaRPr"@) {
        edit(a, b, i)
    } else if opened_name(a[i]) == Some("a:pPr"@) {
        match spec_find_direct_child(a, i, "a:defRPr"@) {
            Some(d) => edit(a, b, d),
            None => b == a,
        }
    } else {
        b == a
    }
}

/// Step `j` of the run-property walk: the paragraph's children back to
/// front, so that an `a:rPr` created moves none still to be visited.
pub open spec fn run_property_link(kids: Seq<int>, edit: spec_fn(Seq<Token>, Seq<Token>, int) -> bool) -> spec_fn(int, Seq<Token>, Seq<Token>) -> bool {
    |j: int, a: Seq<Token>, b: Seq<Token>| run_property_step(a, b, kids[kids.len() - 1 - j], edit)
}

/// Every run-property element of the paragraph edited.
pub open spec fn run_properties_edited(old: Seq<Token>, new: Seq<Token>, edit: spec_fn(Seq<Token>, Seq<Token>, int) -> bool) -> bool {
    chained(old, new, spec_direct_children(old).len(), run_property_link(spec_direct_children(old), edit))
}

/// Step `i` of the structural pass: the `i`th repair landing on the
/// paragraph's properties.
pub open spec fn structure_link(fixes: Seq<FixView>, inherited: Option<Direction>) -> spec_fn(int, Seq<Token>, Seq<Token>) -> bool {
    |i: int, a: Seq<Token>, b: Seq<Token>|
        match fixes[i] {
            FixView::SetDirection(d) => direction_set(a, b, d),
            FixView::SetAlignment(al) => alignment_set(a, b, al, declared_rtl(fixes), inherited),
            FixView::SetLanguage(v) => run_properties_edited(a, b, lang_edit(v)),
            FixView::SetComplexFont(v) => run_properties_edited(a, b, cs_edit(v)),
            FixView::ConvertLiteralBullet(m) => bullet_set(a, b, m),
            _ => b == a,
        }
}

/// Every repair for one paragraph applied: controls removed first, then
/// presentation forms normalised, then typed markers stripped — text edits
/// that neither move nor are moved by what follows — and then each repair's
/// structural edit in the order given.
pub open spec fn paragraph_fixed<F: Fn(&str) -> String>(old: Seq<Token>, new: Seq<Token>, fixes: Seq<FixView>, inherited: Option<Direction>, f: F) -> bool {
    exists|s1: Seq<Token>, s2: Seq<Token>, s3: Seq<Token>|
        #![trigger chained(old, s1, fixes.len(), control_link(fixes)), chained(s2, s3, fixes.len(), marker_link(fixes))]
        chained(old, s1, fixes.len(), control_link(fixes)) && forms_normalised(s1, s2, fixes, f)
            && chained(s2, s3, fixes.len(), marker_link(fixes))
            && chained(s3, new, fixes.len(), structure_link(fixes, inherited))
}

pub(crate) fn is_named(t: &Token, name: &str) -> (r: bool)
    ensures
        r == (opened_name(*t) == Some(name@)),
{
    let want = chars_of(name);
    is_tag(t, Kind::Start, &want) || is_tag(t, Kind::Empty, &want)
}

/// The paragraph's `a:pPr`, created in schema position if it has none.
fn ensure_ppr(para: &mut Vec<Token>) -> (q: usize)
    requires
        opens_element(old(para)@, 0),
    ensures
        ppr_ensured(old(para)@, final(para)@, q as int),
        q < final(para)@.len(),
{
    let order = a_p_order_exec();
    child_or_insert(para, 0, &order, "a:pPr")
}

fn set_paragraph_direction(para: &mut Vec<Token>, d: Direction)
    ensures
        direction_set(old(para)@, final(para)@, d),
{
    if opens(para, 0) {
        let q = ensure_ppr(para);
        let ghost mid = para@;
        set_tag(para, q, "rtl", rtl_value_exec(d));
        proof {
            reveal_strlit("rtl");
            assert(ppr_ensured(old(para)@, mid, q as int));
        }
    }
}

fn rtl_for(declared: Option<bool>, ppr: &Token, inherited: Option<Direction>) -> (r: bool)
    ensures
        r == lowering_rtl(declared, *ppr, inherited),
{
    match declared {
        Some(r) => r,
        None => match get_attribute(ppr, "rtl") {
            Some(v) => is_true(v.as_str()),
            None => inherited == Some(Direction::Rtl),
        },
    }
}

fn set_paragraph_alignment(para: &mut Vec<Token>, alignment: Alignment, declared: Option<bool>, inherited: Option<Direction>)
    ensures
        alignment_set(old(para)@, final(para)@, alignment, declared, inherited),
{
    if opens(para, 0) {
        let q = ensure_ppr(para);
        let ghost mid = para@;
        let rtl = rtl_for(declared, &para[q], inherited);
        set_tag(para, q, "algn", drawingml_alignment(alignment, rtl));
        proof {
            reveal_strlit("algn");
            assert(ppr_ensured(old(para)@, mid, q as int));
        }
    }
}

fn convert_bullet(para: &mut Vec<Token>, marker: char)
    ensures
        bullet_set(old(para)@, final(para)@, marker),
{
    if opens(para, 0) {
        let q = ensure_ppr(para);
        let ghost m1 = para@;
        set_tag(para, q, "marR", "342900");
        let ghost m2 = para@;
        set_tag(para, q, "indent", "-342900");
        let ghost m3 = para@;
        proof {
            assert(opens_element(m3, q as int));
        }
        let order = ppr_order_exec();
        let b = child_or_insert(para, q, &order, "a:buChar");
        let ghost m4 = para@;
        let mut text = String::new();
        push_char(&mut text, marker);
        set_tag(para, b, "char", text.as_str());
        proof {
            reveal_strlit("marR");
            reveal_strlit("indent");
            reveal_strlit("char");
            assert(text@ =~= seq![marker]);
            assert(ppr_ensured(old(para)@, m1, q as int));
            assert(tag_set(m1, m2, q as int, "marR"@, bullet_indent()));
            assert(tag_set(m2, m3, q as int, "indent"@, bullet_hang()));
            assert(found_or_inserted(m3, m4, q as int, ppr_order(), "a:buChar"@, b as int));
        }
    }
}

/// What is written on each run-property element.
enum RunEdit<'a> {
    Language(&'a str),
    ComplexFont(&'a str),
}

spec fn run_edit_spec(e: RunEdit) -> spec_fn(Seq<Token>, Seq<Token>, int) -> bool {
    match e {
        RunEdit::Language(v) => lang_edit(v@),
        RunEdit::ComplexFont(v) => cs_edit(v@),
    }
}

fn edit_run_property(para: &mut Vec<Token>, at: usize, e: &RunEdit)
    requires
        opens_element(old(para)@, at as int),
    ensures
        run_edit_spec(*e)(old(para)@, final(para)@, at as int),
        final(para)@.len() >= old(para)@.len(),
{
    match e {
        RunEdit::Language(v) => {
            set_tag(para, at, "lang", v);
            proof {
                reveal_strlit("lang");
            }
        },
        RunEdit::ComplexFont(v) => {
            let ghost before = para@;
            let order = rpr_order_exec();
            let c = child_or_insert(para, at, &order, "a:cs");
            let ghost mid = para@;
            set_tag(para, c, "typeface", v);
            proof {
                reveal_strlit("typeface");
                assert(found_or_inserted(before, mid, at as int, rpr_order(), "a:cs"@, c as int));
            }
        },
    }
}

/// Edit every run-property element in the paragraph, creating `a:rPr` for
/// runs that lack one. Children are visited back to front: creating an
/// `a:rPr` shifts every index after it, and the ones still to be visited
/// must not move.
fn edit_run_properties(para: &mut Vec<Token>, e: &RunEdit)
    ensures
        run_properties_edited(old(para)@, final(para)@, run_edit_spec(*e)),
{
    let ghost start = para@;
    let kids = direct_children(para);
    let ghost kv = kids@.map_values(|k: usize| k as int);
    let ghost link = run_property_link(kv, run_edit_spec(*e));
    let n = kids.len();
    let ghost mut states: Seq<Seq<Token>> = seq![start];
    proof {
        lemma_chain_start(start, link);
    }
    let a_r = a_r_order_exec();
    let mut j: usize = 0;
    while j < n
        invariant
            j <= n == kids@.len(),
            kv == kids@.map_values(|k: usize| k as int),
            kv == spec_direct_children(start),
            link == run_property_link(kv, run_edit_spec(*e)),
            forall|k: int| 0 <= k < kids@.len() ==> 1 <= #[trigger] kids@[k] < start.len(),
            para@.len() >= start.len(),
            order_view(a_r@) == a_r_order(),
            chain_of(states, j as nat, link),
            states[0] == start,
            states[j as int] == para@,
        decreases n - j,
    {
        let i = kids[n - 1 - j];
        let ghost before = para@;
        assert(kv[kv.len() - 1 - j] == i as int);
        if is_named(&para[i], "a:r") {
            let p = child_or_insert(para, i, &a_r, "a:rPr");
            let ghost mid = para@;
            edit_run_property(para, p, e);
            proof {
                assert(found_or_inserted(before, mid, i as int, a_r_order(), "a:rPr"@, p as int));
            }
        } else if is_named(&para[i], "a:endParaRPr") {
            edit_run_property(para, i, e);
        } else if is_named(&para[i], "a:pPr") {
            proof {
                lemma_found_child(para@, i as int, "a:defRPr"@);
            }
            if let Some(d) = find_direct_child(para, i, "a:defRPr") {
                edit_run_property(para, d, e);
            }
        }
        proof {
            assert(run_property_step(before, para@, i as int, run_edit_spec(*e)));
            lemma_chain_push(states, j as nat, link, para@);
            states = states.push(para@);
        }
        j += 1;
    }
}

/// The first direction repair in the list, as right-to-left or not.
pub fn declared_rtl_exec(fixes: &[Fix]) -> (r: Option<bool>)
    ensures
        r == declared_rtl(fix_views(fixes@)),
{
    let ghost fv = fix_views(fixes@);
    let mut k: usize = 0;
    assert(fv.skip(0) =~= fv);
    while k < fixes.len()
        invariant
            k <= fixes@.len(),
            fv == fix_views(fixes@),
            fv.len() == fixes@.len(),
            declared_rtl(fv) == declared_rtl(fv.skip(k as int)),
        decreases fixes@.len() - k,
    {
        assert(fv.skip(k as int)[0] == fv[k as int]);
        assert(fv.skip(k as int).drop_first() =~= fv.skip(k + 1));
        if let Fix::SetDirection(d) = &fixes[k] {
            return Some(*d == Direction::Rtl);
        }
        k += 1;
    }
    None
}

/// Whether any repair in the list normalises presentation forms.
pub(crate) fn asks_normalisation(fixes: &[Fix]) -> (r: bool)
    ensures
        r == fix_views(fixes@).contains(FixView::NormalizePresentationForms),
{
    let ghost fv = fix_views(fixes@);
    let mut k: usize = 0;
    while k < fixes.len()
        invariant
            k <= fixes@.len(),
            fv == fix_views(fixes@),
            fv.len() == fixes@.len(),
            forall|j: int| 0 <= j < k ==> fv[j] != FixView::NormalizePresentationForms,
        decreases fixes@.len() - k,
    {
        if let Fix::NormalizePresentationForms = &fixes[k] {
            assert(fv[k as int] == FixView::NormalizePresentationForms);
            return true;
        }
        k += 1;
    }
    false
}

/// Apply every repair for one paragraph, whose events are `para`.
///
/// Text first, in a fixed order whatever order the repairs arrived in:
/// controls are removed before anything else because their offsets index the
/// text as scanned, then presentation forms are normalised with `normalize`,
/// then typed markers stripped. Then each repair's structural edit, in order;
/// an alignment is lowered against the direction being repaired to, else the
/// paragraph's own, else `inherited`.
pub fn apply_to_paragraph<F: Fn(&str) -> String>(para: &mut Vec<Token>, fixes: &[Fix], inherited: Option<Direction>, normalize: &F)
    requires
        forall|s: &str| call_requires(normalize, (s,)),
    ensures
        paragraph_fixed(old(para)@, final(para)@, fix_views(fixes@), inherited, normalize),
{
    let ghost fv = fix_views(fixes@);
    let ghost s0 = para@;
    let n = fixes.len();

    // Controls, in the order given.
    let ghost mut st: Seq<Seq<Token>> = seq![s0];
    proof {
        lemma_chain_start(s0, control_link(fv));
    }
    let mut k: usize = 0;
    while k < n
        invariant
            k <= n == fixes@.len(),
            fv == fix_views(fixes@),
            chain_of(st, k as nat, control_link(fv)),
            st[0] == s0,
            st[k as int] == para@,
        decreases n - k,
    {
        let ghost before = para@;
        match &fixes[k] {
            Fix::RemoveControls(o) | Fix::RemoveTatweel(o) => remove_at_offsets(para, "a:t", o.as_slice()),
            _ => {},
        }
        proof {
            lemma_chain_push(st, k as nat, control_link(fv), para@);
            st = st.push(para@);
        }
        k += 1;
    }
    let ghost s1 = para@;
    proof {
        assert(chained(s0, s1, fv.len(), control_link(fv)));
    }

    // Presentation forms, once, if any repair asks.
    if asks_normalisation(fixes) {
        map_runs(para, "a:t", normalize);
        assert(runs_rewritten(s1, para@, a_t(), normalize));
    }
    let ghost s2 = para@;
    assert(forms_normalised(s1, s2, fv, normalize));

    // Typed markers.
    let ghost mut st2: Seq<Seq<Token>> = seq![s2];
    proof {
        lemma_chain_start(s2, marker_link(fv));
    }
    let mut k: usize = 0;
    while k < n
        invariant
            k <= n == fixes@.len(),
            fv == fix_views(fixes@),
            chain_of(st2, k as nat, marker_link(fv)),
            st2[0] == s2,
            st2[k as int] == para@,
        decreases n - k,
    {
        if let Fix::ConvertLiteralBullet { marker } = &fixes[k] {
            strip_leading_marker(para, "a:t", *marker);
        }
        proof {
            lemma_chain_push(st2, k as nat, marker_link(fv), para@);
            st2 = st2.push(para@);
        }
        k += 1;
    }
    let ghost s3 = para@;
    proof {
        assert(chained(s2, s3, fv.len(), marker_link(fv)));
    }

    // Structure: direction is resolved before alignment is lowered.
    let declared = declared_rtl_exec(fixes);
    let ghost mut st3: Seq<Seq<Token>> = seq![s3];
    proof {
        lemma_chain_start(s3, structure_link(fv, inherited));
    }
    let mut k: usize = 0;
    while k < n
        invariant
            k <= n == fixes@.len(),
            fv == fix_views(fixes@),
            declared == declared_rtl(fv),
            chain_of(st3, k as nat, structure_link(fv, inherited)),
            st3[0] == s3,
            st3[k as int] == para@,
        decreases n - k,
    {
        match &fixes[k] {
            Fix::SetDirection(d) => set_paragraph_direction(para, *d),
            Fix::SetAlignment(a) => set_paragraph_alignment(para, *a, declared, inherited),
            Fix::SetLanguage(v) => edit_run_properties(para, &RunEdit::Language(v.as_str())),
            Fix::SetComplexFont(v) => edit_run_properties(para, &RunEdit::ComplexFont(v.as_str())),
            Fix::ConvertLiteralBullet { marker } => convert_bullet(para, *marker),
            Fix::RemoveControls(_) | Fix::RemoveTatweel(_) | Fix::NormalizePresentationForms => {},
        }
        proof {
            lemma_chain_push(st3, k as nat, structure_link(fv, inherited), para@);
            st3 = st3.push(para@);
        }
        k += 1;
    }
    proof {
        assert(chained(s3, para@, fv.len(), structure_link(fv, inherited)));
        assert(chained(s0, s1, fv.len(), control_link(fv)));
        assert(chained(s2, s3, fv.len(), marker_link(fv)));
    }
}


// ------------------------------------------------------------ a whole part

/// Element ranges are numbered 1, 2, … in document order, each starting at a
/// tag that opens an element of that name.
pub proof fn lemma_ranges_numbered(ev: Seq<Token>, name: Seq<char>, n: int)
    requires
        n <= ev.len(),
    ensures
        forall|j: int| 0 <= j < ranges_named(ev, name, n).len() ==> {
            let e = #[trigger] ranges_named(ev, name, n)[j];
            &&& e.0 == j + 1
            &&& 0 <= e.1 < n
            &&& opened_name(ev[e.1]) == Some(name)
            &&& e.2 == element_end(ev, e.1)
        },
    decreases n,
{
    if n > 0 {
        lemma_ranges_numbered(ev, name, n - 1);
        let before = ranges_named(ev, name, n - 1);
        let all = ranges_named(ev, name, n);
        assert forall|j: int| 0 <= j < all.len() implies {
            let e = #[trigger] all[j];
            &&& e.0 == j + 1
            &&& 0 <= e.1 < n
            &&& opened_name(ev[e.1]) == Some(name)
            &&& e.2 == element_end(ev, e.1)
        } by {
            if j < before.len() {
                assert(all[j] == before[j]);
            }
        }
    }
}

/// The first key, in increasing order, that numbers none of `n` elements.
pub open spec fn first_missing(keys: Seq<usize>, n: int) -> Option<usize>
    decreases keys.len(),
{
    if keys.len() == 0 {
        None
    } else if !(1 <= keys[0] <= n) {
        Some(keys[0])
    } else {
        first_missing(keys.drop_first(), n)
    }
}

/// The last key whose repairs are not all directions.
pub open spec fn last_refused(m: Map<usize, Vec<Fix>>, keys: Seq<usize>) -> Option<usize>
    decreases keys.len(),
{
    if keys.len() == 0 {
        None
    } else if !only_directions(fix_views(m[keys.last()]@)) {
        Some(keys.last())
    } else {
        last_refused(m, keys.drop_last())
    }
}

/// How many elements named `name` the part has.
pub open spec fn named_count(ev: Seq<Token>, name: Seq<char>) -> int {
    ranges_named(ev, name, ev.len() as int).len() as int
}

/// The error a plan naming an element the part lacks is refused with.
pub open spec fn missing_message(part: Seq<char>, what: Seq<char>, k: usize) -> Seq<char> {
    part + ": no "@ + what + " "@ + decimal(k as nat) + "; the document and the report disagree"@
}

/// Repairs keyed by index, as their map and their keys in increasing order.
pub open spec fn listing(r: ByIndex<Vec<Fix>>) -> (Map<usize, Vec<Fix>>, Seq<usize>) {
    (r@, r.key_order())
}

/// No repairs at all.
pub open spec fn no_listing() -> (Map<usize, Vec<Fix>>, Seq<usize>) {
    (Map::empty(), Seq::empty())
}

pub open spec fn missing_in(part: Seq<char>, ev: Seq<Token>, r: (Map<usize, Vec<Fix>>, Seq<usize>), name: Seq<char>, what: Seq<char>) -> Option<Seq<char>> {
    match first_missing(r.1, named_count(ev, name)) {
        Some(k) => Some(missing_message(part, what, k)),
        None => None,
    }
}

pub open spec fn refused_in(part: Seq<char>, r: (Map<usize, Vec<Fix>>, Seq<usize>), what: Seq<char>) -> Option<Seq<char>> {
    match last_refused(r.0, r.1) {
        Some(k) => match first_other(fix_views(r.0[k]@)) {
            Some(f) => Some(refusal(part, f, what)),
            None => None,
        },
        None => None,
    }
}

/// Why a plan is refused on a part, if it is: the first key that names an
/// element the part lacks — paragraphs, tables, text bodies, then each kind
/// of chart container — and then the first container, in the order they are
/// repaired, given a repair that is not its own.
pub open spec fn plan_refusal(
    part: Seq<char>,
    ev: Seq<Token>,
    paragraphs: (Map<usize, Vec<Fix>>, Seq<usize>),
    tables: (Map<usize, Vec<Fix>>, Seq<usize>),
    columns: (Map<usize, Vec<Fix>>, Seq<usize>),
    axes: (Map<usize, Vec<Fix>>, Seq<usize>),
    legends: (Map<usize, Vec<Fix>>, Seq<usize>),
    labels: (Map<usize, Vec<Fix>>, Seq<usize>),
) -> Option<Seq<char>> {
    let ax = ChartText::CategoryAxis;
    let lg = ChartText::Legend;
    let dl = ChartText::DataLabels;
    let r1 = missing_in(part, ev, paragraphs, "a:p"@, "paragraph"@);
    let r2 = missing_in(part, ev, tables, "a:tbl"@, "table"@);
    let r3 = missing_in(part, ev, columns, "a:bodyPr"@, "text body"@);
    let r4 = missing_in(part, ev, axes, spec_element(ax), spec_label(ax));
    let r5 = missing_in(part, ev, legends, spec_element(lg), spec_label(lg));
    let r6 = missing_in(part, ev, labels, spec_element(dl), spec_label(dl));
    let r7 = refused_in(part, tables, table_refusal());
    let r8 = refused_in(part, columns, body_refusal());
    let r9 = refused_in(part, axes, chart_refusal(ax));
    let r10 = refused_in(part, legends, chart_refusal(lg));
    let r11 = refused_in(part, labels, chart_refusal(dl));
    if r1 is Some {
        r1
    } else if r2 is Some {
        r2
    } else if r3 is Some {
        r3
    } else if r4 is Some {
        r4
    } else if r5 is Some {
        r5
    } else if r6 is Some {
        r6
    } else if r7 is Some {
        r7
    } else if r8 is Some {
        r8
    } else if r9 is Some {
        r9
    } else if r10 is Some {
        r10
    } else {
        r11
    }
}

pub(crate) fn missing_message_exec(part: &str, what: &str, k: usize) -> (r: String)
    ensures
        r@ == missing_message(part@, what@, k),
{
    let mut m = chars_of(part);
    push_all(&mut m, &chars_of(": no "));
    push_all(&mut m, &chars_of(what));
    push_all(&mut m, &chars_of(" "));
    push_all(&mut m, &chars_of(decimal_of(k).as_str()));
    push_all(&mut m, &chars_of("; the document and the report disagree"));
    string_of(&m)
}

fn count_named(events: &[Token], name: &str) -> (n: usize)
    ensures
        n == named_count(events@, name@),
{
    let r = element_ranges(events, name);
    assert(range_views(r@).len() == r@.len());
    r.len()
}

pub(crate) fn missing_exec(part: &str, events: &[Token], r: &ByIndex<Vec<Fix>>, name: &str, what: &str) -> (m: Option<String>)
    ensures
        m matches Some(s) ==> missing_in(part@, events@, listing(*r), name@, what@) == Some(s@),
        m is None ==> missing_in(part@, events@, listing(*r), name@, what@) is None,
{
    let n = count_named(events, name);
    let keys = r.keys();
    let ghost ks = r.key_order();
    let mut i: usize = 0;
    assert(ks.skip(0) =~= ks);
    while i < keys.len()
        invariant
            i <= keys@.len(),
            keys@ == ks,
            ks == r.key_order(),
            n == named_count(events@, name@),
            first_missing(ks, n as int) == first_missing(ks.skip(i as int), n as int),
        decreases keys@.len() - i,
    {
        assert(ks.skip(i as int)[0] == keys@[i as int]);
        assert(ks.skip(i as int).drop_first() =~= ks.skip(i + 1));
        let k = keys[i];
        if k < 1 || k > n {
            assert(first_missing(ks, n as int) == Some(k));
            return Some(missing_message_exec(part, what, k));
        }
        i += 1;
    }
    None
}

/// Whether every repair in a list is a direction.
pub(crate) fn directions_only(fixes: &[Fix]) -> (r: bool)
    ensures
        r == only_directions(fix_views(fixes@)),
{
    let ghost fv = fix_views(fixes@);
    let mut k: usize = 0;
    while k < fixes.len()
        invariant
            k <= fixes@.len(),
            fv == fix_views(fixes@),
            fv.len() == fixes@.len(),
            only_directions(fv.take(k as int)),
        decreases fixes@.len() - k,
    {
        if let Fix::SetDirection(_) = &fixes[k] {
        } else {
            assert(!(fv[k as int] is SetDirection));
            return false;
        }
        assert forall|j: int| 0 <= j < k + 1 implies #[trigger] fv.take(k + 1)[j] is SetDirection by {
            if j < k {
                assert(fv.take(k + 1)[j] == fv.take(k as int)[j]);
            }
        }
        k += 1;
    }
    assert(fv.take(k as int) =~= fv);
    true
}

/// The first repair in a list that is not a direction.
pub(crate) fn first_other_exec(fixes: &[Fix]) -> (r: Option<&Fix>)
    ensures
        r matches Some(f) ==> first_other(fix_views(fixes@)) == Some(f@),
        r is None ==> first_other(fix_views(fixes@)) is None,
{
    let ghost fv = fix_views(fixes@);
    let mut k: usize = 0;
    assert(fv.skip(0) =~= fv);
    while k < fixes.len()
        invariant
            k <= fixes@.len(),
            fv == fix_views(fixes@),
            fv.len() == fixes@.len(),
            first_other(fv) == first_other(fv.skip(k as int)),
        decreases fixes@.len() - k,
    {
        assert(fv.skip(k as int)[0] == fv[k as int]);
        assert(fv.skip(k as int).drop_first() =~= fv.skip(k + 1));
        if let Fix::SetDirection(_) = &fixes[k] {
        } else {
            return Some(&fixes[k]);
        }
        k += 1;
    }
    None
}

pub(crate) fn refused_exec(part: &str, r: &ByIndex<Vec<Fix>>, what: &str) -> (m: Option<String>)
    ensures
        m matches Some(s) ==> refused_in(part@, listing(*r), what@) == Some(s@),
        m is None ==> refused_in(part@, listing(*r), what@) is None,
{
    let keys = r.keys();
    let ghost ks = r.key_order();
    let mut i: usize = keys.len();
    assert(ks.take(ks.len() as int) =~= ks);
    while i > 0
        invariant
            i <= keys@.len(),
            keys@ == ks,
            ks == r.key_order(),
            forall|k: usize| r@.contains_key(k) <==> keys@.contains(k),
            last_refused(r@, ks) == last_refused(r@, ks.take(i as int)),
        decreases i,
    {
        let k = keys[i - 1];
        assert(ks.take(i as int).last() == k);
        assert(ks.take(i as int).drop_last() =~= ks.take(i - 1));
        assert(keys@.contains(k));
        let list = r.get(k).unwrap();
        if !directions_only(list.as_slice()) {
            assert(last_refused(r@, ks) == Some(k));
            match first_other_exec(list.as_slice()) {
                Some(f) => {
                    let e = refuse(part, f, what);
                    match e {
                        Error::Format(s) => {
                            return Some(s);
                        },
                        _ => {
                            return None;
                        },
                    }
                },
                None => {
                    proof {
                        lemma_first_other(fix_views(list@));
                    }
                    return None;
                },
            }
        }
        i -= 1;
    }
    None
}

/// Why a plan is refused on a part, if it is.
fn refusal_of(
    part: &str,
    events: &[Token],
    paragraphs: &PartFixes,
    tables: &TableFixes,
    columns: &ColumnFixes,
    chart_text: &ChartTextFixes,
) -> (m: Option<String>)
    ensures
        m matches Some(s) ==> plan_refusal(part@, events@, listing(*paragraphs), listing(*tables), listing(*columns),
            listing(chart_text.category_axes), listing(chart_text.legends), listing(chart_text.data_labels)) == Some(s@),
        m is None ==> plan_refusal(part@, events@, listing(*paragraphs), listing(*tables), listing(*columns),
            listing(chart_text.category_axes), listing(chart_text.legends), listing(chart_text.data_labels)) is None,
{
    let ax = ChartText::CategoryAxis;
    let lg = ChartText::Legend;
    let dl = ChartText::DataLabels;
    if let Some(m) = missing_exec(part, events, paragraphs, "a:p", "paragraph") {
        return Some(m);
    }
    if let Some(m) = missing_exec(part, events, tables, "a:tbl", "table") {
        return Some(m);
    }
    if let Some(m) = missing_exec(part, events, columns, "a:bodyPr", "text body") {
        return Some(m);
    }
    if let Some(m) = missing_exec(part, events, chart_text.kind(ax), ax.element(), ax.label()) {
        return Some(m);
    }
    if let Some(m) = missing_exec(part, events, chart_text.kind(lg), lg.element(), lg.label()) {
        return Some(m);
    }
    if let Some(m) = missing_exec(part, events, chart_text.kind(dl), dl.element(), dl.label()) {
        return Some(m);
    }
    if let Some(m) = refused_exec(part, tables, "a table; only its direction is a table's own") {
        return Some(m);
    }
    if let Some(m) = refused_exec(part, columns, "a text body; only its column direction is the body's own") {
        return Some(m);
    }
    let what = chart_refusal_exec(ax);
    if let Some(m) = refused_exec(part, chart_text.kind(ax), what.as_str()) {
        return Some(m);
    }
    let what = chart_refusal_exec(lg);
    if let Some(m) = refused_exec(part, chart_text.kind(lg), what.as_str()) {
        return Some(m);
    }
    let what = chart_refusal_exec(dl);
    refused_exec(part, chart_text.kind(dl), what.as_str())
}


proof fn lemma_none_refused(m: Map<usize, Vec<Fix>>, keys: Seq<usize>)
    requires
        last_refused(m, keys) is None,
    ensures
        forall|i: int| 0 <= i < keys.len() ==> only_directions(fix_views(m[#[trigger] keys[i]]@)),
    decreases keys.len(),
{
    if keys.len() > 0 {
        lemma_none_refused(m, keys.drop_last());
        assert forall|i: int| 0 <= i < keys.len() implies only_directions(fix_views(m[#[trigger] keys[i]]@)) by {
            if i < keys.len() - 1 {
                assert(keys[i] == keys.drop_last()[i]);
            }
        }
    }
}

pub(crate) proof fn lemma_refused_in_none(part: Seq<char>, r: (Map<usize, Vec<Fix>>, Seq<usize>), what: Seq<char>)
    requires
        refused_in(part, r, what) is None,
    ensures
        forall|i: int| 0 <= i < r.1.len() ==> only_directions(fix_views(r.0[#[trigger] r.1[i]]@)),
{
    if let Some(k) = last_refused(r.0, r.1) {
        lemma_last_refused_is_refused(r.0, r.1);
        lemma_first_other(fix_views(r.0[k]@));
    }
    lemma_none_refused(r.0, r.1);
}

proof fn lemma_last_refused_is_refused(m: Map<usize, Vec<Fix>>, keys: Seq<usize>)
    ensures
        last_refused(m, keys) matches Some(k) ==> !only_directions(fix_views(m[k]@)),
    decreases keys.len(),
{
    if keys.len() > 0 {
        lemma_last_refused_is_refused(m, keys.drop_last());
    }
}

/// A kind of container a plan repairs as a whole.
#[derive(Clone, Copy, PartialEq, Eq, Structural)]
pub enum Container {
    Tables,
    Bodies,
    Charts(ChartText),
}

/// The element a container is.
pub open spec fn container_element(c: Container) -> Seq<char> {
    match c {
        Container::Tables => "a:tbl"@,
        Container::Bodies => "a:bodyPr"@,
        Container::Charts(k) => spec_element(k),
    }
}

fn container_element_exec(c: Container) -> (r: &'static str)
    ensures
        r@ == container_element(c),
{
    match c {
        Container::Tables => "a:tbl",
        Container::Bodies => "a:bodyPr",
        Container::Charts(k) => k.element(),
    }
}

/// A container's direction repairs, each in turn, on the one at `at`.
pub open spec fn container_fixed(c: Container, old: Seq<Token>, new: Seq<Token>, at: int, fixes: Seq<FixView>, declare: bool) -> bool {
    match c {
        Container::Tables => table_fixed(old, new, at, fixes),
        Container::Bodies => columns_fixed(old, new, at, fixes),
        Container::Charts(k) => chart_text_fixed(old, new, at, k, fixes, declare),
    }
}

fn apply_container(part: &str, events: &mut Vec<Token>, at: usize, c: Container, fixes: &[Fix], declare: bool)
    requires
        only_directions(fix_views(fixes@)),
    ensures
        container_fixed(c, old(events)@, final(events)@, at as int, fix_views(fixes@), declare),
{
    match c {
        Container::Tables => {
            let r = apply_to_table(part, events, at, fixes);
            assert(r is Ok);
        },
        Container::Bodies => {
            let r = apply_to_columns(part, events, at, fixes);
            assert(r is Ok);
        },
        Container::Charts(k) => {
            let r = apply_to_chart_text(part, events, at, k, fixes, declare);
            assert(r is Ok);
        },
    }
}

/// Step `j` of a container pass: the containers of one kind back to front,
/// each with its repairs if the plan has any.
pub open spec fn container_link(rs: Seq<(int, int, int)>, c: Container, m: Map<usize, Vec<Fix>>, declare: bool) -> spec_fn(int, Seq<Token>, Seq<Token>) -> bool {
    |j: int, a: Seq<Token>, b: Seq<Token>| {
        let e = rs[rs.len() - 1 - j];
        if m.contains_key(e.0 as usize) {
            container_fixed(c, a, b, e.1, fix_views(m[e.0 as usize]@), declare)
        } else {
            b == a
        }
    }
}

/// Every container of one kind given the repairs the plan has for it,
/// numbered as they stood when the pass began.
pub open spec fn containers_applied(old: Seq<Token>, new: Seq<Token>, c: Container, m: Map<usize, Vec<Fix>>, declare: bool) -> bool {
    let rs = ranges_named(old, container_element(c), old.len() as int);
    chained(old, new, rs.len(), container_link(rs, c, m, declare))
}

fn apply_containers(part: &str, events: &mut Vec<Token>, c: Container, plan: &ByIndex<Vec<Fix>>, declare: bool)
    requires
        forall|k: usize| plan@.contains_key(k) ==> only_directions(fix_views(#[trigger] plan@[k]@)),
    ensures
        containers_applied(old(events)@, final(events)@, c, plan@, declare),
{
    let ghost start = events@;
    let name = container_element_exec(c);
    let ranges = element_ranges(events, name);
    let ghost rs = range_views(ranges@);
    let ghost link = container_link(rs, c, plan@, declare);
    let m = ranges.len();
    assert(rs.len() == m);
    let ghost mut states: Seq<Seq<Token>> = seq![start];
    proof {
        lemma_chain_start(start, link);
    }
    let mut j: usize = 0;
    while j < m
        invariant
            j <= m == ranges@.len(),
            rs == range_views(ranges@),
            rs.len() == m,
            link == container_link(rs, c, plan@, declare),
            forall|k: usize| plan@.contains_key(k) ==> only_directions(fix_views(#[trigger] plan@[k]@)),
            chain_of(states, j as nat, link),
            states[0] == start,
            states[j as int] == events@,
        decreases m - j,
    {
        let index = ranges[m - 1 - j].0;
        let at = ranges[m - 1 - j].1.start;
        assert(rs[m - 1 - j] == (index as int, at as int, ranges@[m - 1 - j].1.end as int));
        let ghost before = events@;
        if let Some(list) = plan.get(index) {
            apply_container(part, events, at, c, list.as_slice(), declare);
        }
        proof {
            lemma_chain_push(states, j as nat, link, events@);
            states = states.push(events@);
        }
        j += 1;
    }
}

/// The direction a map of inherited directions gives index `k`, if any.
pub open spec fn lookup(m: Map<usize, Direction>, k: usize) -> Option<Direction> {
    if m.contains_key(k) {
        Some(m[k])
    } else {
        None
    }
}

/// Step `j` of the paragraph pass: the paragraphs back to front, each with
/// its repairs if the plan has any, spliced back in place.
pub open spec fn paragraph_link<F: Fn(&str) -> String>(rs: Seq<(int, int, int)>, pm: Map<usize, Vec<Fix>>, im: Map<usize, Direction>, f: F) -> spec_fn(int, Seq<Token>, Seq<Token>) -> bool {
    |j: int, a: Seq<Token>, b: Seq<Token>| {
        let e = rs[rs.len() - 1 - j];
        let k = e.0 as usize;
        if pm.contains_key(k) && 0 <= e.1 <= e.2 <= a.len() {
            exists|p: Seq<Token>|
                #[trigger] paragraph_fixed(a.subrange(e.1, e.2), p, fix_views(pm[k]@), lookup(im, k), f)
                    && b == a.take(e.1) + p + a.skip(e.2)
        } else {
            b == a
        }
    }
}

/// Every paragraph given the repairs the plan has for it.
pub open spec fn paragraphs_applied<F: Fn(&str) -> String>(old: Seq<Token>, new: Seq<Token>, pm: Map<usize, Vec<Fix>>, im: Map<usize, Direction>, f: F) -> bool {
    let rs = ranges_named(old, "a:p"@, old.len() as int);
    chained(old, new, rs.len(), paragraph_link(rs, pm, im, f))
}

fn apply_paragraphs<F: Fn(&str) -> String>(events: &mut Vec<Token>, plan: &PartFixes, inherited: &Inherited, normalize: &F)
    requires
        forall|s: &str| call_requires(normalize, (s,)),
    ensures
        paragraphs_applied(old(events)@, final(events)@, plan@, inherited@, normalize),
{
    let ghost start = events@;
    let ranges = element_ranges(events, "a:p");
    let ghost rs = range_views(ranges@);
    let ghost link = paragraph_link(rs, plan@, inherited@, normalize);
    let m = ranges.len();
    assert(rs.len() == m);
    let ghost mut states: Seq<Seq<Token>> = seq![start];
    proof {
        lemma_chain_start(start, link);
    }
    let mut j: usize = 0;
    while j < m
        invariant
            j <= m == ranges@.len(),
            rs == range_views(ranges@),
            rs.len() == m,
            link == paragraph_link(rs, plan@, inherited@, normalize),
            forall|s: &str| call_requires(normalize, (s,)),
            chain_of(states, j as nat, link),
            states[0] == start,
            states[j as int] == events@,
        decreases m - j,
    {
        let index = ranges[m - 1 - j].0;
        let from = ranges[m - 1 - j].1.start;
        let to = ranges[m - 1 - j].1.end;
        assert(rs[m - 1 - j] == (index as int, from as int, to as int));
        let ghost before = events@;
        if let Some(list) = plan.get(index) {
            if from <= to && to <= events.len() {
                let mut para = copy_range(events, from, to);
                let inh = match inherited.get(index) {
                    Some(d) => Some(*d),
                    None => None,
                };
                apply_to_paragraph(&mut para, list.as_slice(), inh, normalize);
                let ghost p = para@;
                splice_tokens(events, from, to, para);
                proof {
                    assert(paragraph_fixed(before.subrange(from as int, to as int), p, fix_views(plan@[index]@), lookup(inherited@, index), normalize));
                }
            }
        }
        proof {
            lemma_chain_push(states, j as nat, link, events@);
            states = states.push(events@);
        }
        j += 1;
    }
}

/// Whether a `c:txPr` created in a part must declare the DrawingML prefix.
pub open spec fn needs_declaration(ev: Seq<Token>) -> bool {
    !spec_declares_drawingml(ev)
}

/// A whole plan applied to a part's tokens: paragraphs first, then tables,
/// then text bodies — their ranges taken after the edits before them — and
/// chart containers last, one kind after another, a created `c:txPr`
/// declaring the DrawingML prefix when the part as it then stands does not.
pub open spec fn plan_applied<F: Fn(&str) -> String>(
    old: Seq<Token>,
    new: Seq<Token>,
    paragraphs: Map<usize, Vec<Fix>>,
    tables: Map<usize, Vec<Fix>>,
    columns: Map<usize, Vec<Fix>>,
    axes: Map<usize, Vec<Fix>>,
    legends: Map<usize, Vec<Fix>>,
    labels: Map<usize, Vec<Fix>>,
    inherited: Map<usize, Direction>,
    f: F,
) -> bool {
    exists|s1: Seq<Token>, s2: Seq<Token>, s3: Seq<Token>, c1: Seq<Token>, c2: Seq<Token>|
        #![trigger paragraphs_applied(old, s1, paragraphs, inherited, f), containers_applied(s1, s2, Container::Tables, tables, false), containers_applied(s2, s3, Container::Bodies, columns, false), containers_applied(c1, c2, Container::Charts(ChartText::Legend), legends, needs_declaration(s3))]
        paragraphs_applied(old, s1, paragraphs, inherited, f)
            && containers_applied(s1, s2, Container::Tables, tables, false)
            && containers_applied(s2, s3, Container::Bodies, columns, false)
            && containers_applied(s3, c1, Container::Charts(ChartText::CategoryAxis), axes, needs_declaration(s3))
            && containers_applied(c1, c2, Container::Charts(ChartText::Legend), legends, needs_declaration(s3))
            && containers_applied(c2, new, Container::Charts(ChartText::DataLabels), labels, needs_declaration(s3))
}

fn apply_parts<F: Fn(&str) -> String>(
    part: &str,
    events: Vec<Token>,
    paragraphs: &PartFixes,
    tables: &TableFixes,
    columns: &ColumnFixes,
    chart_text: &ChartTextFixes,
    inherited: &Inherited,
    normalize: &F,
) -> (r: Result<Vec<Token>, Error>)
    requires
        forall|s: &str| call_requires(normalize, (s,)),
    ensures
        r is Err <==> plan_refusal(part@, events@, listing(*paragraphs), listing(*tables), listing(*columns),
            listing(chart_text.category_axes), listing(chart_text.legends), listing(chart_text.data_labels)) is Some,
        r matches Err(e) ==> e == Error::Format(e->Format_0) && plan_refusal(part@, events@, listing(*paragraphs),
            listing(*tables), listing(*columns), listing(chart_text.category_axes), listing(chart_text.legends),
            listing(chart_text.data_labels)) == Some(e->Format_0@),
        r matches Ok(out) ==> plan_applied(events@, out@, paragraphs@, tables@, columns@, chart_text.category_axes@,
            chart_text.legends@, chart_text.data_labels@, inherited@, normalize),
{
    if let Some(m) = refusal_of(part, &events, paragraphs, tables, columns, chart_text) {
        return Err(Error::Format(m));
    }
    let ghost ev0 = events@;
    proof {
        let ax = ChartText::CategoryAxis;
        let lg = ChartText::Legend;
        let dl = ChartText::DataLabels;
        lemma_refused_in_none(part@, listing(*tables), table_refusal());
        lemma_refused_in_none(part@, listing(*columns), body_refusal());
        lemma_refused_in_none(part@, listing(chart_text.category_axes), chart_refusal(ax));
        lemma_refused_in_none(part@, listing(chart_text.legends), chart_refusal(lg));
        lemma_refused_in_none(part@, listing(chart_text.data_labels), chart_refusal(dl));
    }
    only_directions_everywhere(tables);
    only_directions_everywhere(columns);
    only_directions_everywhere(&chart_text.category_axes);
    only_directions_everywhere(&chart_text.legends);
    only_directions_everywhere(&chart_text.data_labels);
    let mut events = events;
    apply_paragraphs(&mut events, paragraphs, inherited, normalize);
    let ghost s1 = events@;
    apply_containers(part, &mut events, Container::Tables, tables, false);
    let ghost s2 = events@;
    apply_containers(part, &mut events, Container::Bodies, columns, false);
    let ghost s3 = events@;
    let declare = !declares_drawingml(&events);
    apply_containers(part, &mut events, Container::Charts(ChartText::CategoryAxis), &chart_text.category_axes, declare);
    let ghost c1 = events@;
    apply_containers(part, &mut events, Container::Charts(ChartText::Legend), &chart_text.legends, declare);
    let ghost c2 = events@;
    apply_containers(part, &mut events, Container::Charts(ChartText::DataLabels), &chart_text.data_labels, declare);
    proof {
        assert(paragraphs_applied(ev0, s1, paragraphs@, inherited@, normalize));
        assert(containers_applied(s1, s2, Container::Tables, tables@, false));
        assert(containers_applied(s2, s3, Container::Bodies, columns@, false));
        assert(containers_applied(c1, c2, Container::Charts(ChartText::Legend), chart_text.legends@, needs_declaration(s3)));
    }
    Ok(events)
}

/// Turn "no key of this listing is refused" into a statement over the map.
pub(crate) fn only_directions_everywhere(r: &ByIndex<Vec<Fix>>)
    requires
        forall|i: int| 0 <= i < r.key_order().len() ==> only_directions(fix_views(r@[#[trigger] r.key_order()[i]]@)),
    ensures
        forall|k: usize| r@.contains_key(k) ==> only_directions(fix_views(#[trigger] r@[k]@)),
{
    let keys = r.keys();
    proof {
        assert forall|k: usize| r@.contains_key(k) implies only_directions(fix_views(#[trigger] r@[k]@)) by {
            assert(keys@.contains(k));
            let i = choose|i: int| 0 <= i < keys@.len() && keys@[i] == k;
            assert(r.key_order()[i] == k);
        }
    }
}

/// Apply a whole plan to a part's tokens. Refused, with the reason, when the
/// plan names an element the part lacks or gives a container a repair that
/// is not its own; otherwise every token the plan does not address comes
/// out as it went in.
pub fn apply_events<F: Fn(&str) -> String>(part: &str, events: Vec<Token>, plan: &PartPlan, inherited: &Inherited, normalize: &F) -> (r: Result<Vec<Token>, Error>)
    requires
        forall|s: &str| call_requires(normalize, (s,)),
    ensures
        r is Err <==> plan_refusal(part@, events@, listing(plan.paragraphs), listing(plan.tables), listing(plan.columns),
            listing(plan.chart_text.category_axes), listing(plan.chart_text.legends), listing(plan.chart_text.data_labels)) is Some,
        r matches Err(e) ==> e == Error::Format(e->Format_0) && plan_refusal(part@, events@, listing(plan.paragraphs),
            listing(plan.tables), listing(plan.columns), listing(plan.chart_text.category_axes),
            listing(plan.chart_text.legends), listing(plan.chart_text.data_labels)) == Some(e->Format_0@),
        r matches Ok(out) ==> plan_applied(events@, out@, plan.paragraphs@, plan.tables@, plan.columns@,
            plan.chart_text.category_axes@, plan.chart_text.legends@, plan.chart_text.data_labels@, inherited@, normalize),
{
    apply_parts(part, events, &plan.paragraphs, &plan.tables, &plan.columns, &plan.chart_text, inherited, normalize)
}


/// Apply a whole part's plan — paragraphs, tables, text bodies and chart
/// containers — leaving every token it does not address untouched. A plan
/// with no repairs in it gives the part back as read.
pub fn apply_plan<F: Fn(&str) -> String>(part: &str, xml: &str, plan: &PartPlan, inherited: &Inherited, normalize: &F) -> (r: Result<String, Error>)
    requires
        forall|s: &str| call_requires(normalize, (s,)),
    ensures
        r matches Err(e) ==> e is Format,
        document_tokens(xml@) is Err ==> (r matches Err(e) && read_failure(part@, xml@, e)),
        plan_count(*plan) == 0 ==> (r is Ok <==> document_tokens(xml@) is Ok),
        plan_count(*plan) == 0 ==> (r matches Ok(s) ==> exists|ev: Seq<Token>| #[trigger] reads_as(xml@, ev) && s@ == serialized_all(ev)),
        plan_count(*plan) != 0 ==> (r matches Err(e) ==> read_failure(part@, xml@, e) || exists|ev: Seq<Token>|
            #[trigger] reads_as(xml@, ev) && plan_refusal(part@, ev, listing(plan.paragraphs), listing(plan.tables), listing(plan.columns),
                listing(plan.chart_text.category_axes), listing(plan.chart_text.legends), listing(plan.chart_text.data_labels)) == Some(e->Format_0@)),
        plan_count(*plan) != 0 ==> (r matches Ok(s) ==> exists|ev: Seq<Token>, out: Seq<Token>|
            #[trigger] plan_applied(ev, out, plan.paragraphs@, plan.tables@, plan.columns@,
                plan.chart_text.category_axes@, plan.chart_text.legends@, plan.chart_text.data_labels@, inherited@, normalize)
            && reads_as(xml@, ev)
            && plan_refusal(part@, ev, listing(plan.paragraphs), listing(plan.tables), listing(plan.columns),
                listing(plan.chart_text.category_axes), listing(plan.chart_text.legends), listing(plan.chart_text.data_labels)) is None
            && s@ == serialized_all(out)),
{
    if plan.is_empty() {
        return passthrough(part, xml);
    }
    let events = read_events(part, xml)?;
    let ghost ev = events@;
    assert(reads_as(xml@, ev));
    let out = apply_events(part, events, plan, inherited, normalize)?;
    let ghost o = out@;
    let s = write_events(part, &out);
    proof {
        if s is Ok {
            assert(plan_applied(ev, o, plan.paragraphs@, plan.tables@, plan.columns@,
                plan.chart_text.category_axes@, plan.chart_text.legends@, plan.chart_text.data_labels@, inherited@, normalize));
        }
    }
    s
}

/// [`apply`], with the direction each paragraph inherits from its
/// container, by paragraph index, for paragraphs that declare none.
pub fn apply_with<F: Fn(&str) -> String>(part: &str, xml: &str, fixes: &PartFixes, inherited: &Inherited, normalize: &F) -> (r: Result<String, Error>)
    requires
        forall|s: &str| call_requires(normalize, (s,)),
    ensures
        r matches Err(e) ==> e is Format,
        document_tokens(xml@) is Err ==> (r matches Err(e) && read_failure(part@, xml@, e)),
        count(*fixes) == 0 ==> (r is Ok <==> document_tokens(xml@) is Ok),
        count(*fixes) == 0 ==> (r matches Ok(s) ==> exists|ev: Seq<Token>| #[trigger] reads_as(xml@, ev) && s@ == serialized_all(ev)),
        count(*fixes) != 0 ==> (r matches Err(e) ==> read_failure(part@, xml@, e) || exists|ev: Seq<Token>|
            #[trigger] reads_as(xml@, ev) && plan_refusal(part@, ev, listing(*fixes), no_listing(), no_listing(), no_listing(), no_listing(),
                no_listing()) == Some(e->Format_0@)),
        count(*fixes) != 0 ==> (r matches Ok(s) ==> exists|ev: Seq<Token>, out: Seq<Token>|
            #[trigger] plan_applied(ev, out, fixes@, Map::empty(), Map::empty(), Map::empty(), Map::empty(), Map::empty(),
                inherited@, normalize)
            && reads_as(xml@, ev)
            && plan_refusal(part@, ev, listing(*fixes), no_listing(), no_listing(), no_listing(), no_listing(),
                no_listing()) is None
            && s@ == serialized_all(out)),
{
    if holds_no_repair(fixes) {
        return passthrough(part, xml);
    }
    let events = read_events(part, xml)?;
    let ghost ev = events@;
    assert(reads_as(xml@, ev));
    let none: ByIndex<Vec<Fix>> = ByIndex::new();
    let charts = ChartTextFixes::new();
    assert(of_kind(charts, ChartText::CategoryAxis)@ == Map::<usize, Vec<Fix>>::empty());
    assert(of_kind(charts, ChartText::Legend)@ == Map::<usize, Vec<Fix>>::empty());
    assert(of_kind(charts, ChartText::DataLabels)@ == Map::<usize, Vec<Fix>>::empty());
    assert(of_kind(charts, ChartText::CategoryAxis).key_order() == Seq::<usize>::empty());
    assert(of_kind(charts, ChartText::Legend).key_order() == Seq::<usize>::empty());
    assert(of_kind(charts, ChartText::DataLabels).key_order() == Seq::<usize>::empty());
    let out = apply_parts(part, events, fixes, &none, &none, &charts, inherited, normalize)?;
    let ghost o = out@;
    let s = write_events(part, &out);
    proof {
        if s is Ok {
            assert(plan_applied(ev, o, fixes@, Map::empty(), Map::empty(), Map::empty(), Map::empty(), Map::empty(),
                inherited@, normalize));
        }
    }
    s
}

/// Apply repairs to a part's paragraphs, leaving every token they do not
/// address untouched. Every paragraph is taken to declare its own direction
/// or to be left-to-right; use [`apply_with`] when the caller knows better.
pub fn apply<F: Fn(&str) -> String>(part: &str, xml: &str, fixes: &PartFixes, normalize: &F) -> (r: Result<String, Error>)
    requires
        forall|s: &str| call_requires(normalize, (s,)),
    ensures
        r matches Err(e) ==> e is Format,
        document_tokens(xml@) is Err ==> (r matches Err(e) && read_failure(part@, xml@, e)),
        count(*fixes) == 0 ==> (r is Ok <==> document_tokens(xml@) is Ok),
        count(*fixes) == 0 ==> (r matches Ok(s) ==> exists|ev: Seq<Token>| #[trigger] reads_as(xml@, ev) && s@ == serialized_all(ev)),
        count(*fixes) != 0 ==> (r matches Err(e) ==> read_failure(part@, xml@, e) || exists|ev: Seq<Token>|
            #[trigger] reads_as(xml@, ev) && plan_refusal(part@, ev, listing(*fixes), no_listing(), no_listing(), no_listing(), no_listing(),
                no_listing()) == Some(e->Format_0@)),
        count(*fixes) != 0 ==> (r matches Ok(s) ==> exists|ev: Seq<Token>, out: Seq<Token>|
            #[trigger] plan_applied(ev, out, fixes@, Map::empty(), Map::empty(), Map::empty(), Map::empty(), Map::empty(),
                Map::empty(), normalize)
            && reads_as(xml@, ev)
            && plan_refusal(part@, ev, listing(*fixes), no_listing(), no_listing(), no_listing(), no_listing(),
                no_listing()) is None
            && s@ == serialized_all(out)),
{
    let none: Inherited = ByIndex::new();
    apply_with(part, xml, fixes, &none, normalize)
}


proof fn lemma_chain_still(states: Seq<Seq<Token>>, n: nat, step: spec_fn(int, Seq<Token>, Seq<Token>) -> bool)
    requires
        chain_of(states, n, step),
        forall|i: int, a: Seq<Token>, b: Seq<Token>| 0 <= i < n && #[trigger] step(i, a, b) ==> b == a,
    ensures
        states[n as int] == states[0],
    decreases n,
{
    if n > 0 {
        let prev = states.drop_last();
        assert forall|i: int| 0 <= i < n - 1 implies #[trigger] link(prev, i, step) by {
            assert(link(states, i, step));
        }
        lemma_chain_still(prev, (n - 1) as nat, step);
        assert(link(states, n - 1, step));
    }
}

proof fn lemma_chained_still(old: Seq<Token>, new: Seq<Token>, n: nat, step: spec_fn(int, Seq<Token>, Seq<Token>) -> bool)
    requires
        chained(old, new, n, step),
        forall|i: int, a: Seq<Token>, b: Seq<Token>| 0 <= i < n && #[trigger] step(i, a, b) ==> b == a,
    ensures
        new == old,
{
    let states = choose|states: Seq<Seq<Token>>| #[trigger] chain_of(states, n, step) && states[0] == old && states[n as int] == new;
    lemma_chain_still(states, n, step);
}

/// A plan that names nothing changes nothing: every token comes out as it
/// went in.
pub proof fn lemma_empty_plan_changes_nothing<F: Fn(&str) -> String>(
    old: Seq<Token>,
    new: Seq<Token>,
    inherited: Map<usize, Direction>,
    f: F,
)
    requires
        plan_applied(old, new, Map::empty(), Map::empty(), Map::empty(), Map::empty(), Map::empty(), Map::empty(), inherited, f),
    ensures
        new == old,
{
    let none = Map::<usize, Vec<Fix>>::empty();
    let (s1, s2, s3, c1, c2) = choose|s1: Seq<Token>, s2: Seq<Token>, s3: Seq<Token>, c1: Seq<Token>, c2: Seq<Token>|
        #![trigger paragraphs_applied(old, s1, none, inherited, f), containers_applied(s1, s2, Container::Tables, none, false), containers_applied(s2, s3, Container::Bodies, none, false), containers_applied(c1, c2, Container::Charts(ChartText::Legend), none, needs_declaration(s3))]
        paragraphs_applied(old, s1, none, inherited, f)
            && containers_applied(s1, s2, Container::Tables, none, false)
            && containers_applied(s2, s3, Container::Bodies, none, false)
            && containers_applied(s3, c1, Container::Charts(ChartText::CategoryAxis), none, needs_declaration(s3))
            && containers_applied(c1, c2, Container::Charts(ChartText::Legend), none, needs_declaration(s3))
            && containers_applied(c2, new, Container::Charts(ChartText::DataLabels), none, needs_declaration(s3));
    let rs = ranges_named(old, "a:p"@, old.len() as int);
    lemma_chained_still(old, s1, rs.len(), paragraph_link(rs, none, inherited, f));
    let still = |a: Seq<Token>, c: Container, d: bool| {
        let r = ranges_named(a, container_element(c), a.len() as int);
        (r, container_link(r, c, none, d))
    };
    lemma_chained_still(s1, s2, still(s1, Container::Tables, false).0.len(), still(s1, Container::Tables, false).1);
    lemma_chained_still(s2, s3, still(s2, Container::Bodies, false).0.len(), still(s2, Container::Bodies, false).1);
    let d = needs_declaration(s3);
    lemma_chained_still(s3, c1, still(s3, Container::Charts(ChartText::CategoryAxis), d).0.len(), still(s3, Container::Charts(ChartText::CategoryAxis), d).1);
    lemma_chained_still(c1, c2, still(c1, Container::Charts(ChartText::Legend), d).0.len(), still(c1, Container::Charts(ChartText::Legend), d).1);
    lemma_chained_still(c2, new, still(c2, Container::Charts(ChartText::DataLabels), d).0.len(), still(c2, Container::Charts(ChartText::DataLabels), d).1);
}

} // verus!
