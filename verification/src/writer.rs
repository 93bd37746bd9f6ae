//! A round of repairs as a document applies it: each repair's unit id read
//! back to the part and element it names, the repairs grouped by part in
//! part-name order, and each part rewritten once with everything addressed
//! to it. Reading and writing the package is the caller's; this decides.
use vstd::prelude::*;
use crate::error::Error;
use crate::plan::{ByIndex, ChartTextFixes, Inherited, PartPlan, plan_count, count};
use crate::sheet::{sheet_outcome, sheet_plan_count, SheetPlan, Strings, StyleTable};
use crate::strs::{chars_eq, chars_of, lemma_lex_asymmetric, lemma_lex_irreflexive, lemma_lex_total, lemma_lex_transitive, lex_less, lex_lt};
use crate::text::{copy_fix, fix_views, unit_views, Direction, Fix, FixView, Resolved, ResolvedView, TextUnit, UnitView};
use crate::workbook::{Sheet, Workbook};
use crate::xlsx;
use crate::pptx;
use crate::docx;
use crate::word;
use crate::xml::Token;

verus! {

broadcast use vstd::string::group_string_axioms;

/// A round of repairs as values: each unit id and the repair asked of it.
pub open spec fn repair_views(rs: Seq<(String, Fix)>) -> Seq<(Seq<char>, FixView)> {
    rs.map_values(|r: (String, Fix)| (r.0@, r.1@))
}

/// What a repair naming a unit this adapter did not issue is refused with.
pub open spec fn foreign_unit(id: Seq<char>) -> Seq<char> {
    id + ": not a unit this adapter produced"@
}

fn foreign_error(id: &String) -> (e: Error)
    ensures
        e is Format,
        e->Format_0@ == foreign_unit(id@),
{
    let mut s = id.clone();
    s.append(": not a unit this adapter produced");
    Error::Format(s)
}

pub open spec fn names_view(v: Seq<String>) -> Seq<Seq<char>> {
    v.map_values(|s: String| s@)
}

/// Names in strictly increasing order, which `str`'s `Ord` gives.
pub open spec fn increasing(v: Seq<Seq<char>>) -> bool {
    forall|i: int, j: int| 0 <= i < j < v.len() ==> lex_lt(#[trigger] v[i], #[trigger] v[j])
}

/// Put `name` among sorted names, unless it is there already.
fn insert_name(names: &mut Vec<String>, name: &String)
    requires
        increasing(names_view(old(names)@)),
    ensures
        increasing(names_view(final(names)@)),
        forall|s: Seq<char>| names_view(final(names)@).contains(s) <==> (names_view(old(names)@).contains(s) || s == name@),
{
    let ghost before = names_view(names@);
    let want = chars_of(name.as_str());
    let mut p: usize = 0;
    while p < names.len() && lex_less(&chars_of(names[p].as_str()), &want)
        invariant
            p <= names@.len(),
            before == names_view(names@),
            want@ == name@,
            increasing(before),
            forall|j: int| 0 <= j < p ==> lex_lt(#[trigger] before[j], name@),
        decreases names@.len() - p,
    {
        p += 1;
    }
    if p < names.len() && chars_eq(&chars_of(names[p].as_str()), &want) {
        assert(before[p as int] == name@);
        return;
    }
    proof {
        if p < before.len() {
            lemma_lex_total(before[p as int], name@);
        }
        assert forall|j: int| p <= j < before.len() implies lex_lt(name@, #[trigger] before[j]) by {
            if j > p {
                assert(lex_lt(before[p as int], before[j]));
                lemma_lex_transitive(name@, before[p as int], before[j]);
            }
        }
    }
    names.insert(p, name.clone());
    let ghost after = names_view(names@);
    assert(after =~= before.insert(p as int, name@));
    assert forall|i: int, j: int| 0 <= i < j < after.len() implies lex_lt(#[trigger] after[i], #[trigger] after[j]) by {
        if j < p {
        } else if i < p && j == p {
        } else if i < p && j > p {
            assert(after[j] == before[j - 1]);
            assert(lex_lt(before[i], before[j - 1]));
        } else if i == p {
            assert(after[j] == before[j - 1]);
        } else {
            assert(after[i] == before[i - 1]);
            assert(after[j] == before[j - 1]);
        }
    }
    assert forall|s: Seq<char>| after.contains(s) <==> (before.contains(s) || s == name@) by {
        if after.contains(s) {
            let k = choose|k: int| 0 <= k < after.len() && after[k] == s;
            if k < p {
                assert(before[k] == s);
            } else if k > p {
                assert(before[k - 1] == s);
            }
        }
        if before.contains(s) {
            let k = choose|k: int| 0 <= k < before.len() && before[k] == s;
            if k < p {
                assert(after[k] == s);
            } else {
                assert(after[k + 1] == s);
            }
        }
        if s == name@ {
            assert(after[p as int] == s);
        }
    }
}

// ------------------------------------------------------------ worksheets

/// The part a worksheet unit id names, if this adapter issued it.
pub open spec fn sheet_part_of(id: Seq<char>) -> Option<Seq<char>> {
    match xlsx::spec_parse_unit_id(id) {
        Some(x) => Some(x.0),
        None => None,
    }
}

/// Whether repair `i` is the first whose unit id no worksheet id names.
pub open spec fn first_foreign_sheet(rs: Seq<(Seq<char>, FixView)>, i: int) -> bool {
    &&& 0 <= i < rs.len()
    &&& xlsx::spec_parse_unit_id(rs[i].0) is None
    &&& forall|j: int| 0 <= j < i ==> xlsx::spec_parse_unit_id(#[trigger] rs[j].0) is Some
}

/// Whether every repair names a unit a worksheet id names.
pub open spec fn all_sheet_units(rs: Seq<(Seq<char>, FixView)>) -> bool {
    forall|j: int| 0 <= j < rs.len() ==> xlsx::spec_parse_unit_id(#[trigger] rs[j].0) is Some
}

/// The repairs, in order, whose id names `target` in `part`.
pub open spec fn sheet_fixes(rs: Seq<(Seq<char>, FixView)>, part: Seq<char>, target: xlsx::Target) -> Seq<FixView>
    decreases rs.len(),
{
    if rs.len() == 0 {
        seq![]
    } else {
        let prev = sheet_fixes(rs.drop_last(), part, target);
        if xlsx::spec_parse_unit_id(rs.last().0) == Some((part, target)) {
            prev.push(rs.last().1)
        } else {
            prev
        }
    }
}

/// Whether `plan` holds exactly the repairs addressed to `part`: each cell's
/// repairs in the order they were asked for, and the grid's.
pub open spec fn sheet_plan_for(rs: Seq<(Seq<char>, FixView)>, part: Seq<char>, plan: SheetPlan) -> bool {
    &&& forall|k: usize| plan.cells@.contains_key(k) <==> sheet_fixes(rs, part, xlsx::Target::Cell(k)).len() > 0
    &&& forall|k: usize| #[trigger] plan.cells@.contains_key(k)
        ==> fix_views(plan.cells@[k]@) == sheet_fixes(rs, part, xlsx::Target::Cell(k))
    &&& fix_views(plan.grid@) == sheet_fixes(rs, part, xlsx::Target::Grid)
}

/// Whether a plan for `p` is among `plans`.
pub open spec fn planned_part<P>(plans: Seq<(Seq<char>, P)>, p: Seq<char>) -> bool {
    exists|k: int| 0 <= k < plans.len() && #[trigger] plans[k].0 == p
}

/// Whether some repair names a unit in worksheet `p`.
pub open spec fn named_sheet(rs: Seq<(Seq<char>, FixView)>, p: Seq<char>) -> bool {
    exists|i: int| 0 <= i < rs.len() && #[trigger] sheet_part_of(rs[i].0) == Some(p)
}

/// Whether `plans` is the round grouped by worksheet: one plan for each part
/// a repair names, in part-name order, each with that part's repairs.
pub open spec fn sheet_plans(rs: Seq<(Seq<char>, FixView)>, plans: Seq<(Seq<char>, SheetPlan)>) -> bool {
    &&& increasing(plan_parts(plans))
    &&& forall|p: Seq<char>| #![trigger planned_part(plans, p)] #![trigger named_sheet(rs, p)]
        planned_part(plans, p) <==> named_sheet(rs, p)
    &&& forall|k: int| 0 <= k < plans.len() ==> sheet_plan_for(rs, plans[k].0, #[trigger] plans[k].1)
}

proof fn lemma_sheet_fixes_found(rs: Seq<(Seq<char>, FixView)>, part: Seq<char>, target: xlsx::Target)
    ensures
        sheet_fixes(rs, part, target).len() > 0
            <==> exists|j: int| 0 <= j < rs.len() && xlsx::spec_parse_unit_id(#[trigger] rs[j].0) == Some((part, target)),
    decreases rs.len(),
{
    if rs.len() > 0 {
        let d = rs.drop_last();
        lemma_sheet_fixes_found(d, part, target);
        if exists|j: int| 0 <= j < d.len() && xlsx::spec_parse_unit_id(#[trigger] d[j].0) == Some((part, target)) {
            let j = choose|j: int| 0 <= j < d.len() && xlsx::spec_parse_unit_id(#[trigger] d[j].0) == Some((part, target));
            assert(rs[j] == d[j]);
        }
        if exists|j: int| 0 <= j < rs.len() && xlsx::spec_parse_unit_id(#[trigger] rs[j].0) == Some((part, target)) {
            let j = choose|j: int| 0 <= j < rs.len() && xlsx::spec_parse_unit_id(#[trigger] rs[j].0) == Some((part, target));
            if j < rs.len() - 1 {
                assert(d[j] == rs[j]);
            }
        }
    }
}

/// Each repair's unit id read back; the first id this adapter did not issue
/// is refused.
fn sheet_targets(repairs: &[(String, Fix)]) -> (r: Result<Vec<(String, xlsx::Target)>, Error>)
    ensures
        r is Ok <==> all_sheet_units(repair_views(repairs@)),
        r matches Err(e) ==> exists|i: int| #[trigger] first_foreign_sheet(repair_views(repairs@), i)
            && e is Format && e->Format_0@ == foreign_unit(repair_views(repairs@)[i].0),
        r matches Ok(t) ==> t@.len() == repairs@.len() && forall|j: int| 0 <= j < t@.len()
            ==> xlsx::spec_parse_unit_id(repair_views(repairs@)[j].0) == Some((#[trigger] t@[j].0@, t@[j].1)),
{
    let ghost rv = repair_views(repairs@);
    let mut t: Vec<(String, xlsx::Target)> = Vec::new();
    let mut i: usize = 0;
    while i < repairs.len()
        invariant
            i <= repairs@.len(),
            rv == repair_views(repairs@),
            rv.len() == repairs@.len(),
            t@.len() == i,
            forall|j: int| 0 <= j < i ==> xlsx::spec_parse_unit_id(rv[j].0) == Some((#[trigger] t@[j].0@, t@[j].1)),
        decreases repairs@.len() - i,
    {
        assert(rv[i as int] == (repairs@[i as int].0@, repairs@[i as int].1@));
        match xlsx::parse_unit_id(repairs[i].0.as_str()) {
            Some(x) => {
                t.push(x);
            },
            None => {
                proof {
                    assert forall|j: int| 0 <= j < i implies xlsx::spec_parse_unit_id(#[trigger] rv[j].0) is Some by {
                        assert(xlsx::spec_parse_unit_id(rv[j].0) == Some((t@[j].0@, t@[j].1)));
                    }
                    assert(first_foreign_sheet(rv, i as int));
                    assert(!all_sheet_units(rv)) by {
                        assert(xlsx::spec_parse_unit_id(rv[i as int].0) is None);
                    }
                }
                return Err(foreign_error(&repairs[i].0));
            },
        }
        i += 1;
    }
    assert forall|j: int| 0 <= j < rv.len() implies xlsx::spec_parse_unit_id(#[trigger] rv[j].0) is Some by {
        assert(xlsx::spec_parse_unit_id(rv[j].0) == Some((t@[j].0@, t@[j].1)));
    }
    Ok(t)
}

/// The repairs addressed to `target` in `part`, copied, in order.
fn collect_sheet_fixes(repairs: &[(String, Fix)], targets: &Vec<(String, xlsx::Target)>, part: &String, target: xlsx::Target) -> (r: Vec<Fix>)
    requires
        targets@.len() == repairs@.len(),
        forall|j: int| 0 <= j < targets@.len()
            ==> xlsx::spec_parse_unit_id(repair_views(repairs@)[j].0) == Some((#[trigger] targets@[j].0@, targets@[j].1)),
    ensures
        fix_views(r@) == sheet_fixes(repair_views(repairs@), part@, target),
{
    let ghost rv = repair_views(repairs@);
    let want = chars_of(part.as_str());
    let mut r: Vec<Fix> = Vec::new();
    let mut i: usize = 0;
    assert(rv.take(0) =~= Seq::<(Seq<char>, FixView)>::empty());
    assert(fix_views(r@) =~= Seq::<FixView>::empty());
    while i < repairs.len()
        invariant
            i <= repairs@.len(),
            rv == repair_views(repairs@),
            rv.len() == repairs@.len(),
            targets@.len() == repairs@.len(),
            want@ == part@,
            forall|j: int| 0 <= j < targets@.len()
                ==> xlsx::spec_parse_unit_id(rv[j].0) == Some((#[trigger] targets@[j].0@, targets@[j].1)),
            fix_views(r@) == sheet_fixes(rv.take(i as int), part@, target),
        decreases repairs@.len() - i,
    {
        assert(rv.take(i + 1).drop_last() =~= rv.take(i as int));
        assert(rv.take(i + 1).last() == rv[i as int]);
        assert(rv[i as int] == (repairs@[i as int].0@, repairs@[i as int].1@));
        let ghost here = xlsx::spec_parse_unit_id(rv[i as int].0);
        assert(here == Some((targets@[i as int].0@, targets@[i as int].1)));
        if chars_eq(&chars_of(targets[i].0.as_str()), &want) && targets[i].1 == target {
            let ghost before = r@;
            r.push(copy_fix(&repairs[i].1));
            assert(fix_views(r@) =~= fix_views(before).push(repairs@[i as int].1@));
        }
        i += 1;
    }
    assert(rv.take(i as int) =~= rv);
    r
}

/// The plan of one worksheet: every repair addressed to it, grouped.
fn sheet_plan_of(repairs: &[(String, Fix)], targets: &Vec<(String, xlsx::Target)>, part: &String) -> (plan: SheetPlan)
    requires
        targets@.len() == repairs@.len(),
        forall|j: int| 0 <= j < targets@.len()
            ==> xlsx::spec_parse_unit_id(repair_views(repairs@)[j].0) == Some((#[trigger] targets@[j].0@, targets@[j].1)),
    ensures
        sheet_plan_for(repair_views(repairs@), part@, plan),
{
    let ghost rv = repair_views(repairs@);
    let mut plan = SheetPlan::new();
    plan.grid = collect_sheet_fixes(repairs, targets, part, xlsx::Target::Grid);
    let want = chars_of(part.as_str());
    let mut i: usize = 0;
    while i < targets.len()
        invariant
            i <= targets@.len(),
            rv == repair_views(repairs@),
            rv.len() == repairs@.len(),
            targets@.len() == repairs@.len(),
            want@ == part@,
            forall|j: int| 0 <= j < targets@.len()
                ==> xlsx::spec_parse_unit_id(rv[j].0) == Some((#[trigger] targets@[j].0@, targets@[j].1)),
            fix_views(plan.grid@) == sheet_fixes(rv, part@, xlsx::Target::Grid),
            forall|k: usize| plan.cells@.contains_key(k) <==> exists|j: int| 0 <= j < i
                && xlsx::spec_parse_unit_id(#[trigger] rv[j].0) == Some((part@, xlsx::Target::Cell(k))),
            forall|k: usize| #[trigger] plan.cells@.contains_key(k)
                ==> fix_views(plan.cells@[k]@) == sheet_fixes(rv, part@, xlsx::Target::Cell(k)),
        decreases targets@.len() - i,
    {
        let ghost here = xlsx::spec_parse_unit_id(rv[i as int].0);
        assert(here == Some((targets@[i as int].0@, targets@[i as int].1)));
        if chars_eq(&chars_of(targets[i].0.as_str()), &want) {
            match targets[i].1 {
                xlsx::Target::Cell(k) => {
                    if plan.cells.get(k).is_none() {
                        let fixes = collect_sheet_fixes(repairs, targets, part, xlsx::Target::Cell(k));
                        plan.cells.insert(k, fixes);
                    }
                },
                xlsx::Target::Grid => {},
            }
        }
        assert forall|k: usize| plan.cells@.contains_key(k) <==> exists|j: int| 0 <= j < i + 1
            && xlsx::spec_parse_unit_id(#[trigger] rv[j].0) == Some((part@, xlsx::Target::Cell(k))) by {
            if exists|j: int| 0 <= j < i + 1 && xlsx::spec_parse_unit_id(#[trigger] rv[j].0) == Some((part@, xlsx::Target::Cell(k))) {
                let j = choose|j: int| 0 <= j < i + 1 && xlsx::spec_parse_unit_id(#[trigger] rv[j].0) == Some((part@, xlsx::Target::Cell(k)));
                if j < i {
                    assert(exists|j2: int| 0 <= j2 < i && xlsx::spec_parse_unit_id(#[trigger] rv[j2].0) == Some((part@, xlsx::Target::Cell(k))));
                }
            }
        }
        i += 1;
    }
    proof {
        assert forall|k: usize| plan.cells@.contains_key(k) <==> sheet_fixes(rv, part@, xlsx::Target::Cell(k)).len() > 0 by {
            lemma_sheet_fixes_found(rv, part@, xlsx::Target::Cell(k));
        }
    }
    plan
}

pub open spec fn planned_view(plans: Seq<(String, SheetPlan)>) -> Seq<(Seq<char>, SheetPlan)> {
    plans.map_values(|p: (String, SheetPlan)| (p.0@, p.1))
}

/// Group a round of repairs by worksheet, before any part is touched: a
/// repair naming a unit this adapter did not issue refuses the whole round.
pub fn plan_sheet_repairs(repairs: &[(String, Fix)]) -> (r: Result<Vec<(String, SheetPlan)>, Error>)
    ensures
        r is Ok <==> all_sheet_units(repair_views(repairs@)),
        r matches Err(e) ==> exists|i: int| #[trigger] first_foreign_sheet(repair_views(repairs@), i)
            && e is Format && e->Format_0@ == foreign_unit(repair_views(repairs@)[i].0),
        r matches Ok(plans) ==> sheet_plans(repair_views(repairs@), planned_view(plans@)),
{
    let ghost rv = repair_views(repairs@);
    let targets = sheet_targets(repairs)?;
    let mut names: Vec<String> = Vec::new();
    let mut i: usize = 0;
    assert(names_view(names@) =~= Seq::<Seq<char>>::empty());
    while i < targets.len()
        invariant
            i <= targets@.len(),
            rv == repair_views(repairs@),
            targets@.len() == repairs@.len(),
            rv.len() == repairs@.len(),
            forall|j: int| 0 <= j < targets@.len()
                ==> xlsx::spec_parse_unit_id(rv[j].0) == Some((#[trigger] targets@[j].0@, targets@[j].1)),
            increasing(names_view(names@)),
            forall|p: Seq<char>| names_view(names@).contains(p)
                <==> exists|j: int| 0 <= j < i && #[trigger] sheet_part_of(rv[j].0) == Some(p),
        decreases targets@.len() - i,
    {
        let ghost before = names_view(names@);
        insert_name(&mut names, &targets[i].0);
        assert(sheet_part_of(rv[i as int].0) == Some(targets@[i as int].0@));
        assert forall|p: Seq<char>| names_view(names@).contains(p)
            <==> exists|j: int| 0 <= j < i + 1 && #[trigger] sheet_part_of(rv[j].0) == Some(p) by {
            if exists|j: int| 0 <= j < i + 1 && #[trigger] sheet_part_of(rv[j].0) == Some(p) {
                let j = choose|j: int| 0 <= j < i + 1 && #[trigger] sheet_part_of(rv[j].0) == Some(p);
                if j < i {
                    assert(before.contains(p));
                }
            }
        }
        i += 1;
    }
    let mut plans: Vec<(String, SheetPlan)> = Vec::new();
    let mut k: usize = 0;
    while k < names.len()
        invariant
            k <= names@.len(),
            rv == repair_views(repairs@),
            targets@.len() == repairs@.len(),
            forall|j: int| 0 <= j < targets@.len()
                ==> xlsx::spec_parse_unit_id(repair_views(repairs@)[j].0) == Some((#[trigger] targets@[j].0@, targets@[j].1)),
            plans@.len() == k,
            forall|m: int| 0 <= m < k ==> (#[trigger] plans@[m]).0@ == names@[m]@,
            forall|m: int| 0 <= m < k ==> sheet_plan_for(rv, names@[m]@, (#[trigger] plans@[m]).1),
        decreases names@.len() - k,
    {
        let plan = sheet_plan_of(repairs, &targets, &names[k]);
        plans.push((names[k].clone(), plan));
        k += 1;
    }
    proof {
        let pv = planned_view(plans@);
        let nv = names_view(names@);
        assert(plan_parts(pv) =~= nv);
        assert forall|p: Seq<char>| planned_part(pv, p) <==> named_sheet(rv, p) by {
            if planned_part(pv, p) {
                let m = choose|m: int| 0 <= m < pv.len() && #[trigger] pv[m].0 == p;
                assert(nv[m] == p);
                assert(nv.contains(p));
            }
            if nv.contains(p) {
                let m = choose|m: int| 0 <= m < nv.len() && nv[m] == p;
                assert(pv[m].0 == p);
            }
        }
        assert forall|m: int| 0 <= m < pv.len() implies sheet_plan_for(rv, pv[m].0, #[trigger] pv[m].1) by {
            assert(plans@[m].0@ == names@[m]@);
        }
    }
    Ok(plans)
}

/// What each cell inherits, by the cell's ordinal: the direction of every
/// cell unit whose direction is inherited, the last one for an ordinal
/// winning.
pub open spec fn cell_inherited(us: Seq<UnitView>) -> Map<usize, Direction>
    decreases us.len(),
{
    if us.len() == 0 {
        Map::empty()
    } else {
        let m = cell_inherited(us.drop_last());
        let u = us.last();
        match u.props.direction {
            ResolvedView::Inherited(d, _, _) => match xlsx::spec_parse_unit_id(u.id) {
                Some((_, xlsx::Target::Cell(k))) => m.insert(k, d),
                _ => m,
            },
            _ => m,
        }
    }
}

/// The directions a worksheet's cells inherit, read off its units.
pub fn inherited_cells(units: &Vec<TextUnit>) -> (r: Inherited)
    ensures
        r@ == cell_inherited(unit_views(units@)),
{
    let ghost uv = unit_views(units@);
    let mut r: Inherited = ByIndex::new();
    let mut i: usize = 0;
    assert(uv.take(0) =~= Seq::<UnitView>::empty());
    while i < units.len()
        invariant
            i <= units@.len(),
            uv == unit_views(units@),
            r@ == cell_inherited(uv.take(i as int)),
        decreases units@.len() - i,
    {
        assert(uv.take(i + 1).drop_last() =~= uv.take(i as int));
        assert(uv.take(i + 1).last() == units@[i as int]@);
        let u = &units[i];
        if let Resolved::Inherited(d, _) = &u.props.direction {
            if let Some((_, xlsx::Target::Cell(k))) = xlsx::parse_unit_id(u.id.0.as_str()) {
                r.insert(k, *d);
            }
        }
        i += 1;
    }
    assert(uv.take(i as int) =~= uv);
    r
}

/// The name of the first worksheet of the workbook held in `part`.
pub open spec fn sheet_name_of(sheets: Seq<(Seq<char>, Seq<char>)>, part: Seq<char>) -> Option<Seq<char>>
    decreases sheets.len(),
{
    if sheets.len() == 0 {
        None
    } else if sheets[0].1 == part {
        Some(sheets[0].0)
    } else {
        sheet_name_of(sheets.drop_first(), part)
    }
}

/// What a part that is no worksheet of the workbook is refused with.
pub open spec fn not_a_sheet(part: Seq<char>) -> Seq<char> {
    part + ": not a worksheet of this workbook"@
}

pub open spec fn text_result(r: Result<String, Error>) -> Result<Seq<char>, Error> {
    match r {
        Ok(s) => Ok(s@),
        Err(e) => Err(e),
    }
}

/// What repairing one worksheet gives: the sheet is looked up by its part,
/// its tokens read, what each cell inherits taken from the units those
/// tokens scan to, and the plan applied to those same tokens.
pub open spec fn sheet_repaired<F: Fn(&str) -> String>(
    w: crate::workbook::WorkbookView,
    part: Seq<char>,
    xml: Seq<char>,
    plan: SheetPlan,
    so: crate::sheet::StyleTableView,
    sn: crate::sheet::StyleTableView,
    to: crate::sheet::StringsView,
    tn: crate::sheet::StringsView,
    f: F,
    r: Result<Seq<char>, Error>,
) -> bool {
    match sheet_name_of(w.sheets, part) {
        None => r matches Err(e) && e is Format && e->Format_0@ == not_a_sheet(part) && sn == so && tn == to,
        Some(name) => match crate::xml::document_tokens(xml) {
            Err(_) => r matches Err(e) && crate::xml::read_failure(name, xml, e) && sn == so && tn == to,
            Ok(_) => exists|ev: Seq<Token>| #[trigger] crate::xml::reads_as(xml, ev) && {
                let st = xlsx::sheet_after(w, name, ev);
                let inherited = cell_inherited(xlsx::sheet_units(w, name, part, st.direction, st.cells));
                if sheet_plan_count(plan) == 0 {
                    r == Ok::<Seq<char>, Error>(crate::xml::serialized_all(ev)) && sn == so && tn == to
                } else {
                    match r {
                        Ok(s) => exists|out: Seq<Token>| #[trigger] sheet_outcome(part, ev, plan, inherited, so, sn, to, tn, f,
                            Ok::<Seq<Token>, Error>(out)) && s == crate::xml::serialized_all(out),
                        Err(e) => sheet_outcome(part, ev, plan, inherited, so, sn, to, tn, f, Err::<Seq<Token>, Error>(e)),
                    }
                }
            },
        },
    }
}

fn find_sheet<'a>(sheets: &'a [Sheet], part: &str) -> (r: Option<&'a Sheet>)
    ensures
        r matches Some(s) ==> sheet_name_of(crate::workbook::sheet_views(sheets@), part@) == Some(s.name@) && s.part@ == part@,
        r is None ==> sheet_name_of(crate::workbook::sheet_views(sheets@), part@) is None,
{
    let ghost all = crate::workbook::sheet_views(sheets@);
    let want = chars_of(part);
    let mut i: usize = 0;
    assert(all.skip(0) =~= all);
    while i < sheets.len()
        invariant
            i <= sheets@.len(),
            all == crate::workbook::sheet_views(sheets@),
            want@ == part@,
            sheet_name_of(all, part@) == sheet_name_of(all.skip(i as int), part@),
        decreases sheets@.len() - i,
    {
        assert(all.skip(i as int)[0] == (sheets@[i as int].name@, sheets@[i as int].part@));
        if chars_eq(&chars_of(sheets[i].part.as_str()), &want) {
            return Some(&sheets[i]);
        }
        assert(all.skip(i as int).drop_first() =~= all.skip(i + 1));
        i += 1;
    }
    None
}

/// Repair one worksheet: find the sheet the
/// part holds, read its tokens, take what each cell inherits from the units
/// they scan to, and apply the plan to them. `styles` and `strings` are the
/// round's, shared by every sheet it repairs.
pub fn repair_sheet_part<F: Fn(&str) -> String>(
    workbook: &Workbook,
    part: &str,
    xml: &str,
    plan: &SheetPlan,
    styles: &mut StyleTable,
    strings: &mut Strings,
    normalize: &F,
) -> (r: Result<String, Error>)
    requires
        forall|s: &str| call_requires(normalize, (s,)),
    ensures
        sheet_repaired(workbook@, part@, xml@, *plan, old(styles)@, final(styles)@, old(strings)@, final(strings)@, normalize,
            text_result(r)),
{
    let sheet = match find_sheet(workbook.sheets(), part) {
        Some(s) => s,
        None => {
            let mut m = String::from_str(part);
            m.append(": not a worksheet of this workbook");
            return Err(Error::Format(m));
        },
    };
    let events = crate::xml::read_events(sheet.name.as_str(), xml)?;
    let ghost ev = events@;
    assert(crate::xml::reads_as(xml@, ev));
    let scan = xlsx::scan_sheet_events(sheet.name.as_str(), &events, workbook);
    let units = xlsx::units_of(sheet, &scan, workbook);
    let inherited = inherited_cells(&units);
    if plan.is_empty() {
        let s = crate::xml::write_events(part, &events);
        return s;
    }
    let out = crate::sheet::apply_events(part, events, plan, &inherited, styles, strings, normalize);
    match out {
        Ok(o) => {
            let ghost ov = o@;
            let s = crate::xml::write_events(part, &o);
            proof {
                assert(sheet_outcome(part@, ev, *plan, inherited@, old(styles)@, styles@, old(strings)@, strings@, normalize,
                    Ok::<Seq<Token>, Error>(ov)));
            }
            s
        },
        Err(e) => Err(e),
    }
}

/// The text the caller read for `part`: the first entry naming it.
pub open spec fn text_of_part(texts: Seq<(Seq<char>, Seq<char>)>, part: Seq<char>) -> Option<Seq<char>>
    decreases texts.len(),
{
    if texts.len() == 0 {
        None
    } else if texts[0].0 == part {
        Some(texts[0].1)
    } else {
        text_of_part(texts.drop_first(), part)
    }
}

/// What a part the caller read no text for is refused with.
pub open spec fn unread_part(part: Seq<char>) -> Seq<char> {
    part + ": not in the package"@
}

pub open spec fn pair_views(v: Seq<(String, String)>) -> Seq<(Seq<char>, Seq<char>)> {
    v.map_values(|p: (String, String)| (p.0@, p.1@))
}

/// The new texts of the parts a round staged, in order.
pub open spec fn staged_texts(v: Seq<(String, String)>) -> Seq<Seq<char>> {
    v.map_values(|p: (String, String)| p.1@)
}

/// The parts a round staged, in order.
pub open spec fn staged_parts(v: Seq<(String, String)>) -> Seq<Seq<char>> {
    v.map_values(|p: (String, String)| p.0@)
}

/// The parts a round's plans name, in order.
pub open spec fn plan_parts<P>(plans: Seq<(Seq<char>, P)>) -> Seq<Seq<char>> {
    plans.map_values(|p: (Seq<char>, P)| p.0)
}

pub type TableStates = (crate::sheet::StyleTableView, crate::sheet::StringsView);

/// Worksheet `k` of a round repaired from the shared tables as they stood
/// before it to the tables as they stand after it, giving `staged[k]`.
pub open spec fn sheet_step<F: Fn(&str) -> String>(
    w: crate::workbook::WorkbookView,
    texts: Seq<(Seq<char>, Seq<char>)>,
    plans: Seq<(Seq<char>, SheetPlan)>,
    states: Seq<TableStates>,
    staged: Seq<Seq<char>>,
    k: int,
    f: F,
) -> bool {
    text_of_part(texts, plans[k].0) matches Some(x) && sheet_repaired(w, plans[k].0, x, plans[k].1, states[k].0,
        states[k + 1].0, states[k].1, states[k + 1].1, f, Ok::<Seq<char>, Error>(staged[k]))
}

/// The first `n` worksheets of a round repaired one after the other, each
/// from the shared tables the one before left.
pub open spec fn sheets_done<F: Fn(&str) -> String>(
    w: crate::workbook::WorkbookView,
    texts: Seq<(Seq<char>, Seq<char>)>,
    plans: Seq<(Seq<char>, SheetPlan)>,
    states: Seq<TableStates>,
    staged: Seq<Seq<char>>,
    n: int,
    f: F,
) -> bool {
    &&& 0 <= n <= plans.len()
    &&& states.len() == n + 1
    &&& staged.len() == n
    &&& forall|k: int| 0 <= k < n ==> #[trigger] sheet_step(w, texts, plans, states, staged, k, f)
}

/// Worksheet `k` of a round failing with `e`, from the tables as they stood
/// before it to the tables as they were left.
pub open spec fn sheet_failed<F: Fn(&str) -> String>(
    w: crate::workbook::WorkbookView,
    texts: Seq<(Seq<char>, Seq<char>)>,
    plans: Seq<(Seq<char>, SheetPlan)>,
    before: TableStates,
    after: TableStates,
    k: int,
    f: F,
    e: Error,
) -> bool {
    match text_of_part(texts, plans[k].0) {
        None => e is Format && e->Format_0@ == unread_part(plans[k].0) && after == before,
        Some(x) => sheet_repaired(w, plans[k].0, x, plans[k].1, before.0, after.0, before.1, after.1, f, Err::<Seq<char>, Error>(e)),
    }
}

/// Part `k` of a round repaired, giving `staged[k]`.
pub open spec fn slide_step<F: Fn(&str) -> String>(texts: Seq<(Seq<char>, Seq<char>)>, plans: Seq<(Seq<char>, PartPlan)>, staged: Seq<Seq<char>>, k: int, f: F) -> bool {
    text_of_part(texts, plans[k].0) matches Some(x) && slide_repaired(plans[k].0, x, plans[k].1, f, Ok::<Seq<char>, Error>(staged[k]))
}

/// Part `k` of a round failing with `e`: no text was read for it, or
/// repairing it failed so.
pub open spec fn slide_failed<F: Fn(&str) -> String>(texts: Seq<(Seq<char>, Seq<char>)>, plans: Seq<(Seq<char>, PartPlan)>, k: int, f: F, e: Error) -> bool {
    match text_of_part(texts, plans[k].0) {
        None => e is Format && e->Format_0@ == unread_part(plans[k].0),
        Some(x) => slide_repaired(plans[k].0, x, plans[k].1, f, Err::<Seq<char>, Error>(e)),
    }
}

fn find_text<'a>(texts: &'a [(String, String)], part: &String) -> (r: Option<&'a String>)
    ensures
        r matches Some(x) ==> text_of_part(pair_views(texts@), part@) == Some(x@),
        r is None ==> text_of_part(pair_views(texts@), part@) is None,
{
    let ghost all = pair_views(texts@);
    let want = chars_of(part.as_str());
    let mut i: usize = 0;
    assert(all.skip(0) =~= all);
    while i < texts.len()
        invariant
            i <= texts@.len(),
            all == pair_views(texts@),
            want@ == part@,
            text_of_part(all, part@) == text_of_part(all.skip(i as int), part@),
        decreases texts@.len() - i,
    {
        assert(all.skip(i as int)[0] == (texts@[i as int].0@, texts@[i as int].1@));
        if chars_eq(&chars_of(texts[i].0.as_str()), &want) {
            return Some(&texts[i].1);
        }
        assert(all.skip(i as int).drop_first() =~= all.skip(i + 1));
        i += 1;
    }
    None
}

/// Apply a round of repairs to a workbook's worksheets: the repairs grouped
/// by worksheet, and each
/// worksheet, in part-name order, repaired from `texts` — the caller's read
/// of each part — against the shared tables the one before it left. Gives
/// each repaired part's new text, and how many repairs were applied: all of
/// them, as every one lands in exactly one part's plan.
pub fn apply_sheet_repairs<F: Fn(&str) -> String>(
    workbook: &Workbook,
    repairs: &[(String, Fix)],
    texts: &[(String, String)],
    styles: &mut StyleTable,
    strings: &mut Strings,
    normalize: &F,
) -> (r: Result<(Vec<(String, String)>, usize), Error>)
    requires
        forall|s: &str| call_requires(normalize, (s,)),
    ensures
        !all_sheet_units(repair_views(repairs@)) ==> (r matches Err(e) && exists|i: int|
            #[trigger] first_foreign_sheet(repair_views(repairs@), i) && e is Format
            && e->Format_0@ == foreign_unit(repair_views(repairs@)[i].0)
            && final(styles)@ == old(styles)@ && final(strings)@ == old(strings)@),
        r matches Ok(out) ==> out.1 == repairs@.len() && exists|plans: Seq<(Seq<char>, SheetPlan)>, states: Seq<TableStates>|
            sheet_plans(repair_views(repairs@), plans)
            && #[trigger] sheets_done(workbook@, pair_views(texts@), plans, states, staged_texts(out.0@),
                plans.len() as int, normalize)
            && staged_parts(out.0@) == plan_parts(plans)
            && states[0] == (old(styles)@, old(strings)@)
            && states[plans.len() as int] == (final(styles)@, final(strings)@),
        r matches Err(e) ==> !all_sheet_units(repair_views(repairs@)) || exists|plans: Seq<(Seq<char>, SheetPlan)>,
            states: Seq<TableStates>, staged: Seq<Seq<char>>, k: int|
            sheet_plans(repair_views(repairs@), plans)
            && 0 <= k < plans.len()
            && #[trigger] sheets_done(workbook@, pair_views(texts@), plans, states, staged, k, normalize)
            && states[0] == (old(styles)@, old(strings)@)
            && sheet_failed(workbook@, pair_views(texts@), plans, states[k], (final(styles)@, final(strings)@), k, normalize, e),
{
    let ghost tv = pair_views(texts@);
    let plans = match plan_sheet_repairs(repairs) {
        Ok(p) => p,
        Err(e) => {
            return Err(e);
        },
    };
    let ghost pv = planned_view(plans@);
    let ghost mut states: Seq<TableStates> = seq![(styles@, strings@)];
    let mut staged: Vec<(String, String)> = Vec::new();
    let mut k: usize = 0;
    while k < plans.len()
        invariant
            k <= plans@.len(),
            pv == planned_view(plans@),
            tv == pair_views(texts@),
            sheet_plans(repair_views(repairs@), pv),
            all_sheet_units(repair_views(repairs@)),
            forall|s: &str| call_requires(normalize, (s,)),
            states[0] == (old(styles)@, old(strings)@),
            states[k as int] == (styles@, strings@),
            staged@.len() == k,
            forall|m: int| 0 <= m < k ==> (#[trigger] staged@[m]).0@ == pv[m].0,
            sheets_done(workbook@, tv, pv, states, staged_texts(staged@), k as int, normalize),
        decreases plans@.len() - k,
    {
        let ghost before = (styles@, strings@);
        let ghost sv = staged_texts(staged@);
        let part = &plans[k].0;
        assert(pv[k as int] == (part@, plans@[k as int].1));
        let xml = match find_text(texts, part) {
            Some(x) => x,
            None => {
                let mut m = part.clone();
                m.append(": not in the package");
                let e = Error::Format(m);
                proof {
                    assert(sheet_failed(workbook@, tv, pv, states[k as int], (styles@, strings@), k as int, normalize, e));
                }
                return Err(e);
            },
        };
        let rr = repair_sheet_part(workbook, part.as_str(), xml.as_str(), &plans[k].1, styles, strings, normalize);
        match rr {
            Ok(text) => {
                let ghost t = text@;
                staged.push((part.clone(), text));
                proof {
                    let ns = states.push((styles@, strings@));
                    let nv = staged_texts(staged@);
                    assert(nv =~= sv.push(t));
                    assert(sheet_step(workbook@, tv, pv, ns, nv, k as int, normalize));
                    assert forall|m: int| 0 <= m < k + 1 implies #[trigger] sheet_step(workbook@, tv, pv, ns, nv, m, normalize) by {
                        if m < k {
                            assert(sheet_step(workbook@, tv, pv, states, sv, m, normalize));
                            assert(ns[m] == states[m] && ns[m + 1] == states[m + 1] && nv[m] == sv[m]);
                        }
                    }
                    states = ns;
                }
            },
            Err(e) => {
                proof {
                    assert(sheet_failed(workbook@, tv, pv, states[k as int], (styles@, strings@), k as int, normalize, e));
                }
                return Err(e);
            },
        }
        k += 1;
    }
    proof {
        assert(staged_parts(staged@) =~= plan_parts(pv));
        assert(pv.len() == plans@.len());
        assert(sheets_done(workbook@, tv, pv, states, staged_texts(staged@), pv.len() as int, normalize));
        assert(states[pv.len() as int] == (styles@, strings@));
        assert(staged_parts(staged@) == plan_parts(pv));
    }
    let res = (staged, repairs.len());
    assert(sheet_plans(repair_views(repairs@), pv)
        && sheets_done(workbook@, pair_views(texts@), pv, states, staged_texts(res.0@), pv.len() as int, normalize)
        && staged_parts(res.0@) == plan_parts(pv)
        && states[0] == (old(styles)@, old(strings)@)
        && states[pv.len() as int] == (styles@, strings@));
    Ok(res)
}

// ------------------------------------------------------------ slides

/// The part a slide-like unit id names, if this adapter issued it.
pub open spec fn slide_part_of(id: Seq<char>) -> Option<Seq<char>> {
    match pptx::spec_parse_unit_id(id) {
        Some(x) => Some(x.0),
        None => None,
    }
}

/// Whether repair `i` is the first whose unit id no slide id names.
pub open spec fn first_foreign_slide(rs: Seq<(Seq<char>, FixView)>, i: int) -> bool {
    &&& 0 <= i < rs.len()
    &&& pptx::spec_parse_unit_id(rs[i].0) is None
    &&& forall|j: int| 0 <= j < i ==> pptx::spec_parse_unit_id(#[trigger] rs[j].0) is Some
}

/// Whether every repair names a unit a slide id names.
pub open spec fn all_slide_units(rs: Seq<(Seq<char>, FixView)>) -> bool {
    forall|j: int| 0 <= j < rs.len() ==> pptx::spec_parse_unit_id(#[trigger] rs[j].0) is Some
}

/// Whether some repair names a unit in part `p`.
pub open spec fn named_slide(rs: Seq<(Seq<char>, FixView)>, p: Seq<char>) -> bool {
    exists|i: int| 0 <= i < rs.len() && #[trigger] slide_part_of(rs[i].0) == Some(p)
}

/// The repairs, in order, whose id names `target` in `part`.
pub open spec fn slide_fixes(rs: Seq<(Seq<char>, FixView)>, part: Seq<char>, target: pptx::Target) -> Seq<FixView>
    decreases rs.len(),
{
    if rs.len() == 0 {
        seq![]
    } else {
        let prev = slide_fixes(rs.drop_last(), part, target);
        if pptx::spec_parse_unit_id(rs.last().0) == Some((part, target)) {
            prev.push(rs.last().1)
        } else {
            prev
        }
    }
}

/// The slide target of one kind: `0` a paragraph, `1` a table, anything
/// else a text body.
pub open spec fn target_of(which: int, k: usize) -> pptx::Target {
    if which == 0 {
        pptx::Target::Paragraph(k)
    } else if which == 1 {
        pptx::Target::Table(k)
    } else {
        pptx::Target::Columns(k)
    }
}

/// Whether `m` holds, for each ordinal `k` some repair addresses as
/// `target_of(which, k)`, exactly those repairs in order.
pub open spec fn holds_slide_fixes(rs: Seq<(Seq<char>, FixView)>, part: Seq<char>, m: Map<usize, Vec<Fix>>,
    which: int) -> bool {
    &&& forall|k: usize| m.contains_key(k) <==> slide_fixes(rs, part, target_of(which, k)).len() > 0
    &&& forall|k: usize| #[trigger] m.contains_key(k) ==> fix_views(m[k]@) == slide_fixes(rs, part, target_of(which, k))
}

/// Whether `plan` holds exactly the repairs addressed to `part`: paragraphs,
/// tables and text bodies, and no chart container, which no slide id names.
pub open spec fn slide_plan_for(rs: Seq<(Seq<char>, FixView)>, part: Seq<char>, plan: PartPlan) -> bool {
    &&& holds_slide_fixes(rs, part, plan.paragraphs@, 0)
    &&& holds_slide_fixes(rs, part, plan.tables@, 1)
    &&& holds_slide_fixes(rs, part, plan.columns@, 2)
    &&& plan.chart_text.category_axes@ == Map::<usize, Vec<Fix>>::empty()
    &&& plan.chart_text.legends@ == Map::<usize, Vec<Fix>>::empty()
    &&& plan.chart_text.data_labels@ == Map::<usize, Vec<Fix>>::empty()
}

/// Whether `plans` is the round grouped by part: one plan for each part a
/// repair names, in part-name order, each with that part's repairs.
pub open spec fn slide_plans(rs: Seq<(Seq<char>, FixView)>, plans: Seq<(Seq<char>, PartPlan)>) -> bool {
    &&& increasing(plan_parts(plans))
    &&& forall|p: Seq<char>| #![trigger planned_part(plans, p)] #![trigger named_slide(rs, p)]
        planned_part(plans, p) <==> named_slide(rs, p)
    &&& forall|k: int| 0 <= k < plans.len() ==> slide_plan_for(rs, plans[k].0, #[trigger] plans[k].1)
}

proof fn lemma_slide_fixes_found(rs: Seq<(Seq<char>, FixView)>, part: Seq<char>, target: pptx::Target)
    ensures
        slide_fixes(rs, part, target).len() > 0
            <==> exists|j: int| 0 <= j < rs.len() && pptx::spec_parse_unit_id(#[trigger] rs[j].0) == Some((part, target)),
    decreases rs.len(),
{
    if rs.len() > 0 {
        let d = rs.drop_last();
        lemma_slide_fixes_found(d, part, target);
        if exists|j: int| 0 <= j < d.len() && pptx::spec_parse_unit_id(#[trigger] d[j].0) == Some((part, target)) {
            let j = choose|j: int| 0 <= j < d.len() && pptx::spec_parse_unit_id(#[trigger] d[j].0) == Some((part, target));
            assert(rs[j] == d[j]);
        }
        if exists|j: int| 0 <= j < rs.len() && pptx::spec_parse_unit_id(#[trigger] rs[j].0) == Some((part, target)) {
            let j = choose|j: int| 0 <= j < rs.len() && pptx::spec_parse_unit_id(#[trigger] rs[j].0) == Some((part, target));
            if j < rs.len() - 1 {
                assert(d[j] == rs[j]);
            }
        }
    }
}

fn slide_targets(repairs: &[(String, Fix)]) -> (r: Result<Vec<(String, pptx::Target)>, Error>)
    ensures
        r is Ok <==> all_slide_units(repair_views(repairs@)),
        r matches Err(e) ==> exists|i: int| #[trigger] first_foreign_slide(repair_views(repairs@), i)
            && e is Format && e->Format_0@ == foreign_unit(repair_views(repairs@)[i].0),
        r matches Ok(t) ==> t@.len() == repairs@.len() && forall|j: int| 0 <= j < t@.len()
            ==> pptx::spec_parse_unit_id(repair_views(repairs@)[j].0) == Some((#[trigger] t@[j].0@, t@[j].1)),
{
    let ghost rv = repair_views(repairs@);
    let mut t: Vec<(String, pptx::Target)> = Vec::new();
    let mut i: usize = 0;
    while i < repairs.len()
        invariant
            i <= repairs@.len(),
            rv == repair_views(repairs@),
            rv.len() == repairs@.len(),
            t@.len() == i,
            forall|j: int| 0 <= j < i ==> pptx::spec_parse_unit_id(rv[j].0) == Some((#[trigger] t@[j].0@, t@[j].1)),
        decreases repairs@.len() - i,
    {
        assert(rv[i as int] == (repairs@[i as int].0@, repairs@[i as int].1@));
        match pptx::parse_unit_id(repairs[i].0.as_str()) {
            Some(x) => {
                t.push(x);
            },
            None => {
                proof {
                    assert forall|j: int| 0 <= j < i implies pptx::spec_parse_unit_id(#[trigger] rv[j].0) is Some by {
                        assert(pptx::spec_parse_unit_id(rv[j].0) == Some((t@[j].0@, t@[j].1)));
                    }
                    assert(first_foreign_slide(rv, i as int));
                    assert(!all_slide_units(rv)) by {
                        assert(pptx::spec_parse_unit_id(rv[i as int].0) is None);
                    }
                }
                return Err(foreign_error(&repairs[i].0));
            },
        }
        i += 1;
    }
    assert forall|j: int| 0 <= j < rv.len() implies pptx::spec_parse_unit_id(#[trigger] rv[j].0) is Some by {
        assert(pptx::spec_parse_unit_id(rv[j].0) == Some((t@[j].0@, t@[j].1)));
    }
    Ok(t)
}

fn collect_slide_fixes(repairs: &[(String, Fix)], targets: &Vec<(String, pptx::Target)>, part: &String, target: pptx::Target) -> (r: Vec<Fix>)
    requires
        targets@.len() == repairs@.len(),
        forall|j: int| 0 <= j < targets@.len()
            ==> pptx::spec_parse_unit_id(repair_views(repairs@)[j].0) == Some((#[trigger] targets@[j].0@, targets@[j].1)),
    ensures
        fix_views(r@) == slide_fixes(repair_views(repairs@), part@, target),
{
    let ghost rv = repair_views(repairs@);
    let want = chars_of(part.as_str());
    let mut r: Vec<Fix> = Vec::new();
    let mut i: usize = 0;
    assert(rv.take(0) =~= Seq::<(Seq<char>, FixView)>::empty());
    assert(fix_views(r@) =~= Seq::<FixView>::empty());
    while i < repairs.len()
        invariant
            i <= repairs@.len(),
            rv == repair_views(repairs@),
            rv.len() == repairs@.len(),
            targets@.len() == repairs@.len(),
            want@ == part@,
            forall|j: int| 0 <= j < targets@.len()
                ==> pptx::spec_parse_unit_id(rv[j].0) == Some((#[trigger] targets@[j].0@, targets@[j].1)),
            fix_views(r@) == slide_fixes(rv.take(i as int), part@, target),
        decreases repairs@.len() - i,
    {
        assert(rv.take(i + 1).drop_last() =~= rv.take(i as int));
        assert(rv.take(i + 1).last() == rv[i as int]);
        assert(rv[i as int] == (repairs@[i as int].0@, repairs@[i as int].1@));
        let ghost here = pptx::spec_parse_unit_id(rv[i as int].0);
        assert(here == Some((targets@[i as int].0@, targets@[i as int].1)));
        if chars_eq(&chars_of(targets[i].0.as_str()), &want) && targets[i].1 == target {
            let ghost before = r@;
            r.push(copy_fix(&repairs[i].1));
            assert(fix_views(r@) =~= fix_views(before).push(repairs@[i as int].1@));
        }
        i += 1;
    }
    assert(rv.take(i as int) =~= rv);
    r
}

/// Whether `m` holds, for each ordinal some of the first `i` repairs address
/// as `target_of(which, k)` in `part`, all of that ordinal's repairs.
pub open spec fn slide_fixes_so_far(rs: Seq<(Seq<char>, FixView)>, part: Seq<char>, m: Map<usize, Vec<Fix>>,
    which: int, i: int) -> bool {
    &&& forall|k: usize| m.contains_key(k) <==> exists|j: int| 0 <= j < i
        && pptx::spec_parse_unit_id(#[trigger] rs[j].0) == Some((part, target_of(which, k)))
    &&& forall|k: usize| #[trigger] m.contains_key(k) ==> fix_views(m[k]@) == slide_fixes(rs, part, target_of(which, k))
}

proof fn lemma_so_far_step(rs: Seq<(Seq<char>, FixView)>, part: Seq<char>, m0: Map<usize, Vec<Fix>>, m1: Map<usize, Vec<Fix>>,
    which: int, i: int)
    requires
        0 <= i < rs.len(),
        slide_fixes_so_far(rs, part, m0, which, i),
        forall|k: usize| #[trigger] m1.contains_key(k) ==> fix_views(m1[k]@) == slide_fixes(rs, part, target_of(which, k)),
        forall|k: usize| m1.contains_key(k) <==> (m0.contains_key(k) || pptx::spec_parse_unit_id(rs[i].0) == Some((part, target_of(which, k)))),
    ensures
        slide_fixes_so_far(rs, part, m1, which, i + 1),
{
    assert forall|k: usize| m1.contains_key(k) <==> exists|j: int| 0 <= j < i + 1
        && pptx::spec_parse_unit_id(#[trigger] rs[j].0) == Some((part, target_of(which, k))) by {
        if exists|j: int| 0 <= j < i + 1 && pptx::spec_parse_unit_id(#[trigger] rs[j].0) == Some((part, target_of(which, k))) {
            let j = choose|j: int| 0 <= j < i + 1 && pptx::spec_parse_unit_id(#[trigger] rs[j].0) == Some((part, target_of(which, k)));
            if j < i {
                assert(m0.contains_key(k));
            }
        }
    }
}

proof fn lemma_so_far_done(rs: Seq<(Seq<char>, FixView)>, part: Seq<char>, m: Map<usize, Vec<Fix>>, which: int)
    requires
        slide_fixes_so_far(rs, part, m, which, rs.len() as int),
    ensures
        holds_slide_fixes(rs, part, m, which),
{
    assert forall|k: usize| m.contains_key(k) <==> slide_fixes(rs, part, target_of(which, k)).len() > 0 by {
        lemma_slide_fixes_found(rs, part, target_of(which, k));
    }
}

/// Record the repairs of ordinal `k` in `m`, unless they are there already.
fn record_slide_fixes(m: &mut ByIndex<Vec<Fix>>, k: usize, repairs: &[(String, Fix)], targets: &Vec<(String, pptx::Target)>,
    part: &String, target: pptx::Target)
    requires
        targets@.len() == repairs@.len(),
        forall|j: int| 0 <= j < targets@.len()
            ==> pptx::spec_parse_unit_id(repair_views(repairs@)[j].0) == Some((#[trigger] targets@[j].0@, targets@[j].1)),
    ensures
        final(m)@.dom() == old(m)@.dom().insert(k),
        forall|x: usize| x != k && #[trigger] old(m)@.contains_key(x) ==> final(m)@[x] == old(m)@[x],
        old(m)@.contains_key(k) ==> final(m)@[k] == old(m)@[k],
        !old(m)@.contains_key(k) ==> fix_views(final(m)@[k]@) == slide_fixes(repair_views(repairs@), part@, target),
{
    if m.get(k).is_none() {
        let fixes = collect_slide_fixes(repairs, targets, part, target);
        m.insert(k, fixes);
    } else {
        assert(m@.insert(k, m@[k]) =~= m@);
    }
}

fn slide_plan_of(repairs: &[(String, Fix)], targets: &Vec<(String, pptx::Target)>, part: &String) -> (plan: PartPlan)
    requires
        targets@.len() == repairs@.len(),
        forall|j: int| 0 <= j < targets@.len()
            ==> pptx::spec_parse_unit_id(repair_views(repairs@)[j].0) == Some((#[trigger] targets@[j].0@, targets@[j].1)),
    ensures
        slide_plan_for(repair_views(repairs@), part@, plan),
{
    let ghost rv = repair_views(repairs@);
    let mut plan = PartPlan::new();
    assert(crate::plan::of_kind(plan.chart_text, crate::chart::ChartText::CategoryAxis)@ == Map::<usize, Vec<Fix>>::empty());
    assert(crate::plan::of_kind(plan.chart_text, crate::chart::ChartText::Legend)@ == Map::<usize, Vec<Fix>>::empty());
    assert(crate::plan::of_kind(plan.chart_text, crate::chart::ChartText::DataLabels)@ == Map::<usize, Vec<Fix>>::empty());
    let want = chars_of(part.as_str());
    let mut i: usize = 0;
    while i < targets.len()
        invariant
            i <= targets@.len(),
            rv == repair_views(repairs@),
            rv.len() == repairs@.len(),
            targets@.len() == repairs@.len(),
            want@ == part@,
            forall|j: int| 0 <= j < targets@.len()
                ==> pptx::spec_parse_unit_id(rv[j].0) == Some((#[trigger] targets@[j].0@, targets@[j].1)),
            slide_fixes_so_far(rv, part@, plan.paragraphs@, 0, i as int),
            slide_fixes_so_far(rv, part@, plan.tables@, 1, i as int),
            slide_fixes_so_far(rv, part@, plan.columns@, 2, i as int),
            plan.chart_text.category_axes@ == Map::<usize, Vec<Fix>>::empty(),
            plan.chart_text.legends@ == Map::<usize, Vec<Fix>>::empty(),
            plan.chart_text.data_labels@ == Map::<usize, Vec<Fix>>::empty(),
        decreases targets@.len() - i,
    {
        let ghost here = pptx::spec_parse_unit_id(rv[i as int].0);
        assert(here == Some((targets@[i as int].0@, targets@[i as int].1)));
        let ghost p0 = plan.paragraphs@;
        let ghost t0 = plan.tables@;
        let ghost c0 = plan.columns@;
        let same = chars_eq(&chars_of(targets[i].0.as_str()), &want);
        if same {
            match targets[i].1 {
                pptx::Target::Paragraph(k) => {
                    record_slide_fixes(&mut plan.paragraphs, k, repairs, targets, part, pptx::Target::Paragraph(k));
                    proof {
                        assert(here == Some((part@, target_of(0, k))));
                        lemma_so_far_step(rv, part@, p0, plan.paragraphs@, 0, i as int);
                        lemma_so_far_step(rv, part@, t0, plan.tables@, 1, i as int);
                        lemma_so_far_step(rv, part@, c0, plan.columns@, 2, i as int);
                    }
                },
                pptx::Target::Table(k) => {
                    record_slide_fixes(&mut plan.tables, k, repairs, targets, part, pptx::Target::Table(k));
                    proof {
                        assert(here == Some((part@, target_of(1, k))));
                        lemma_so_far_step(rv, part@, p0, plan.paragraphs@, 0, i as int);
                        lemma_so_far_step(rv, part@, t0, plan.tables@, 1, i as int);
                        lemma_so_far_step(rv, part@, c0, plan.columns@, 2, i as int);
                    }
                },
                pptx::Target::Columns(k) => {
                    record_slide_fixes(&mut plan.columns, k, repairs, targets, part, pptx::Target::Columns(k));
                    proof {
                        assert(here == Some((part@, target_of(2, k))));
                        lemma_so_far_step(rv, part@, p0, plan.paragraphs@, 0, i as int);
                        lemma_so_far_step(rv, part@, t0, plan.tables@, 1, i as int);
                        lemma_so_far_step(rv, part@, c0, plan.columns@, 2, i as int);
                    }
                },
            }
        } else {
            proof {
                lemma_so_far_step(rv, part@, p0, plan.paragraphs@, 0, i as int);
                lemma_so_far_step(rv, part@, t0, plan.tables@, 1, i as int);
                lemma_so_far_step(rv, part@, c0, plan.columns@, 2, i as int);
            }
        }
        i += 1;
    }
    proof {
        lemma_so_far_done(rv, part@, plan.paragraphs@, 0);
        lemma_so_far_done(rv, part@, plan.tables@, 1);
        lemma_so_far_done(rv, part@, plan.columns@, 2);
    }
    plan
}

pub open spec fn slide_planned_view(plans: Seq<(String, PartPlan)>) -> Seq<(Seq<char>, PartPlan)> {
    plans.map_values(|p: (String, PartPlan)| (p.0@, p.1))
}

/// Group a round of repairs by part, before any part is touched: a repair
/// naming a unit this adapter did not issue refuses the whole round.
pub fn plan_slide_repairs(repairs: &[(String, Fix)]) -> (r: Result<Vec<(String, PartPlan)>, Error>)
    ensures
        r is Ok <==> all_slide_units(repair_views(repairs@)),
        r matches Err(e) ==> exists|i: int| #[trigger] first_foreign_slide(repair_views(repairs@), i)
            && e is Format && e->Format_0@ == foreign_unit(repair_views(repairs@)[i].0),
        r matches Ok(plans) ==> slide_plans(repair_views(repairs@), slide_planned_view(plans@)),
{
    let ghost rv = repair_views(repairs@);
    let targets = slide_targets(repairs)?;
    let mut names: Vec<String> = Vec::new();
    let mut i: usize = 0;
    assert(names_view(names@) =~= Seq::<Seq<char>>::empty());
    while i < targets.len()
        invariant
            i <= targets@.len(),
            rv == repair_views(repairs@),
            targets@.len() == repairs@.len(),
            rv.len() == repairs@.len(),
            forall|j: int| 0 <= j < targets@.len()
                ==> pptx::spec_parse_unit_id(rv[j].0) == Some((#[trigger] targets@[j].0@, targets@[j].1)),
            increasing(names_view(names@)),
            forall|p: Seq<char>| names_view(names@).contains(p)
                <==> exists|j: int| 0 <= j < i && #[trigger] slide_part_of(rv[j].0) == Some(p),
        decreases targets@.len() - i,
    {
        let ghost before = names_view(names@);
        insert_name(&mut names, &targets[i].0);
        assert(slide_part_of(rv[i as int].0) == Some(targets@[i as int].0@));
        assert forall|p: Seq<char>| names_view(names@).contains(p)
            <==> exists|j: int| 0 <= j < i + 1 && #[trigger] slide_part_of(rv[j].0) == Some(p) by {
            if exists|j: int| 0 <= j < i + 1 && #[trigger] slide_part_of(rv[j].0) == Some(p) {
                let j = choose|j: int| 0 <= j < i + 1 && #[trigger] slide_part_of(rv[j].0) == Some(p);
                if j < i {
                    assert(before.contains(p));
                }
            }
        }
        i += 1;
    }
    let mut plans: Vec<(String, PartPlan)> = Vec::new();
    let mut k: usize = 0;
    while k < names.len()
        invariant
            k <= names@.len(),
            rv == repair_views(repairs@),
            targets@.len() == repairs@.len(),
            forall|j: int| 0 <= j < targets@.len()
                ==> pptx::spec_parse_unit_id(repair_views(repairs@)[j].0) == Some((#[trigger] targets@[j].0@, targets@[j].1)),
            plans@.len() == k,
            forall|m: int| 0 <= m < k ==> (#[trigger] plans@[m]).0@ == names@[m]@,
            forall|m: int| 0 <= m < k ==> slide_plan_for(rv, names@[m]@, (#[trigger] plans@[m]).1),
        decreases names@.len() - k,
    {
        let plan = slide_plan_of(repairs, &targets, &names[k]);
        plans.push((names[k].clone(), plan));
        k += 1;
    }
    proof {
        let pv = slide_planned_view(plans@);
        let nv = names_view(names@);
        assert(plan_parts(pv) =~= nv);
        assert forall|p: Seq<char>| planned_part(pv, p) <==> named_slide(rv, p) by {
            if planned_part(pv, p) {
                let m = choose|m: int| 0 <= m < pv.len() && #[trigger] pv[m].0 == p;
                assert(nv[m] == p);
                assert(nv.contains(p));
            }
            if nv.contains(p) {
                let m = choose|m: int| 0 <= m < nv.len() && nv[m] == p;
                assert(pv[m].0 == p);
            }
        }
        assert forall|m: int| 0 <= m < pv.len() implies slide_plan_for(rv, pv[m].0, #[trigger] pv[m].1) by {
            assert(plans@[m].0@ == names@[m]@);
        }
    }
    Ok(plans)
}

/// What each paragraph inherits from its container, by the paragraph's
/// ordinal: the direction of every paragraph unit whose direction is
/// inherited, the last one for an ordinal winning.
pub open spec fn paragraph_inherited(us: Seq<UnitView>) -> Map<usize, Direction>
    decreases us.len(),
{
    if us.len() == 0 {
        Map::empty()
    } else {
        let m = paragraph_inherited(us.drop_last());
        let u = us.last();
        match u.props.direction {
            ResolvedView::Inherited(d, _, _) => match pptx::spec_parse_unit_id(u.id) {
                Some((_, pptx::Target::Paragraph(k))) => m.insert(k, d),
                _ => m,
            },
            _ => m,
        }
    }
}

/// The directions a part's paragraphs inherit, read off its units.
pub fn inherited_paragraphs(units: &Vec<TextUnit>) -> (r: Inherited)
    ensures
        r@ == paragraph_inherited(unit_views(units@)),
{
    let ghost uv = unit_views(units@);
    let mut r: Inherited = ByIndex::new();
    let mut i: usize = 0;
    assert(uv.take(0) =~= Seq::<UnitView>::empty());
    while i < units.len()
        invariant
            i <= units@.len(),
            uv == unit_views(units@),
            r@ == paragraph_inherited(uv.take(i as int)),
        decreases units@.len() - i,
    {
        assert(uv.take(i + 1).drop_last() =~= uv.take(i as int));
        assert(uv.take(i + 1).last() == units@[i as int]@);
        let u = &units[i];
        if let Resolved::Inherited(d, _) = &u.props.direction {
            if let Some((_, pptx::Target::Paragraph(k))) = pptx::parse_unit_id(u.id.0.as_str()) {
                r.insert(k, *d);
            }
        }
        i += 1;
    }
    assert(uv.take(i as int) =~= uv);
    r
}

/// What repairing one slide-like part gives: its tokens read, what each
/// paragraph inherits taken from the units those tokens scan to, and the
/// plan applied to those same tokens.
pub open spec fn slide_repaired<F: Fn(&str) -> String>(part: Seq<char>, xml: Seq<char>, plan: PartPlan, f: F, r: Result<Seq<char>, Error>) -> bool {
    match crate::xml::document_tokens(xml) {
        Err(_) => r matches Err(e) && crate::xml::read_failure(part, xml, e),
        Ok(_) => exists|ev: Seq<Token>| #[trigger] crate::xml::reads_as(xml, ev) && {
            let inherited = paragraph_inherited(pptx::slide_after(part, ev).units);
            let refusal = crate::rewrite::plan_refusal(part, ev, crate::rewrite::listing(plan.paragraphs),
                crate::rewrite::listing(plan.tables), crate::rewrite::listing(plan.columns),
                crate::rewrite::listing(plan.chart_text.category_axes), crate::rewrite::listing(plan.chart_text.legends),
                crate::rewrite::listing(plan.chart_text.data_labels));
            if plan_count(plan) == 0 {
                r == Ok::<Seq<char>, Error>(crate::xml::serialized_all(ev))
            } else {
                match r {
                    Ok(s) => refusal is None && exists|out: Seq<Token>| #[trigger] crate::rewrite::plan_applied(ev, out,
                        plan.paragraphs@, plan.tables@, plan.columns@, plan.chart_text.category_axes@,
                        plan.chart_text.legends@, plan.chart_text.data_labels@, inherited, f) && s == crate::xml::serialized_all(out),
                    Err(e) => e is Format && refusal == Some(e->Format_0@),
                }
            }
        },
    }
}

/// Repair one slide-like part: read its
/// tokens, take what each paragraph inherits from the units they scan to,
/// and apply the plan to them.
pub fn repair_slide_part<F: Fn(&str) -> String>(part: &str, xml: &str, plan: &PartPlan, normalize: &F) -> (r: Result<String, Error>)
    requires
        forall|s: &str| call_requires(normalize, (s,)),
    ensures
        slide_repaired(part@, xml@, *plan, normalize, text_result(r)),
{
    let events = crate::xml::read_events(part, xml)?;
    let ghost ev = events@;
    assert(crate::xml::reads_as(xml@, ev));
    let units = pptx::scan_events(part, &events);
    let inherited = inherited_paragraphs(&units);
    if plan.is_empty() {
        return crate::xml::write_events(part, &events);
    }
    let out = crate::rewrite::apply_events(part, events, plan, &inherited, normalize);
    match out {
        Ok(o) => {
            let ghost ov = o@;
            let s = crate::xml::write_events(part, &o);
            proof {
                assert(crate::rewrite::plan_applied(ev, ov, plan.paragraphs@, plan.tables@, plan.columns@,
                    plan.chart_text.category_axes@, plan.chart_text.legends@, plan.chart_text.data_labels@, inherited@, normalize));
            }
            s
        },
        Err(e) => Err(e),
    }
}

/// Apply a round of repairs to a deck's parts: the repairs grouped by part,
/// and each part, in part-name order,
/// repaired from `texts` — the caller's read of each part. Gives each
/// repaired part's new text, and how many repairs were applied: all of
/// them, as every one lands in exactly one part's plan.
pub fn apply_slide_repairs<F: Fn(&str) -> String>(repairs: &[(String, Fix)], texts: &[(String, String)], normalize: &F)
    -> (r: Result<(Vec<(String, String)>, usize), Error>)
    requires
        forall|s: &str| call_requires(normalize, (s,)),
    ensures
        !all_slide_units(repair_views(repairs@)) ==> (r matches Err(e) && exists|i: int|
            #[trigger] first_foreign_slide(repair_views(repairs@), i) && e is Format
            && e->Format_0@ == foreign_unit(repair_views(repairs@)[i].0)),
        r matches Ok(out) ==> out.1 == repairs@.len() && exists|plans: Seq<(Seq<char>, PartPlan)>|
            #[trigger] slide_plans(repair_views(repairs@), plans)
            && staged_parts(out.0@) == plan_parts(plans)
            && forall|k: int| 0 <= k < plans.len() ==> #[trigger] slide_step(pair_views(texts@), plans, staged_texts(out.0@), k, normalize),
        r matches Err(e) ==> !all_slide_units(repair_views(repairs@)) || exists|plans: Seq<(Seq<char>, PartPlan)>, k: int|
            #[trigger] slide_plans(repair_views(repairs@), plans) && 0 <= k < plans.len() && #[trigger] slide_failed(pair_views(texts@), plans, k, normalize, e),
{
    let ghost tv = pair_views(texts@);
    let plans = match plan_slide_repairs(repairs) {
        Ok(p) => p,
        Err(e) => {
            return Err(e);
        },
    };
    let ghost pv = slide_planned_view(plans@);
    let mut staged: Vec<(String, String)> = Vec::new();
    let mut k: usize = 0;
    while k < plans.len()
        invariant
            k <= plans@.len(),
            pv == slide_planned_view(plans@),
            tv == pair_views(texts@),
            slide_plans(repair_views(repairs@), pv),
            all_slide_units(repair_views(repairs@)),
            forall|s: &str| call_requires(normalize, (s,)),
            staged@.len() == k,
            forall|m: int| 0 <= m < k ==> (#[trigger] staged@[m]).0@ == pv[m].0,
            forall|m: int| 0 <= m < k ==> #[trigger] slide_step(tv, pv, staged_texts(staged@), m, normalize),
        decreases plans@.len() - k,
    {
        let part = &plans[k].0;
        assert(pv[k as int] == (part@, plans@[k as int].1));
        let xml = match find_text(texts, part) {
            Some(x) => x,
            None => {
                let mut m = part.clone();
                m.append(": not in the package");
                let e = Error::Format(m);
                assert(slide_failed(tv, pv, k as int, normalize, e));
                return Err(e);
            },
        };
        let rr = repair_slide_part(part.as_str(), xml.as_str(), &plans[k].1, normalize);
        match rr {
            Ok(text) => {
                let ghost before = staged_texts(staged@);
                let ghost t = text@;
                staged.push((part.clone(), text));
                proof {
                    let now = staged_texts(staged@);
                    assert(now =~= before.push(t));
                    assert forall|m: int| 0 <= m < k + 1 implies #[trigger] slide_step(tv, pv, now, m, normalize) by {
                        if m < k {
                            assert(slide_step(tv, pv, before, m, normalize));
                        }
                    }
                }
            },
            Err(e) => {
                assert(slide_failed(tv, pv, k as int, normalize, e));
                return Err(e);
            },
        }
        k += 1;
    }
    let res = (staged, repairs.len());
    proof {
        assert(staged_parts(res.0@) =~= plan_parts(pv));
        assert(staged_texts(res.0@) == staged_texts(staged@));
    }
    Ok(res)
}


// ------------------------------------------------------------ word documents

/// The part a Word unit id names, if this adapter issued it.
pub open spec fn docx_part_of(id: Seq<char>) -> Option<Seq<char>> {
    match docx::spec_parse_unit_id(id) {
        Some(x) => Some(x.0),
        None => None,
    }
}

/// Whether repair `i` cannot be staged: its unit id is not one this adapter
/// issued, or it is a typed bullet and the document defines no list for it
/// to join.
pub open spec fn docx_blocked(rs: Seq<(Seq<char>, FixView)>, numbering: Option<Seq<Token>>, i: int) -> bool {
    ||| docx::spec_parse_unit_id(rs[i].0) is None
    ||| (rs[i].1 matches FixView::ConvertLiteralBullet(m) && word::list_for(numbering, m) is None)
}

/// Whether repair `i` is the first that cannot be staged.
pub open spec fn first_blocked_docx(rs: Seq<(Seq<char>, FixView)>, numbering: Option<Seq<Token>>, i: int) -> bool {
    &&& 0 <= i < rs.len()
    &&& docx_blocked(rs, numbering, i)
    &&& forall|j: int| 0 <= j < i ==> !#[trigger] docx_blocked(rs, numbering, j)
}

/// Whether every repair can be staged.
pub open spec fn all_docx_clear(rs: Seq<(Seq<char>, FixView)>, numbering: Option<Seq<Token>>) -> bool {
    forall|j: int| 0 <= j < rs.len() ==> !#[trigger] docx_blocked(rs, numbering, j)
}

/// What a round is refused with at repair `i`.
pub open spec fn blocked_message(rs: Seq<(Seq<char>, FixView)>, i: int) -> Seq<char> {
    match docx::spec_parse_unit_id(rs[i].0) {
        None => foreign_unit(rs[i].0),
        Some(x) => word::word_refusal(x.0, rs[i].1, word::list_reason()),
    }
}

/// Whether `bullets` answers every typed marker among the first `n` repairs
/// with the list the document offers for it, and holds nothing else.
pub open spec fn bullets_known(rs: Seq<(Seq<char>, FixView)>, numbering: Option<Seq<Token>>, bullets: Seq<(char, Seq<char>)>, n: int) -> bool {
    &&& forall|j: int| 0 <= j < n ==> ((#[trigger] rs[j]).1 matches FixView::ConvertLiteralBullet(m)
        ==> word::bullet_for(bullets, m) == word::list_for(numbering, m))
    &&& forall|m: char| #[trigger] word::bullet_for(bullets, m) is Some ==> word::bullet_for(bullets, m) == word::list_for(numbering, m)
}

/// Whether some repair names a unit in part `p`.
pub open spec fn named_docx(rs: Seq<(Seq<char>, FixView)>, p: Seq<char>) -> bool {
    exists|i: int| 0 <= i < rs.len() && #[trigger] docx_part_of(rs[i].0) == Some(p)
}

/// The repairs, in order, whose id names `target` in `part`.
pub open spec fn docx_fixes(rs: Seq<(Seq<char>, FixView)>, part: Seq<char>, target: docx::Target) -> Seq<FixView>
    decreases rs.len(),
{
    if rs.len() == 0 {
        seq![]
    } else {
        let prev = docx_fixes(rs.drop_last(), part, target);
        if docx::spec_parse_unit_id(rs.last().0) == Some((part, target)) {
            prev.push(rs.last().1)
        } else {
            prev
        }
    }
}

/// The Word target of one kind: `0` a paragraph, anything else a table.
pub open spec fn docx_target_of(which: int, k: usize) -> docx::Target {
    if which == 0 {
        docx::Target::Paragraph(k)
    } else {
        docx::Target::Table(k)
    }
}

/// Whether `m` holds, for each ordinal `k` some repair addresses as
/// `docx_target_of(which, k)`, exactly those repairs in order.
pub open spec fn holds_docx_fixes(rs: Seq<(Seq<char>, FixView)>, part: Seq<char>, m: Map<usize, Vec<Fix>>,
    which: int) -> bool {
    &&& forall|k: usize| m.contains_key(k) <==> docx_fixes(rs, part, docx_target_of(which, k)).len() > 0
    &&& forall|k: usize| #[trigger] m.contains_key(k) ==> fix_views(m[k]@) == docx_fixes(rs, part, docx_target_of(which, k))
}

/// Whether `plan` holds exactly the repairs addressed to `part`: its
/// paragraphs' and its tables'.
pub open spec fn docx_plan_for(rs: Seq<(Seq<char>, FixView)>, part: Seq<char>, plan: word::PartPlan) -> bool {
    &&& holds_docx_fixes(rs, part, plan.paragraphs@, 0)
    &&& holds_docx_fixes(rs, part, plan.tables@, 1)
}

/// Whether `plans` is the round grouped by part: one plan for each part a
/// repair names, in part-name order, each with that part's repairs.
pub open spec fn docx_plans(rs: Seq<(Seq<char>, FixView)>, plans: Seq<(Seq<char>, word::PartPlan)>) -> bool {
    &&& increasing(plan_parts(plans))
    &&& forall|p: Seq<char>| #![trigger planned_part(plans, p)] #![trigger named_docx(rs, p)]
        planned_part(plans, p) <==> named_docx(rs, p)
    &&& forall|k: int| 0 <= k < plans.len() ==> docx_plan_for(rs, plans[k].0, #[trigger] plans[k].1)
}

proof fn lemma_docx_fixes_found(rs: Seq<(Seq<char>, FixView)>, part: Seq<char>, target: docx::Target)
    ensures
        docx_fixes(rs, part, target).len() > 0
            <==> exists|j: int| 0 <= j < rs.len() && docx::spec_parse_unit_id(#[trigger] rs[j].0) == Some((part, target)),
    decreases rs.len(),
{
    if rs.len() > 0 {
        let d = rs.drop_last();
        lemma_docx_fixes_found(d, part, target);
        if exists|j: int| 0 <= j < d.len() && docx::spec_parse_unit_id(#[trigger] d[j].0) == Some((part, target)) {
            let j = choose|j: int| 0 <= j < d.len() && docx::spec_parse_unit_id(#[trigger] d[j].0) == Some((part, target));
            assert(rs[j] == d[j]);
        }
        if exists|j: int| 0 <= j < rs.len() && docx::spec_parse_unit_id(#[trigger] rs[j].0) == Some((part, target)) {
            let j = choose|j: int| 0 <= j < rs.len() && docx::spec_parse_unit_id(#[trigger] rs[j].0) == Some((part, target));
            if j < rs.len() - 1 {
                assert(d[j] == rs[j]);
            }
        }
    }
}

fn docx_targets(repairs: &[(String, Fix)], numbering: Option<&[Token]>) -> (r: Result<(Vec<(String, docx::Target)>, word::Bullets), Error>)
    ensures
        r is Ok <==> all_docx_clear(repair_views(repairs@), word::tokens_view(numbering)),
        r matches Err(e) ==> exists|i: int| #[trigger] first_blocked_docx(repair_views(repairs@), word::tokens_view(numbering), i)
            && e is Format && e->Format_0@ == blocked_message(repair_views(repairs@), i),
        r matches Ok(tb) ==> tb.0@.len() == repairs@.len() && (forall|j: int| 0 <= j < tb.0@.len()
            ==> docx::spec_parse_unit_id(repair_views(repairs@)[j].0) == Some((#[trigger] tb.0@[j].0@, tb.0@[j].1)))
            && bullets_known(repair_views(repairs@), word::tokens_view(numbering), word::bullets_view(tb.1@), repairs@.len() as int),
{
    let ghost rv = repair_views(repairs@);
    let ghost nv = word::tokens_view(numbering);
    let mut t: Vec<(String, docx::Target)> = Vec::new();
    let mut bullets: word::Bullets = Vec::new();
    assert(word::bullets_view(bullets@) =~= Seq::<(char, Seq<char>)>::empty());
    let mut i: usize = 0;
    while i < repairs.len()
        invariant
            i <= repairs@.len(),
            rv == repair_views(repairs@),
            nv == word::tokens_view(numbering),
            rv.len() == repairs@.len(),
            t@.len() == i,
            forall|j: int| 0 <= j < i ==> docx::spec_parse_unit_id(rv[j].0) == Some((#[trigger] t@[j].0@, t@[j].1)),
            forall|j: int| 0 <= j < i ==> !#[trigger] docx_blocked(rv, nv, j),
            bullets_known(rv, nv, word::bullets_view(bullets@), i as int),
        decreases repairs@.len() - i,
    {
        assert(rv[i as int] == (repairs@[i as int].0@, repairs@[i as int].1@));
        match docx::parse_unit_id(repairs[i].0.as_str()) {
            Some(x) => {
                if let Fix::ConvertLiteralBullet { marker } = &repairs[i].1 {
                    match word::list_for_exec(numbering, *marker) {
                        Some(id) => {
                            if word::find_bullet(&bullets, *marker).is_none() {
                                let ghost bv0 = word::bullets_view(bullets@);
                                let ghost idv = id@;
                                bullets.push((*marker, id));
                                proof {
                                    let bv1 = word::bullets_view(bullets@);
                                    assert(bv1 =~= bv0.push((*marker, idv)));
                                    assert forall|m: char| #[trigger] word::bullet_for(bv1, m) == match word::bullet_for(bv0, m) {
                                        Some(v) => Some(v),
                                        None => if *marker == m { Some(idv) } else { None },
                                    } by {
                                        word::lemma_bullet_for_push(bv0, (*marker, idv), m);
                                    }
                                }
                            }
                        },
                        None => {
                            proof {
                                assert(docx_blocked(rv, nv, i as int));
                                assert(first_blocked_docx(rv, nv, i as int));
                                assert(!all_docx_clear(rv, nv));
                            }
                            return Err(word::word_refuse(x.0.as_str(), &repairs[i].1, "this document defines no bulleted list for a paragraph to join"));
                        },
                    }
                }
                t.push(x);
                proof {
                    assert(!docx_blocked(rv, nv, i as int));
                    assert forall|j: int| 0 <= j < i + 1 implies ((#[trigger] rv[j]).1 matches FixView::ConvertLiteralBullet(m)
                        ==> word::bullet_for(word::bullets_view(bullets@), m) == word::list_for(nv, m)) by {
                    }
                }
            },
            None => {
                proof {
                    assert(docx_blocked(rv, nv, i as int));
                    assert(first_blocked_docx(rv, nv, i as int));
                    assert(!all_docx_clear(rv, nv));
                }
                return Err(foreign_error(&repairs[i].0));
            },
        }
        i += 1;
    }
    Ok((t, bullets))
}

fn collect_docx_fixes(repairs: &[(String, Fix)], targets: &Vec<(String, docx::Target)>, part: &String, target: docx::Target) -> (r: Vec<Fix>)
    requires
        targets@.len() == repairs@.len(),
        forall|j: int| 0 <= j < targets@.len()
            ==> docx::spec_parse_unit_id(repair_views(repairs@)[j].0) == Some((#[trigger] targets@[j].0@, targets@[j].1)),
    ensures
        fix_views(r@) == docx_fixes(repair_views(repairs@), part@, target),
{
    let ghost rv = repair_views(repairs@);
    let want = chars_of(part.as_str());
    let mut r: Vec<Fix> = Vec::new();
    let mut i: usize = 0;
    assert(rv.take(0) =~= Seq::<(Seq<char>, FixView)>::empty());
    assert(fix_views(r@) =~= Seq::<FixView>::empty());
    while i < repairs.len()
        invariant
            i <= repairs@.len(),
            rv == repair_views(repairs@),
            rv.len() == repairs@.len(),
            targets@.len() == repairs@.len(),
            want@ == part@,
            forall|j: int| 0 <= j < targets@.len()
                ==> docx::spec_parse_unit_id(rv[j].0) == Some((#[trigger] targets@[j].0@, targets@[j].1)),
            fix_views(r@) == docx_fixes(rv.take(i as int), part@, target),
        decreases repairs@.len() - i,
    {
        assert(rv.take(i + 1).drop_last() =~= rv.take(i as int));
        assert(rv.take(i + 1).last() == rv[i as int]);
        assert(rv[i as int] == (repairs@[i as int].0@, repairs@[i as int].1@));
        let ghost here = docx::spec_parse_unit_id(rv[i as int].0);
        assert(here == Some((targets@[i as int].0@, targets@[i as int].1)));
        if chars_eq(&chars_of(targets[i].0.as_str()), &want) && targets[i].1 == target {
            let ghost before = r@;
            r.push(copy_fix(&repairs[i].1));
            assert(fix_views(r@) =~= fix_views(before).push(repairs@[i as int].1@));
        }
        i += 1;
    }
    assert(rv.take(i as int) =~= rv);
    r
}

/// Whether `m` holds, for each ordinal some of the first `i` repairs address
/// as `docx_target_of(which, k)` in `part`, all of that ordinal's repairs.
pub open spec fn docx_fixes_so_far(rs: Seq<(Seq<char>, FixView)>, part: Seq<char>, m: Map<usize, Vec<Fix>>,
    which: int, i: int) -> bool {
    &&& forall|k: usize| m.contains_key(k) <==> exists|j: int| 0 <= j < i
        && docx::spec_parse_unit_id(#[trigger] rs[j].0) == Some((part, docx_target_of(which, k)))
    &&& forall|k: usize| #[trigger] m.contains_key(k) ==> fix_views(m[k]@) == docx_fixes(rs, part, docx_target_of(which, k))
}

proof fn lemma_docx_so_far_step(rs: Seq<(Seq<char>, FixView)>, part: Seq<char>, m0: Map<usize, Vec<Fix>>, m1: Map<usize, Vec<Fix>>,
    which: int, i: int)
    requires
        0 <= i < rs.len(),
        docx_fixes_so_far(rs, part, m0, which, i),
        forall|k: usize| #[trigger] m1.contains_key(k) ==> fix_views(m1[k]@) == docx_fixes(rs, part, docx_target_of(which, k)),
        forall|k: usize| m1.contains_key(k) <==> (m0.contains_key(k) || docx::spec_parse_unit_id(rs[i].0) == Some((part, docx_target_of(which, k)))),
    ensures
        docx_fixes_so_far(rs, part, m1, which, i + 1),
{
    assert forall|k: usize| m1.contains_key(k) <==> exists|j: int| 0 <= j < i + 1
        && docx::spec_parse_unit_id(#[trigger] rs[j].0) == Some((part, docx_target_of(which, k))) by {
        if exists|j: int| 0 <= j < i + 1 && docx::spec_parse_unit_id(#[trigger] rs[j].0) == Some((part, docx_target_of(which, k))) {
            let j = choose|j: int| 0 <= j < i + 1 && docx::spec_parse_unit_id(#[trigger] rs[j].0) == Some((part, docx_target_of(which, k)));
            if j < i {
                assert(m0.contains_key(k));
            }
        }
    }
}

proof fn lemma_docx_so_far_done(rs: Seq<(Seq<char>, FixView)>, part: Seq<char>, m: Map<usize, Vec<Fix>>, which: int)
    requires
        docx_fixes_so_far(rs, part, m, which, rs.len() as int),
    ensures
        holds_docx_fixes(rs, part, m, which),
{
    assert forall|k: usize| m.contains_key(k) <==> docx_fixes(rs, part, docx_target_of(which, k)).len() > 0 by {
        lemma_docx_fixes_found(rs, part, docx_target_of(which, k));
    }
}

/// Record the repairs of ordinal `k` in `m`, unless they are there already.
fn record_docx_fixes(m: &mut ByIndex<Vec<Fix>>, k: usize, repairs: &[(String, Fix)], targets: &Vec<(String, docx::Target)>,
    part: &String, target: docx::Target)
    requires
        targets@.len() == repairs@.len(),
        forall|j: int| 0 <= j < targets@.len()
            ==> docx::spec_parse_unit_id(repair_views(repairs@)[j].0) == Some((#[trigger] targets@[j].0@, targets@[j].1)),
    ensures
        final(m)@.dom() == old(m)@.dom().insert(k),
        forall|x: usize| x != k && #[trigger] old(m)@.contains_key(x) ==> final(m)@[x] == old(m)@[x],
        old(m)@.contains_key(k) ==> final(m)@[k] == old(m)@[k],
        !old(m)@.contains_key(k) ==> fix_views(final(m)@[k]@) == docx_fixes(repair_views(repairs@), part@, target),
{
    if m.get(k).is_none() {
        let fixes = collect_docx_fixes(repairs, targets, part, target);
        m.insert(k, fixes);
    } else {
        assert(m@.insert(k, m@[k]) =~= m@);
    }
}

fn docx_plan_of(repairs: &[(String, Fix)], targets: &Vec<(String, docx::Target)>, part: &String) -> (plan: word::PartPlan)
    requires
        targets@.len() == repairs@.len(),
        forall|j: int| 0 <= j < targets@.len()
            ==> docx::spec_parse_unit_id(repair_views(repairs@)[j].0) == Some((#[trigger] targets@[j].0@, targets@[j].1)),
    ensures
        docx_plan_for(repair_views(repairs@), part@, plan),
{
    let ghost rv = repair_views(repairs@);
    let mut plan = word::PartPlan::new();
    let want = chars_of(part.as_str());
    let mut i: usize = 0;
    while i < targets.len()
        invariant
            i <= targets@.len(),
            rv == repair_views(repairs@),
            rv.len() == repairs@.len(),
            targets@.len() == repairs@.len(),
            want@ == part@,
            forall|j: int| 0 <= j < targets@.len()
                ==> docx::spec_parse_unit_id(rv[j].0) == Some((#[trigger] targets@[j].0@, targets@[j].1)),
            docx_fixes_so_far(rv, part@, plan.paragraphs@, 0, i as int),
            docx_fixes_so_far(rv, part@, plan.tables@, 1, i as int),

        decreases targets@.len() - i,
    {
        let ghost here = docx::spec_parse_unit_id(rv[i as int].0);
        assert(here == Some((targets@[i as int].0@, targets@[i as int].1)));
        let ghost p0 = plan.paragraphs@;
        let ghost t0 = plan.tables@;
        let same = chars_eq(&chars_of(targets[i].0.as_str()), &want);
        if same {
            match targets[i].1 {
                docx::Target::Paragraph(k) => {
                    record_docx_fixes(&mut plan.paragraphs, k, repairs, targets, part, docx::Target::Paragraph(k));
                    proof {
                        assert(here == Some((part@, docx_target_of(0, k))));
                        lemma_docx_so_far_step(rv, part@, p0, plan.paragraphs@, 0, i as int);
                        lemma_docx_so_far_step(rv, part@, t0, plan.tables@, 1, i as int);
                    }
                },
                docx::Target::Table(k) => {
                    record_docx_fixes(&mut plan.tables, k, repairs, targets, part, docx::Target::Table(k));
                    proof {
                        assert(here == Some((part@, docx_target_of(1, k))));
                        lemma_docx_so_far_step(rv, part@, p0, plan.paragraphs@, 0, i as int);
                        lemma_docx_so_far_step(rv, part@, t0, plan.tables@, 1, i as int);
                    }
                },
            }
        } else {
            proof {
                lemma_docx_so_far_step(rv, part@, p0, plan.paragraphs@, 0, i as int);
                lemma_docx_so_far_step(rv, part@, t0, plan.tables@, 1, i as int);
            }
        }
        i += 1;
    }
    proof {
        lemma_docx_so_far_done(rv, part@, plan.paragraphs@, 0);
        lemma_docx_so_far_done(rv, part@, plan.tables@, 1);
    }
    plan
}

pub open spec fn docx_planned_view(plans: Seq<(String, word::PartPlan)>) -> Seq<(Seq<char>, word::PartPlan)> {
    plans.map_values(|p: (String, word::PartPlan)| (p.0@, p.1))
}

/// Whether `r` is what planning a round gives against the numbering part's
/// tokens `numbering`: refused at the first repair that cannot be staged,
/// else the repairs grouped by part and the list each typed marker joins.
pub open spec fn docx_planned(rs: Seq<(Seq<char>, FixView)>, numbering: Option<Seq<Token>>,
    r: Result<(Vec<(String, word::PartPlan)>, word::Bullets), Error>) -> bool {
    &&& (r is Ok <==> all_docx_clear(rs, numbering))
    &&& r matches Err(e) ==> exists|i: int| #[trigger] first_blocked_docx(rs, numbering, i)
        && e is Format && e->Format_0@ == blocked_message(rs, i)
    &&& r matches Ok(pb) ==> docx_plans(rs, docx_planned_view(pb.0@))
        && bullets_known(rs, numbering, word::bullets_view(pb.1@), rs.len() as int)
}

/// Group a round of repairs by part, given the tokens of the document's
/// numbering part if it has one: a repair naming a unit this adapter did not
/// issue, or a typed bullet the document defines no list for, refuses the
/// whole round. Gives the plans and the list each typed marker joins.
pub fn plan_docx_repairs_in(repairs: &[(String, Fix)], numbering: Option<&[Token]>)
    -> (r: Result<(Vec<(String, word::PartPlan)>, word::Bullets), Error>)
    ensures
        docx_planned(repair_views(repairs@), word::tokens_view(numbering), r),
{
    let ghost rv = repair_views(repairs@);
    let ghost nv = word::tokens_view(numbering);
    let (targets, bullets) = docx_targets(repairs, numbering)?;
    let mut names: Vec<String> = Vec::new();
    let mut i: usize = 0;
    assert(names_view(names@) =~= Seq::<Seq<char>>::empty());
    while i < targets.len()
        invariant
            i <= targets@.len(),
            rv == repair_views(repairs@),
            targets@.len() == repairs@.len(),
            rv.len() == repairs@.len(),
            forall|j: int| 0 <= j < targets@.len()
                ==> docx::spec_parse_unit_id(rv[j].0) == Some((#[trigger] targets@[j].0@, targets@[j].1)),
            increasing(names_view(names@)),
            forall|p: Seq<char>| names_view(names@).contains(p)
                <==> exists|j: int| 0 <= j < i && #[trigger] docx_part_of(rv[j].0) == Some(p),
        decreases targets@.len() - i,
    {
        let ghost before = names_view(names@);
        insert_name(&mut names, &targets[i].0);
        assert(docx_part_of(rv[i as int].0) == Some(targets@[i as int].0@));
        assert forall|p: Seq<char>| names_view(names@).contains(p)
            <==> exists|j: int| 0 <= j < i + 1 && #[trigger] docx_part_of(rv[j].0) == Some(p) by {
            if exists|j: int| 0 <= j < i + 1 && #[trigger] docx_part_of(rv[j].0) == Some(p) {
                let j = choose|j: int| 0 <= j < i + 1 && #[trigger] docx_part_of(rv[j].0) == Some(p);
                if j < i {
                    assert(before.contains(p));
                }
            }
        }
        i += 1;
    }
    let mut plans: Vec<(String, word::PartPlan)> = Vec::new();
    let mut k: usize = 0;
    while k < names.len()
        invariant
            k <= names@.len(),
            rv == repair_views(repairs@),
            targets@.len() == repairs@.len(),
            forall|j: int| 0 <= j < targets@.len()
                ==> docx::spec_parse_unit_id(repair_views(repairs@)[j].0) == Some((#[trigger] targets@[j].0@, targets@[j].1)),
            plans@.len() == k,
            forall|m: int| 0 <= m < k ==> (#[trigger] plans@[m]).0@ == names@[m]@,
            forall|m: int| 0 <= m < k ==> docx_plan_for(rv, names@[m]@, (#[trigger] plans@[m]).1),
        decreases names@.len() - k,
    {
        let plan = docx_plan_of(repairs, &targets, &names[k]);
        plans.push((names[k].clone(), plan));
        k += 1;
    }
    proof {
        let pv = docx_planned_view(plans@);
        let nv = names_view(names@);
        assert(plan_parts(pv) =~= nv);
        assert forall|p: Seq<char>| planned_part(pv, p) <==> named_docx(rv, p) by {
            if planned_part(pv, p) {
                let m = choose|m: int| 0 <= m < pv.len() && #[trigger] pv[m].0 == p;
                assert(nv[m] == p);
                assert(nv.contains(p));
            }
            if nv.contains(p) {
                let m = choose|m: int| 0 <= m < nv.len() && nv[m] == p;
                assert(pv[m].0 == p);
            }
        }
        assert forall|m: int| 0 <= m < pv.len() implies docx_plan_for(rv, pv[m].0, #[trigger] pv[m].1) by {
            assert(plans@[m].0@ == names@[m]@);
        }
    }
    let res = (plans, bullets);
    proof {
        assert(docx_plans(rv, docx_planned_view(res.0@)));
    }
    Ok(res)
}

/// The document's numbering part, as the caller read it: its name and text.
pub open spec fn numbering_text(numbering: Option<(&str, &str)>) -> Option<(Seq<char>, Seq<char>)> {
    match numbering {
        Some((p, x)) => Some((p@, x@)),
        None => None,
    }
}

/// Whether `tokens` is what the numbering part reads as: none where there is
/// no such part or it does not read, since a list the parser could not
/// understand is no list to join.
pub open spec fn numbering_read(numbering: Option<(Seq<char>, Seq<char>)>, tokens: Option<Seq<Token>>) -> bool {
    match numbering {
        None => tokens is None,
        Some(px) => match crate::xml::document_tokens(px.1) {
            Err(_) => tokens is None,
            Ok(_) => tokens matches Some(ev) && crate::xml::reads_as(px.1, ev),
        },
    }
}

pub open spec fn read_view(r: Option<Vec<Token>>) -> Option<Seq<Token>> {
    match r {
        Some(v) => Some(v@),
        None => None,
    }
}

fn read_numbering(numbering: Option<(&str, &str)>) -> (r: Option<Vec<Token>>)
    ensures
        numbering_read(numbering_text(numbering), read_view(r)),
{
    match numbering {
        Some((p, x)) => match crate::xml::read_events(p, x) {
            Ok(ev) => {
                assert(crate::xml::reads_as(x@, ev@));
                Some(ev)
            },
            Err(_) => None,
        },
        None => None,
    }
}

/// Group a round of repairs by part against the document's numbering part,
/// `numbering`, when it has one: its name and text. A repair naming a unit
/// this adapter did not issue, or a typed bullet the document defines no
/// list for, refuses the whole round.
pub fn plan_docx_repairs(repairs: &[(String, Fix)], numbering: Option<(&str, &str)>)
    -> (r: Result<(Vec<(String, word::PartPlan)>, word::Bullets), Error>)
    ensures
        exists|tokens: Option<Seq<Token>>| #[trigger] numbering_read(numbering_text(numbering), tokens)
            && docx_planned(repair_views(repairs@), tokens, r),
{
    let ev = read_numbering(numbering);
    let r = match &ev {
        Some(v) => plan_docx_repairs_in(repairs, Some(v.as_slice())),
        None => plan_docx_repairs_in(repairs, None),
    };
    proof {
        assert(numbering_read(numbering_text(numbering), read_view(ev)));
    }
    r
}

/// Whether WordprocessingML can express a repair, given whether the document
/// defines a list for a typed bullet's marker to join.
pub open spec fn docx_supported(fix: FixView, has_list: bool) -> bool {
    match fix {
        FixView::SetAlignment(a) => !(a == crate::text::Alignment::Left || a == crate::text::Alignment::Right),
        FixView::ConvertLiteralBullet(_) => has_list,
        _ => true,
    }
}

/// A repair this format supports is one the paragraph rewriter never
/// refuses, and the other way round: where a typed bullet's marker is
/// answered with the list the numbering part offers for it, the rewriter
/// refuses a repair exactly when the document could not express it.
pub proof fn lemma_supported_is_accepted(part: Seq<char>, fix: FixView, bullets: Seq<(char, Seq<char>)>, numbering: Option<Seq<Token>>)
    requires
        fix matches FixView::ConvertLiteralBullet(m) ==> word::bullet_for(bullets, m) == word::list_for(numbering, m),
    ensures
        docx_supported(fix, match fix {
            FixView::ConvertLiteralBullet(m) => word::list_for(numbering, m) is Some,
            _ => true,
        }) <==> word::fix_refusal(part, fix, bullets) is None,
{
}

/// Whether WordprocessingML can express a repair, given `list`: the list a
/// typed bullet's marker would join, where the document defines one. A page
/// edge has no spelling in Word's direction-relative `w:jc`, and a typed
/// bullet is converted only onto a list the document already has.
pub fn docx_supports(fix: &Fix, list: Option<&str>) -> (r: bool)
    ensures
        r == docx_supported(fix@, list is Some),
{
    match fix {
        Fix::SetAlignment(a) => !(*a == crate::text::Alignment::Left || *a == crate::text::Alignment::Right),
        Fix::ConvertLiteralBullet { marker: _ } => list.is_some(),
        _ => true,
    }
}

/// Word part `k` of a round repaired, giving `staged[k]`.
pub open spec fn docx_step<F: Fn(&str) -> String>(texts: Seq<(Seq<char>, Seq<char>)>, plans: Seq<(Seq<char>, word::PartPlan)>,
    staged: Seq<Seq<char>>, k: int, bullets: Seq<(char, Seq<char>)>, f: F) -> bool {
    text_of_part(texts, plans[k].0) matches Some(x)
        && word::word_repaired(plans[k].0, x, plans[k].1, bullets, f, Ok::<Seq<char>, Error>(staged[k]))
}

/// Word part `k` of a round failing with `e`: no text was read for it, or
/// repairing it failed so.
pub open spec fn docx_failed<F: Fn(&str) -> String>(texts: Seq<(Seq<char>, Seq<char>)>, plans: Seq<(Seq<char>, word::PartPlan)>,
    k: int, bullets: Seq<(char, Seq<char>)>, f: F, e: Error) -> bool {
    match text_of_part(texts, plans[k].0) {
        None => e is Format && e->Format_0@ == unread_part(plans[k].0),
        Some(x) => word::word_repaired(plans[k].0, x, plans[k].1, bullets, f, Err::<Seq<char>, Error>(e)),
    }
}

/// Whether `r` is what a round of Word repairs gives against the numbering
/// part's tokens `numbering`: refused at the first repair that cannot be
/// staged; else each part, in part-name order, repaired from `texts`, or the
/// first part that fails.
pub open spec fn docx_round<F: Fn(&str) -> String>(rs: Seq<(Seq<char>, FixView)>, texts: Seq<(Seq<char>, Seq<char>)>,
    numbering: Option<Seq<Token>>, f: F, r: Result<(Vec<(String, String)>, usize), Error>) -> bool {
    &&& !all_docx_clear(rs, numbering) ==> (r matches Err(e) && exists|i: int| #[trigger] first_blocked_docx(rs, numbering, i)
        && e is Format && e->Format_0@ == blocked_message(rs, i))
    &&& r matches Ok(out) ==> out.1 == rs.len() && exists|plans: Seq<(Seq<char>, word::PartPlan)>, bullets: Seq<(char, Seq<char>)>|
        #![trigger docx_plans(rs, plans), bullets_known(rs, numbering, bullets, rs.len() as int)]
        docx_plans(rs, plans) && bullets_known(rs, numbering, bullets, rs.len() as int)
        && staged_parts(out.0@) == plan_parts(plans)
        && forall|k: int| 0 <= k < plans.len() ==> #[trigger] docx_step(texts, plans, staged_texts(out.0@), k, bullets, f)
    &&& r matches Err(e) ==> !all_docx_clear(rs, numbering) || exists|plans: Seq<(Seq<char>, word::PartPlan)>, bullets: Seq<(char, Seq<char>)>, k: int|
        #![trigger docx_plans(rs, plans), docx_failed(texts, plans, k, bullets, f, e)]
        docx_plans(rs, plans) && bullets_known(rs, numbering, bullets, rs.len() as int) && 0 <= k < plans.len()
            && docx_failed(texts, plans, k, bullets, f, e)
}

/// Apply a round of repairs to a Word document's parts: the repairs grouped
/// by part, each typed bullet resolved against the document's numbering
/// part (`numbering`, its name and text, where it has one), and each part,
/// in part-name order, repaired from `texts` — the caller's read of each
/// part. Gives each repaired part's new text, and how many repairs were
/// applied: all of them, as every one lands in exactly one part's plan.
pub fn apply_docx_repairs<F: Fn(&str) -> String>(repairs: &[(String, Fix)], texts: &[(String, String)],
    numbering: Option<(&str, &str)>, normalize: &F) -> (r: Result<(Vec<(String, String)>, usize), Error>)
    requires
        forall|s: &str| call_requires(normalize, (s,)),
    ensures
        exists|tokens: Option<Seq<Token>>| #[trigger] numbering_read(numbering_text(numbering), tokens)
            && docx_round(repair_views(repairs@), pair_views(texts@), tokens, normalize, r),
{
    let ghost rv = repair_views(repairs@);
    let ghost tv = pair_views(texts@);
    let ev = read_numbering(numbering);
    let ghost nv = read_view(ev);
    let planned = match &ev {
        Some(v) => plan_docx_repairs_in(repairs, Some(v.as_slice())),
        None => plan_docx_repairs_in(repairs, None),
    };
    assert(docx_planned(rv, nv, planned));
    let (plans, bullets) = match planned {
        Ok(pb) => pb,
        Err(e) => {
            assert(docx_round(rv, tv, nv, normalize, Err::<(Vec<(String, String)>, usize), Error>(e)));
            return Err(e);
        },
    };
    let ghost pv = docx_planned_view(plans@);
    let ghost bv = word::bullets_view(bullets@);
    let mut staged: Vec<(String, String)> = Vec::new();
    let mut k: usize = 0;
    while k < plans.len()
        invariant
            k <= plans@.len(),
            pv == docx_planned_view(plans@),
            tv == pair_views(texts@),
            bv == word::bullets_view(bullets@),
            rv == repair_views(repairs@),
            numbering_read(numbering_text(numbering), nv),
            docx_plans(rv, pv),
            bullets_known(rv, nv, bv, rv.len() as int),
            all_docx_clear(rv, nv),
            forall|s: &str| call_requires(normalize, (s,)),
            staged@.len() == k,
            forall|m: int| 0 <= m < k ==> (#[trigger] staged@[m]).0@ == pv[m].0,
            forall|m: int| 0 <= m < k ==> #[trigger] docx_step(tv, pv, staged_texts(staged@), m, bv, normalize),
        decreases plans@.len() - k,
    {
        let part = &plans[k].0;
        assert(pv[k as int] == (part@, plans@[k as int].1));
        let xml = match find_text(texts, part) {
            Some(x) => x,
            None => {
                let mut m = part.clone();
                m.append(": not in the package");
                let e = Error::Format(m);
                assert(docx_failed(tv, pv, k as int, bv, normalize, e));
                assert(docx_round(rv, tv, nv, normalize, Err::<(Vec<(String, String)>, usize), Error>(e)));
                return Err(e);
            },
        };
        let rr = word::apply_plan(part.as_str(), xml.as_str(), &plans[k].1, &bullets, normalize);
        assert(word::word_repaired(part@, xml@, plans@[k as int].1, bv, normalize, text_result(rr)));
        match rr {
            Ok(text) => {
                let ghost before = staged_texts(staged@);
                let ghost t = text@;
                staged.push((part.clone(), text));
                proof {
                    let now = staged_texts(staged@);
                    assert(now =~= before.push(t));
                    assert forall|m: int| 0 <= m < k + 1 implies #[trigger] docx_step(tv, pv, now, m, bv, normalize) by {
                        if m < k {
                            assert(docx_step(tv, pv, before, m, bv, normalize));
                        }
                    }
                }
            },
            Err(e) => {
                assert(docx_failed(tv, pv, k as int, bv, normalize, e));
                assert(docx_round(rv, tv, nv, normalize, Err::<(Vec<(String, String)>, usize), Error>(e)));
                return Err(e);
            },
        }
        k += 1;
    }
    let res = (staged, repairs.len());
    proof {
        assert(staged_parts(res.0@) =~= plan_parts(pv));
        assert(staged_texts(res.0@) == staged_texts(staged@));
        assert(docx_round(rv, tv, nv, normalize, Ok::<(Vec<(String, String)>, usize), Error>(res)));
    }
    Ok(res)
}


// ------------------------------------------------------------ what a scan reads

/// Whether a part name lies under `prefix` and ends `.xml`.
pub open spec fn xml_under(p: Seq<char>, prefix: Seq<char>) -> bool {
    crate::strs::has_prefix(p, prefix) && crate::strs::has_suffix(p, ".xml"@)
}

/// The parts under `prefix` with an `.xml` name, each once, in part-name
/// order: every part a document's scan reads, `ppt/` for a deck and `word/`
/// for a Word document.
pub fn parts_under(names: &[String], prefix: &str) -> (r: Vec<String>)
    ensures
        increasing(names_view(r@)),
        forall|p: Seq<char>| #![trigger names_view(r@).contains(p)] #![trigger names_view(names@).contains(p)]
            names_view(r@).contains(p) <==> (names_view(names@).contains(p) && xml_under(p, prefix@)),
{
    let want = chars_of(prefix);
    let xml = chars_of(".xml");
    let mut out: Vec<String> = Vec::new();
    let mut i: usize = 0;
    assert(names_view(out@) =~= Seq::<Seq<char>>::empty());
    while i < names.len()
        invariant
            i <= names@.len(),
            want@ == prefix@,
            xml@ == ".xml"@,
            increasing(names_view(out@)),
            forall|p: Seq<char>| #![trigger names_view(out@).contains(p)] #![trigger names_view(names@).take(i as int).contains(p)]
                names_view(out@).contains(p) <==> (names_view(names@).take(i as int).contains(p) && xml_under(p, prefix@)),
        decreases names@.len() - i,
    {
        let ghost before = names_view(out@);
        let n = chars_of(names[i].as_str());
        let keep = crate::strs::starts_with(&n, &want) && crate::strs::ends_with(&n, &xml);
        if keep {
            insert_name(&mut out, &names[i]);
        }
        proof {
            let taken = names_view(names@).take(i + 1);
            let here = names@[i as int]@;
            assert(n@ == here);
            assert(keep == xml_under(here, prefix@));
            assert(taken =~= names_view(names@).take(i as int).push(here));
            if !keep {
                assert(names_view(out@) == before);
            }
            assert forall|p: Seq<char>| names_view(out@).contains(p) <==> (taken.contains(p) && xml_under(p, prefix@)) by {
                assert(names_view(out@).contains(p) <==> (before.contains(p) || (keep && p == here)));
                assert(before.contains(p) <==> (names_view(names@).take(i as int).contains(p) && xml_under(p, prefix@)));
                if p == here {
                    assert(taken[i as int] == p);
                }
                if taken.contains(p) {
                    let j = choose|j: int| 0 <= j < taken.len() && taken[j] == p;
                    if j < i {
                        assert(names_view(names@).take(i as int)[j] == p);
                    }
                }
                if names_view(names@).take(i as int).contains(p) {
                    let j = choose|j: int| 0 <= j < i && names_view(names@).take(i as int)[j] == p;
                    assert(taken[j] == p);
                }
            }
        }
        i += 1;
    }
    assert(names_view(names@).take(i as int) =~= names_view(names@));
    assert forall|p: Seq<char>| names_view(out@).contains(p) <==> (names_view(names@).contains(p) && xml_under(p, prefix@)) by {
        assert(names_view(out@).contains(p) <==> (names_view(names@).take(i as int).contains(p) && xml_under(p, prefix@)));
    }
    out
}

} // verus!
