//! Chart text containers: the strings a chart draws that are not paragraphs.
//!
//! A chart's category labels, series names and data labels are values the
//! chart caches, and the direction they are laid out in comes from the
//! container that draws them — the category axis, the legend, a set of data
//! labels — each with its own text properties. This module names those
//! containers, issues their ids, and says which cached strings a chart group
//! offers them.
use vstd::prelude::*;
use crate::ids::{make_id, spec_id};
use crate::strs::{chars_eq, chars_of, ends_with, has_prefix, has_suffix, push_all, slice_chars, starts_with, string_of};
use crate::inherit::opt_view;
use crate::token::{is_true, spec_is_true, string_views};
use crate::inherit::{trim_chars, trimmed};
use crate::xml::{document_element, document_tokens, part_error, tviews, attribute, decode_reference, decode_text, decoded_reference, decoded_text, first_element, read_events, spec_attribute, tag_name, tag_name_of, Kind, Token};
use crate::error::Error;
use crate::text::{unit_views, Bullet, Direction, Location, LocationView, Properties, PropertiesView, Resolved, ResolvedView, TextUnit, UnitId, UnitKind, UnitView};

verus! {

broadcast use vstd::string::group_string_axioms;

/// A chart element whose text properties decide how the strings it draws
/// are laid out.
#[derive(Debug, Clone, Copy, PartialEq, Eq, Structural)]
pub enum ChartText {
    CategoryAxis,
    Legend,
    DataLabels,
}

pub open spec fn spec_element(kind: ChartText) -> Seq<char> {
    match kind {
        ChartText::CategoryAxis => "c:catAx"@,
        ChartText::Legend => "c:legend"@,
        ChartText::DataLabels => "c:dLbls"@,
    }
}

pub open spec fn spec_tag(kind: ChartText) -> Seq<char> {
    match kind {
        ChartText::CategoryAxis => "catax"@,
        ChartText::Legend => "legend"@,
        ChartText::DataLabels => "dlbls"@,
    }
}

pub open spec fn spec_label(kind: ChartText) -> Seq<char> {
    match kind {
        ChartText::CategoryAxis => "category axis"@,
        ChartText::Legend => "legend"@,
        ChartText::DataLabels => "data labels"@,
    }
}

impl ChartText {
    /// The element this container is.
    pub fn element(self) -> (r: &'static str)
        ensures
            r@ == spec_element(self),
    {
        match self {
            ChartText::CategoryAxis => "c:catAx",
            ChartText::Legend => "c:legend",
            ChartText::DataLabels => "c:dLbls",
        }
    }

    /// The fragment its unit id carries, after the part name.
    pub fn tag(self) -> (r: &'static str)
        ensures
            r@ == spec_tag(self),
    {
        match self {
            ChartText::CategoryAxis => "catax",
            ChartText::Legend => "legend",
            ChartText::DataLabels => "dlbls",
        }
    }

    /// What a report calls it.
    pub fn label(self) -> (r: &'static str)
        ensures
            r@ == spec_label(self),
    {
        match self {
            ChartText::CategoryAxis => "category axis",
            ChartText::Legend => "legend",
            ChartText::DataLabels => "data labels",
        }
    }

    /// Every container this module knows.
    pub fn all() -> (r: [ChartText; 3])
        ensures
            r@ == seq![ChartText::CategoryAxis, ChartText::Legend, ChartText::DataLabels],
    {
        let r = [ChartText::CategoryAxis, ChartText::Legend, ChartText::DataLabels];
        assert(r@ =~= seq![ChartText::CategoryAxis, ChartText::Legend, ChartText::DataLabels]);
        r
    }
}

/// The unit id for a chart text container: the part, the container's kind,
/// and its 1-based ordinal among the elements of that kind in the part.
pub fn unit_id(part: &str, kind: ChartText, index: usize) -> (r: String)
    ensures
        r@ == spec_id(part@, spec_tag(kind), index as nat),
{
    make_id(part, kind.tag(), index)
}

/// Whether an element is a chart group: `c:barChart`, `c:scatterChart` and
/// the rest. `c:chart` and `c:chartSpace` are deliberately not among them.
pub open spec fn spec_is_chart_group(name: Seq<char>) -> bool {
    has_prefix(name, "c:"@) && has_suffix(name, "Chart"@)
}

pub fn is_chart_group(name: &str) -> (r: bool)
    ensures
        r == spec_is_chart_group(name@),
{
    let n = chars_of(name);
    starts_with(&n, &chars_of("c:")) && ends_with(&n, &chars_of("Chart"))
}

/// Strings joined by line breaks, as a table joins its cells.
pub open spec fn joined(values: Seq<Seq<char>>) -> Seq<char>
    decreases values.len(),
{
    if values.len() == 0 {
        seq![]
    } else if values.len() == 1 {
        values[0]
    } else {
        joined(values.drop_last()) + seq!['\n'] + values.last()
    }
}

pub open spec fn strs(values: Seq<&str>) -> Seq<Seq<char>> {
    values.map_values(|v: &str| v@)
}

/// Join the strings a container draws exactly as a table joins its cells.
pub fn join(values: &[&str]) -> (r: String)
    ensures
        r@ == joined(strs(values@)),
{
    let mut out: Vec<char> = Vec::new();
    let mut i: usize = 0;
    while i < values.len()
        invariant
            i <= values@.len(),
            out@ == joined(strs(values@).take(i as int)),
        decreases values@.len() - i,
    {
        let ghost prefix = strs(values@).take(i + 1);
        assert(prefix.drop_last() =~= strs(values@).take(i as int));
        assert(prefix.last() == values@[i as int]@);
        if i > 0 {
            out.push('\n');
        }
        push_all(&mut out, &chars_of(values[i]));
        i += 1;
    }
    assert(strs(values@).take(i as int) =~= strs(values@));
    string_of(&out)
}

/// One series' cached strings.
pub struct Series {
    pub name: Option<String>,
    pub categories: Vec<String>,
}

/// A series as values.
pub struct SeriesView {
    pub name: Option<Seq<char>>,
    pub categories: Seq<Seq<char>>,
}

impl View for Series {
    type V = SeriesView;

    open spec fn view(&self) -> SeriesView {
        SeriesView { name: opt_view(self.name), categories: string_views(self.categories@) }
    }
}

pub open spec fn series_views(s: Seq<Series>) -> Seq<SeriesView> {
    s.map_values(|x: Series| x@)
}

/// One chart group — `c:barChart`, `c:lineChart` and the rest — with the
/// strings its series cache and the axes it names.
pub struct Group {
    pub series: Vec<Series>,
    pub ax_ids: Vec<String>,
    pub pie: bool,
}

/// A chart group as values.
pub struct GroupView {
    pub series: Seq<SeriesView>,
    pub ax_ids: Seq<Seq<char>>,
    pub pie: bool,
}

impl View for Group {
    type V = GroupView;

    open spec fn view(&self) -> GroupView {
        GroupView { series: series_views(self.series@), ax_ids: string_views(self.ax_ids@), pie: self.pie }
    }
}

pub open spec fn group_views(g: Seq<Group>) -> Seq<GroupView> {
    g.map_values(|x: Group| x@)
}

/// Values with later repeats dropped, first occurrences kept in order.
pub open spec fn distinct_in_order(values: Seq<Seq<char>>) -> Seq<Seq<char>>
    decreases values.len(),
{
    if values.len() == 0 {
        seq![]
    } else {
        let rest = distinct_in_order(values.drop_last());
        if rest.contains(values.last()) {
            rest
        } else {
            rest.push(values.last())
        }
    }
}

/// Every category the series of a group cache, series by series.
pub open spec fn all_categories(series: Seq<SeriesView>) -> Seq<Seq<char>>
    decreases series.len(),
{
    if series.len() == 0 {
        seq![]
    } else {
        all_categories(series.drop_last()) + series.last().categories
    }
}

/// The names the series of a group state, in order.
pub open spec fn series_names(series: Seq<SeriesView>) -> Seq<Seq<char>>
    decreases series.len(),
{
    if series.len() == 0 {
        seq![]
    } else {
        match series.last().name {
            Some(n) => series_names(series.drop_last()).push(n),
            None => series_names(series.drop_last()),
        }
    }
}

/// The categories a group draws: each once, in the order first cached.
pub open spec fn group_categories(g: GroupView) -> Seq<Seq<char>> {
    distinct_in_order(all_categories(g.series))
}

/// The series names a group draws.
pub open spec fn group_names(g: GroupView) -> Seq<Seq<char>> {
    series_names(g.series)
}

fn holds(list: &Vec<&str>, value: &str) -> (r: bool)
    ensures
        r == strs(list@).contains(value@),
{
    let want = chars_of(value);
    let mut i: usize = 0;
    while i < list.len()
        invariant
            i <= list@.len(),
            want@ == value@,
            forall|j: int| 0 <= j < i ==> list@[j]@ != value@,
        decreases list@.len() - i,
    {
        if chars_eq(&chars_of(list[i]), &want) {
            assert(strs(list@)[i as int] == value@);
            return true;
        }
        i += 1;
    }
    proof {
        if strs(list@).contains(value@) {
            let j = choose|j: int| 0 <= j < strs(list@).len() && strs(list@)[j] == value@;
            assert(list@[j]@ == value@);
        }
    }
    false
}

/// Push `value` unless `out` already holds it.
fn push_new<'a>(out: &mut Vec<&'a str>, value: &'a str)
    ensures
        strs(final(out)@) == (if strs(old(out)@).contains(value@) {
            strs(old(out)@)
        } else {
            strs(old(out)@).push(value@)
        }),
{
    if !holds(out, value) {
        let ghost before = out@;
        out.push(value);
        assert(strs(out@) =~= strs(before).push(value@));
    }
}

impl Group {
    /// Every category the group's series name, once each and in order: the
    /// series of one group normally cache the same list.
    pub fn categories(&self) -> (r: Vec<&str>)
        ensures
            strs(r@) == group_categories(self@),
    {
        let ghost sv = series_views(self.series@);
        let mut out: Vec<&str> = Vec::new();
        let ghost mut seen: Seq<Seq<char>> = seq![];
        let mut i: usize = 0;
        assert(sv.take(0) =~= Seq::<SeriesView>::empty());
        while i < self.series.len()
            invariant
                i <= self.series@.len(),
                sv == series_views(self.series@),
                seen == all_categories(sv.take(i as int)),
                strs(out@) == distinct_in_order(seen),
            decreases self.series@.len() - i,
        {
            let cats = &self.series[i].categories;
            let ghost cv = string_views(cats@);
            let ghost start = seen;
            let mut j: usize = 0;
            assert(start + cv.take(0) =~= start);
            while j < cats.len()
                invariant
                    j <= cats@.len(),
                    cv == string_views(cats@),
                    seen == start + cv.take(j as int),
                    strs(out@) == distinct_in_order(seen),
                decreases cats@.len() - j,
            {
                let value: &str = cats[j].as_str();
                let ghost old_seen = seen;
                proof {
                    seen = seen.push(value@);
                    assert(seen =~= start + cv.take(j + 1));
                    assert(seen.drop_last() =~= old_seen);
                }
                push_new(&mut out, value);
                j += 1;
            }
            assert(cv.take(j as int) =~= cv);
            assert(sv.take(i + 1).drop_last() =~= sv.take(i as int));
            assert(sv.take(i + 1).last() == self.series@[i as int]@);
            i += 1;
        }
        assert(sv.take(i as int) =~= sv);
        out
    }

    /// The names the group's series state, in order.
    pub fn names(&self) -> (r: Vec<&str>)
        ensures
            strs(r@) == group_names(self@),
    {
        let ghost sv = series_views(self.series@);
        let mut out: Vec<&str> = Vec::new();
        let mut i: usize = 0;
        assert(sv.take(0) =~= Seq::<SeriesView>::empty());
        while i < self.series.len()
            invariant
                i <= self.series@.len(),
                sv == series_views(self.series@),
                strs(out@) == series_names(sv.take(i as int)),
            decreases self.series@.len() - i,
        {
            assert(sv.take(i + 1).drop_last() =~= sv.take(i as int));
            assert(sv.take(i + 1).last() == self.series@[i as int]@);
            match &self.series[i].name {
                Some(n) => {
                    let ghost before = out@;
                    out.push(n.as_str());
                    assert(strs(out@) =~= strs(before).push(n@));
                },
                None => {},
            }
            i += 1;
        }
        assert(sv.take(i as int) =~= sv);
        out
    }
}

// ------------------------------------------------------------ the scan

/// Chart types whose legend lists the categories rather than the series.
pub open spec fn in_pie_family(name: Seq<char>) -> bool {
    name == "c:pieChart"@ || name == "c:pie3DChart"@ || name == "c:ofPieChart"@ || name == "c:doughnutChart"@
}

/// The container an element is, if it is one.
pub open spec fn kind_named(name: Seq<char>) -> Option<ChartText> {
    if name == spec_element(ChartText::CategoryAxis) {
        Some(ChartText::CategoryAxis)
    } else if name == spec_element(ChartText::Legend) {
        Some(ChartText::Legend)
    } else if name == spec_element(ChartText::DataLabels) {
        Some(ChartText::DataLabels)
    } else {
        None
    }
}

/// Where a set of data labels sits, and so which strings it draws: one
/// series of one group, every series of one group, or neither — labels
/// outside any chart group, which draw nothing that can be named.
pub enum ScopeView {
    Series(nat, nat),
    Group(nat),
    Loose,
}

/// A container found in the part, before the strings it draws are resolved.
pub struct ContainerView {
    pub kind: ChartText,
    /// Its 1-based ordinal among the containers of its kind.
    pub index: nat,
    /// The direction its own text properties state, if they state one.
    pub direction: Option<Direction>,
    /// A category axis's identifier, which the chart groups refer to.
    pub ax_id: Option<Seq<char>>,
    pub scope: ScopeView,
    pub show_categories: bool,
    pub show_series: bool,
}

/// What a scan of a chart part has gathered so far.
pub struct ScanState {
    /// The elements open at this point, outermost first.
    pub stack: Seq<Seq<char>>,
    pub groups: Seq<GroupView>,
    pub containers: Seq<ContainerView>,
    /// How many category axes, legends and sets of data labels were seen.
    pub axes: nat,
    pub legends: nat,
    pub labels: nat,
    /// The chart group being read.
    pub group: Option<nat>,
    /// The container being read. Containers do not nest.
    pub open: Option<nat>,
    /// Whether the reader is inside the open container's own text
    /// properties — not a title's, and not one label's.
    pub in_text_properties: bool,
    /// The cached value being read, if a `c:v` is open.
    pub value: Option<Seq<char>>,
}

pub open spec fn scan_start() -> ScanState {
    ScanState {
        stack: seq![],
        groups: seq![],
        containers: seq![],
        axes: 0,
        legends: 0,
        labels: 0,
        group: None,
        open: None,
        in_text_properties: false,
        value: None,
    }
}

/// The element enclosing the innermost open one.
pub open spec fn parent_of(stack: Seq<Seq<char>>) -> Option<Seq<char>> {
    if stack.len() >= 2 {
        Some(stack[stack.len() - 2])
    } else {
        None
    }
}

pub open spec fn count_of(st: ScanState, k: ChartText) -> nat {
    match k {
        ChartText::CategoryAxis => st.axes,
        ChartText::Legend => st.legends,
        ChartText::DataLabels => st.labels,
    }
}

pub open spec fn counted(st: ScanState, k: ChartText) -> ScanState {
    match k {
        ChartText::CategoryAxis => ScanState { axes: st.axes + 1, ..st },
        ChartText::Legend => ScanState { legends: st.legends + 1, ..st },
        ChartText::DataLabels => ScanState { labels: st.labels + 1, ..st },
    }
}

pub open spec fn empty_series() -> SeriesView {
    SeriesView { name: None, categories: seq![] }
}

/// A chart group opens: it becomes the group being read.
pub open spec fn open_group(st: ScanState, name: Seq<char>) -> ScanState {
    ScanState {
        groups: st.groups.push(GroupView { series: seq![], ax_ids: seq![], pie: in_pie_family(name) }),
        group: Some(st.groups.len()),
        ..st
    }
}

/// A series opens in the group being read.
pub open spec fn open_series(st: ScanState) -> ScanState {
    match st.group {
        Some(g) => ScanState {
            groups: st.groups.update(g as int, GroupView { series: st.groups[g as int].series.push(empty_series()), ..st.groups[g as int] }),
            ..st
        },
        None => st,
    }
}

/// A `c:axId`: a chart group's names an axis it plots on; a category axis's
/// is its own identifier.
pub open spec fn read_axis_id(st: ScanState, content: Seq<char>) -> ScanState {
    match (parent_of(st.stack), spec_attribute(content, "val"@)) {
        (Some(p), Some(id)) => if spec_is_chart_group(p) {
            match st.group {
                Some(g) => ScanState {
                    groups: st.groups.update(g as int, GroupView { ax_ids: st.groups[g as int].ax_ids.push(id), ..st.groups[g as int] }),
                    ..st
                },
                None => st,
            }
        } else if p == "c:catAx"@ {
            match st.open {
                Some(c) => ScanState {
                    containers: st.containers.update(c as int, ContainerView { ax_id: Some(id), ..st.containers[c as int] }),
                    ..st
                },
                None => st,
            }
        } else {
            st
        },
        _ => st,
    }
}

/// A container opens: it is counted, placed in the group and series being
/// read, and becomes the container being read.
pub open spec fn open_container(st: ScanState, k: ChartText) -> ScanState {
    let st1 = counted(st, k);
    let scope = match st.group {
        Some(g) => if st.stack.contains("c:ser"@) {
            let n = st.groups[g as int].series.len();
            ScopeView::Series(g, if n > 0 { (n - 1) as nat } else { 0 })
        } else {
            ScopeView::Group(g)
        },
        None => ScopeView::Loose,
    };
    ScanState {
        containers: st1.containers.push(ContainerView {
            kind: k,
            index: count_of(st1, k),
            direction: None,
            ax_id: None,
            scope,
            show_categories: false,
            show_series: false,
        }),
        open: Some(st1.containers.len()),
        ..st1
    }
}

/// A `c:showCatName` or `c:showSerName` directly inside the container
/// being read sets what its labels show.
pub open spec fn read_flag(st: ScanState, categories: bool, content: Seq<char>) -> ScanState {
    match st.open {
        Some(c) => if parent_of(st.stack) == Some(spec_element(st.containers[c as int].kind)) {
            match spec_attribute(content, "val"@) {
                Some(on) => {
                    let old = st.containers[c as int];
                    let new = if categories {
                        ContainerView { show_categories: spec_is_true(on), ..old }
                    } else {
                        ContainerView { show_series: spec_is_true(on), ..old }
                    };
                    ScanState { containers: st.containers.update(c as int, new), ..st }
                },
                None => st,
            }
        } else {
            st
        },
        None => st,
    }
}

/// A `c:txPr` opens: it is the container's own only directly inside it.
pub open spec fn open_text_properties(st: ScanState) -> ScanState {
    ScanState {
        in_text_properties: match st.open {
            Some(c) => parent_of(st.stack) == Some(spec_element(st.containers[c as int].kind)),
            None => false,
        },
        ..st
    }
}

/// An `a:pPr` in the container's own text properties: the first `rtl` it
/// states is the container's direction.
pub open spec fn read_direction(st: ScanState, content: Seq<char>) -> ScanState {
    match st.open {
        Some(c) => if st.in_text_properties && st.containers[c as int].direction is None {
            match spec_attribute(content, "rtl"@) {
                Some(rtl) => ScanState {
                    containers: st.containers.update(c as int, ContainerView {
                        direction: Some(if spec_is_true(rtl) { Direction::Rtl } else { Direction::Ltr }),
                        ..st.containers[c as int]
                    }),
                    ..st
                },
                None => st,
            }
        } else {
            st
        },
        None => st,
    }
}

/// An element opens.
pub open spec fn open_step(st0: ScanState, name: Seq<char>, content: Seq<char>) -> ScanState {
    let st = ScanState { stack: st0.stack.push(name), ..st0 };
    if spec_is_chart_group(name) {
        open_group(st, name)
    } else if name == "c:ser"@ {
        open_series(st)
    } else if name == "c:axId"@ {
        read_axis_id(st, content)
    } else if kind_named(name) is Some {
        open_container(st, kind_named(name)->0)
    } else if name == "c:showCatName"@ || name == "c:showSerName"@ {
        read_flag(st, name == "c:showCatName"@, content)
    } else if name == "c:txPr"@ {
        open_text_properties(st)
    } else if name == "a:pPr"@ {
        read_direction(st, content)
    } else if name == "c:v"@ {
        ScanState { value: Some(seq![]), ..st }
    } else {
        st
    }
}

/// A `c:v` closes: a non-blank value in a string cache is the last series'
/// category, or its name if it has none yet. Numeric caches hold the plotted
/// values, which have no direction to get wrong.
pub open spec fn close_value(st: ScanState) -> ScanState {
    let text = match st.value {
        Some(v) => v,
        None => seq![],
    };
    let st1 = ScanState { value: None, ..st };
    match st.group {
        Some(g) => {
            let grp = st.groups[g as int];
            let n = grp.series.len();
            if st.stack.contains("c:strCache"@) && n > 0 && trimmed(text).len() > 0 {
                let last = grp.series[n - 1];
                if st.stack.contains("c:cat"@) {
                    let s = SeriesView { categories: last.categories.push(text), ..last };
                    ScanState { groups: st.groups.update(g as int, GroupView { series: grp.series.update(n - 1, s), ..grp }), ..st1 }
                } else if st.stack.contains("c:tx"@) && last.name is None {
                    let s = SeriesView { name: Some(text), ..last };
                    ScanState { groups: st.groups.update(g as int, GroupView { series: grp.series.update(n - 1, s), ..grp }), ..st1 }
                } else {
                    st1
                }
            } else {
                st1
            }
        },
        None => st1,
    }
}

/// An element closes.
pub open spec fn close_step(st: ScanState, name: Seq<char>) -> ScanState {
    let st1 = if name == "c:v"@ {
        close_value(st)
    } else if name == "c:txPr"@ {
        ScanState { in_text_properties: false, ..st }
    } else if kind_named(name) is Some {
        ScanState { open: None, ..st }
    } else if spec_is_chart_group(name) {
        ScanState { group: None, ..st }
    } else {
        st
    };
    ScanState { stack: if st1.stack.len() > 0 { st1.stack.drop_last() } else { st1.stack }, ..st1 }
}

/// Text inside an open `c:v`.
pub open spec fn text_step(st: ScanState, raw: Seq<char>) -> ScanState {
    match st.value {
        Some(v) => ScanState { value: Some(v + decoded_text(raw)), ..st },
        None => st,
    }
}

/// A character or entity reference inside an open `c:v`.
pub open spec fn reference_step(st: ScanState, raw: Seq<char>) -> ScanState {
    match st.value {
        Some(v) => ScanState { value: Some(v + decoded_reference(raw)), ..st },
        None => st,
    }
}

pub open spec fn scan_step(st: ScanState, t: Token) -> ScanState {
    match t.kind {
        Kind::Start => open_step(st, tag_name(t.text@), t.text@),
        Kind::Empty => close_step(open_step(st, tag_name(t.text@), t.text@), tag_name(t.text@)),
        Kind::End => close_step(st, t.text@),
        Kind::Text => text_step(st, t.text@),
        Kind::GeneralRef => reference_step(st, t.text@),
        _ => st,
    }
}

/// What a scan has gathered after a token stream.
pub open spec fn scan_after(ev: Seq<Token>) -> ScanState
    decreases ev.len(),
{
    if ev.len() == 0 {
        scan_start()
    } else {
        scan_step(scan_after(ev.drop_last()), ev.last())
    }
}

// ------------------------------------------------------------ resolution

/// The first group at or after `from` that names `id` among its axes.
pub open spec fn group_naming(groups: Seq<GroupView>, id: Seq<char>, from: int) -> Option<nat>
    decreases groups.len() - from,
{
    if from < 0 || from >= groups.len() {
        None
    } else if groups[from].ax_ids.contains(id) {
        Some(from as nat)
    } else {
        group_naming(groups, id, from + 1)
    }
}

/// Every string the legend may draw: each group's series names, or its
/// categories when it is a pie.
pub open spec fn legend_all(groups: Seq<GroupView>) -> Seq<Seq<char>>
    decreases groups.len(),
{
    if groups.len() == 0 {
        seq![]
    } else {
        legend_all(groups.drop_last()) + (if groups.last().pie {
            group_categories(groups.last())
        } else {
            group_names(groups.last())
        })
    }
}

/// What a set of data labels draws: the categories and series names its
/// flags turn on, of its series or of every series in its group.
pub open spec fn labels_draw(groups: Seq<GroupView>, c: ContainerView) -> Option<Seq<Seq<char>>> {
    match c.scope {
        ScopeView::Loose => None,
        ScopeView::Group(g) => if g < groups.len() {
            Some((if c.show_categories { group_categories(groups[g as int]) } else { seq![] })
                + (if c.show_series { group_names(groups[g as int]) } else { seq![] }))
        } else {
            None
        },
        ScopeView::Series(g, s) => if g < groups.len() {
            let series = groups[g as int].series;
            Some((if c.show_categories && s < series.len() { series[s as int].categories } else { seq![] })
                + (if c.show_series && s < series.len() {
                match series[s as int].name {
                    Some(n) => seq![n],
                    None => seq![],
                }
            } else {
                seq![]
            }))
        } else {
            None
        },
    }
}

/// The strings a container draws, or `None` when they cannot be identified.
pub open spec fn drawn_by(groups: Seq<GroupView>, c: ContainerView) -> Option<Seq<Seq<char>>> {
    match c.kind {
        ChartText::CategoryAxis => match c.ax_id {
            Some(id) => match group_naming(groups, id, 0) {
                Some(g) => Some(group_categories(groups[g as int])),
                None => None,
            },
            None => None,
        },
        ChartText::Legend => Some(distinct_in_order(legend_all(groups))),
        ChartText::DataLabels => labels_draw(groups, c),
    }
}

pub open spec fn direction_view(d: Option<Direction>) -> ResolvedView<Direction> {
    match d {
        Some(v) => ResolvedView::Explicit(v),
        None => ResolvedView::Unset,
    }
}

/// The unit a container lowers into: none when its strings cannot be
/// identified or are blank.
pub open spec fn chart_unit(part: Seq<char>, groups: Seq<GroupView>, c: ContainerView) -> Option<UnitView> {
    match drawn_by(groups, c) {
        Some(strings) => {
            let text = joined(strings);
            if trimmed(text).len() == 0 {
                None
            } else {
                Some(UnitView {
                    id: spec_id(part, spec_tag(c.kind), c.index),
                    text,
                    kind: UnitKind::ChartText,
                    props: PropertiesView {
                        direction: direction_view(c.direction),
                        alignment: ResolvedView::Unset,
                        language: ResolvedView::Unset,
                        complex_font: ResolvedView::Unset,
                        latin_font: ResolvedView::Unset,
                        bullet: Bullet::Absent,
                    },
                    location: LocationView { part, paragraph: None, container: Some(spec_label(c.kind)) },
                })
            }
        },
        None => None,
    }
}

/// The units of a part's containers, in the order the containers open.
pub open spec fn units_from(part: Seq<char>, groups: Seq<GroupView>, cs: Seq<ContainerView>) -> Seq<UnitView>
    decreases cs.len(),
{
    if cs.len() == 0 {
        seq![]
    } else {
        let rest = units_from(part, groups, cs.drop_last());
        match chart_unit(part, groups, cs.last()) {
            Some(u) => rest.push(u),
            None => rest,
        }
    }
}

/// The name of the first element a token stream opens.
pub open spec fn first_opened(ev: Seq<Token>) -> Option<Seq<char>>
    decreases ev.len(),
{
    if ev.len() == 0 {
        None
    } else if ev[0].kind == Kind::Start || ev[0].kind == Kind::Empty {
        Some(tag_name(ev[0].text@))
    } else {
        first_opened(ev.drop_first())
    }
}

/// The chart text units of a part's token stream: none unless its root is
/// `c:chartSpace`.
pub open spec fn spec_chart_units(part: Seq<char>, ev: Seq<Token>) -> Seq<UnitView> {
    if first_opened(ev) == Some("c:chartSpace"@) {
        let st = scan_after(ev);
        units_from(part, st.groups, st.containers)
    } else {
        seq![]
    }
}

// ------------------------------------------------------------ the scanner

#[derive(Clone, Copy)]
enum Scope {
    Series(usize, usize),
    Group(usize),
    Loose,
}

struct Container {
    kind: ChartText,
    index: usize,
    direction: Option<Direction>,
    ax_id: Option<String>,
    scope: Scope,
    show_categories: bool,
    show_series: bool,
}

spec fn scope_view(s: Scope) -> ScopeView {
    match s {
        Scope::Series(g, i) => ScopeView::Series(g as nat, i as nat),
        Scope::Group(g) => ScopeView::Group(g as nat),
        Scope::Loose => ScopeView::Loose,
    }
}

spec fn container_view(c: Container) -> ContainerView {
    ContainerView {
        kind: c.kind,
        index: c.index as nat,
        direction: c.direction,
        ax_id: opt_view(c.ax_id),
        scope: scope_view(c.scope),
        show_categories: c.show_categories,
        show_series: c.show_series,
    }
}

spec fn container_views(cs: Seq<Container>) -> Seq<ContainerView> {
    cs.map_values(|c: Container| container_view(c))
}

spec fn char_views(v: Seq<Vec<char>>) -> Seq<Seq<char>> {
    v.map_values(|c: Vec<char>| c@)
}

struct Scanner {
    stack: Vec<Vec<char>>,
    groups: Vec<Group>,
    containers: Vec<Container>,
    axes: usize,
    legends: usize,
    labels: usize,
    group: Option<usize>,
    open: Option<usize>,
    in_text_properties: bool,
    value: Option<Vec<char>>,
}

spec fn opt_index(i: Option<usize>) -> Option<nat> {
    match i {
        Some(v) => Some(v as nat),
        None => None,
    }
}

spec fn scanner_view(s: Scanner) -> ScanState {
    ScanState {
        stack: char_views(s.stack@),
        groups: group_views(s.groups@),
        containers: container_views(s.containers@),
        axes: s.axes as nat,
        legends: s.legends as nat,
        labels: s.labels as nat,
        group: opt_index(s.group),
        open: opt_index(s.open),
        in_text_properties: s.in_text_properties,
        value: match s.value {
            Some(v) => Some(v@),
            None => None,
        },
    }
}

/// The shape every state a scan reaches keeps: the group and the container
/// being read are the last ones found, and every container was counted.
spec fn scan_wf(st: ScanState) -> bool {
    &&& (st.group matches Some(g) ==> g + 1 == st.groups.len())
    &&& (st.open matches Some(c) ==> c + 1 == st.containers.len())
    &&& st.axes + st.legends + st.labels == st.containers.len()
}

fn is_name(name: &[char], lit: &str) -> (r: bool)
    ensures
        r == (name@ == lit@),
{
    chars_eq(name, &chars_of(lit))
}

fn is_chart_group_chars(name: &[char]) -> (r: bool)
    ensures
        r == spec_is_chart_group(name@),
{
    starts_with(name, &chars_of("c:")) && ends_with(name, &chars_of("Chart"))
}

fn is_pie(name: &[char]) -> (r: bool)
    ensures
        r == in_pie_family(name@),
{
    is_name(name, "c:pieChart") || is_name(name, "c:pie3DChart") || is_name(name, "c:ofPieChart")
        || is_name(name, "c:doughnutChart")
}

fn kind_of_element(name: &[char]) -> (r: Option<ChartText>)
    ensures
        r == kind_named(name@),
{
    if is_name(name, ChartText::CategoryAxis.element()) {
        Some(ChartText::CategoryAxis)
    } else if is_name(name, ChartText::Legend.element()) {
        Some(ChartText::Legend)
    } else if is_name(name, ChartText::DataLabels.element()) {
        Some(ChartText::DataLabels)
    } else {
        None
    }
}

fn copy_chars(v: &[char]) -> (r: Vec<char>)
    ensures
        r@ == v@,
{
    let r = slice_chars(v, 0, v.len());
    assert(v@.subrange(0, v@.len() as int) =~= v@);
    r
}

fn stack_holds(stack: &Vec<Vec<char>>, lit: &str) -> (r: bool)
    ensures
        r == char_views(stack@).contains(lit@),
{
    let want = chars_of(lit);
    let mut i: usize = 0;
    while i < stack.len()
        invariant
            i <= stack@.len(),
            want@ == lit@,
            forall|j: int| 0 <= j < i ==> stack@[j]@ != lit@,
        decreases stack@.len() - i,
    {
        if chars_eq(&stack[i], &want) {
            assert(char_views(stack@)[i as int] == lit@);
            return true;
        }
        i += 1;
    }
    proof {
        if char_views(stack@).contains(lit@) {
            let j = choose|j: int| 0 <= j < char_views(stack@).len() && char_views(stack@)[j] == lit@;
            assert(stack@[j]@ == lit@);
        }
    }
    false
}

fn parent_in(stack: &Vec<Vec<char>>) -> (r: Option<Vec<char>>)
    ensures
        opt_chars(r) == parent_of(char_views(stack@)),
{
    let n = stack.len();
    if n >= 2 {
        Some(copy_chars(&stack[n - 2]))
    } else {
        None
    }
}

spec fn opt_chars(v: Option<Vec<char>>) -> Option<Seq<char>> {
    match v {
        Some(c) => Some(c@),
        None => None,
    }
}

proof fn lemma_groups_replace_last(s: Seq<Group>, x: Group)
    requires
        s.len() > 0,
    ensures
        group_views(s.drop_last().push(x)) == group_views(s).update(s.len() - 1, x@),
{
    assert(group_views(s.drop_last().push(x)) =~= group_views(s).update(s.len() - 1, x@));
}

proof fn lemma_containers_replace_last(s: Seq<Container>, x: Container)
    requires
        s.len() > 0,
    ensures
        container_views(s.drop_last().push(x)) == container_views(s).update(s.len() - 1, container_view(x)),
{
    assert(container_views(s.drop_last().push(x)) =~= container_views(s).update(s.len() - 1, container_view(x)));
}

proof fn lemma_series_replace_last(s: Seq<Series>, x: Series)
    requires
        s.len() > 0,
    ensures
        series_views(s.drop_last().push(x)) == series_views(s).update(s.len() - 1, x@),
{
    assert(series_views(s.drop_last().push(x)) =~= series_views(s).update(s.len() - 1, x@));
}

impl Scanner {
    fn new() -> (r: Self)
        ensures
            scanner_view(r) == scan_start(),
            scan_wf(scanner_view(r)),
    {
        let r = Scanner {
            stack: Vec::new(),
            groups: Vec::new(),
            containers: Vec::new(),
            axes: 0,
            legends: 0,
            labels: 0,
            group: None,
            open: None,
            in_text_properties: false,
            value: None,
        };
        assert(char_views(r.stack@) =~= seq![]);
        assert(group_views(r.groups@) =~= seq![]);
        assert(container_views(r.containers@) =~= seq![]);
        r
    }

    fn open_group(&mut self, name: &[char])
        requires
            scan_wf(scanner_view(*old(self))),
        ensures
            scanner_view(*final(self)) == open_group(scanner_view(*old(self)), name@),
            scan_wf(scanner_view(*final(self))),
    {
        let pie = is_pie(name);
        let g = Group { series: Vec::new(), ax_ids: Vec::new(), pie };
        assert(series_views(g.series@) =~= seq![]);
        assert(string_views(g.ax_ids@) =~= seq![]);
        let ghost before = self.groups@;
        self.groups.push(g);
        assert(group_views(self.groups@) =~= group_views(before).push(g@));
        self.group = Some(self.groups.len() - 1);
    }

    fn open_series(&mut self)
        requires
            scan_wf(scanner_view(*old(self))),
        ensures
            scanner_view(*final(self)) == open_series(scanner_view(*old(self))),
            scan_wf(scanner_view(*final(self))),
    {
        if self.group.is_some() {
            let ghost before = self.groups@;
            let mut grp = self.groups.pop().unwrap();
            let ghost old_grp = grp;
            let fresh = Series { name: None, categories: Vec::new() };
            assert(string_views(fresh.categories@) =~= seq![]);
            grp.series.push(fresh);
            assert(series_views(grp.series@) =~= series_views(old_grp.series@).push(empty_series()));
            self.groups.push(grp);
            proof {
                lemma_groups_replace_last(before, grp);
            }
        }
    }

    fn read_axis_id(&mut self, tag: &Token)
        requires
            scan_wf(scanner_view(*old(self))),
        ensures
            scanner_view(*final(self)) == read_axis_id(scanner_view(*old(self)), tag.text@),
            scan_wf(scanner_view(*final(self))),
    {
        let parent = parent_in(&self.stack);
        let id = attribute(tag, "val");
        match (parent, id) {
            (Some(p), Some(id)) => {
                if is_chart_group_chars(&p) {
                    if self.group.is_some() {
                        let ghost before = self.groups@;
                        let mut grp = self.groups.pop().unwrap();
                        let ghost old_grp = grp;
                        let ghost idv = id@;
                        grp.ax_ids.push(id);
                        assert(string_views(grp.ax_ids@) =~= string_views(old_grp.ax_ids@).push(idv));
                        self.groups.push(grp);
                        proof {
                            lemma_groups_replace_last(before, grp);
                        }
                    }
                } else if is_name(&p, "c:catAx") {
                    if self.open.is_some() {
                        let ghost before = self.containers@;
                        let mut c = self.containers.pop().unwrap();
                        c.ax_id = Some(id);
                        self.containers.push(c);
                        proof {
                            lemma_containers_replace_last(before, c);
                        }
                    }
                }
            },
            _ => {},
        }
    }

    fn open_container(&mut self, k: ChartText)
        requires
            scan_wf(scanner_view(*old(self))),
            old(self).containers@.len() < usize::MAX,
        ensures
            scanner_view(*final(self)) == open_container(scanner_view(*old(self)), k),
            scan_wf(scanner_view(*final(self))),
            final(self).containers@.len() == old(self).containers@.len() + 1,
    {
        let index = match k {
            ChartText::CategoryAxis => {
                self.axes = self.axes + 1;
                self.axes
            },
            ChartText::Legend => {
                self.legends = self.legends + 1;
                self.legends
            },
            ChartText::DataLabels => {
                self.labels = self.labels + 1;
                self.labels
            },
        };
        let scope = match self.group {
            Some(g) => if stack_holds(&self.stack, "c:ser") {
                let n = self.groups[g].series.len();
                Scope::Series(g, if n > 0 { n - 1 } else { 0 })
            } else {
                Scope::Group(g)
            },
            None => Scope::Loose,
        };
        let c = Container {
            kind: k,
            index,
            direction: None,
            ax_id: None,
            scope,
            show_categories: false,
            show_series: false,
        };
        let ghost before = self.containers@;
        self.containers.push(c);
        assert(container_views(self.containers@) =~= container_views(before).push(container_view(c)));
        self.open = Some(self.containers.len() - 1);
    }

    fn read_flag(&mut self, categories: bool, tag: &Token)
        requires
            scan_wf(scanner_view(*old(self))),
        ensures
            scanner_view(*final(self)) == read_flag(scanner_view(*old(self)), categories, tag.text@),
            scan_wf(scanner_view(*final(self))),
    {
        match self.open {
            Some(c) => {
                let parent = parent_in(&self.stack);
                let element = self.containers[c].kind.element();
                let direct = match &parent {
                    Some(p) => is_name(p, element),
                    None => false,
                };
                if direct {
                    match attribute(tag, "val") {
                        Some(on) => {
                            let flag = is_true(on.as_str());
                            let ghost before = self.containers@;
                            let mut cont = self.containers.pop().unwrap();
                            if categories {
                                cont.show_categories = flag;
                            } else {
                                cont.show_series = flag;
                            }
                            self.containers.push(cont);
                            proof {
                                lemma_containers_replace_last(before, cont);
                            }
                        },
                        None => {},
                    }
                }
            },
            None => {},
        }
    }

    fn open_text_properties(&mut self)
        requires
            scan_wf(scanner_view(*old(self))),
        ensures
            scanner_view(*final(self)) == open_text_properties(scanner_view(*old(self))),
            scan_wf(scanner_view(*final(self))),
    {
        let own = match self.open {
            Some(c) => {
                let parent = parent_in(&self.stack);
                let element = self.containers[c].kind.element();
                match &parent {
                    Some(p) => is_name(p, element),
                    None => false,
                }
            },
            None => false,
        };
        self.in_text_properties = own;
    }

    fn read_direction(&mut self, tag: &Token)
        requires
            scan_wf(scanner_view(*old(self))),
        ensures
            scanner_view(*final(self)) == read_direction(scanner_view(*old(self)), tag.text@),
            scan_wf(scanner_view(*final(self))),
    {
        match self.open {
            Some(c) => {
                if self.in_text_properties && self.containers[c].direction.is_none() {
                    match attribute(tag, "rtl") {
                        Some(rtl) => {
                            let d = if is_true(rtl.as_str()) {
                                Direction::Rtl
                            } else {
                                Direction::Ltr
                            };
                            let ghost before = self.containers@;
                            let mut cont = self.containers.pop().unwrap();
                            cont.direction = Some(d);
                            self.containers.push(cont);
                            proof {
                                lemma_containers_replace_last(before, cont);
                            }
                        },
                        None => {},
                    }
                }
            },
            None => {},
        }
    }

    /// An element opens: a start tag, or the opening half of an empty one.
    fn open_element(&mut self, name: &[char], tag: &Token)
        requires
            scan_wf(scanner_view(*old(self))),
            old(self).containers@.len() < usize::MAX,
        ensures
            scanner_view(*final(self)) == open_step(scanner_view(*old(self)), name@, tag.text@),
            scan_wf(scanner_view(*final(self))),
            final(self).containers@.len() <= old(self).containers@.len() + 1,
    {
        let ghost before = self.stack@;
        self.stack.push(copy_chars(name));
        assert(char_views(self.stack@) =~= char_views(before).push(name@));
        if is_chart_group_chars(name) {
            self.open_group(name);
        } else if is_name(name, "c:ser") {
            self.open_series();
        } else if is_name(name, "c:axId") {
            self.read_axis_id(tag);
        } else if let Some(k) = kind_of_element(name) {
            self.open_container(k);
        } else if is_name(name, "c:showCatName") || is_name(name, "c:showSerName") {
            let categories = is_name(name, "c:showCatName");
            self.read_flag(categories, tag);
        } else if is_name(name, "c:txPr") {
            self.open_text_properties();
        } else if is_name(name, "a:pPr") {
            self.read_direction(tag);
        } else if is_name(name, "c:v") {
            self.value = Some(Vec::new());
        }
    }

    fn close_value(&mut self)
        requires
            scan_wf(scanner_view(*old(self))),
        ensures
            scanner_view(*final(self)) == close_value(scanner_view(*old(self))),
            scan_wf(scanner_view(*final(self))),
            final(self).containers@.len() == old(self).containers@.len(),
    {
        let text: Vec<char> = match self.value.take() {
            Some(v) => v,
            None => {
                let e: Vec<char> = Vec::new();
                assert(e@ =~= Seq::<char>::empty());
                e
            },
        };
        match self.group {
            Some(g) => {
                let n = self.groups[g].series.len();
                if stack_holds(&self.stack, "c:strCache") && n > 0 && trim_chars(&text).len() > 0 {
                    let in_cat = stack_holds(&self.stack, "c:cat");
                    let in_tx = stack_holds(&self.stack, "c:tx");
                    let unnamed = self.groups[g].series[n - 1].name.is_none();
                    if in_cat || (in_tx && unnamed) {
                        let ghost before = self.groups@;
                        let mut grp = self.groups.pop().unwrap();
                        let ghost old_grp = grp;
                        let mut ser = grp.series.pop().unwrap();
                        let ghost old_ser = ser;
                        let value = string_of(&text);
                        if in_cat {
                            ser.categories.push(value);
                            assert(string_views(ser.categories@) =~= string_views(old_ser.categories@).push(text@));
                        } else {
                            ser.name = Some(value);
                        }
                        grp.series.push(ser);
                        proof {
                            lemma_series_replace_last(old_grp.series@, ser);
                        }
                        self.groups.push(grp);
                        proof {
                            lemma_groups_replace_last(before, grp);
                        }
                    }
                }
            },
            None => {},
        }
    }

    /// An element closes: an end tag, or the closing half of an empty one.
    fn close_element(&mut self, name: &[char])
        requires
            scan_wf(scanner_view(*old(self))),
        ensures
            scanner_view(*final(self)) == close_step(scanner_view(*old(self)), name@),
            scan_wf(scanner_view(*final(self))),
            final(self).containers@.len() == old(self).containers@.len(),
    {
        if is_name(name, "c:v") {
            self.close_value();
        } else if is_name(name, "c:txPr") {
            self.in_text_properties = false;
        } else if kind_of_element(name).is_some() {
            self.open = None;
        } else if is_chart_group_chars(name) {
            self.group = None;
        }
        if self.stack.len() > 0 {
            let ghost before = self.stack@;
            self.stack.pop();
            assert(char_views(self.stack@) =~= char_views(before).drop_last());
        }
    }

    /// Text inside the document.
    fn add_text(&mut self, raw: &str)
        requires
            scan_wf(scanner_view(*old(self))),
        ensures
            scanner_view(*final(self)) == text_step(scanner_view(*old(self)), raw@),
            scan_wf(scanner_view(*final(self))),
            final(self).containers@.len() == old(self).containers@.len(),
    {
        if self.value.is_some() {
            let piece = decode_text(raw);
            let mut v = self.value.take().unwrap();
            push_all(&mut v, &piece);
            self.value = Some(v);
        }
    }

    /// A character or entity reference inside the document.
    fn add_reference(&mut self, raw: &str)
        requires
            scan_wf(scanner_view(*old(self))),
        ensures
            scanner_view(*final(self)) == reference_step(scanner_view(*old(self)), raw@),
            scan_wf(scanner_view(*final(self))),
            final(self).containers@.len() == old(self).containers@.len(),
    {
        if self.value.is_some() {
            let piece = decode_reference(raw);
            let mut v = self.value.take().unwrap();
            push_all(&mut v, &piece);
            self.value = Some(v);
        }
    }
}

// ------------------------------------------------------------ resolving

fn holds_string(list: &Vec<String>, value: &str) -> (r: bool)
    ensures
        r == string_views(list@).contains(value@),
{
    let want = chars_of(value);
    let mut i: usize = 0;
    while i < list.len()
        invariant
            i <= list@.len(),
            want@ == value@,
            forall|j: int| 0 <= j < i ==> list@[j]@ != value@,
        decreases list@.len() - i,
    {
        if chars_eq(&chars_of(list[i].as_str()), &want) {
            assert(string_views(list@)[i as int] == value@);
            return true;
        }
        i += 1;
    }
    proof {
        if string_views(list@).contains(value@) {
            let j = choose|j: int| 0 <= j < string_views(list@).len() && string_views(list@)[j] == value@;
            assert(list@[j]@ == value@);
        }
    }
    false
}

/// The first group that names axis `id`.
fn find_group(groups: &Vec<Group>, id: &str) -> (r: Option<usize>)
    ensures
        opt_index(r) == group_naming(group_views(groups@), id@, 0),
        r matches Some(g) ==> g < groups@.len(),
{
    let ghost gv = group_views(groups@);
    let mut i: usize = 0;
    while i < groups.len()
        invariant
            i <= groups@.len(),
            gv == group_views(groups@),
            group_naming(gv, id@, 0) == group_naming(gv, id@, i as int),
        decreases groups@.len() - i,
    {
        if holds_string(&groups[i].ax_ids, id) {
            return Some(i);
        }
        i += 1;
    }
    None
}

/// Append every string of `more` to `out`.
fn extend_strs<'a>(out: &mut Vec<&'a str>, more: &Vec<&'a str>)
    ensures
        strs(final(out)@) == strs(old(out)@) + strs(more@),
{
    let ghost start = strs(out@);
    let mut j: usize = 0;
    while j < more.len()
        invariant
            j <= more@.len(),
            strs(out@) == start + strs(more@).take(j as int),
        decreases more@.len() - j,
    {
        let ghost before = out@;
        out.push(more[j]);
        assert(strs(out@) =~= strs(before).push(more@[j as int]@));
        assert(strs(more@).take(j + 1) =~= strs(more@).take(j as int).push(strs(more@)[j as int]));
        assert(strs(out@) =~= start + strs(more@).take(j + 1));
        j += 1;
    }
    assert(strs(more@).take(j as int) =~= strs(more@));
}

/// The legend's strings: every group's series names, or its categories on a
/// pie, each once and in order.
fn legend_strings(groups: &Vec<Group>) -> (r: Vec<&str>)
    ensures
        strs(r@) == distinct_in_order(legend_all(group_views(groups@))),
{
    let ghost gv = group_views(groups@);
    let mut out: Vec<&str> = Vec::new();
    let ghost mut seen: Seq<Seq<char>> = seq![];
    let mut i: usize = 0;
    assert(gv.take(0) =~= Seq::<GroupView>::empty());
    while i < groups.len()
        invariant
            i <= groups@.len(),
            gv == group_views(groups@),
            seen == legend_all(gv.take(i as int)),
            strs(out@) == distinct_in_order(seen),
        decreases groups@.len() - i,
    {
        let strings = if groups[i].pie {
            groups[i].categories()
        } else {
            groups[i].names()
        };
        let ghost sv = strs(strings@);
        let ghost start = seen;
        let mut j: usize = 0;
        assert(start + sv.take(0) =~= start);
        while j < strings.len()
            invariant
                j <= strings@.len(),
                sv == strs(strings@),
                seen == start + sv.take(j as int),
                strs(out@) == distinct_in_order(seen),
            decreases strings@.len() - j,
        {
            let value = strings[j];
            let ghost old_seen = seen;
            proof {
                seen = seen.push(value@);
                assert(seen =~= start + sv.take(j + 1));
                assert(seen.drop_last() =~= old_seen);
            }
            push_new(&mut out, value);
            j += 1;
        }
        assert(sv.take(j as int) =~= sv);
        assert(gv.take(i + 1).drop_last() =~= gv.take(i as int));
        assert(gv.take(i + 1).last() == groups@[i as int]@);
        i += 1;
    }
    assert(gv.take(i as int) =~= gv);
    out
}

/// One series' categories, as cached.
fn series_categories(s: &Series) -> (r: Vec<&str>)
    ensures
        strs(r@) == s@.categories,
{
    let mut out: Vec<&str> = Vec::new();
    let mut j: usize = 0;
    while j < s.categories.len()
        invariant
            j <= s.categories@.len(),
            strs(out@) == string_views(s.categories@).take(j as int),
        decreases s.categories@.len() - j,
    {
        let ghost before = out@;
        out.push(s.categories[j].as_str());
        assert(strs(out@) =~= strs(before).push(s.categories@[j as int]@));
        assert(string_views(s.categories@).take(j + 1) =~= string_views(s.categories@).take(j as int).push(string_views(s.categories@)[j as int]));
        assert(strs(out@) =~= string_views(s.categories@).take(j + 1));
        j += 1;
    }
    assert(string_views(s.categories@).take(j as int) =~= string_views(s.categories@));
    out
}

/// What a set of data labels draws.
fn labels_strings<'a>(groups: &'a Vec<Group>, c: &Container) -> (r: Option<Vec<&'a str>>)
    ensures
        r matches Some(d) ==> labels_draw(group_views(groups@), container_view(*c)) == Some(strs(d@)),
        r is None ==> labels_draw(group_views(groups@), container_view(*c)) is None,
{
    let ghost gv = group_views(groups@);
    match c.scope {
        Scope::Loose => None,
        Scope::Group(g) => {
            if g < groups.len() {
                let grp = &groups[g];
                let mut drawn: Vec<&str> = Vec::new();
                assert(strs(drawn@) =~= seq![]);
                if c.show_categories {
                    extend_strs(&mut drawn, &grp.categories());
                }
                let ghost first = strs(drawn@);
                if c.show_series {
                    extend_strs(&mut drawn, &grp.names());
                } else {
                    assert(strs(drawn@) =~= first + seq![]);
                }
                proof {
                    if !c.show_categories {
                        assert(first =~= seq![] + seq![]);
                    }
                }
                assert(gv[g as int] == grp@);
                Some(drawn)
            } else {
                None
            }
        },
        Scope::Series(g, s) => {
            if g < groups.len() {
                let grp = &groups[g];
                let ghost series = gv[g as int].series;
                assert(series == series_views(grp.series@));
                let mut drawn: Vec<&str> = Vec::new();
                assert(strs(drawn@) =~= seq![]);
                if c.show_categories && s < grp.series.len() {
                    extend_strs(&mut drawn, &series_categories(&grp.series[s]));
                }
                let ghost first = strs(drawn@);
                if c.show_series && s < grp.series.len() {
                    match &grp.series[s].name {
                        Some(n) => {
                            let ghost before = drawn@;
                            drawn.push(n.as_str());
                            assert(strs(drawn@) =~= strs(before) + seq![n@]);
                        },
                        None => {
                            assert(strs(drawn@) =~= first + seq![]);
                        },
                    }
                } else {
                    assert(strs(drawn@) =~= first + seq![]);
                }
                proof {
                    if !(c.show_categories && s < grp.series.len()) {
                        assert(first =~= seq![] + seq![]);
                    }
                }
                Some(drawn)
            } else {
                None
            }
        },
    }
}

/// The strings a container draws, or `None` when they cannot be identified.
fn drawn<'a>(groups: &'a Vec<Group>, c: &Container) -> (r: Option<Vec<&'a str>>)
    ensures
        r matches Some(d) ==> drawn_by(group_views(groups@), container_view(*c)) == Some(strs(d@)),
        r is None ==> drawn_by(group_views(groups@), container_view(*c)) is None,
{
    match c.kind {
        ChartText::CategoryAxis => match &c.ax_id {
            Some(id) => match find_group(groups, id.as_str()) {
                Some(g) => Some(groups[g].categories()),
                None => None,
            },
            None => None,
        },
        ChartText::Legend => Some(legend_strings(groups)),
        ChartText::DataLabels => labels_strings(groups, c),
    }
}

/// The unit a container lowers into.
fn container_unit(part: &str, groups: &Vec<Group>, c: &Container) -> (r: Option<TextUnit>)
    ensures
        r matches Some(u) ==> chart_unit(part@, group_views(groups@), container_view(*c)) == Some(u@),
        r is None ==> chart_unit(part@, group_views(groups@), container_view(*c)) is None,
{
    match drawn(groups, c) {
        Some(d) => {
            let text = join(d.as_slice());
            if trim_chars(&chars_of(text.as_str())).len() == 0 {
                None
            } else {
                let direction = match c.direction {
                    Some(v) => Resolved::Explicit(v),
                    None => Resolved::Unset,
                };
                Some(TextUnit {
                    id: UnitId(unit_id(part, c.kind, c.index)),
                    text,
                    kind: UnitKind::ChartText,
                    props: Properties {
                        direction,
                        alignment: Resolved::Unset,
                        language: Resolved::Unset,
                        complex_font: Resolved::Unset,
                        latin_font: Resolved::Unset,
                        bullet: Bullet::Absent,
                    },
                    location: Location {
                        part: part.to_owned(),
                        paragraph: None,
                        container: Some(c.kind.label().to_owned()),
                    },
                })
            }
        },
        None => None,
    }
}

/// Every container's unit, in the order the containers open.
fn resolve(part: &str, groups: &Vec<Group>, containers: &Vec<Container>) -> (r: Vec<TextUnit>)
    ensures
        unit_views(r@) == units_from(part@, group_views(groups@), container_views(containers@)),
{
    let ghost cv = container_views(containers@);
    let mut out: Vec<TextUnit> = Vec::new();
    let mut i: usize = 0;
    assert(unit_views(out@) =~= seq![]);
    assert(cv.take(0) =~= Seq::<ContainerView>::empty());
    while i < containers.len()
        invariant
            i <= containers@.len(),
            cv == container_views(containers@),
            unit_views(out@) == units_from(part@, group_views(groups@), cv.take(i as int)),
        decreases containers@.len() - i,
    {
        assert(cv.take(i + 1).drop_last() =~= cv.take(i as int));
        assert(cv.take(i + 1).last() == container_view(containers@[i as int]));
        match container_unit(part, groups, &containers[i]) {
            Some(u) => {
                let ghost before = out@;
                let ghost uv = u@;
                out.push(u);
                assert(unit_views(out@) =~= unit_views(before).push(uv));
            },
            None => {},
        }
        i += 1;
    }
    assert(cv.take(i as int) =~= cv);
    out
}

/// Whether a token stream's first element is `c:chartSpace`.
fn root_is_chart_space(events: &[Token]) -> (r: bool)
    ensures
        r == (first_opened(events@) == Some("c:chartSpace"@)),
{
    let mut i: usize = 0;
    assert(events@.skip(0) =~= events@);
    while i < events.len()
        invariant
            i <= events@.len(),
            first_opened(events@) == first_opened(events@.skip(i as int)),
        decreases events@.len() - i,
    {
        let t = &events[i];
        assert(events@.skip(i as int)[0] == *t);
        if t.kind == Kind::Start || t.kind == Kind::Empty {
            return is_name(&tag_name_of(t.text.as_str()), "c:chartSpace");
        }
        assert(events@.skip(i as int).drop_first() =~= events@.skip(i + 1));
        i += 1;
    }
    false
}

/// Find the chart text containers of a part's token stream and lower them
/// into units: a category axis draws the categories of the chart group that
/// names it, a legend its series' names (a pie's categories), a set of data
/// labels whatever its flags turn on. A container whose strings cannot be
/// identified, or are blank, is no unit. A stream whose root element is not
/// `c:chartSpace` has none.
pub fn chart_units(part: &str, events: &[Token]) -> (r: Vec<TextUnit>)
    ensures
        unit_views(r@) == spec_chart_units(part@, events@),
{
    if !root_is_chart_space(events) {
        let r: Vec<TextUnit> = Vec::new();
        assert(unit_views(r@) =~= seq![]);
        return r;
    }
    let mut sc = Scanner::new();
    let mut i: usize = 0;
    assert(events@.take(0) =~= Seq::<Token>::empty());
    while i < events.len()
        invariant
            i <= events@.len(),
            scanner_view(sc) == scan_after(events@.take(i as int)),
            scan_wf(scanner_view(sc)),
            sc.containers@.len() <= i,
        decreases events@.len() - i,
    {
        let t = &events[i];
        assert(events@.take(i + 1).drop_last() =~= events@.take(i as int));
        assert(events@.take(i + 1).last() == *t);
        match t.kind {
            Kind::Start => {
                let name = tag_name_of(t.text.as_str());
                sc.open_element(&name, t);
            },
            Kind::Empty => {
                let name = tag_name_of(t.text.as_str());
                sc.open_element(&name, t);
                sc.close_element(&name);
            },
            Kind::End => {
                let name = chars_of(t.text.as_str());
                sc.close_element(&name);
            },
            Kind::Text => sc.add_text(t.text.as_str()),
            Kind::GeneralRef => sc.add_reference(t.text.as_str()),
            _ => {},
        }
        i += 1;
    }
    assert(events@.take(i as int) =~= events@);
    resolve(part, &sc.groups, &sc.containers)
}

/// Whether a part is a chart: its first element is `c:chartSpace`. Reads
/// only as far as that element.
fn is_chart_part(xml: &str) -> (r: bool)
    ensures
        r == (document_element(xml@) == Some("c:chartSpace"@)),
{
    match first_element(xml) {
        Some(name) => is_name(&name, "c:chartSpace"),
        None => false,
    }
}

/// Find the chart text containers of one part and lower them into units.
///
/// Returns nothing at all for a part that is not a chart, so the caller can
/// hand it every part of the package without knowing which is which; fails
/// only on a chart the parser rejects.
pub fn scan(part: &str, xml: &str) -> (r: Result<Vec<TextUnit>, Error>)
    ensures
        document_element(xml@) != Some("c:chartSpace"@) ==> (r matches Ok(u) && u@.len() == 0),
        r is Err <==> document_element(xml@) == Some("c:chartSpace"@) && document_tokens(xml@) is Err,
        r matches Err(e) ==> e is Format && (document_tokens(xml@) matches Err(m) && e->Format_0@ == part_error(part@, m)),
        r matches Ok(u) ==> (document_element(xml@) == Some("c:chartSpace"@) ==> exists|ev: Seq<Token>|
            #[trigger] tviews(ev) == document_tokens(xml@)->Ok_0 && unit_views(u@) == spec_chart_units(part@, ev)),
{
    if !is_chart_part(xml) {
        return Ok(Vec::new());
    }
    let events = read_events(part, xml)?;
    Ok(chart_units(part, &events))
}


// ------------------------------------------------------------ ordinals

/// The kind and ordinal of each container, in the order they were found.
pub open spec fn ordinals(cs: Seq<ContainerView>) -> Seq<(ChartText, nat)> {
    cs.map_values(|c: ContainerView| (c.kind, c.index))
}

/// How many entries are of kind `k`.
pub open spec fn kind_count(ks: Seq<(ChartText, nat)>, k: ChartText) -> nat
    decreases ks.len(),
{
    if ks.len() == 0 {
        0
    } else {
        kind_count(ks.drop_last(), k) + if ks.last().0 == k { 1nat } else { 0nat }
    }
}

/// Whether each entry's ordinal is its place among the entries of its kind
/// so far: the first of a kind is 1, the next 2, and so on.
pub open spec fn numbered_in_order(ks: Seq<(ChartText, nat)>) -> bool {
    forall|j: int| 0 <= j < ks.len() ==> (#[trigger] ks[j]).1 == kind_count(ks.take(j + 1), ks[j].0)
}

/// How many of the first `n` tokens open an element called `name`.
pub open spec fn opens_upto(ev: Seq<Token>, name: Seq<char>, n: int) -> nat
    decreases n,
{
    if n <= 0 {
        0
    } else {
        opens_upto(ev, name, n - 1) + if crate::xml::opened_name(ev[n - 1]) == Some(name) { 1nat } else { 0nat }
    }
}

spec fn ordinals_hold(ev: Seq<Token>, st: ScanState) -> bool {
    &&& numbered_in_order(ordinals(st.containers))
    &&& forall|k: ChartText| #[trigger] count_of(st, k) == kind_count(ordinals(st.containers), k)
    &&& forall|k: ChartText| #[trigger] count_of(st, k) == opens_upto(ev, spec_element(k), ev.len() as int)
    &&& st.open matches Some(c) ==> c < st.containers.len()
}

proof fn lemma_opens_prefix(ev: Seq<Token>, name: Seq<char>, n: int)
    requires
        0 <= n < ev.len(),
    ensures
        opens_upto(ev, name, n) == opens_upto(ev.drop_last(), name, n),
    decreases n,
{
    if n > 0 {
        lemma_opens_prefix(ev, name, n - 1);
        assert(ev[n - 1] == ev.drop_last()[n - 1]);
    }
}

proof fn lemma_ranges_count(ev: Seq<Token>, name: Seq<char>, n: int)
    ensures
        crate::token::ranges_named(ev, name, n).len() == opens_upto(ev, name, n),
    decreases n,
{
    if n > 0 {
        lemma_ranges_count(ev, name, n - 1);
    }
}

proof fn lemma_container_names(k: ChartText)
    ensures
        !spec_is_chart_group(spec_element(k)),
        spec_element(k) != "c:ser"@,
        spec_element(k) != "c:axId"@,
        kind_named(spec_element(k)) == Some(k),
{
    reveal_strlit("c:catAx");
    reveal_strlit("c:legend");
    reveal_strlit("c:dLbls");
    reveal_strlit("c:ser");
    reveal_strlit("c:axId");
    reveal_strlit("Chart");
    let e = spec_element(k);
    assert(e.last() != "Chart"@.last());
    assert(e.skip(e.len() - 5).last() == e.last());
    assert(e.len() != "c:ser"@.len() || e[2] != "c:ser"@[2]);
    assert(e.len() != "c:axId"@.len() || e[3] != "c:axId"@[3]);
    assert("c:catAx"@.len() != "c:legend"@.len());
    assert("c:catAx"@[2] != "c:dLbls"@[2]);
    assert("c:legend"@.len() != "c:dLbls"@.len());
}

/// A container kind's element name names that kind alone.
proof fn lemma_kind_named(name: Seq<char>, k: ChartText)
    ensures
        (name == spec_element(k)) <==> kind_named(name) == Some(k),
{
    lemma_container_names(ChartText::CategoryAxis);
    lemma_container_names(ChartText::Legend);
    lemma_container_names(ChartText::DataLabels);
}

proof fn lemma_step_keeps(ev: Seq<Token>, st: ScanState, st2: ScanState)
    requires
        ev.len() > 0,
        ordinals_hold(ev.drop_last(), st),
        ordinals(st2.containers) == ordinals(st.containers),
        forall|k: ChartText| #[trigger] count_of(st2, k) == count_of(st, k),
        forall|k: ChartText| crate::xml::opened_name(ev.last()) != Some(#[trigger] spec_element(k)),
        st2.open matches Some(c) ==> c < st2.containers.len(),
    ensures
        ordinals_hold(ev, st2),
{
    assert forall|k: ChartText| #[trigger] count_of(st2, k) == opens_upto(ev, spec_element(k), ev.len() as int) by {
        lemma_opens_prefix(ev, spec_element(k), ev.len() - 1);
        assert(count_of(st, k) == opens_upto(ev.drop_last(), spec_element(k), ev.len() - 1));
    }
}

proof fn lemma_open_keeps(ev: Seq<Token>, st0: ScanState, name: Seq<char>, content: Seq<char>)
    requires
        ev.len() > 0,
        ordinals_hold(ev.drop_last(), st0),
        crate::xml::opened_name(ev.last()) == Some(name),
    ensures
        ordinals_hold(ev, open_step(st0, name, content)),
{
    let st = ScanState { stack: st0.stack.push(name), ..st0 };
    let st2 = open_step(st0, name, content);
    assert(ordinals(st.containers) == ordinals(st0.containers));
    match kind_named(name) {
        Some(k) => {
            lemma_container_names(k);
            lemma_kind_named(name, k);
            assert(name == spec_element(k));
            let st1 = counted(st, k);
            let ks = ordinals(st.containers);
            let ks2 = ordinals(st2.containers);
            assert(ks2 =~= ks.push((k, count_of(st1, k))));
            assert(ks2.drop_last() =~= ks);
            assert(kind_count(ks2, k) == kind_count(ks, k) + 1);
            assert(count_of(st0, k) == kind_count(ks, k));
            assert(count_of(st1, k) == count_of(st0, k) + 1);
            assert forall|j: int| 0 <= j < ks2.len() implies (#[trigger] ks2[j]).1 == kind_count(ks2.take(j + 1), ks2[j].0) by {
                if j < ks.len() {
                    assert(ks2.take(j + 1) =~= ks.take(j + 1));
                    assert(ks2[j] == ks[j]);
                } else {
                    assert(ks2.take(j + 1) =~= ks2);
                    assert(ks2[j] == (k, count_of(st1, k)));
                }
            }
            assert forall|k2: ChartText| #[trigger] count_of(st2, k2) == kind_count(ordinals(st2.containers), k2) by {
                assert(count_of(st0, k2) == kind_count(ks, k2));
            }
            assert forall|k2: ChartText| #[trigger] count_of(st2, k2) == opens_upto(ev, spec_element(k2), ev.len() as int) by {
                lemma_opens_prefix(ev, spec_element(k2), ev.len() - 1);
                lemma_kind_named(spec_element(k2), k2);
                assert(count_of(st0, k2) == opens_upto(ev.drop_last(), spec_element(k2), ev.len() - 1));
            }
        },
        None => {
            assert forall|k: ChartText| crate::xml::opened_name(ev.last()) != Some(#[trigger] spec_element(k)) by {
                lemma_kind_named(name, k);
            }
            if spec_is_chart_group(name) {
            } else if name == "c:ser"@ {
            } else if name == "c:axId"@ {
                assert(ordinals(st2.containers) =~= ordinals(st.containers));
            } else if name == "c:showCatName"@ || name == "c:showSerName"@ {
                assert(ordinals(st2.containers) =~= ordinals(st.containers));
            } else if name == "c:txPr"@ {
            } else if name == "a:pPr"@ {
                assert(ordinals(st2.containers) =~= ordinals(st.containers));
            } else {
            }
            assert forall|k: ChartText| #[trigger] count_of(st2, k) == count_of(st0, k) by {}
            lemma_step_keeps(ev, st0, st2);
        },
    }
}

proof fn lemma_close_keeps(ev: Seq<Token>, st: ScanState, name: Seq<char>)
    requires
        ordinals_hold(ev, st),
    ensures
        ordinals_hold(ev, close_step(st, name)),
{
    let st2 = close_step(st, name);
    assert(ordinals(st2.containers) =~= ordinals(st.containers));
    assert forall|k: ChartText| #[trigger] count_of(st2, k) == count_of(st, k) by {}
}

proof fn lemma_ordinals_hold(ev: Seq<Token>)
    ensures
        ordinals_hold(ev, scan_after(ev)),
    decreases ev.len(),
{
    if ev.len() == 0 {
        assert(ordinals(scan_start().containers) =~= Seq::<(ChartText, nat)>::empty());
    } else {
        lemma_ordinals_hold(ev.drop_last());
        let st = scan_after(ev.drop_last());
        let t = ev.last();
        match t.kind {
            Kind::Start => {
                lemma_open_keeps(ev, st, tag_name(t.text@), t.text@);
            },
            Kind::Empty => {
                lemma_open_keeps(ev, st, tag_name(t.text@), t.text@);
                lemma_close_keeps(ev, open_step(st, tag_name(t.text@), t.text@), tag_name(t.text@));
            },
            _ => {
                let st2 = scan_step(st, t);
                if t.kind == Kind::End {
                    lemma_close_keeps(ev.drop_last(), st, t.text@);
                }
                assert(ordinals(st2.containers) =~= ordinals(st.containers));
                assert forall|k: ChartText| #[trigger] count_of(st2, k) == count_of(st, k) by {}
                assert forall|k: ChartText| crate::xml::opened_name(ev.last()) != Some(#[trigger] spec_element(k)) by {}
                lemma_step_keeps(ev, st, st2);
            },
        }
    }
}

/// A chart container's ordinal is the ordinal of its element among every
/// element of that name in the part, in document order — the numbering the
/// rewriter's element ranges use to find it again. The scan numbers the
/// containers of each kind 1, 2, … in the order it meets them, and meets one
/// at every element of that kind's name, so it numbers exactly as many as
/// the part has.
pub proof fn lemma_container_ordinals(ev: Seq<Token>)
    ensures
        numbered_in_order(ordinals(scan_after(ev).containers)),
        forall|k: ChartText| kind_count(ordinals(scan_after(ev).containers), k)
            == #[trigger] crate::token::ranges_named(ev, spec_element(k), ev.len() as int).len(),
{
    lemma_ordinals_hold(ev);
    assert forall|k: ChartText| kind_count(ordinals(scan_after(ev).containers), k)
        == #[trigger] crate::token::ranges_named(ev, spec_element(k), ev.len() as int).len() by {
        lemma_ranges_count(ev, spec_element(k), ev.len() as int);
        assert(count_of(scan_after(ev), k) == kind_count(ordinals(scan_after(ev).containers), k));
    }
}


// ------------------------------------------------------------ pie charts

/// A pie, 3-D pie, pie-of-pie or doughnut chart is read as a pie group:
/// whatever was read before, the element opens a new group, the group being
/// read, flagged as a pie — so a legend lists its categories (each slice),
/// not its series names.
pub proof fn lemma_pie_family_groups(st: ScanState, name: Seq<char>, content: Seq<char>)
    requires
        name == "c:doughnutChart"@ || name == "c:pieChart"@ || name == "c:pie3DChart"@ || name == "c:ofPieChart"@,
    ensures
        open_step(st, name, content).groups.len() == st.groups.len() + 1,
        open_step(st, name, content).groups.last().pie,
        open_step(st, name, content).group == Some(st.groups.len()),
        forall|g: GroupView| g.pie ==> #[trigger] legend_all(open_step(st, name, content).groups.drop_last().push(g))
            == legend_all(st.groups) + group_categories(g),
{
    reveal_strlit("c:pieChart");
    reveal_strlit("c:pie3DChart");
    reveal_strlit("c:ofPieChart");
    reveal_strlit("c:doughnutChart");
    reveal_strlit("c:");
    reveal_strlit("Chart");
    assert(name.take(2) =~= "c:"@);
    assert(name.skip(name.len() - 5) =~= "Chart"@);
    assert(spec_is_chart_group(name));
    let st1 = ScanState { stack: st.stack.push(name), ..st };
    assert(open_step(st, name, content) == open_group(st1, name));
    assert forall|g: GroupView| g.pie implies #[trigger] legend_all(open_step(st, name, content).groups.drop_last().push(g))
        == legend_all(st.groups) + group_categories(g) by {
        let gs = open_step(st, name, content).groups.drop_last().push(g);
        assert(open_step(st, name, content).groups.drop_last() =~= st.groups);
        assert(gs.drop_last() =~= st.groups);
    }
}


/// Every other chart group — a bar, line, area or any chart not of the pie
/// family — is read as a group of series: its legend lists series names.
pub proof fn lemma_other_groups_not_pie(st: ScanState, name: Seq<char>, content: Seq<char>)
    requires
        spec_is_chart_group(name),
        name != "c:doughnutChart"@,
        name != "c:pieChart"@,
        name != "c:pie3DChart"@,
        name != "c:ofPieChart"@,
    ensures
        open_step(st, name, content).groups.len() == st.groups.len() + 1,
        !open_step(st, name, content).groups.last().pie,
        forall|g: GroupView| !g.pie ==> #[trigger] legend_all(open_step(st, name, content).groups.drop_last().push(g))
            == legend_all(st.groups) + group_names(g),
{
    assert forall|g: GroupView| !g.pie implies #[trigger] legend_all(open_step(st, name, content).groups.drop_last().push(g))
        == legend_all(st.groups) + group_names(g) by {
        let gs = open_step(st, name, content).groups.drop_last().push(g);
        assert(open_step(st, name, content).groups.drop_last() =~= st.groups);
        assert(gs.drop_last() =~= st.groups);
    }
}

} // verus!
