use mirsam_ooxml::chart::{scan, unit_id, ChartText};
use mirsam_ooxml::pptx::scan_xml;
use mirsam_ooxml::text::{Direction, Resolved, TextUnit, UnitKind};

const NS: &str = r#"xmlns:c="http://schemas.openxmlformats.org/drawingml/2006/chart" xmlns:a="http://schemas.openxmlformats.org/drawingml/2006/main""#;

const PART: &str = "ppt/charts/chart1.xml";

fn chart(inner: &str) -> String {
    format!(r#"<c:chartSpace {NS}><c:chart>{inner}</c:chart></c:chartSpace>"#)
}

fn str_cache(values: &[&str]) -> String {
    let points: String = values
        .iter()
        .enumerate()
        .map(|(i, v)| format!(r#"<c:pt idx="{i}"><c:v>{v}</c:v></c:pt>"#))
        .collect();
    format!(
        r#"<c:strCache><c:ptCount val="{}"/>{points}</c:strCache>"#,
        values.len()
    )
}

fn series(name: &str, categories: &[&str], values: &[i32]) -> String {
    let numbers: String = values
        .iter()
        .enumerate()
        .map(|(i, v)| format!(r#"<c:pt idx="{i}"><c:v>{v}</c:v></c:pt>"#))
        .collect();
    format!(
        r#"<c:ser><c:idx val="0"/><c:tx><c:strRef><c:f>S!$A$1</c:f>{}</c:strRef></c:tx><c:cat><c:strRef><c:f>S!$A$2</c:f>{}</c:strRef></c:cat><c:val><c:numRef><c:f>S!$B$2</c:f><c:numCache><c:ptCount val="{}"/>{numbers}</c:numCache></c:numRef></c:val></c:ser>"#,
        str_cache(&[name]),
        str_cache(categories),
        values.len(),
    )
}

const QUARTERS: [&str; 2] = ["الربع الأول", "الربع الثاني"];
const AX: &str = "111111111";
const VAL_AX: &str = "222222222";

fn bar_chart(cat_ax: &str, extra: &str) -> String {
    chart(&format!(
        r#"<c:plotArea><c:layout/><c:barChart><c:barDir val="col"/>{}{extra}<c:axId val="{AX}"/><c:axId val="{VAL_AX}"/></c:barChart><c:catAx><c:axId val="{AX}"/><c:axPos val="b"/>{cat_ax}<c:crossAx val="{VAL_AX}"/></c:catAx><c:valAx><c:axId val="{VAL_AX}"/><c:axPos val="l"/><c:crossAx val="{AX}"/></c:valAx></c:plotArea>"#,
        series("الإيرادات", &QUARTERS, &[18, 21]),
    ))
}

fn chart_units(xml: &str) -> Vec<TextUnit> {
    scan_xml(PART, xml)
        .unwrap()
        .into_iter()
        .filter(|u| u.kind == UnitKind::ChartText)
        .collect()
}

#[test]
fn a_category_axis_draws_the_categories_of_the_chart_that_names_it() {
    let units = chart_units(&bar_chart("", ""));
    assert_eq!(units.len(), 1, "{units:#?}");
    assert_eq!(units[0].id.0, "ppt/charts/chart1.xml#catax1");
    assert_eq!(units[0].text, QUARTERS.join("\n"));
    assert_eq!(units[0].props.direction, Resolved::Unset);
    assert_eq!(
        units[0].location.container.as_deref(),
        Some("category axis")
    );
}

#[test]
fn a_value_axis_is_not_a_unit() {
    let units = chart_units(&bar_chart("", ""));
    assert!(
        units.iter().all(|u| !u.id.0.contains("valax")),
        "{units:#?}"
    );
}

#[test]
fn a_declared_axis_direction_is_explicit() {
    let with_direction = r#"<c:txPr><a:bodyPr/><a:lstStyle/><a:p><a:pPr rtl="1"/></a:p></c:txPr>"#;
    let units = chart_units(&bar_chart(with_direction, ""));
    assert_eq!(units[0].props.direction, Resolved::Explicit(Direction::Rtl));
    let ltr = r#"<c:txPr><a:bodyPr/><a:lstStyle/><a:p><a:pPr rtl="0"/></a:p></c:txPr>"#;
    let units = chart_units(&bar_chart(ltr, ""));
    assert_eq!(units[0].props.direction, Resolved::Explicit(Direction::Ltr));
}

#[test]
fn an_axis_titles_text_properties_are_not_the_axiss() {
    let titled = r#"<c:title><c:tx><c:rich><a:bodyPr/><a:lstStyle/><a:p><a:pPr rtl="1"/><a:r><a:t>المحور</a:t></a:r></a:p></c:rich></c:tx><c:txPr><a:bodyPr/><a:lstStyle/><a:p><a:pPr rtl="1"/></a:p></c:txPr></c:title>"#;
    let units = chart_units(&bar_chart(titled, ""));
    assert_eq!(units.len(), 1, "{units:#?}");
    assert_eq!(units[0].props.direction, Resolved::Unset, "{units:#?}");
}

#[test]
fn a_legend_draws_the_series_names() {
    let units = chart_units(&chart(&format!(
        r#"<c:plotArea><c:barChart>{}<c:axId val="{AX}"/><c:axId val="{VAL_AX}"/></c:barChart></c:plotArea><c:legend><c:legendPos val="r"/></c:legend>"#,
        series("الإيرادات", &QUARTERS, &[18, 21]),
    )));
    assert_eq!(units.len(), 1, "{units:#?}");
    assert_eq!(units[0].id.0, "ppt/charts/chart1.xml#legend1");
    assert_eq!(units[0].text, "الإيرادات");
}

#[test]
fn a_pie_legend_draws_the_categories_instead() {
    let units = chart_units(&chart(&format!(
        r#"<c:plotArea><c:pieChart>{}</c:pieChart></c:plotArea><c:legend><c:legendPos val="r"/></c:legend>"#,
        series("Revenue", &QUARTERS, &[18, 21]),
    )));
    assert_eq!(units.len(), 1, "{units:#?}");
    assert_eq!(units[0].text, QUARTERS.join("\n"));
}

#[test]
fn data_labels_draw_only_what_they_are_set_to_show() {
    let showing =
        |flags: &str| format!(r#"<c:dLbls>{flags}<c:showLeaderLines val="1"/></c:dLbls>"#);

    let values_only =
        showing(r#"<c:showVal val="1"/><c:showCatName val="0"/><c:showSerName val="0"/>"#);
    assert!(
        chart_units(&bar_chart("", &values_only))
            .iter()
            .all(|u| !u.id.0.contains("dlbls")),
    );

    let with_categories = showing(r#"<c:showVal val="0"/><c:showCatName val="1"/>"#);
    let labels: Vec<_> = chart_units(&bar_chart("", &with_categories))
        .into_iter()
        .filter(|u| u.id.0.contains("dlbls"))
        .collect();
    assert_eq!(labels.len(), 1, "{labels:#?}");
    assert_eq!(labels[0].id.0, "ppt/charts/chart1.xml#dlbls1");
    assert_eq!(labels[0].text, QUARTERS.join("\n"));
    assert_eq!(labels[0].location.container.as_deref(), Some("data labels"));
}

#[test]
fn a_part_that_is_not_a_chart_produces_no_chart_units() {
    let slide = r#"<p:sld xmlns:a="http://schemas.openxmlformats.org/drawingml/2006/main" xmlns:p="http://schemas.openxmlformats.org/presentationml/2006/main"><p:cSld><p:spTree><p:sp><p:txBody><a:bodyPr/><a:p><a:r><a:t>مرحبا</a:t></a:r></a:p></p:txBody></p:sp></p:spTree></p:cSld></p:sld>"#;
    let units = scan_xml("ppt/slides/slide1.xml", slide).unwrap();
    assert!(units.iter().all(|u| u.kind == UnitKind::Paragraph));
    assert!(scan("ppt/slides/slide1.xml", slide).unwrap().is_empty());
}

#[test]
fn a_part_that_is_not_a_chart_is_not_parsed_past_its_root() {
    // The root decides; a malformed tail of a part that is not a chart is
    // no error.
    let units = scan("ppt/slides/slide1.xml", "<p:sld><a></b></p:sld>").unwrap();
    assert!(units.is_empty());
}

#[test]
fn a_malformed_chart_is_a_format_error() {
    let err = scan(PART, "<c:chartSpace><c:chart></c:legend></c:chartSpace>");
    assert!(matches!(err, Err(mirsam_ooxml::error::Error::Format(_))));
}

#[test]
fn character_references_in_a_cached_value_are_resolved() {
    let units = chart_units(&chart(&format!(
        r#"<c:plotArea><c:barChart>{}</c:barChart></c:plotArea><c:legend/>"#,
        series("&#1575;&#1604;&amp;", &["a"], &[1]),
    )));
    assert_eq!(units.len(), 1, "{units:#?}");
    assert_eq!(units[0].text, "ال&");
}

#[test]
fn series_data_labels_draw_their_own_series_name() {
    let labelled = format!(
        r#"<c:ser><c:idx val="0"/><c:tx><c:strRef>{}</c:strRef></c:tx><c:dLbls><c:showSerName val="true"/></c:dLbls></c:ser>"#,
        str_cache(&["الأولى"]),
    );
    let xml = chart(&format!(
        r#"<c:plotArea><c:lineChart>{labelled}{}</c:lineChart></c:plotArea>"#,
        series("الثانية", &["x"], &[1]),
    ));
    let units = chart_units(&xml);
    assert_eq!(units.len(), 1, "{units:#?}");
    assert_eq!(units[0].id.0, "ppt/charts/chart1.xml#dlbls1");
    assert_eq!(units[0].text, "الأولى");
}

#[test]
fn group_data_labels_draw_every_category_then_every_name() {
    let labels = r#"<c:dLbls><c:showCatName val="1"/><c:showSerName val="1"/></c:dLbls>"#;
    let xml = chart(&format!(
        r#"<c:plotArea><c:barChart>{}{}{labels}</c:barChart></c:plotArea>"#,
        series("س1", &["أ", "ب"], &[1, 2]),
        series("س2", &["ب", "ج"], &[3, 4]),
    ));
    let units = chart_units(&xml);
    assert_eq!(units.len(), 1, "{units:#?}");
    assert_eq!(units[0].text, "أ\nب\nج\nس1\nس2");
}

#[test]
fn loose_data_labels_and_blank_values_are_no_units() {
    let xml = chart(r#"<c:dLbls><c:showCatName val="1"/></c:dLbls><c:plotArea><c:barChart><c:ser><c:tx><c:strRef><c:strCache><c:pt idx="0"><c:v>   </c:v></c:pt></c:strCache></c:strRef></c:tx></c:ser></c:barChart></c:plotArea><c:legend/>"#);
    assert!(chart_units(&xml).is_empty());
}

#[test]
fn an_axis_no_group_names_draws_nothing() {
    let xml = chart(&format!(
        r#"<c:plotArea><c:barChart>{}<c:axId val="1"/></c:barChart><c:catAx><c:axId val="2"/></c:catAx></c:plotArea>"#,
        series("s", &["ق"], &[1]),
    ));
    assert!(chart_units(&xml).is_empty());
}

#[test]
fn containers_are_numbered_per_kind() {
    assert_eq!(unit_id(PART, ChartText::CategoryAxis, 2), "ppt/charts/chart1.xml#catax2");
    let xml = chart(&format!(
        r#"<c:plotArea><c:barChart>{}<c:axId val="{AX}"/></c:barChart><c:catAx><c:axId val="{AX}"/></c:catAx><c:catAx><c:axId val="{AX}"/></c:catAx></c:plotArea><c:legend/>"#,
        series("ن", &["ق"], &[1]),
    ));
    let ids: Vec<String> = chart_units(&xml).into_iter().map(|u| u.id.0).collect();
    assert_eq!(
        ids,
        [
            "ppt/charts/chart1.xml#catax1",
            "ppt/charts/chart1.xml#catax2",
            "ppt/charts/chart1.xml#legend1"
        ]
    );
}

#[test]
fn a_containers_ordinal_is_its_elements_place_among_those_of_its_name() {
    let xml = concat_parts(&[
        r#"<c:chartSpace xmlns:c="c" xmlns:a="a"><c:chart><c:plotArea>"#,
        r#"<c:barChart><c:ser><c:cat><c:strRef><c:strCache><c:pt><c:v>الأول</c:v></c:pt></c:strCache></c:strRef></c:cat></c:ser><c:axId val="1"/></c:barChart>"#,
        r#"<c:catAx><c:axId val="9"/></c:catAx>"#,
        r#"<c:catAx><c:axId val="1"/></c:catAx>"#,
        r#"</c:plotArea></c:chart></c:chartSpace>"#,
    ]);
    let units = mirsam_ooxml::chart::scan("ppt/charts/chart1.xml", &xml).unwrap();
    assert_eq!(units.len(), 1);
    assert_eq!(units[0].id.0, "ppt/charts/chart1.xml#catax2");
    let events = mirsam_ooxml::xml::read_events("ppt/charts/chart1.xml", &xml).unwrap();
    let ranges = mirsam_ooxml::token::element_ranges(&events, "c:catAx");
    assert_eq!(ranges.len(), 2);
    assert_eq!(ranges[1].0, 2);
}

fn concat_parts(parts: &[&str]) -> String {
    parts.concat()
}
