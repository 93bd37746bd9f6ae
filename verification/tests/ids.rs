use mirsam_ooxml::chart::{self, ChartText, Group, Series};
use mirsam_ooxml::docx;
use mirsam_ooxml::ids::decimal_of;
use mirsam_ooxml::pptx::{self, parse_alignment};
use mirsam_ooxml::text::Alignment;

#[test]
fn pptx_a_unit_id_round_trips_through_its_own_parser() {
    let part = "ppt/slides/slide1.xml";
    assert_eq!(pptx::unit_id(part, 3), "ppt/slides/slide1.xml#p3");
    assert_eq!(pptx::table_id(part, 2), "ppt/slides/slide1.xml#tbl2");
    assert_eq!(pptx::columns_id(part, 1), "ppt/slides/slide1.xml#cols1");
    assert_eq!(
        pptx::parse_unit_id(&pptx::unit_id(part, 3)),
        Some((part.to_string(), pptx::Target::Paragraph(3)))
    );
    assert_eq!(
        pptx::parse_unit_id(&pptx::table_id(part, 2)),
        Some((part.to_string(), pptx::Target::Table(2)))
    );
    assert_eq!(
        pptx::parse_unit_id(&pptx::columns_id(part, 1)),
        Some((part.to_string(), pptx::Target::Columns(1)))
    );
    assert_eq!(pptx::parse_unit_id("ppt/slides/slide1.xml#tblx"), None);
    assert_eq!(pptx::parse_unit_id("ppt/slides/slide1.xml#q1"), None);
    assert_eq!(pptx::parse_unit_id("#p1"), None);
}

#[test]
fn docx_a_unit_id_round_trips_through_its_own_parser() {
    let part = "word/document.xml";
    assert_eq!(docx::unit_id(part, 12), "word/document.xml#p12");
    assert_eq!(
        docx::parse_unit_id(&docx::unit_id(part, 12)),
        Some((part.to_string(), docx::Target::Paragraph(12)))
    );
    assert_eq!(
        docx::parse_unit_id(&docx::table_id(part, 4)),
        Some((part.to_string(), docx::Target::Table(4)))
    );
    // An id that starts `tbl` is a table id or nothing.
    assert_eq!(docx::parse_unit_id("word/document.xml#tblp1"), None);
    assert_eq!(docx::parse_unit_id("word/document.xml#p0"), None);
}

#[test]
fn a_chart_container_id_carries_its_kind() {
    assert_eq!(
        chart::unit_id("ppt/charts/chart1.xml", ChartText::CategoryAxis, 1),
        "ppt/charts/chart1.xml#catax1"
    );
    assert_eq!(ChartText::Legend.element(), "c:legend");
    assert_eq!(ChartText::DataLabels.tag(), "dlbls");
    assert_eq!(ChartText::DataLabels.label(), "data labels");
    assert_eq!(
        ChartText::all(),
        [ChartText::CategoryAxis, ChartText::Legend, ChartText::DataLabels]
    );
}

#[test]
fn chart_groups_are_recognised_by_name() {
    assert!(chart::is_chart_group("c:barChart"));
    assert!(chart::is_chart_group("c:pie3DChart"));
    assert!(!chart::is_chart_group("c:chart"));
    assert!(!chart::is_chart_group("c:chartSpace"));
    assert!(!chart::is_chart_group("a:barChart"));
}

#[test]
fn a_group_lists_each_category_once_in_order() {
    let group = Group {
        series: vec![
            Series {
                name: Some("North".into()),
                categories: vec!["Q1".into(), "Q2".into()],
            },
            Series {
                name: None,
                categories: vec!["Q2".into(), "Q3".into()],
            },
            Series {
                name: Some("South".into()),
                categories: vec![],
            },
        ],
        ax_ids: vec![],
        pie: false,
    };
    assert_eq!(group.categories(), ["Q1", "Q2", "Q3"]);
    assert_eq!(group.names(), ["North", "South"]);
    assert_eq!(chart::join(&group.categories()), "Q1\nQ2\nQ3");
    assert_eq!(chart::join(&[]), "");
}

#[test]
fn drawingml_alignment_values_are_read_by_name() {
    assert_eq!(parse_alignment("l"), Some(Alignment::Left));
    assert_eq!(parse_alignment("r"), Some(Alignment::Right));
    assert_eq!(parse_alignment("ctr"), Some(Alignment::Center));
    assert_eq!(parse_alignment("justLow"), Some(Alignment::Justify));
    assert_eq!(parse_alignment("thaiDist"), Some(Alignment::Distributed));
    assert_eq!(parse_alignment("start"), None);
}

#[test]
fn ordinals_are_written_in_decimal() {
    assert_eq!(decimal_of(0), "0");
    assert_eq!(decimal_of(7), "7");
    assert_eq!(decimal_of(1048576), "1048576");
}

#[test]
fn an_ordinal_with_a_sign_was_not_issued() {
    assert_eq!(docx::parse_unit_id("x#p+1"), None);
    assert_eq!(docx::parse_unit_id("x#tbl+2"), None);
    assert_eq!(pptx::parse_unit_id("x#p+1"), None);
    assert_eq!(pptx::parse_unit_id("x#cols+1"), None);
    assert_eq!(mirsam_ooxml::xlsx::parse_unit_id("x#p+7"), None);
}

#[test]
fn docx_an_id_this_adapter_did_not_issue_is_rejected() {
    for foreign in [
        "",
        "document",
        "#p1",
        "word/document.xml#p0",
        "x#px",
        "x#p-1",
        "x#tbl0",
        "x#tblx",
        "x#t1",
        "x#cols1",
        "x#catax1",
        "x#legend1",
        "x#dlbls1",
    ] {
        assert_eq!(docx::parse_unit_id(foreign), None, "{foreign:?}");
    }
}

#[test]
fn pptx_an_id_this_adapter_did_not_issue_is_rejected() {
    for foreign in ["", "slide1", "#p1", "ppt/slides/slide1.xml#p0", "x#px", "x#p-1", "x#tbl0", "x#tblx", "x#t1"] {
        assert_eq!(pptx::parse_unit_id(foreign), None, "{foreign:?}");
    }
}
