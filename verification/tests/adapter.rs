use mirsam_ooxml::pptx::scan_xml;
use mirsam_ooxml::text::{Alignment, Bullet, Direction, Resolved, UnitKind};

const NS: &str = r#"xmlns:a="http://schemas.openxmlformats.org/drawingml/2006/main" xmlns:p="http://schemas.openxmlformats.org/presentationml/2006/main""#;

fn slide(body: &str) -> String {
    format!(
        r#"<p:sld {NS}><p:cSld><p:spTree><p:sp><p:nvSpPr><p:cNvPr id="2" name="Title 1"/></p:nvSpPr><p:txBody>{body}</p:txBody></p:sp></p:spTree></p:cSld></p:sld>"#
    )
}

#[test]
fn extracts_text_and_shape_name() {
    let xml = slide(r#"<a:bodyPr/><a:p><a:r><a:rPr lang="ar-SA"/><a:t>مرحبا</a:t></a:r></a:p>"#);
    let units = scan_xml("ppt/slides/slide1.xml", &xml).unwrap();

    assert_eq!(units.len(), 1);
    assert_eq!(units[0].text, "مرحبا");
    assert_eq!(units[0].location.container.as_deref(), Some("Title 1"));
    assert_eq!(units[0].location.paragraph, Some(1));
}

#[test]
fn reads_explicit_paragraph_direction() {
    let xml =
        slide(r#"<a:bodyPr/><a:p><a:pPr rtl="1" algn="r"/><a:r><a:t>مرحبا</a:t></a:r></a:p>"#);
    let units = scan_xml("s.xml", &xml).unwrap();
    assert_eq!(units[0].props.direction, Resolved::Explicit(Direction::Rtl));
    assert!(units[0].props.alignment.is_explicit());
}

#[test]
fn body_direction_is_inherited_not_explicit() {
    let xml = slide(r#"<a:bodyPr rtlCol="1"/><a:p><a:r><a:t>مرحبا</a:t></a:r></a:p>"#);
    let units = scan_xml("s.xml", &xml).unwrap();
    assert!(matches!(
        units[0].props.direction,
        Resolved::Inherited(Direction::Rtl, _)
    ));
    assert!(!units[0].props.direction.is_explicit());
}

#[test]
fn detects_native_bullets() {
    let xml = slide(
        r#"<a:bodyPr/><a:p><a:pPr rtl="1"><a:buChar char="•"/></a:pPr><a:r><a:t>بند</a:t></a:r></a:p>"#,
    );
    let units = scan_xml("s.xml", &xml).unwrap();
    assert_eq!(units[0].props.bullet, Bullet::Native);
}

#[test]
fn skips_empty_paragraphs() {
    let xml = slide(r#"<a:bodyPr/><a:p><a:endParaRPr lang="ar-SA"/></a:p>"#);
    assert!(scan_xml("s.xml", &xml).unwrap().is_empty());
}

fn slide_with_table(tblpr: &str) -> String {
    format!(
        r#"<p:sld {NS}><p:cSld><p:spTree><p:graphicFrame><p:nvGraphicFramePr><p:cNvPr id="4" name="Table 4"/></p:nvGraphicFramePr><a:graphic><a:graphicData><a:tbl>{tblpr}<a:tblGrid/><a:tr><a:tc><a:txBody><a:bodyPr/><a:p><a:r><a:t>المؤشر</a:t></a:r></a:p></a:txBody></a:tc><a:tc><a:txBody><a:bodyPr/><a:p><a:r><a:t>الربع الثالث</a:t></a:r></a:p></a:txBody></a:tc></a:tr></a:tbl></a:graphicData></a:graphic></p:graphicFrame></p:spTree></p:cSld></p:sld>"#
    )
}

#[test]
fn a_table_is_a_unit_of_its_own_kind_beside_its_cells() {
    let units = scan_xml("s.xml", &slide_with_table("")).unwrap();
    assert_eq!(units.len(), 3, "{units:#?}");
    assert!(units[..2].iter().all(|u| u.kind == UnitKind::Paragraph));
    let table = &units[2];
    assert_eq!(table.kind, UnitKind::Table);
    assert_eq!(table.id.0, "s.xml#tbl1");
    assert_eq!(table.text, "المؤشر\nالربع الثالث");
    assert_eq!(table.props.direction, Resolved::Unset);
    assert_eq!(table.location.container.as_deref(), Some("Table 4"));
    assert_eq!(table.location.paragraph, None);
}

#[test]
fn a_tables_own_direction_is_explicit() {
    let units = scan_xml("s.xml", &slide_with_table(r#"<a:tblPr rtl="1"/>"#)).unwrap();
    assert_eq!(units[2].props.direction, Resolved::Explicit(Direction::Rtl));
    let units = scan_xml("s.xml", &slide_with_table(r#"<a:tblPr firstRow="1"/>"#)).unwrap();
    assert_eq!(units[2].props.direction, Resolved::Unset);
}

#[test]
fn a_paragraphs_language_and_fonts_are_its_first_ones() {
    let xml = slide(
        r#"<a:bodyPr/><a:p><a:pPr algn="ctr"/><a:r><a:rPr lang="ar-EG"><a:latin typeface=""/><a:latin typeface="Arial"/><a:cs typeface="Tahoma"/></a:rPr><a:t>أ</a:t></a:r><a:r><a:rPr lang="en-US"><a:cs typeface="Other"/></a:rPr><a:t>b</a:t></a:r></a:p>"#,
    );
    let units = scan_xml("s.xml", &xml).unwrap();
    assert_eq!(units.len(), 1);
    assert_eq!(units[0].text, "أb");
    assert_eq!(units[0].id.0, "s.xml#p1");
    assert_eq!(units[0].props.language, Resolved::Explicit("ar-EG".to_string()));
    assert_eq!(units[0].props.latin_font, Resolved::Explicit("Arial".to_string()));
    assert_eq!(units[0].props.complex_font, Resolved::Explicit("Tahoma".to_string()));
    assert_eq!(units[0].props.alignment, Resolved::Explicit(Alignment::Center));
}

#[test]
fn a_body_in_two_columns_is_a_unit_and_numbers_every_body() {
    let xml = format!(
        r#"<p:sld {NS}><p:cSld><p:spTree><p:sp><p:txBody><a:bodyPr/><a:p><a:r><a:t>واحد</a:t></a:r></a:p></p:txBody></p:sp><p:sp><p:nvSpPr><p:cNvPr id="3" name="Body"/></p:nvSpPr><p:txBody><a:bodyPr numCol="2" rtlCol="0"/><a:p><a:r><a:t>أ</a:t></a:r></a:p><a:p/><a:p><a:buNone/><a:r><a:t>&#1576;</a:t></a:r></a:p></p:txBody></p:sp></p:spTree></p:cSld></p:sld>"#
    );
    let units = scan_xml("s.xml", &xml).unwrap();
    let ids: Vec<&str> = units.iter().map(|u| u.id.0.as_str()).collect();
    assert_eq!(ids, ["s.xml#p1", "s.xml#p2", "s.xml#p4", "s.xml#cols2"]);
    let cols = &units[3];
    assert_eq!(cols.kind, UnitKind::Columns);
    assert_eq!(cols.text, "أ\nب");
    assert_eq!(cols.props.direction, Resolved::Explicit(Direction::Ltr));
    assert_eq!(cols.location.container.as_deref(), Some("Body"));
    assert_eq!(units[0].location.container, None);
    assert_eq!(units[2].props.bullet, Bullet::Suppressed);
}

#[test]
fn a_malformed_part_is_a_format_error() {
    let err = scan_xml("s.xml", "<p:sld><a:p></a:t></p:sld>");
    assert!(matches!(err, Err(mirsam_ooxml::error::Error::Format(_))));
}
