use mirsam_ooxml::docx::scan_xml;
use mirsam_ooxml::text::{Alignment, Bullet, Direction, Resolved, TextUnit, UnitKind};

const PART: &str = "word/document.xml";

const NS: &str = r#" xmlns:w="http://schemas.openxmlformats.org/wordprocessingml/2006/main" xmlns:mc="http://schemas.openxmlformats.org/markup-compatibility/2006""#;

fn document(body: &str) -> String {
    format!("<w:document{NS}><w:body>{body}</w:body></w:document>")
}

fn paragraph(p_pr: &str, text: &str) -> String {
    format!("<w:p>{p_pr}<w:r><w:t>{text}</w:t></w:r></w:p>")
}

fn scan_one(p_pr: &str, text: &str) -> TextUnit {
    let xml = document(&paragraph(p_pr, text));
    let mut units = scan_xml(PART, &xml).expect("the part did not parse");
    assert_eq!(units.len(), 1, "expected exactly one unit from {xml}");
    units.remove(0)
}

const ARABIC: &str = "مرحبا بالعالم";

#[test]
fn a_paragraph_becomes_one_unit_addressed_by_part_and_ordinal() {
    let unit = scan_one("", ARABIC);
    assert_eq!(unit.id.0, "word/document.xml#p1");
    assert_eq!(unit.kind, UnitKind::Paragraph);
    assert_eq!(unit.text, ARABIC);
    assert_eq!(unit.location.part, PART);
    assert_eq!(unit.location.paragraph, Some(1));
    assert_eq!(unit.location.container, None);
}

#[test]
fn text_is_joined_across_runs_and_character_references_are_resolved() {
    let xml = document(
        "<w:p><w:r><w:t xml:space=\"preserve\">&#1605;&#1585;</w:t></w:r><w:r><w:t>&#1581;&#1576;&#1575;</w:t></w:r></w:p>",
    );
    let units = scan_xml(PART, &xml).unwrap();
    assert_eq!(units[0].text, "مرحبا");
}

#[test]
fn an_empty_paragraph_produces_no_unit_but_still_takes_its_ordinal() {
    let xml = document(&format!(
        "{}{}{}",
        "<w:p/>",
        paragraph("", "   "),
        paragraph("", ARABIC),
    ));
    let units = scan_xml(PART, &xml).unwrap();
    assert_eq!(units.len(), 1);
    assert_eq!(units[0].id.0, "word/document.xml#p3");
}

#[test]
fn a_drawingml_paragraph_is_not_a_word_paragraph() {
    let xml = document(r#"<a:p xmlns:a="ns/a"><a:r><a:t>مرحبا</a:t></a:r></a:p>"#);
    assert!(scan_xml(PART, &xml).unwrap().is_empty());
}

#[test]
fn an_empty_bidi_element_is_right_to_left() {
    let unit = scan_one("<w:pPr><w:bidi/></w:pPr>", ARABIC);
    assert_eq!(unit.props.direction, Resolved::Explicit(Direction::Rtl));
}

#[test]
fn bidi_reads_every_on_off_spelling() {
    for on in ["1", "true", "on"] {
        let p_pr = format!(r#"<w:pPr><w:bidi w:val="{on}"/></w:pPr>"#);
        assert_eq!(
            scan_one(&p_pr, ARABIC).props.direction,
            Resolved::Explicit(Direction::Rtl),
            "w:val={on} should be right-to-left"
        );
    }
    for off in ["0", "false", "off"] {
        let p_pr = format!(r#"<w:pPr><w:bidi w:val="{off}"/></w:pPr>"#);
        assert_eq!(
            scan_one(&p_pr, ARABIC).props.direction,
            Resolved::Explicit(Direction::Ltr),
            "w:val={off} should be left-to-right"
        );
    }
}

#[test]
fn a_sections_own_direction_is_not_the_paragraphs() {
    let unit = scan_one(
        r#"<w:pPr><w:sectPr><w:bidi/><w:jc w:val="center"/></w:sectPr></w:pPr>"#,
        ARABIC,
    );
    assert_eq!(unit.props.direction, Resolved::Unset);
    assert_eq!(unit.props.alignment, Resolved::Unset);
}

#[test]
fn every_jc_value_reads_as_its_direction_relative_alignment() {
    let cases = [
        ("start", Alignment::Start),
        ("left", Alignment::Start),
        ("numTab", Alignment::Start),
        ("end", Alignment::End),
        ("right", Alignment::End),
        ("center", Alignment::Center),
        ("both", Alignment::Justify),
        ("mediumKashida", Alignment::Justify),
        ("highKashida", Alignment::Justify),
        ("lowKashida", Alignment::Justify),
        ("distribute", Alignment::Distributed),
        ("thaiDistribute", Alignment::Distributed),
    ];
    for (value, expected) in cases {
        let p_pr = format!(r#"<w:pPr><w:jc w:val="{value}"/></w:pPr>"#);
        let unit = scan_one(&p_pr, ARABIC);
        assert_eq!(unit.props.alignment, Resolved::Explicit(expected), "w:jc w:val={value}");
    }
}

#[test]
fn an_alignment_this_adapter_does_not_understand_stays_unset() {
    let unit = scan_one(r#"<w:pPr><w:jc w:val="somethingNew"/></w:pPr>"#, ARABIC);
    assert_eq!(unit.props.alignment, Resolved::Unset);
}

#[test]
fn the_language_read_is_the_complex_script_one() {
    let unit = scan_one(
        r#"<w:pPr><w:rPr><w:lang w:val="en-US" w:bidi="ar-SA"/></w:rPr></w:pPr>"#,
        ARABIC,
    );
    assert_eq!(unit.props.language, Resolved::Explicit("ar-SA".into()));
}

#[test]
fn a_latin_language_alone_leaves_the_complex_script_slot_empty() {
    let unit = scan_one(
        r#"<w:pPr><w:rPr><w:lang w:val="en-US"/></w:rPr></w:pPr>"#,
        ARABIC,
    );
    assert_eq!(unit.props.language, Resolved::Unset);
}

#[test]
fn the_language_comes_from_a_run_when_the_paragraph_mark_states_none() {
    let xml = document("<w:p><w:r><w:rPr><w:lang w:bidi=\"ar-AE\"/></w:rPr><w:t>مرحبا</w:t></w:r></w:p>");
    let units = scan_xml(PART, &xml).unwrap();
    assert_eq!(units[0].props.language, Resolved::Explicit("ar-AE".into()));
}

#[test]
fn both_font_slots_are_read_from_their_own_attributes() {
    let unit = scan_one(
        r#"<w:pPr><w:rPr><w:rFonts w:ascii="Calibri" w:hAnsi="Calibri" w:cs="Dubai"/></w:rPr></w:pPr>"#,
        ARABIC,
    );
    assert_eq!(unit.props.latin_font, Resolved::Explicit("Calibri".into()));
    assert_eq!(unit.props.complex_font, Resolved::Explicit("Dubai".into()));
}

#[test]
fn a_theme_reference_is_not_recorded_as_a_typeface() {
    let unit = scan_one(
        r#"<w:pPr><w:rPr><w:rFonts w:asciiTheme="minorHAnsi" w:cstheme="majorBidi"/></w:rPr></w:pPr>"#,
        ARABIC,
    );
    assert_eq!(unit.props.complex_font, Resolved::Unset);
    assert_eq!(unit.props.latin_font, Resolved::Unset);
}

#[test]
fn an_empty_font_attribute_names_no_typeface() {
    let unit = scan_one(
        r#"<w:pPr><w:rPr><w:rFonts w:ascii="Calibri" w:cs=""/></w:rPr></w:pPr>"#,
        ARABIC,
    );
    assert_eq!(unit.props.complex_font, Resolved::Unset);
}

#[test]
fn a_native_list_is_not_a_typed_bullet() {
    let unit = scan_one(
        r#"<w:pPr><w:numPr><w:ilvl w:val="0"/><w:numId w:val="3"/></w:numPr></w:pPr>"#,
        ARABIC,
    );
    assert_eq!(unit.props.bullet, Bullet::Native);
    assert_eq!(scan_one("", ARABIC).props.bullet, Bullet::Absent);
}

#[test]
fn a_num_id_of_zero_suppresses_the_list() {
    let unit = scan_one(
        r#"<w:pPr><w:numPr><w:ilvl w:val="0"/><w:numId w:val=" 0 "/></w:numPr></w:pPr>"#,
        ARABIC,
    );
    assert_eq!(unit.props.bullet, Bullet::Suppressed);
}

#[test]
fn a_text_box_paragraph_does_not_swallow_the_paragraph_that_anchors_it() {
    let xml = document(
        "<w:p><w:pPr><w:bidi/></w:pPr><w:r><w:t>خارجي</w:t><w:txbxContent><w:p><w:r><w:t>داخلي</w:t></w:r></w:p></w:txbxContent></w:r></w:p>",
    );
    let units = scan_xml(PART, &xml).unwrap();
    let texts: Vec<&str> = units.iter().map(|u| u.text.as_str()).collect();
    assert_eq!(texts, ["داخلي", "خارجي"]);
    assert_eq!(units[1].id.0, "word/document.xml#p1");
    assert_eq!(units[1].props.direction, Resolved::Explicit(Direction::Rtl));
    assert_eq!(units[0].id.0, "word/document.xml#p2");
    assert_eq!(units[0].props.direction, Resolved::Unset);
}

#[test]
fn a_fallback_is_not_read_beside_the_choice_it_stands_in_for() {
    let xml = document(
        "<w:p><w:r><mc:AlternateContent><mc:Choice Requires=\"wps\"><w:txbxContent><w:p><w:r><w:t>مرحبا</w:t></w:r></w:p></w:txbxContent></mc:Choice><mc:Fallback><w:txbxContent><w:p><w:r><w:t>مرحبا</w:t></w:r></w:p></w:txbxContent></mc:Fallback></mc:AlternateContent></w:r></w:p>",
    );
    let units = scan_xml(PART, &xml).unwrap();
    assert_eq!(units.len(), 1);
    assert_eq!(units[0].text, "مرحبا");
}

#[test]
fn a_revision_record_is_not_the_paragraphs_properties() {
    let unit = scan_one(
        r#"<w:pPr><w:jc w:val="center"/><w:pPrChange w:id="1"><w:pPr><w:bidi/><w:jc w:val="left"/></w:pPr></w:pPrChange></w:pPr>"#,
        ARABIC,
    );
    assert_eq!(unit.props.direction, Resolved::Unset);
    assert_eq!(unit.props.alignment, Resolved::Explicit(Alignment::Center));
}

#[test]
fn a_paragraph_in_a_table_cell_names_its_cell_and_the_table_is_a_unit() {
    let xml = document(
        "<w:tbl><w:tblPr><w:bidiVisual/></w:tblPr><w:tr><w:tc><w:p><w:r><w:t>أ</w:t></w:r></w:p></w:tc><w:tc><w:p><w:pPr><w:bidi/></w:pPr><w:r><w:t>خلية</w:t></w:r></w:p></w:tc></w:tr></w:tbl>",
    );
    let units = scan_xml(PART, &xml).unwrap();
    assert_eq!(units.len(), 3, "{units:#?}");
    assert_eq!(units[0].location.container.as_deref(), Some("table 1 row 1 cell 1"));
    assert_eq!(units[1].location.container.as_deref(), Some("table 1 row 1 cell 2"));
    assert_eq!(units[1].text, "خلية");
    let table = &units[2];
    assert_eq!(table.kind, UnitKind::Table);
    assert_eq!(table.id.0, "word/document.xml#tbl1");
    assert_eq!(table.text, "أ\nخلية");
    assert_eq!(table.props.direction, Resolved::Explicit(Direction::Rtl));
    assert_eq!(table.location.container, None);
}

#[test]
fn a_nested_table_lays_its_text_out_in_the_outer_one_too() {
    let xml = document(
        "<w:tbl><w:tr><w:tc><w:tbl><w:tr><w:tc><w:p><w:r><w:t>داخل</w:t></w:r></w:p></w:tc></w:tr></w:tbl><w:p><w:r><w:t>خارج</w:t></w:r></w:p></w:tc></w:tr></w:tbl><w:tbl/>",
    );
    let units = scan_xml(PART, &xml).unwrap();
    let ids: Vec<&str> = units.iter().map(|u| u.id.0.as_str()).collect();
    assert_eq!(ids, ["word/document.xml#p1", "word/document.xml#tbl2", "word/document.xml#p2", "word/document.xml#tbl1"]);
    assert_eq!(units[1].text, "داخل");
    assert_eq!(units[3].text, "داخل\nخارج");
    assert_eq!(units[0].location.container.as_deref(), Some("table 2 row 1 cell 1"));
}
