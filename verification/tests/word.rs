use mirsam_ooxml::error::Error;
use mirsam_ooxml::plan::ByIndex;
use mirsam_ooxml::text::{Alignment, Direction, Fix, Resolved};
use mirsam_ooxml::word::{apply, apply_plan, bullet_list, Bullets, PartPlan};

/// Pieces of one document joined in order.
fn cat(parts: &[&str]) -> String {
    parts.concat()
}

const PART: &str = "word/document.xml";

/// The normaliser for repairs that normalise nothing.
fn keep(s: &str) -> String {
    s.to_string()
}

/// The one presentation form these tests use, mapped to the letter it draws.
fn forms(s: &str) -> String {
    s.chars().map(|c| if c == '\u{FE8D}' { '\u{0627}' } else { c }).collect()
}

fn paragraph_fixes(index: usize, fixes: Vec<Fix>) -> ByIndex<Vec<Fix>> {
    let mut part = ByIndex::new();
    part.insert(index, fixes);
    part
}

fn rewrite(xml: &str, fixes: Vec<Fix>) -> String {
    apply(PART, xml, paragraph_fixes(1, fixes), &forms).expect("rewrite failed")
}

fn assert_rewrite(input: &str, fixes: Vec<Fix>, expected: &str) {
    assert_eq!(rewrite(input, fixes), expected);
}

/// The error a rewrite refused with.
fn refusal(xml: &str, fixes: Vec<Fix>) -> String {
    match apply(PART, xml, paragraph_fixes(1, fixes), &keep) {
        Err(Error::Format(message)) => message,
        Err(other) => panic!("expected a refusal, got {other:?}"),
        Ok(written) => panic!("expected a refusal, got {written}"),
    }
}

fn bullets(marker: char, id: &str) -> Bullets {
    vec![(marker, id.to_string())]
}

fn effective(r: &Resolved<Alignment>) -> Option<Alignment> {
    match r {
        Resolved::Explicit(a) => Some(*a),
        Resolved::Inherited(a, _) => Some(*a),
        Resolved::Unset => None,
    }
}

#[test]
fn word_set_direction_creates_a_ppr_when_the_paragraph_has_none() {
    assert_rewrite(
        r#"<w:p><w:r><w:t>مرحبا</w:t></w:r></w:p>"#,
        vec![Fix::SetDirection(Direction::Rtl)],
        r#"<w:p><w:pPr><w:bidi w:val="1"/></w:pPr><w:r><w:t>مرحبا</w:t></w:r></w:p>"#,
    );
}

#[test]
fn left_to_right_is_written_out_because_an_empty_bidi_element_means_on() {
    assert_rewrite(
        r#"<w:p><w:pPr><w:bidi/></w:pPr><w:r><w:t>hi</w:t></w:r></w:p>"#,
        vec![Fix::SetDirection(Direction::Ltr)],
        r#"<w:p><w:pPr><w:bidi w:val="0"/></w:pPr><w:r><w:t>hi</w:t></w:r></w:p>"#,
    );
}

#[test]
fn set_direction_lands_in_schema_position_among_the_children_already_there() {
    assert_rewrite(
        &cat(&[
            r#"<w:p><w:pPr><w:pStyle w:val="Body"/><w:jc w:val="end"/>"#,
            r#"<w:rPr><w:lang w:bidi="ar-SA"/></w:rPr></w:pPr>"#,
            r#"<w:r><w:t>مرحبا</w:t></w:r></w:p>"#,
        ]),
        vec![Fix::SetDirection(Direction::Rtl)],
        &cat(&[
            r#"<w:p><w:pPr><w:pStyle w:val="Body"/><w:bidi w:val="1"/><w:jc w:val="end"/>"#,
            r#"<w:rPr><w:lang w:bidi="ar-SA"/></w:rPr></w:pPr>"#,
            r#"<w:r><w:t>مرحبا</w:t></w:r></w:p>"#,
        ]),
    );
}

#[test]
fn word_set_direction_replaces_the_value_and_leaves_neighbouring_attributes_alone() {
    assert_rewrite(
        r#"<w:p><w:pPr><w:bidi w:val='0'/><w:jc w:val='end'/></w:pPr></w:p>"#,
        vec![Fix::SetDirection(Direction::Rtl)],
        r#"<w:p><w:pPr><w:bidi w:val='1'/><w:jc w:val='end'/></w:pPr></w:p>"#,
    );
}

#[test]
fn alignment_is_written_relative_because_word_reads_it_relative() {
    for direction in ["0", "1"] {
        assert_rewrite(
            &format!(r#"<w:p><w:pPr><w:bidi w:val="{direction}"/></w:pPr></w:p>"#),
            vec![Fix::SetAlignment(Alignment::Start)],
            &format!(r#"<w:p><w:pPr><w:bidi w:val="{direction}"/><w:jc w:val="start"/></w:pPr></w:p>"#),
        );
    }
}

#[test]
fn word_start_and_end_are_opposite_edges() {
    let paragraph = r#"<w:p><w:pPr><w:bidi w:val="1"/></w:pPr></w:p>"#;
    assert!(rewrite(paragraph, vec![Fix::SetAlignment(Alignment::Start)]).contains(r#""start""#));
    assert!(rewrite(paragraph, vec![Fix::SetAlignment(Alignment::End)]).contains(r#""end""#));
}

#[test]
fn a_physical_edge_is_refused_rather_than_lowered_onto_the_edge_it_means_today() {
    for physical in [Alignment::Left, Alignment::Right] {
        let message = refusal(r#"<w:p><w:pPr><w:bidi w:val="1"/></w:pPr></w:p>"#, vec![Fix::SetAlignment(physical)]);
        assert!(message.contains("physical"), "{message}");
    }
}

#[test]
fn every_alignment_word_can_state_is_one_this_adapter_reads_back() {
    for (alignment, expected) in [
        (Alignment::Start, Alignment::Start),
        (Alignment::End, Alignment::End),
        (Alignment::Center, Alignment::Center),
        (Alignment::Justify, Alignment::Justify),
        (Alignment::Distributed, Alignment::Distributed),
    ] {
        let written = rewrite(
            r#"<w:p><w:pPr><w:bidi w:val="1"/></w:pPr><w:r><w:t>مرحبا</w:t></w:r></w:p>"#,
            vec![Fix::SetAlignment(alignment)],
        );
        let units = mirsam_ooxml::docx::scan_xml(PART, &written).expect("scan failed");
        assert_eq!(effective(&units[0].props.alignment), Some(expected), "{alignment:?} in {written}");
    }
}

#[test]
fn set_language_writes_the_complex_script_slot_of_every_run() {
    assert_rewrite(
        r#"<w:p><w:r><w:t>مرحبا</w:t></w:r><w:r><w:t>ألف</w:t></w:r></w:p>"#,
        vec![Fix::SetLanguage("ar-SA".into())],
        &cat(&[
            r#"<w:p><w:r><w:rPr><w:lang w:bidi="ar-SA"/></w:rPr><w:t>مرحبا</w:t></w:r>"#,
            r#"<w:r><w:rPr><w:lang w:bidi="ar-SA"/></w:rPr><w:t>ألف</w:t></w:r></w:p>"#,
        ]),
    );
}

#[test]
fn set_language_leaves_the_latin_tag_exactly_as_it_was() {
    assert_rewrite(
        r#"<w:p><w:r><w:rPr><w:lang w:val="en-US"/></w:rPr><w:t>مرحبا</w:t></w:r></w:p>"#,
        vec![Fix::SetLanguage("ar-SA".into())],
        &cat(&[
            r#"<w:p><w:r><w:rPr><w:lang w:val="en-US" w:bidi="ar-SA"/></w:rPr>"#,
            r#"<w:t>مرحبا</w:t></w:r></w:p>"#,
        ]),
    );
}

#[test]
fn the_paragraph_mark_is_edited_where_it_exists() {
    assert_rewrite(
        &cat(&[
            r#"<w:p><w:pPr><w:rPr><w:rFonts w:cs="Dubai"/></w:rPr></w:pPr>"#,
            r#"<w:r><w:rPr/><w:t>مرحبا</w:t></w:r></w:p>"#,
        ]),
        vec![Fix::SetLanguage("ar-SA".into())],
        &cat(&[
            r#"<w:p><w:pPr><w:rPr><w:rFonts w:cs="Dubai"/><w:lang w:bidi="ar-SA"/></w:rPr></w:pPr>"#,
            r#"<w:r><w:rPr><w:lang w:bidi="ar-SA"/></w:rPr><w:t>مرحبا</w:t></w:r></w:p>"#,
        ]),
    );
}

#[test]
fn the_paragraph_mark_is_not_created_where_it_does_not_exist() {
    let written = rewrite(
        r#"<w:p><w:pPr><w:jc w:val="end"/></w:pPr><w:r><w:t>مرحبا</w:t></w:r></w:p>"#,
        vec![Fix::SetLanguage("ar-SA".into())],
    );
    assert_eq!(
        written,
        cat(&[
            r#"<w:p><w:pPr><w:jc w:val="end"/></w:pPr>"#,
            r#"<w:r><w:rPr><w:lang w:bidi="ar-SA"/></w:rPr><w:t>مرحبا</w:t></w:r></w:p>"#,
        ])
    );
}

#[test]
fn set_complex_font_fills_the_slot_beside_the_latin_one() {
    assert_rewrite(
        r#"<w:p><w:r><w:rPr><w:rFonts w:ascii="Calibri"/></w:rPr><w:t>مرحبا</w:t></w:r></w:p>"#,
        vec![Fix::SetComplexFont("Dubai".into())],
        &cat(&[
            r#"<w:p><w:r><w:rPr><w:rFonts w:ascii="Calibri" w:cs="Dubai"/></w:rPr>"#,
            r#"<w:t>مرحبا</w:t></w:r></w:p>"#,
        ]),
    );
}

#[test]
fn set_complex_font_removes_the_theme_reference_it_would_otherwise_contradict() {
    assert_rewrite(
        &cat(&[
            r#"<w:p><w:r><w:rPr><w:rFonts w:ascii="Calibri" w:cstheme="minorBidi"/></w:rPr>"#,
            r#"<w:t>مرحبا</w:t></w:r></w:p>"#,
        ]),
        vec![Fix::SetComplexFont("Dubai".into())],
        &cat(&[
            r#"<w:p><w:r><w:rPr><w:rFonts w:ascii="Calibri" w:cs="Dubai"/></w:rPr>"#,
            r#"<w:t>مرحبا</w:t></w:r></w:p>"#,
        ]),
    );
}

#[test]
fn set_complex_font_creates_the_run_properties_in_schema_position() {
    assert_rewrite(
        r#"<w:p><w:r><w:t>مرحبا</w:t></w:r></w:p>"#,
        vec![Fix::SetComplexFont("Dubai".into())],
        r#"<w:p><w:r><w:rPr><w:rFonts w:cs="Dubai"/></w:rPr><w:t>مرحبا</w:t></w:r></w:p>"#,
    );
}

#[test]
fn remove_controls_deletes_exactly_the_offsets_it_was_given() {
    let text = "\u{202b}مرحبا\u{202c}";
    let last = text.len() - "\u{202c}".len();
    assert_rewrite(
        &format!(r#"<w:p><w:r><w:t>{text}</w:t></w:r></w:p>"#),
        vec![Fix::RemoveControls(vec![0, last])],
        r#"<w:p><w:r><w:t>مرحبا</w:t></w:r></w:p>"#,
    );
}

#[test]
fn normalizing_presentation_forms_leaves_a_run_that_has_none_verbatim() {
    assert_rewrite(
        r#"<w:p><w:r><w:t>&#xFE8D;</w:t></w:r><w:r><w:t>&#1605;</w:t></w:r></w:p>"#,
        vec![Fix::NormalizePresentationForms],
        r#"<w:p><w:r><w:t>ا</w:t></w:r><w:r><w:t>&#1605;</w:t></w:r></w:p>"#,
    );
}

fn bullet_plan() -> PartPlan {
    let mut plan = PartPlan::default();
    plan.paragraphs.insert(1, vec![Fix::ConvertLiteralBullet { marker: '•' }]);
    plan
}

#[test]
fn stripping_a_marker_that_leaves_whitespace_marks_the_run_as_significant() {
    let written = apply_plan(PART, r#"<w:p><w:r><w:t>  • نمو</w:t></w:r></w:p>"#, &bullet_plan(), &bullets('•', "1"), &keep)
        .expect("rewrite failed");
    assert_eq!(
        written,
        cat(&[
            r#"<w:p><w:pPr><w:numPr><w:ilvl w:val="0"/><w:numId w:val="1"/></w:numPr></w:pPr>"#,
            r#"<w:r><w:t xml:space="preserve">  نمو</w:t></w:r></w:p>"#,
        ])
    );
}

#[test]
fn a_run_this_repair_did_not_rewrite_keeps_the_tag_it_had() {
    let written = apply_plan(
        PART,
        r#"<w:p><w:r><w:t>• نمو</w:t></w:r><w:r><w:t> في قطاع</w:t></w:r></w:p>"#,
        &bullet_plan(),
        &bullets('•', "1"),
        &keep,
    )
    .expect("rewrite failed");
    assert!(written.contains(r#"<w:t> في قطاع</w:t>"#), "{written}");
}

#[test]
fn converting_a_typed_bullet_points_the_paragraph_at_a_list_the_document_defines() {
    let written = apply_plan(
        PART,
        r#"<w:p><w:pPr><w:bidi w:val="1"/></w:pPr><w:r><w:t>• نمو</w:t></w:r></w:p>"#,
        &bullet_plan(),
        &bullets('•', "3"),
        &keep,
    )
    .expect("rewrite failed");
    assert_eq!(
        written,
        cat(&[
            r#"<w:p><w:pPr><w:numPr><w:ilvl w:val="0"/><w:numId w:val="3"/></w:numPr>"#,
            r#"<w:bidi w:val="1"/></w:pPr><w:r><w:t>نمو</w:t></w:r></w:p>"#,
        ])
    );
}

#[test]
fn a_typed_bullet_with_no_list_to_join_is_refused_rather_than_pointed_at_nothing() {
    let message = refusal(r#"<w:p><w:r><w:t>• نمو</w:t></w:r></w:p>"#, vec![Fix::ConvertLiteralBullet { marker: '•' }]);
    assert!(message.contains("no bulleted list"), "{message}");
}

#[test]
fn a_paragraph_in_a_text_box_is_not_rewritten_by_the_paragraph_around_it() {
    let part = &cat(&[
        r#"<w:body><w:p><w:r><w:pict><w:txbxContent>"#,
        r#"<w:p><w:r><w:t>&#xFE8D;</w:t></w:r></w:p>"#,
        r#"</w:txbxContent></w:pict></w:r><w:r><w:t>&#xFE8D;</w:t></w:r></w:p></w:body>"#,
    ]);
    let written = apply(PART, part, paragraph_fixes(1, vec![Fix::NormalizePresentationForms]), &forms).expect("rewrite failed");
    assert_eq!(
        written,
        cat(&[
            r#"<w:body><w:p><w:r><w:pict><w:txbxContent>"#,
            r#"<w:p><w:r><w:t>&#xFE8D;</w:t></w:r></w:p>"#,
            r#"</w:txbxContent></w:pict></w:r><w:r><w:t>ا</w:t></w:r></w:p></w:body>"#,
        ])
    );
}

#[test]
fn a_nested_paragraph_is_repaired_under_its_own_ordinal() {
    let part = &cat(&[
        r#"<w:body><w:p><w:r><w:pict><w:txbxContent>"#,
        r#"<w:p><w:r><w:t>مرحبا</w:t></w:r></w:p>"#,
        r#"</w:txbxContent></w:pict></w:r></w:p></w:body>"#,
    ]);
    let written = apply(PART, part, paragraph_fixes(2, vec![Fix::SetDirection(Direction::Rtl)]), &keep).expect("rewrite failed");
    assert_eq!(
        written,
        cat(&[
            r#"<w:body><w:p><w:r><w:pict><w:txbxContent>"#,
            r#"<w:p><w:pPr><w:bidi w:val="1"/></w:pPr><w:r><w:t>مرحبا</w:t></w:r></w:p>"#,
            r#"</w:txbxContent></w:pict></w:r></w:p></w:body>"#,
        ])
    );
}

#[test]
fn paragraphs_in_a_fallback_are_not_counted_because_the_reader_does_not_read_them() {
    let part = &cat(&[
        r#"<w:body><mc:AlternateContent>"#,
        r#"<mc:Choice Requires="wps"><w:p><w:r><w:t>مرحبا</w:t></w:r></w:p></mc:Choice>"#,
        r#"<mc:Fallback><w:p><w:r><w:t>مرحبا</w:t></w:r></w:p></mc:Fallback>"#,
        r#"</mc:AlternateContent><w:p><w:r><w:t>ألف</w:t></w:r></w:p></w:body>"#,
    ]);
    let written = apply(PART, part, paragraph_fixes(2, vec![Fix::SetDirection(Direction::Rtl)]), &keep).expect("rewrite failed");
    assert_eq!(
        written,
        cat(&[
            r#"<w:body><mc:AlternateContent>"#,
            r#"<mc:Choice Requires="wps"><w:p><w:r><w:t>مرحبا</w:t></w:r></w:p></mc:Choice>"#,
            r#"<mc:Fallback><w:p><w:r><w:t>مرحبا</w:t></w:r></w:p></mc:Fallback>"#,
            r#"</mc:AlternateContent>"#,
            r#"<w:p><w:pPr><w:bidi w:val="1"/></w:pPr><w:r><w:t>ألف</w:t></w:r></w:p></w:body>"#,
        ])
    );
}

fn table_plan(fixes: Vec<Fix>) -> PartPlan {
    let mut plan = PartPlan::default();
    plan.tables.insert(1, fixes);
    plan
}

#[test]
fn a_table_direction_lands_between_the_style_and_the_width() {
    let written = apply_plan(
        PART,
        &cat(&[r#"<w:tbl><w:tblPr><w:tblStyle w:val="Plain"/>"#, r#"<w:tblW w:w="0" w:type="auto"/></w:tblPr><w:tr/></w:tbl>"#]),
        &table_plan(vec![Fix::SetDirection(Direction::Rtl)]),
        &Vec::new(),
        &keep,
    )
    .expect("rewrite failed");
    assert_eq!(
        written,
        cat(&[
            r#"<w:tbl><w:tblPr><w:tblStyle w:val="Plain"/><w:bidiVisual w:val="1"/>"#,
            r#"<w:tblW w:w="0" w:type="auto"/></w:tblPr><w:tr/></w:tbl>"#,
        ])
    );
}

#[test]
fn a_table_with_no_properties_gets_them_before_the_grid() {
    let written = apply_plan(
        PART,
        r#"<w:tbl><w:tblGrid><w:gridCol w:w="100"/></w:tblGrid><w:tr/></w:tbl>"#,
        &table_plan(vec![Fix::SetDirection(Direction::Rtl)]),
        &Vec::new(),
        &keep,
    )
    .expect("rewrite failed");
    assert_eq!(
        written,
        cat(&[
            r#"<w:tbl><w:tblPr><w:bidiVisual w:val="1"/></w:tblPr>"#,
            r#"<w:tblGrid><w:gridCol w:w="100"/></w:tblGrid><w:tr/></w:tbl>"#,
        ])
    );
}

#[test]
fn anything_but_a_direction_on_a_table_is_refused() {
    let error = apply_plan(
        PART,
        r#"<w:tbl><w:tblPr/><w:tr/></w:tbl>"#,
        &table_plan(vec![Fix::SetLanguage("ar-SA".into())]),
        &Vec::new(),
        &keep,
    );
    let Err(Error::Format(message)) = error else {
        panic!("a language on a table should be refused");
    };
    assert!(message.contains("only its direction"), "{message}");
}

#[test]
fn a_cells_paragraph_and_its_table_are_both_repaired_in_one_pass() {
    let mut plan = table_plan(vec![Fix::SetDirection(Direction::Rtl)]);
    plan.paragraphs.insert(1, vec![Fix::SetDirection(Direction::Rtl)]);
    let written = apply_plan(
        PART,
        r#"<w:tbl><w:tblPr/><w:tr><w:tc><w:p><w:r><w:t>مرحبا</w:t></w:r></w:p></w:tc></w:tr></w:tbl>"#,
        &plan,
        &Vec::new(),
        &keep,
    )
    .expect("rewrite failed");
    assert_eq!(
        written,
        cat(&[
            r#"<w:tbl><w:tblPr><w:bidiVisual w:val="1"/></w:tblPr><w:tr><w:tc>"#,
            r#"<w:p><w:pPr><w:bidi w:val="1"/></w:pPr><w:r><w:t>مرحبا</w:t></w:r></w:p>"#,
            r#"</w:tc></w:tr></w:tbl>"#,
        ])
    );
}

#[test]
fn an_empty_plan_reproduces_the_part() {
    let part = r#"<?xml version="1.0"?><w:body><w:p><w:r><w:t>مرحبا</w:t></w:r></w:p></w:body>"#;
    assert_eq!(apply(PART, part, ByIndex::new(), &keep).expect("rewrite failed"), part);
}

#[test]
fn a_plan_naming_a_paragraph_the_part_does_not_have_is_refused() {
    let Err(Error::Format(message)) = apply(PART, r#"<w:p/>"#, paragraph_fixes(9, vec![Fix::SetDirection(Direction::Rtl)]), &keep) else {
        panic!("a plan that does not fit the document should be refused");
    };
    assert!(message.contains("no paragraph 9"), "{message}");
}

#[test]
fn a_plan_naming_a_table_the_part_does_not_have_is_refused() {
    let Err(Error::Format(message)) = apply_plan(PART, r#"<w:p/>"#, &table_plan(vec![Fix::SetDirection(Direction::Rtl)]), &Vec::new(), &keep) else {
        panic!("a plan that does not fit the document should be refused");
    };
    assert_eq!(message, "word/document.xml: no table 1; the document and the report disagree");
}

#[test]
fn a_part_that_does_not_read_is_refused_before_any_repair() {
    assert!(apply(PART, "<w:p><w:r></w:p>", paragraph_fixes(1, vec![Fix::SetDirection(Direction::Rtl)]), &keep).is_err());
}

#[test]
fn repairing_a_repaired_paragraph_again_gives_the_same_bytes() {
    let once = rewrite(r#"<w:p><w:r><w:t>مرحبا</w:t></w:r></w:p>"#, vec![Fix::SetDirection(Direction::Rtl), Fix::SetAlignment(Alignment::Start)]);
    let twice = rewrite(&once, vec![Fix::SetDirection(Direction::Rtl), Fix::SetAlignment(Alignment::Start)]);
    assert_eq!(once, twice);
}


const NUMBERING: &str = r#"<w:numbering xmlns:w="http://schemas.openxmlformats.org/wordprocessingml/2006/main"><w:abstractNum w:abstractNumId="0"><w:lvl w:ilvl="0"><w:numFmt w:val="decimal"/><w:lvlText w:val="%1."/></w:lvl></w:abstractNum><w:abstractNum w:abstractNumId="1"><w:lvl w:ilvl="0"><w:numFmt w:val="bullet"/><w:lvlText w:val="▪"/></w:lvl></w:abstractNum><w:abstractNum w:abstractNumId="2"><w:lvl w:ilvl="0"><w:numFmt w:val="bullet"/><w:lvlText w:val="•"/></w:lvl></w:abstractNum><w:num w:numId="1"><w:abstractNumId w:val="0"/></w:num><w:num w:numId="2"><w:abstractNumId w:val="1"/></w:num><w:num w:numId="3"><w:abstractNumId w:val="2"/></w:num></w:numbering>"#;

#[test]
fn the_list_chosen_is_one_that_draws_the_marker_the_author_typed() {
    assert_eq!(
        bullet_list("word/numbering.xml", NUMBERING, '•').unwrap(),
        Some("3".to_string())
    );
}

#[test]
fn any_bullet_list_will_do_when_none_draws_that_marker() {
    // The defect being repaired is the glyph sitting in the text, not which
    // glyph it is, so a marker no definition draws still gets converted — to
    // the first bulleted list in the document, in document order.
    assert_eq!(
        bullet_list("word/numbering.xml", NUMBERING, '-').unwrap(),
        Some("2".to_string())
    );
}

#[test]
fn a_numbered_list_is_not_a_bullet_list() {
    let only_decimal = r#"<w:numbering><w:abstractNum w:abstractNumId="0"><w:lvl w:ilvl="0"><w:numFmt w:val="decimal"/></w:lvl></w:abstractNum><w:num w:numId="1"><w:abstractNumId w:val="0"/></w:num></w:numbering>"#;
    assert_eq!(
        bullet_list("word/numbering.xml", only_decimal, '•').unwrap(),
        None
    );
}

#[test]
fn a_list_that_overrides_its_definition_is_not_offered() {
    // A `w:lvlOverride` can restate the level's format, so a list accepted on
    // the strength of its abstract while the override said otherwise would be
    // a list drawing something else entirely.
    let overridden = r#"<w:numbering><w:abstractNum w:abstractNumId="0"><w:lvl w:ilvl="0"><w:numFmt w:val="bullet"/><w:lvlText w:val="•"/></w:lvl></w:abstractNum><w:num w:numId="1"><w:abstractNumId w:val="0"/><w:lvlOverride w:ilvl="0"><w:lvl w:ilvl="0"><w:numFmt w:val="decimal"/></w:lvl></w:lvlOverride></w:num></w:numbering>"#;
    assert_eq!(
        bullet_list("word/numbering.xml", overridden, '•').unwrap(),
        None
    );
}

#[test]
fn only_the_first_level_decides_whether_a_list_is_bulleted() {
    let second_level_bullet = r#"<w:numbering><w:abstractNum w:abstractNumId="0"><w:lvl w:ilvl="1"><w:numFmt w:val="bullet"/><w:lvlText w:val="•"/></w:lvl></w:abstractNum><w:num w:numId="1"><w:abstractNumId w:val="0"/></w:num></w:numbering>"#;
    assert_eq!(
        bullet_list("word/numbering.xml", second_level_bullet, '•').unwrap(),
        None
    );
}

#[test]
fn a_later_definition_with_the_same_id_replaces_the_earlier() {
    let redefined = r#"<w:numbering><w:abstractNum w:abstractNumId="0"><w:lvl w:ilvl="0"><w:numFmt w:val="bullet"/><w:lvlText w:val="▪"/></w:lvl></w:abstractNum><w:abstractNum w:abstractNumId="0"><w:lvl w:ilvl="0"><w:numFmt w:val="bullet"/><w:lvlText w:val="•"/></w:lvl></w:abstractNum><w:num w:numId="7"><w:abstractNumId w:val="0"/></w:num></w:numbering>"#;
    assert_eq!(
        bullet_list("word/numbering.xml", redefined, '•').unwrap(),
        Some("7".to_string())
    );
}

#[test]
fn a_list_without_an_id_or_a_definition_is_skipped() {
    let dangling = r#"<w:numbering><w:abstractNum w:abstractNumId="0"><w:lvl w:ilvl="0"><w:numFmt w:val="bullet"/><w:lvlText w:val="•"/></w:lvl></w:abstractNum><w:num><w:abstractNumId w:val="0"/></w:num><w:num w:numId="4"><w:abstractNumId w:val="9"/></w:num><w:num w:numId="5"><w:abstractNumId w:val="0"/></w:num></w:numbering>"#;
    assert_eq!(
        bullet_list("word/numbering.xml", dangling, '•').unwrap(),
        Some("5".to_string())
    );
}

#[test]
fn an_unreadable_numbering_part_is_an_error() {
    assert!(bullet_list("word/numbering.xml", "<w:numbering></w:num>", '•').is_err());
}
