use mirsam_ooxml::error::Error;
use mirsam_ooxml::text::{Alignment, Direction, Fix};
use mirsam_ooxml::word::bullet_list;
use mirsam_ooxml::writer::{apply_docx_repairs, docx_supports, plan_docx_repairs};

/// Pieces of one document joined in order.
fn cat(parts: &[&str]) -> String {
    parts.concat()
}

const PART: &str = "word/document.xml";
const NUMBERING_PART: &str = "word/numbering.xml";

fn numbering() -> String {
    cat(&[
    r#"<w:numbering xmlns:w="http://schemas.openxmlformats.org/wordprocessingml/2006/main">"#,
    r#"<w:abstractNum w:abstractNumId="0"><w:lvl w:ilvl="0">"#,
    r#"<w:numFmt w:val="decimal"/><w:lvlText w:val="%1."/></w:lvl></w:abstractNum>"#,
    r#"<w:abstractNum w:abstractNumId="2"><w:lvl w:ilvl="0">"#,
    r#"<w:numFmt w:val="bullet"/><w:lvlText w:val="•"/></w:lvl></w:abstractNum>"#,
    r#"<w:num w:numId="1"><w:abstractNumId w:val="0"/></w:num>"#,
    r#"<w:num w:numId="3"><w:abstractNumId w:val="2"/></w:num>"#,
    r#"</w:numbering>"#,
])
}

fn document() -> String {
    cat(&[
    r#"<w:document><w:body>"#,
    r#"<w:p><w:r><w:t>one</w:t></w:r></w:p>"#,
    r#"<w:p><w:r><w:t>two</w:t></w:r></w:p>"#,
    r#"<w:p><w:r><w:t>مرحبا</w:t></w:r></w:p>"#,
    r#"</w:body></w:document>"#,
])
}

fn keep(s: &str) -> String {
    s.to_string()
}

fn texts() -> Vec<(String, String)> {
    vec![(PART.to_string(), document())]
}

#[test]
fn a_physical_edge_is_not_a_repair_this_format_supports() {
    assert!(!docx_supports(&Fix::SetAlignment(Alignment::Left), Some("3")));
    assert!(!docx_supports(&Fix::SetAlignment(Alignment::Right), Some("3")));
    assert!(docx_supports(&Fix::SetAlignment(Alignment::Start), None));
}

#[test]
fn a_typed_bullet_is_supported_exactly_where_the_document_defines_a_list() {
    let list = bullet_list(NUMBERING_PART, &numbering(), '•').unwrap();
    assert!(docx_supports(&Fix::ConvertLiteralBullet { marker: '•' }, list.as_deref()));
    assert!(!docx_supports(&Fix::ConvertLiteralBullet { marker: '•' }, None));
    assert!(docx_supports(&Fix::SetDirection(Direction::Rtl), None));
}

#[test]
fn a_unit_id_this_adapter_did_not_issue_is_refused_and_stages_nothing() {
    let repairs = vec![("ppt/slides/slide1.xml#cols1".to_string(), Fix::SetDirection(Direction::Rtl))];
    let Err(Error::Format(message)) = apply_docx_repairs(&repairs, &texts(), None, &keep) else {
        panic!("an id from another adapter should be refused");
    };
    assert!(message.contains("not a unit this adapter produced"), "{message}");
}

#[test]
fn a_repair_reaches_the_paragraph_it_names_and_no_other_entry_moves() {
    let repairs = vec![(format!("{PART}#p3"), Fix::SetDirection(Direction::Rtl))];
    let (staged, applied) = apply_docx_repairs(&repairs, &texts(), None, &keep).unwrap();
    assert_eq!(applied, 1);
    assert_eq!(staged.len(), 1);
    assert_eq!(staged[0].0, PART);
    assert_eq!(
        staged[0].1,
        cat(&[
            r#"<w:document><w:body>"#,
            r#"<w:p><w:r><w:t>one</w:t></w:r></w:p>"#,
            r#"<w:p><w:r><w:t>two</w:t></w:r></w:p>"#,
            r#"<w:p><w:pPr><w:bidi w:val="1"/></w:pPr><w:r><w:t>مرحبا</w:t></w:r></w:p>"#,
            r#"</w:body></w:document>"#,
        ])
    );
}

#[test]
fn a_typed_bullet_in_a_round_joins_the_list_the_numbering_part_defines() {
    let repairs = vec![(format!("{PART}#p3"), Fix::ConvertLiteralBullet { marker: '•' })];
    let doc = r#"<w:body><w:p><w:r><w:t>a</w:t></w:r></w:p><w:p/><w:p><w:r><w:t>• نمو</w:t></w:r></w:p></w:body>"#;
    let texts = vec![(PART.to_string(), doc.to_string())];
    let (staged, applied) = apply_docx_repairs(&repairs, &texts, Some((NUMBERING_PART, numbering().as_str())), &keep).unwrap();
    assert_eq!(applied, 1);
    assert_eq!(
        staged[0].1,
        cat(&[
            r#"<w:body><w:p><w:r><w:t>a</w:t></w:r></w:p><w:p/>"#,
            r#"<w:p><w:pPr><w:numPr><w:ilvl w:val="0"/><w:numId w:val="3"/></w:numPr></w:pPr><w:r><w:t>نمو</w:t></w:r></w:p></w:body>"#,
        ])
    );
}

#[test]
fn a_typed_bullet_with_no_numbering_part_refuses_the_round() {
    let repairs = vec![
        (format!("{PART}#p1"), Fix::SetDirection(Direction::Rtl)),
        (format!("{PART}#p3"), Fix::ConvertLiteralBullet { marker: '•' }),
    ];
    let Err(Error::Format(message)) = plan_docx_repairs(&repairs, None) else {
        panic!("a bullet with no list should be refused");
    };
    assert!(message.starts_with("word/document.xml: cannot "), "{message}");
    assert!(message.ends_with("; this document defines no bulleted list for a paragraph to join"), "{message}");
}

#[test]
fn a_numbering_part_that_does_not_read_offers_no_list() {
    let repairs = vec![(format!("{PART}#p3"), Fix::ConvertLiteralBullet { marker: '•' })];
    assert!(plan_docx_repairs(&repairs, Some((NUMBERING_PART, "<w:numbering>"))).is_err());
}

#[test]
fn a_round_is_grouped_by_part_in_part_name_order() {
    let repairs = vec![
        ("word/header1.xml#p1".to_string(), Fix::SetDirection(Direction::Rtl)),
        (format!("{PART}#tbl2"), Fix::SetDirection(Direction::Rtl)),
        (format!("{PART}#p1"), Fix::SetDirection(Direction::Ltr)),
        (format!("{PART}#p1"), Fix::SetAlignment(Alignment::Start)),
    ];
    let (plans, bullets) = plan_docx_repairs(&repairs, Some((NUMBERING_PART, numbering().as_str()))).unwrap();
    assert!(bullets.is_empty());
    assert_eq!(plans.len(), 2);
    assert_eq!(plans[0].0, PART);
    assert_eq!(plans[1].0, "word/header1.xml");
    assert_eq!(plans[0].1.paragraphs.get(1).map(|v| v.len()), Some(2));
    assert_eq!(plans[0].1.tables.get(2).map(|v| v.len()), Some(1));
    assert_eq!(plans[1].1.paragraphs.get(1).map(|v| v.len()), Some(1));
}

#[test]
fn a_part_the_caller_did_not_read_fails_the_round() {
    let repairs = vec![("word/footer1.xml#p1".to_string(), Fix::SetDirection(Direction::Rtl))];
    let Err(Error::Format(message)) = apply_docx_repairs(&repairs, &texts(), None, &keep) else {
        panic!("a part with no text should fail");
    };
    assert_eq!(message, "word/footer1.xml: not in the package");
}

#[test]
fn a_supported_repair_is_one_the_rewriter_accepts_and_no_other() {
    let xml = r#"<w:body><w:p><w:r><w:t>• نمو</w:t></w:r></w:p></w:body>"#;
    let texts = vec![(PART.to_string(), xml.to_string())];
    for fix in [
        Fix::SetAlignment(Alignment::Left),
        Fix::SetAlignment(Alignment::Start),
        Fix::ConvertLiteralBullet { marker: '•' },
        Fix::SetDirection(Direction::Rtl),
    ] {
        let supported = docx_supports(&fix, None);
        let repairs = vec![(format!("{PART}#p1"), fix.clone())];
        assert_eq!(apply_docx_repairs(&repairs, &texts, None, &keep).is_ok(), supported, "{fix:?}");
    }
}

#[test]
fn a_scan_reads_each_xml_part_under_its_folder_once_in_name_order() {
    let names: Vec<String> = ["word/styles.xml", "[Content_Types].xml", "word/document.xml", "word/_rels/document.xml.rels", "word/document.xml", "ppt/slides/slide1.xml", "word/media/image1.png"]
        .iter()
        .map(|s| s.to_string())
        .collect();
    assert_eq!(
        mirsam_ooxml::writer::parts_under(&names, "word/"),
        vec!["word/document.xml".to_string(), "word/styles.xml".to_string()]
    );
}
