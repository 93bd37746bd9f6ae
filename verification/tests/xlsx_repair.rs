use mirsam_ooxml::rels::{PartRelationships, RelationshipGraph};
use mirsam_ooxml::sheet::{Strings, StyleTable};
use mirsam_ooxml::text::{Alignment, Direction, Fix, Resolved, UnitKind};
use mirsam_ooxml::workbook::Workbook;
use mirsam_ooxml::writer::{apply_sheet_repairs, apply_slide_repairs, plan_sheet_repairs, plan_slide_repairs};
use mirsam_ooxml::xlsx;
use mirsam_ooxml::error::Error;

const ARABIC: &str = "ارتفع الأداء في الربع الرابع";
const SHEET: &str = "xl/worksheets/sheet1.xml";
const SPREADSHEETML: &str = r#"xmlns="http://schemas.openxmlformats.org/spreadsheetml/2006/main" xmlns:r="http://schemas.openxmlformats.org/officeDocument/2006/relationships""#;
const OFFICE: &str = "http://schemas.openxmlformats.org/officeDocument/2006/relationships";
const EMPTY_STYLES: &str = r#"<styleSheet xmlns="http://schemas.openxmlformats.org/spreadsheetml/2006/main"><fonts count="1"><font><name val="Calibri"/></font></fonts><cellStyleXfs count="1"><xf numFmtId="0" fontId="0"/></cellStyleXfs><cellXfs count="1"><xf numFmtId="0" fontId="0" xfId="0"/></cellXfs></styleSheet>"#;

fn worksheet(body: &str) -> String {
    format!("<worksheet {SPREADSHEETML}>{body}</worksheet>")
}

fn row(cells: &[&str]) -> String {
    let mut xml = String::from(r#"<sheetData><row r="1">"#);
    for (index, text) in cells.iter().enumerate() {
        let reference = format!("{}1", (b'A' + index as u8) as char);
        xml.push_str(&format!(r#"<c r="{reference}" t="inlineStr"><is><t>{text}</t></is></c>"#));
    }
    xml.push_str("</row></sheetData>");
    xml
}

fn column(cells: &[&str]) -> String {
    let mut xml = String::from("<sheetData>");
    for (index, text) in cells.iter().enumerate() {
        xml.push_str(&format!(
            r#"<row r="{n}"><c r="A{n}" t="inlineStr"><is><t>{text}</t></is></c></row>"#,
            n = index + 1
        ));
    }
    xml.push_str("</sheetData>");
    xml
}

fn workbook(styles: &str, strings: &str) -> Workbook {
    let strings = if strings.is_empty() { None } else { Some(strings) };
    let mut workbook = Workbook::from_xml(Some(styles), strings, None).ok().unwrap();
    let rels = format!(
        r#"<Relationships xmlns="http://schemas.openxmlformats.org/package/2006/relationships"><Relationship Id="rId1" Type="{OFFICE}/worksheet" Target="worksheets/sheet1.xml"/></Relationships>"#
    );
    let graph = RelationshipGraph::from_parts(vec![PartRelationships::parse("xl/_rels/workbook.xml.rels", &rels).ok().unwrap()]);
    let main = format!(r#"<workbook {SPREADSHEETML}><sheets><sheet name="Q4" sheetId="1" r:id="rId1"/></sheets></workbook>"#);
    workbook.add_sheets(&main, &graph, "xl/workbook.xml");
    workbook
}

fn keep(s: &str) -> String {
    s.to_string()
}

struct Repaired {
    sheet: String,
    styles: String,
    strings: String,
}

fn repair(sheet: &str, styles: &str, strings: &str, repairs: Vec<(String, Fix)>) -> Repaired {
    let book = workbook(styles, strings);
    let mut table = StyleTable::read(styles).ok().unwrap();
    let mut shared = Strings::read(strings).ok().unwrap();
    let texts = vec![(SHEET.to_string(), worksheet(sheet))];
    let (staged, applied) = apply_sheet_repairs(&book, &repairs, &texts, &mut table, &mut shared, &keep).ok().unwrap();
    assert_eq!(applied, repairs.len());
    let sheet_out = staged.iter().find(|(p, _)| p == SHEET).map(|(_, x)| x.clone()).unwrap_or(texts[0].1.clone());
    let styles_out = if table.changed() { table.write("xl/styles.xml").ok().unwrap() } else { styles.to_string() };
    let strings_out = if shared.changed() { shared.write("xl/sharedStrings.xml").ok().unwrap() } else { strings.to_string() };
    Repaired { sheet: sheet_out, styles: styles_out, strings: strings_out }
}

fn unit(index: usize) -> String {
    format!("{SHEET}#p{index}")
}

#[test]
fn the_three_repairs_spreadsheetml_cannot_express_are_refused_and_the_rest_are_not() {
    for refused in [
        Fix::SetLanguage("ar-SA".into()),
        Fix::SetComplexFont("Dubai".into()),
        Fix::ConvertLiteralBullet { marker: '•' },
    ] {
        assert!(!xlsx::supports(&refused), "{refused:?}");
    }
    for supported in [
        Fix::SetDirection(Direction::Rtl),
        Fix::SetAlignment(Alignment::Start),
        Fix::RemoveControls(vec![0]),
        Fix::RemoveTatweel(vec![0]),
        Fix::NormalizePresentationForms,
    ] {
        assert!(xlsx::supports(&supported), "{supported:?}");
    }
}

#[test]
fn a_cell_repair_appends_a_format_record_and_leaves_every_other_cell_pointing_at_the_old_one() {
    let sheet = format!(
        r#"<sheetData><row r="1"><c r="A1" t="inlineStr"><is><t>{ARABIC}</t></is></c><c r="B1" t="inlineStr"><is><t>Performance</t></is></c></row></sheetData>"#
    );
    let out = repair(&sheet, EMPTY_STYLES, "", vec![(unit(1), Fix::SetDirection(Direction::Rtl))]);
    assert!(out.sheet.contains(r#"<c r="A1" t="inlineStr" s="1">"#), "{}", out.sheet);
    assert!(out.sheet.contains(r#"<c r="B1" t="inlineStr">"#), "{}", out.sheet);
    assert!(out.styles.contains(r#"<alignment readingOrder="2"/>"#), "{}", out.styles);
    assert!(out.styles.contains(r#"<cellXfs count="2">"#), "{}", out.styles);
}

#[test]
fn two_cells_wanting_the_same_repair_share_one_appended_record() {
    let sheet = format!(
        r#"<sheetData><row r="1"><c r="A1" t="inlineStr"><is><t>{ARABIC}</t></is></c><c r="B1" t="inlineStr"><is><t>{ARABIC}</t></is></c></row></sheetData>"#
    );
    let out = repair(
        &sheet,
        EMPTY_STYLES,
        "",
        vec![(unit(1), Fix::SetDirection(Direction::Rtl)), (unit(2), Fix::SetDirection(Direction::Rtl))],
    );
    assert!(out.styles.contains(r#"<cellXfs count="2">"#), "{}", out.styles);
    assert_eq!(out.sheet.matches(r#"s="1""#).count(), 2, "{}", out.sheet);
}

#[test]
fn a_direction_relative_alignment_is_lowered_against_the_direction_being_repaired_to() {
    let out = repair(
        &column(&[ARABIC]),
        EMPTY_STYLES,
        "",
        vec![(unit(1), Fix::SetDirection(Direction::Rtl)), (unit(1), Fix::SetAlignment(Alignment::Start))],
    );
    assert!(out.styles.contains(r#"horizontal="right""#), "{}", out.styles);
    assert!(out.styles.contains(r#"readingOrder="2""#), "{}", out.styles);
}

#[test]
fn a_start_edge_is_lowered_against_the_direction_the_cell_inherits_from_its_sheet() {
    let sheet = format!(
        r#"<sheetViews><sheetView workbookViewId="0" rightToLeft="1"/></sheetViews>{}"#,
        column(&[ARABIC])
    );
    let out = repair(&sheet, EMPTY_STYLES, "", vec![(unit(1), Fix::SetAlignment(Alignment::Start))]);
    assert!(out.styles.contains(r#"horizontal="right""#), "{}", out.styles);
}

#[test]
fn the_grids_direction_is_written_on_the_sheet_view_and_created_where_there_is_none() {
    let out = repair(
        &row(&["المؤشر", "الربع"]),
        EMPTY_STYLES,
        "",
        vec![(format!("{SHEET}#tbl1"), Fix::SetDirection(Direction::Rtl))],
    );
    assert!(out.sheet.contains(r#"<sheetView workbookViewId="0" rightToLeft="1"/>"#), "{}", out.sheet);
    let views = out.sheet.find("<sheetViews>").expect("the created element");
    let data = out.sheet.find("<sheetData>").expect("the cells");
    assert!(views < data, "{}", out.sheet);
}

#[test]
fn a_shared_string_repair_appends_a_string_and_leaves_the_original_for_the_cells_still_using_it() {
    const PADDED: &str = "العنوان\u{0640}\u{0640}\u{0640}\u{0640}\u{0640}";
    let strings = format!(
        r#"<sst xmlns="http://schemas.openxmlformats.org/spreadsheetml/2006/main" count="2" uniqueCount="1"><si><t>{PADDED}</t></si></sst>"#
    );
    let sheet = r#"<sheetData><row r="1"><c r="A1" t="s"><v>0</v></c><c r="B1" t="s"><v>0</v></c></row></sheetData>"#;
    let offsets: Vec<usize> = (0..5).map(|n| 14 + n * 2).collect();
    let out = repair(sheet, EMPTY_STYLES, &strings, vec![(unit(1), Fix::RemoveTatweel(offsets))]);
    assert!(out.strings.contains(&format!("<si><t>{PADDED}</t></si>")), "{}", out.strings);
    assert!(out.strings.contains("<si><t>العنوان</t></si>"), "{}", out.strings);
    assert!(out.strings.contains(r#"uniqueCount="2""#), "{}", out.strings);
    assert!(out.sheet.contains(r#"<c r="A1" t="s"><v>1</v></c>"#), "{}", out.sheet);
    assert!(out.sheet.contains(r#"<c r="B1" t="s"><v>0</v></c>"#), "{}", out.sheet);
}

#[test]
fn a_shared_string_keeps_its_runs_through_a_repair() {
    let strings = "<sst xmlns=\"http://schemas.openxmlformats.org/spreadsheetml/2006/main\" count=\"1\" uniqueCount=\"1\"><si><r><rPr><b/></rPr><t>الربع</t></r><r><t>\u{202E}الرابع</t></r></si></sst>";
    let sheet = r#"<sheetData><row r="1"><c r="A1" t="s"><v>0</v></c></row></sheetData>"#;
    let out = repair(sheet, EMPTY_STYLES, strings, vec![(unit(1), Fix::RemoveControls(vec![10]))]);
    assert_eq!(out.strings.matches("<rPr><b/></rPr>").count(), 2, "{}", out.strings);
    assert_eq!(out.strings.matches('\u{202E}').count(), 1, "{}", out.strings);
    assert!(out.strings.contains("<r><t>الرابع</t></r>"), "{}", out.strings);
}

#[test]
fn a_repair_leaves_formulas_and_defined_names_exactly_as_they_were() {
    let sheet = format!(
        r#"<sheetData><row r="1"><c r="A1" t="inlineStr"><is><t>{ARABIC}</t></is></c><c r="B1"><f>SUM(C1:C9)</f><v>42</v></c></row></sheetData>"#
    );
    let repairs = vec![(unit(1), Fix::SetDirection(Direction::Rtl))];
    let plans = plan_sheet_repairs(&repairs).ok().unwrap();
    assert!(plans.iter().all(|(part, _)| part != "xl/workbook.xml"));
    let out = repair(&sheet, EMPTY_STYLES, "", repairs);
    assert!(out.sheet.contains("<f>SUM(C1:C9)</f>"), "{}", out.sheet);
    assert!(out.sheet.contains(r#"<c r="B1"><f>"#), "{}", out.sheet);
}

#[test]
fn a_repaired_workbook_re_reads_as_repaired() {
    let out = repair(&column(&[ARABIC]), EMPTY_STYLES, "", vec![(unit(1), Fix::SetDirection(Direction::Rtl))]);
    let book = Workbook::from_xml(Some(&out.styles), None, None).ok().unwrap();
    let units = xlsx::scan_xml("Q4", SHEET, &out.sheet, &book).ok().unwrap();
    let cells: Vec<_> = units.iter().filter(|u| u.kind == UnitKind::Paragraph).collect();
    assert_eq!(cells.len(), 1);
    assert_eq!(cells[0].props.direction, Resolved::Explicit(Direction::Rtl));
}

#[test]
fn a_repair_naming_a_cell_the_sheet_does_not_hold_is_refused() {
    let book = workbook(EMPTY_STYLES, "");
    let mut table = StyleTable::read(EMPTY_STYLES).ok().unwrap();
    let mut shared = Strings::read("").ok().unwrap();
    let texts = vec![(SHEET.to_string(), worksheet(&column(&[ARABIC])))];
    let repairs = vec![(unit(9), Fix::SetDirection(Direction::Rtl))];
    assert!(apply_sheet_repairs(&book, &repairs, &texts, &mut table, &mut shared, &keep).is_err());
}

#[test]
fn a_foreign_unit_refuses_the_whole_round() {
    let repairs = vec![(unit(1), Fix::SetDirection(Direction::Rtl)), ("slide1#x".to_string(), Fix::SetDirection(Direction::Rtl))];
    match plan_sheet_repairs(&repairs) {
        Err(Error::Format(m)) => assert_eq!(m, "slide1#x: not a unit this adapter produced"),
        _ => panic!("the foreign unit must refuse the round"),
    }
}

#[test]
fn a_part_that_is_no_worksheet_of_the_workbook_is_refused() {
    let book = workbook(EMPTY_STYLES, "");
    let mut table = StyleTable::read(EMPTY_STYLES).ok().unwrap();
    let mut shared = Strings::read("").ok().unwrap();
    let other = "xl/worksheets/sheet9.xml";
    let texts = vec![(other.to_string(), worksheet(&column(&[ARABIC])))];
    let repairs = vec![(format!("{other}#p1"), Fix::SetDirection(Direction::Rtl))];
    match apply_sheet_repairs(&book, &repairs, &texts, &mut table, &mut shared, &keep) {
        Err(Error::Format(m)) => assert_eq!(m, "xl/worksheets/sheet9.xml: not a worksheet of this workbook"),
        _ => panic!("a part the workbook does not list must be refused"),
    }
}

#[test]
fn repairs_are_grouped_by_part_in_name_order() {
    let repairs = vec![
        ("ppt/slides/slide2.xml#p1".to_string(), Fix::SetDirection(Direction::Rtl)),
        ("ppt/slides/slide1.xml#p2".to_string(), Fix::SetDirection(Direction::Rtl)),
        ("ppt/slides/slide2.xml#p1".to_string(), Fix::SetAlignment(Alignment::Start)),
    ];
    let plans = plan_slide_repairs(&repairs).ok().unwrap();
    let parts: Vec<&str> = plans.iter().map(|(p, _)| p.as_str()).collect();
    assert_eq!(parts, vec!["ppt/slides/slide1.xml", "ppt/slides/slide2.xml"]);
    assert_eq!(plans[1].1.paragraphs.get(1).map(|f| f.len()), Some(2));
    assert!(plans[0].1.paragraphs.get(1).is_none());
    assert_eq!(plans[0].1.paragraphs.get(2).map(|f| f.len()), Some(1));
}

#[test]
fn a_slide_round_rewrites_the_part_it_names() {
    let slide = r#"<p:sld xmlns:a="a" xmlns:p="p"><p:cSld><p:spTree><p:sp><p:txBody><a:bodyPr/><a:p><a:r><a:t>مرحبا</a:t></a:r></a:p></p:txBody></p:sp></p:spTree></p:cSld></p:sld>"#;
    let texts = vec![("ppt/slides/slide1.xml".to_string(), slide.to_string())];
    let repairs = vec![("ppt/slides/slide1.xml#p1".to_string(), Fix::SetDirection(Direction::Rtl))];
    let (staged, applied) = apply_slide_repairs(&repairs, &texts, &keep).ok().unwrap();
    assert_eq!(applied, 1);
    assert_eq!(staged.len(), 1);
    assert!(staged[0].1.contains(r#"<a:pPr rtl="1"/>"#), "{}", staged[0].1);
}

#[test]
fn a_derived_record_asked_for_twice_is_appended_once() {
    let mut table = StyleTable::read(EMPTY_STYLES).ok().unwrap();
    let first = table.derive(0, Some("right"), Some("2")).ok().unwrap();
    let once = table.write("xl/styles.xml").ok().unwrap();
    let again = table.derive(0, Some("right"), Some("2")).ok().unwrap();
    assert_eq!(first, 1);
    assert_eq!(again, 1);
    assert_eq!(table.write("xl/styles.xml").ok().unwrap(), once);
    assert!(once.contains(r#"<cellXfs count="2">"#), "{once}");
    assert_eq!(table.derive(0, None, None).ok().unwrap(), 0);
}
