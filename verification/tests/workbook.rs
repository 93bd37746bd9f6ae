use mirsam_ooxml::text::{Alignment, Bullet, Direction, Resolved, TextUnit, UnitKind};
use mirsam_ooxml::workbook::{horizontal, parse_alignment, parse_reading_order, Workbook};
use mirsam_ooxml::xlsx;

const ARABIC: &str = "ارتفع الأداء في الربع الرابع";
const SHEET: &str = "xl/worksheets/sheet1.xml";

const SPREADSHEETML: &str = r#"xmlns="http://schemas.openxmlformats.org/spreadsheetml/2006/main" xmlns:r="http://schemas.openxmlformats.org/officeDocument/2006/relationships""#;

const EMPTY_STYLES: &str = r#"<styleSheet xmlns="http://schemas.openxmlformats.org/spreadsheetml/2006/main"><fonts count="1"><font><name val="Calibri"/></font></fonts><cellStyleXfs count="1"><xf numFmtId="0" fontId="0"/></cellStyleXfs><cellXfs count="1"><xf numFmtId="0" fontId="0" xfId="0"/></cellXfs></styleSheet>"#;

fn worksheet(body: &str) -> String {
    format!("<worksheet {SPREADSHEETML}>{body}</worksheet>")
}

fn row(cells: &[&str]) -> String {
    let mut xml = String::from(r#"<sheetData><row r="1">"#);
    for (index, text) in cells.iter().enumerate() {
        let reference = format!("{}1", (b'A' + index as u8) as char);
        xml.push_str(&format!(
            r#"<c r="{reference}" t="inlineStr"><is><t>{text}</t></is></c>"#
        ));
    }
    xml.push_str("</row></sheetData>");
    xml
}

fn column(cells: &[&str]) -> String {
    let mut xml = String::from("<sheetData>");
    for (index, text) in cells.iter().enumerate() {
        xml.push_str(&format!(
            r#"<row r="{n}"><c r="A{n}" t="inlineStr"><is><t>{text}</t></is></c></row>"#,
            n = index + 1
        ));
    }
    xml.push_str("</sheetData>");
    xml
}

fn core_properties(tag: &str) -> String {
    format!(
        r#"<cp:coreProperties xmlns:cp="http://schemas.openxmlformats.org/package/2006/metadata/core-properties" xmlns:dc="http://purl.org/dc/elements/1.1/"><dc:language>{tag}</dc:language></cp:coreProperties>"#
    )
}

fn scan(sheet: &str, styles: &str, strings: Option<&str>, language: Option<&str>) -> Vec<TextUnit> {
    let core_xml = language.map(core_properties);
    let workbook = Workbook::from_xml(Some(styles), strings, core_xml.as_deref()).unwrap();
    xlsx::scan_xml("Q4", SHEET, &worksheet(sheet), &workbook).unwrap()
}

fn only(units: &[TextUnit], kind: UnitKind) -> &TextUnit {
    let found: Vec<_> = units.iter().filter(|u| u.kind == kind).collect();
    assert_eq!(found.len(), 1, "expected one {kind:?}: {units:#?}");
    found[0]
}

#[test]
fn a_worksheet_can_be_scanned_without_a_package() {
    let workbook = Workbook::default();
    let units = xlsx::scan_xml("Q4", SHEET, &worksheet(&column(&[ARABIC])), &workbook).unwrap();
    assert_eq!(units.len(), 1);
    assert_eq!(units[0].text, ARABIC);
    assert!(units[0].props.direction.is_unset());
}

#[test]
fn a_cell_is_a_paragraph_and_names_the_sheet_and_reference_a_person_would_type() {
    let units = scan(&column(&[ARABIC]), EMPTY_STYLES, None, None);
    let cell = only(&units, UnitKind::Paragraph);
    assert_eq!(cell.text, ARABIC);
    assert_eq!(cell.location.part, SHEET);
    assert_eq!(cell.location.paragraph, Some(1));
    assert_eq!(cell.location.container.as_deref(), Some("Q4!A1"));
    assert_eq!(cell.id.0, format!("{SHEET}#p1"));
    assert_eq!(cell.props.complex_font, Resolved::Explicit("Calibri".into()));
    assert_eq!(cell.props.bullet, Bullet::Absent);
}

#[test]
fn a_sheet_of_one_column_is_no_container_and_one_of_two_is() {
    let one = scan(&column(&[ARABIC, "الربع"]), EMPTY_STYLES, None, None);
    assert!(!one.iter().any(|u| u.kind == UnitKind::Table), "{one:#?}");

    let two = scan(&row(&["المؤشر", "الربع"]), EMPTY_STYLES, None, None);
    let grid = only(&two, UnitKind::Table);
    assert_eq!(grid.text, "المؤشر\nالربع");
    assert_eq!(grid.id.0, format!("{SHEET}#tbl1"));
    assert_eq!(grid.location.paragraph, None);
    assert_eq!(grid.location.container.as_deref(), Some("sheet \"Q4\""));
}

#[test]
fn a_cell_ordinal_counts_every_cell_including_the_numbers_between_them() {
    let sheet = format!(
        r#"<sheetData><row r="1"><c r="A1"><v>42</v></c><c r="B1" t="inlineStr"><is><t>{ARABIC}</t></is></c></row></sheetData>"#
    );
    let units = scan(&sheet, EMPTY_STYLES, None, None);
    let cell = only(&units, UnitKind::Paragraph);
    assert_eq!(cell.id.0, format!("{SHEET}#p2"), "{units:#?}");
}

#[test]
fn a_reading_order_the_cell_states_is_explicit_and_context_dependent_is_unset() {
    for (value, expected) in [
        ("2", Some(Resolved::Explicit(Direction::Rtl))),
        ("1", Some(Resolved::Explicit(Direction::Ltr))),
        ("0", None),
    ] {
        let styles = format!(
            r#"<styleSheet><cellStyleXfs count="1"><xf/></cellStyleXfs><cellXfs count="2"><xf xfId="0"/><xf xfId="0" applyAlignment="1"><alignment readingOrder="{value}"/></xf></cellXfs></styleSheet>"#
        );
        let sheet = format!(
            r#"<sheetData><row r="1"><c r="A1" s="1" t="inlineStr"><is><t>{ARABIC}</t></is></c></row></sheetData>"#
        );
        let units = scan(&sheet, &styles, None, None);
        let direction = &only(&units, UnitKind::Paragraph).props.direction;
        match expected {
            Some(expected) => assert_eq!(*direction, expected, "readingOrder={value}"),
            None => assert!(direction.is_unset(), "readingOrder={value}: {direction:?}"),
        }
    }
}

#[test]
fn a_cell_that_states_no_reading_order_inherits_the_sheets_and_names_it() {
    let sheet = format!(
        r#"<sheetViews><sheetView workbookViewId="0" rightToLeft="1"/><sheetView rightToLeft="0"/></sheetViews>{}"#,
        column(&[ARABIC])
    );
    let units = scan(&sheet, EMPTY_STYLES, None, None);
    let cell = only(&units, UnitKind::Paragraph);
    match &cell.props.direction {
        Resolved::Inherited(direction, origin) => {
            assert_eq!(*direction, Direction::Rtl);
            assert_eq!(origin.part, SHEET);
            assert_eq!(origin.property, "sheetView@rightToLeft");
        }
        other => panic!("expected the sheet's direction, got {other:?}"),
    }
}

#[test]
fn a_named_cell_style_supplies_what_the_record_does_not_and_says_where_from() {
    let styles = r#"<styleSheet><cellStyleXfs count="1"><xf applyAlignment="1"><alignment horizontal="center"/></xf></cellStyleXfs><cellXfs count="1"><xf xfId="0"/></cellXfs></styleSheet>"#;
    let units = scan(&column(&[ARABIC]), styles, None, None);
    match &only(&units, UnitKind::Paragraph).props.alignment {
        Resolved::Inherited(alignment, origin) => {
            assert_eq!(*alignment, Alignment::Center);
            assert_eq!(origin.part, "xl/styles.xml");
            assert_eq!(origin.property, "cellStyleXfs/xf/alignment@horizontal");
        }
        other => panic!("expected the cell style's alignment, got {other:?}"),
    }
}

#[test]
fn alignment_under_apply_alignment_zero_and_general_are_unset() {
    for (horizontal_value, apply) in [("left", "0"), ("general", "1")] {
        let styles = format!(
            r#"<styleSheet><cellStyleXfs count="1"><xf/></cellStyleXfs><cellXfs count="2"><xf xfId="0"/><xf xfId="0" applyAlignment="{apply}"><alignment horizontal="{horizontal_value}"/></xf></cellXfs></styleSheet>"#
        );
        let sheet = format!(
            r#"<sheetData><row r="1"><c r="A1" s="1" t="inlineStr"><is><t>{ARABIC}</t></is></c></row></sheetData>"#
        );
        let units = scan(&sheet, &styles, None, None);
        assert!(only(&units, UnitKind::Paragraph).props.alignment.is_unset());
    }
}

#[test]
fn one_font_answers_for_every_script_so_both_slots_hold_it() {
    let styles = r#"<styleSheet><fonts count="2"><font><name val="Calibri"/></font><font><name val="Dubai"/></font></fonts><dxfs><font><name val="Ignored"/></font></dxfs><cellStyleXfs count="1"><xf/></cellStyleXfs><cellXfs count="2"><xf xfId="0"/><xf xfId="0" fontId="1" applyFont="1"/></cellXfs></styleSheet>"#;
    let sheet = format!(
        r#"<sheetData><row r="1"><c r="A1" s="1" t="inlineStr"><is><t>{ARABIC}</t></is></c></row></sheetData>"#
    );
    let units = scan(&sheet, styles, None, None);
    let props = &only(&units, UnitKind::Paragraph).props;
    assert_eq!(props.complex_font, Resolved::Explicit("Dubai".into()));
    assert_eq!(props.latin_font, props.complex_font);
}

#[test]
fn the_workbooks_language_is_the_cells_and_names_the_part_that_states_it() {
    let units = scan(&column(&[ARABIC]), EMPTY_STYLES, None, Some(" ar-SA "));
    match &only(&units, UnitKind::Paragraph).props.language {
        Resolved::Inherited(tag, origin) => {
            assert_eq!(tag, "ar-SA");
            assert_eq!(origin.part, "docProps/core.xml");
            assert_eq!(origin.property, "coreProperties/dc:language");
        }
        other => panic!("expected the workbook's language, got {other:?}"),
    }
}

#[test]
fn shared_strings_are_resolved_runs_joined_and_phonetic_guides_skipped() {
    let strings = format!(
        r#"<sst xmlns="http://schemas.openxmlformats.org/spreadsheetml/2006/main" count="3" uniqueCount="3"><si><t>{ARABIC}</t></si><si><r><t>الربع </t></r><r><t>الرابع</t></r></si><si><t>المؤشر</t><rPh sb="0" eb="1"><t>ignored</t></rPh></si></sst>"#
    );
    let sheet = r#"<sheetData><row r="1"><c r="A1" t="s"><v>1</v></c></row><row r="2"><c r="A2" t="s"><v> 2 </v></c></row><row r="3"><c r="A3" t="s"><v>7</v></c></row></sheetData>"#;
    let units = scan(sheet, EMPTY_STYLES, Some(&strings), None);
    let texts: Vec<&str> = units.iter().map(|u| u.text.as_str()).collect();
    assert_eq!(texts, ["الربع الرابع", "المؤشر"]);
}

#[test]
fn a_formula_result_is_no_unit_and_is_kept_by_its_cell_name() {
    let sheet = format!(
        r#"<sheetData><row r="1"><c r="A1" t="str"><f>B1&amp;C1</f><v>{ARABIC}</v></c><c t="str"><v>x</v></c></row></sheetData>"#
    );
    let workbook = Workbook::from_xml(Some(EMPTY_STYLES), None, None).unwrap();
    let scan = xlsx::scan_sheet("Q4", &worksheet(&sheet), &workbook).unwrap();
    assert!(scan.cells.is_empty());
    let names: Vec<(&str, &str)> = scan.formulas.iter().map(|(n, t)| (n.as_str(), t.as_str())).collect();
    assert_eq!(names, [("Q4!A1", ARABIC), ("Q4!cell 2", "x")]);
}

#[test]
fn a_malformed_worksheet_is_a_format_error_but_a_malformed_optional_part_is_read_as_far_as_it_goes() {
    let workbook = Workbook::default();
    assert!(matches!(
        xlsx::scan_sheet("Q4", "<worksheet><sheetData></row></worksheet>", &workbook),
        Err(mirsam_ooxml::error::Error::Format(_))
    ));
    let strings = r#"<sst><si><t>أ</t></si><si><t>ب</t></x></sst>"#;
    let workbook = Workbook::from_xml(None, Some(strings), None).unwrap();
    assert_eq!(workbook.shared_string(0), Some("أ"));
    assert_eq!(workbook.shared_string(1), None);
}

#[test]
fn attribute_values_read_as_excel_reads_them() {
    assert_eq!(parse_alignment("center"), Some(Alignment::Center));
    assert_eq!(parse_alignment("general"), None);
    assert_eq!(parse_reading_order(" 2 "), Some(Direction::Rtl));
    assert_eq!(parse_reading_order("0"), None);
    assert_eq!(horizontal(Alignment::Start, true), "right");
    assert_eq!(horizontal(Alignment::End, true), "left");
    assert_eq!(horizontal(Alignment::Start, false), "left");
}

#[test]
fn a_cell_that_states_its_own_reading_order_takes_nothing_from_the_sheet() {
    let styles = r#"<styleSheet><cellStyleXfs count="1"><xf/></cellStyleXfs><cellXfs count="2"><xf xfId="0"/><xf xfId="0" applyAlignment="1"><alignment readingOrder="2"/></xf></cellXfs></styleSheet>"#;
    let sheet = format!(
        r#"<sheetViews><sheetView workbookViewId="0" rightToLeft="0"/></sheetViews><sheetData><row r="1"><c r="A1" s="1" t="inlineStr"><is><t>{ARABIC}</t></is></c></row></sheetData>"#
    );
    let units = scan(&sheet, styles, None, None);
    assert_eq!(only(&units, UnitKind::Paragraph).props.direction, Resolved::Explicit(Direction::Rtl));
}

#[test]
fn alignment_excel_would_not_apply_is_not_read() {
    let styles = r#"<styleSheet><cellStyleXfs count="1"><xf/></cellStyleXfs><cellXfs count="2"><xf xfId="0"/><xf xfId="0" applyAlignment="0"><alignment horizontal="left"/></xf></cellXfs></styleSheet>"#;
    let sheet = format!(
        r#"<sheetData><row r="1"><c r="A1" s="1" t="inlineStr"><is><t>{ARABIC}</t></is></c></row></sheetData>"#
    );
    let units = scan(&sheet, styles, None, None);
    assert!(only(&units, UnitKind::Paragraph).props.alignment.is_unset());
}

#[test]
fn general_alignment_is_unset_rather_than_a_direction_relative_edge() {
    let styles = r#"<styleSheet><cellStyleXfs count="1"><xf/></cellStyleXfs><cellXfs count="2"><xf xfId="0"/><xf xfId="0" applyAlignment="1"><alignment horizontal="general"/></xf></cellXfs></styleSheet>"#;
    let sheet = format!(
        r#"<sheetData><row r="1"><c r="A1" s="1" t="inlineStr"><is><t>{ARABIC}</t></is></c></row></sheetData>"#
    );
    let units = scan(&sheet, styles, None, None);
    assert!(only(&units, UnitKind::Paragraph).props.alignment.is_unset());
}

#[test]
fn excel_has_no_list_so_a_cell_never_carries_a_native_bullet() {
    let units = scan(&column(&["• بند أول"]), EMPTY_STYLES, None, None);
    assert_eq!(only(&units, UnitKind::Paragraph).props.bullet, Bullet::Absent);
}

#[test]
fn a_shared_string_is_resolved_and_its_runs_are_one_string() {
    let strings = format!(
        r#"<sst xmlns="http://schemas.openxmlformats.org/spreadsheetml/2006/main" count="2" uniqueCount="2"><si><t>{ARABIC}</t></si><si><r><t>الربع </t></r><r><t>الرابع</t></r></si></sst>"#
    );
    let sheet = r#"<sheetData><row r="1"><c r="A1" t="s"><v>1</v></c></row></sheetData>"#;
    let units = scan(sheet, EMPTY_STYLES, Some(&strings), None);
    assert_eq!(only(&units, UnitKind::Paragraph).text, "الربع الرابع");
}

#[test]
fn a_phonetic_guide_is_not_part_of_the_text() {
    let strings = r#"<sst xmlns="http://schemas.openxmlformats.org/spreadsheetml/2006/main" count="1" uniqueCount="1"><si><t>المؤشر</t><rPh sb="0" eb="1"><t>ignored</t></rPh></si></sst>"#;
    let sheet = r#"<sheetData><row r="1"><c r="A1" t="s"><v>0</v></c></row></sheetData>"#;
    let units = scan(sheet, EMPTY_STYLES, Some(strings), None);
    assert_eq!(only(&units, UnitKind::Paragraph).text, "المؤشر");
}
