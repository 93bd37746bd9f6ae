use mirsam_ooxml::xlsx::{column_of, grid_id, parse_unit_id, unit_id, Target};

#[test]
fn a_reference_names_the_column_excel_names() {
    assert_eq!(column_of("A1"), Some(0));
    assert_eq!(column_of("B5"), Some(1));
    assert_eq!(column_of("Z9"), Some(25));
    assert_eq!(column_of("AA1"), Some(26));
    assert_eq!(column_of("1"), None);
    assert_eq!(column_of(""), None);
}

#[test]
fn a_lower_case_reference_names_the_same_column() {
    assert_eq!(column_of("ab12"), Some(27));
    assert_eq!(column_of("XFD1048576"), Some(16383));
}

#[test]
fn a_column_too_wide_for_usize_is_not_guessed_at() {
    assert_eq!(column_of(&"Z".repeat(40)), None);
}

#[test]
fn xlsx_a_unit_id_round_trips_through_its_own_parser() {
    let part = "xl/worksheets/sheet1.xml";
    assert_eq!(unit_id(part, 7), "xl/worksheets/sheet1.xml#p7");
    assert_eq!(grid_id(part), "xl/worksheets/sheet1.xml#tbl1");
    assert_eq!(
        parse_unit_id(&unit_id(part, 7)),
        Some((part.to_string(), Target::Cell(7)))
    );
    assert_eq!(
        parse_unit_id(&grid_id(part)),
        Some((part.to_string(), Target::Grid))
    );
}

#[test]
fn xlsx_an_id_this_adapter_did_not_issue_is_rejected() {
    for id in [
        "xl/worksheets/sheet1.xml",
        "#p1",
        "xl/worksheets/sheet1.xml#p0",
        "xl/worksheets/sheet1.xml#px",
        "xl/worksheets/sheet1.xml#cols1",
    ] {
        assert_eq!(parse_unit_id(id), None, "{id}");
    }
}

#[test]
fn an_ordinal_is_read_from_its_digits_alone() {
    assert_eq!(parse_unit_id("a.xml#p+12"), None);
    assert_eq!(
        parse_unit_id("a#b.xml#p007"),
        Some(("a#b.xml".to_string(), Target::Cell(7)))
    );
    assert_eq!(parse_unit_id("a.xml#p99999999999999999999999"), None);
    assert_eq!(parse_unit_id("a.xml#p"), None);
}

#[test]
fn a_formula_result_is_no_unit_and_is_named_as_a_source_that_was_not_read() {
    let formulas = vec![
        ("Sheet1!B2".to_string(), "مرحبا".to_string()),
        ("Sheet1!C2".to_string(), "total".to_string()),
        ("Sheet1!D2".to_string(), "x \u{FEB3}".to_string()),
    ];
    assert_eq!(
        mirsam_ooxml::xlsx::unread_sources(&formulas),
        vec!["Sheet1!B2".to_string(), "Sheet1!D2".to_string()]
    );
}

#[test]
fn a_formula_result_with_no_arabic_in_it_is_not_named() {
    let formulas = vec![("Sheet1!A1".to_string(), "42 שלום".to_string())];
    assert!(mirsam_ooxml::xlsx::unread_sources(&formulas).is_empty());
}
