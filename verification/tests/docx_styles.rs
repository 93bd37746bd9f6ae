use mirsam_ooxml::docx::scan_xml_with;
use mirsam_ooxml::inherit::FontScheme;
use mirsam_ooxml::style::StyleSheet;
use mirsam_ooxml::text::{Alignment, Direction, Origin, Resolved, TextUnit};

const PART: &str = "word/document.xml";
const STYLES: &str = "word/styles.xml";
const THEME: &str = "word/theme/theme1.xml";

const W: &str = r#" xmlns:w="http://schemas.openxmlformats.org/wordprocessingml/2006/main""#;
const A: &str = r#" xmlns:a="http://schemas.openxmlformats.org/drawingml/2006/main""#;

const ARABIC: &str = "مرحبا بالعالم";

fn document_with_run(p_pr: &str, r_pr: &str) -> String {
    format!(
        "<w:document{W}><w:body><w:p>{p_pr}<w:r>{r_pr}<w:t>{ARABIC}</w:t></w:r></w:p></w:body></w:document>"
    )
}

fn styles(body: &str) -> String {
    format!("<w:styles{W}>{body}</w:styles>")
}

fn theme(major: &str, minor: &str) -> String {
    format!(
        "<a:theme{A}><a:themeElements><a:fontScheme name=\"Office\">\
         <a:majorFont><a:latin typeface=\"Calibri Light\"/><a:ea typeface=\"\"/>\
         <a:cs typeface=\"{major}\"/></a:majorFont>\
         <a:minorFont><a:latin typeface=\"Calibri\"/><a:ea typeface=\"\"/>\
         <a:cs typeface=\"{minor}\"/></a:minorFont>\
         </a:fontScheme></a:themeElements></a:theme>"
    )
}

fn resolve(p_pr: &str, sheet: &StyleSheet) -> TextUnit {
    resolve_with_run(p_pr, "", sheet)
}

fn resolve_with_run(p_pr: &str, r_pr: &str, sheet: &StyleSheet) -> TextUnit {
    let xml = document_with_run(p_pr, r_pr);
    let mut units = scan_xml_with(PART, &xml, Some(sheet)).expect("the part did not parse");
    assert_eq!(units.len(), 1, "expected exactly one unit from {xml}");
    units.remove(0)
}

fn sheet(body: &str) -> StyleSheet {
    StyleSheet::parse(STYLES, &styles(body)).expect("the stylesheet did not parse")
}

fn inherited<T: std::fmt::Debug>(resolved: &Resolved<T>) -> (&T, &Origin) {
    match resolved {
        Resolved::Inherited(value, origin) => (value, origin),
        other => panic!("expected an inherited value, got {other:?}"),
    }
}

#[test]
fn doc_defaults_supply_what_the_paragraph_left_unset_and_name_where_they_came_from() {
    let sheet = sheet(
        "<w:docDefaults>\
           <w:pPrDefault><w:pPr><w:bidi/><w:jc w:val=\"right\"/></w:pPr></w:pPrDefault>\
           <w:rPrDefault><w:rPr><w:rFonts w:cs=\"Dubai\"/></w:rPr></w:rPrDefault>\
         </w:docDefaults>",
    );
    let unit = resolve("", &sheet);

    let (direction, origin) = inherited(&unit.props.direction);
    assert_eq!(*direction, Direction::Rtl);
    assert_eq!(origin.part, STYLES);
    assert_eq!(origin.property, "docDefaults/pPrDefault/pPr@bidi");

    let (alignment, origin) = inherited(&unit.props.alignment);
    assert_eq!(*alignment, Alignment::End);
    assert_eq!(origin.property, "docDefaults/pPrDefault/pPr@jc");

    let (font, origin) = inherited(&unit.props.complex_font);
    assert_eq!(font, "Dubai");
    assert_eq!(origin.property, "docDefaults/rPrDefault/rPr/rFonts@cs");
}

#[test]
fn direct_formatting_beats_every_source_above_it() {
    let sheet = sheet(
        "<w:docDefaults><w:pPrDefault><w:pPr><w:bidi w:val=\"0\"/></w:pPr></w:pPrDefault></w:docDefaults>\
         <w:style w:type=\"paragraph\" w:default=\"1\" w:styleId=\"Normal\">\
           <w:pPr><w:bidi w:val=\"0\"/></w:pPr></w:style>",
    );
    let unit = resolve("<w:pPr><w:bidi/></w:pPr>", &sheet);
    assert_eq!(unit.props.direction, Resolved::Explicit(Direction::Rtl));
}

#[test]
fn a_language_tag_is_never_resolved_through_the_chain() {
    let sheet = sheet(
        "<w:docDefaults><w:rPrDefault><w:rPr>\
           <w:lang w:bidi=\"ar-SA\"/></w:rPr></w:rPrDefault></w:docDefaults>",
    );
    assert!(resolve("", &sheet).props.language.is_unset());
}

#[test]
fn the_latin_slot_is_never_resolved_through_the_chain() {
    let sheet = sheet(
        "<w:docDefaults><w:rPrDefault><w:rPr>\
           <w:rFonts w:ascii=\"Calibri\" w:cs=\"Dubai\"/></w:rPr></w:rPrDefault></w:docDefaults>",
    );
    let unit = resolve("", &sheet);
    assert!(unit.props.latin_font.is_unset());
    assert!(!unit.props.complex_font.is_unset());
}

#[test]
fn a_paragraph_style_answers_before_doc_defaults_and_is_cited_by_id() {
    let sheet = sheet(
        "<w:docDefaults><w:pPrDefault><w:pPr><w:bidi w:val=\"0\"/></w:pPr></w:pPrDefault></w:docDefaults>\
         <w:style w:type=\"paragraph\" w:styleId=\"ArabicBody\">\
           <w:pPr><w:bidi/></w:pPr></w:style>",
    );
    let unit = resolve("<w:pPr><w:pStyle w:val=\"ArabicBody\"/></w:pPr>", &sheet);

    let (direction, origin) = inherited(&unit.props.direction);
    assert_eq!(*direction, Direction::Rtl);
    assert_eq!(origin.property, "style[ArabicBody]/pPr@bidi");
}

#[test]
fn a_style_continues_from_the_one_it_is_based_on() {
    let sheet = sheet(
        "<w:style w:type=\"paragraph\" w:styleId=\"Normal\">\
           <w:pPr><w:bidi/></w:pPr>\
           <w:rPr><w:rFonts w:cs=\"Dubai\"/></w:rPr></w:style>\
         <w:style w:type=\"paragraph\" w:styleId=\"Heading1\">\
           <w:basedOn w:val=\"Normal\"/>\
           <w:pPr><w:jc w:val=\"center\"/></w:pPr></w:style>",
    );
    let unit = resolve("<w:pPr><w:pStyle w:val=\"Heading1\"/></w:pPr>", &sheet);

    assert_eq!(
        inherited(&unit.props.alignment).1.property,
        "style[Heading1]/pPr@jc"
    );
    assert_eq!(
        inherited(&unit.props.direction).1.property,
        "style[Normal]/pPr@bidi"
    );
    assert_eq!(
        inherited(&unit.props.complex_font).1.property,
        "style[Normal]/rPr/rFonts@cs"
    );
}

#[test]
fn a_based_on_cycle_terminates_at_the_repeat() {
    let sheet = sheet(
        "<w:style w:type=\"paragraph\" w:styleId=\"A\">\
           <w:basedOn w:val=\"B\"/><w:pPr><w:bidi/></w:pPr></w:style>\
         <w:style w:type=\"paragraph\" w:styleId=\"B\"><w:basedOn w:val=\"A\"/></w:style>",
    );
    let unit = resolve("<w:pPr><w:pStyle w:val=\"A\"/></w:pPr>", &sheet);
    assert_eq!(*inherited(&unit.props.direction).0, Direction::Rtl);
}

#[test]
fn the_default_paragraph_style_answers_a_paragraph_that_names_none() {
    let sheet = sheet(
        "<w:style w:type=\"paragraph\" w:default=\"1\" w:styleId=\"Normal\">\
           <w:pPr><w:bidi/></w:pPr></w:style>",
    );
    assert_eq!(
        inherited(&resolve("", &sheet).props.direction).1.property,
        "style[Normal]/pPr@bidi"
    );
}

#[test]
fn a_paragraph_that_names_a_style_does_not_also_take_the_default_one() {
    let sheet = sheet(
        "<w:style w:type=\"paragraph\" w:default=\"1\" w:styleId=\"Normal\">\
           <w:pPr><w:bidi/></w:pPr></w:style>\
         <w:style w:type=\"paragraph\" w:styleId=\"Quote\">\
           <w:pPr><w:jc w:val=\"center\"/></w:pPr></w:style>",
    );
    let unit = resolve("<w:pPr><w:pStyle w:val=\"Quote\"/></w:pPr>", &sheet);
    assert_eq!(*inherited(&unit.props.alignment).0, Alignment::Center);
    assert!(unit.props.direction.is_unset());
}

#[test]
fn only_a_paragraph_style_can_be_the_documents_default_one() {
    let sheet = sheet(
        "<w:style w:type=\"character\" w:default=\"1\" w:styleId=\"DefaultParagraphFont\">\
           <w:rPr><w:rFonts w:cs=\"Dubai\"/></w:rPr></w:style>",
    );
    assert!(resolve("", &sheet).props.complex_font.is_unset());
    let unit = resolve_with_run(
        "",
        "<w:rPr><w:rStyle w:val=\"DefaultParagraphFont\"/></w:rPr>",
        &sheet,
    );
    assert_eq!(*inherited(&unit.props.complex_font).0, "Dubai");
}

#[test]
fn a_character_style_answers_before_the_paragraph_style() {
    let sheet = sheet(
        "<w:style w:type=\"paragraph\" w:default=\"1\" w:styleId=\"Normal\">\
           <w:rPr><w:rFonts w:cs=\"Times New Roman\"/></w:rPr></w:style>\
         <w:style w:type=\"character\" w:styleId=\"ArabicRun\">\
           <w:rPr><w:rFonts w:cs=\"Dubai\"/></w:rPr></w:style>",
    );
    let unit = resolve_with_run("", "<w:rPr><w:rStyle w:val=\"ArabicRun\"/></w:rPr>", &sheet);
    assert_eq!(
        inherited(&unit.props.complex_font).1.property,
        "style[ArabicRun]/rPr/rFonts@cs"
    );
}

#[test]
fn a_link_between_the_halves_of_one_style_is_not_a_hop() {
    let sheet = sheet(
        "<w:style w:type=\"paragraph\" w:styleId=\"Heading1\">\
           <w:link w:val=\"Heading1Char\"/><w:pPr><w:bidi/></w:pPr></w:style>\
         <w:style w:type=\"character\" w:styleId=\"Heading1Char\">\
           <w:rPr><w:rFonts w:cs=\"Dubai\"/></w:rPr></w:style>",
    );
    let unit = resolve("<w:pPr><w:pStyle w:val=\"Heading1\"/></w:pPr>", &sheet);
    assert_eq!(*inherited(&unit.props.direction).0, Direction::Rtl);
    assert!(unit.props.complex_font.is_unset());
}

#[test]
fn a_style_with_no_id_is_reachable_by_nothing_and_supplies_nothing() {
    let sheet = sheet("<w:style w:type=\"paragraph\"><w:pPr><w:bidi/></w:pPr></w:style>");
    assert!(sheet.is_empty());
    assert!(resolve("", &sheet).props.direction.is_unset());
}

#[test]
fn a_drawingml_style_source_in_a_word_part_supplies_nothing() {
    let sheet = StyleSheet::parse(
        STYLES,
        &format!(
            "<w:styles{W}{A}><w:style w:type=\"paragraph\" w:styleId=\"Normal\">\
               <a:lvl1pPr rtl=\"1\" algn=\"r\"/></w:style></w:styles>"
        ),
    )
    .expect("the stylesheet did not parse");
    assert!(sheet.is_empty());
}

#[test]
fn a_theme_reference_in_a_style_resolves_and_names_the_theme() {
    let scheme = FontScheme::parse(THEME, &theme("Sakkal Majalla", "Dubai")).unwrap();
    let sheet = sheet(
        "<w:style w:type=\"paragraph\" w:default=\"1\" w:styleId=\"Normal\">\
           <w:rPr><w:rFonts w:cstheme=\"minorBidi\"/></w:rPr></w:style>",
    )
    .with_theme(THEME, scheme);

    let unit = resolve("", &sheet);
    let (font, origin) = inherited(&unit.props.complex_font);
    assert_eq!(font, "Dubai");
    assert_eq!(origin.part, THEME);
    assert_eq!(origin.property, "fontScheme/minorFont/cs@typeface");
}

#[test]
fn a_theme_reference_a_paragraph_writes_itself_resolves_the_same_way() {
    let scheme = FontScheme::parse(THEME, &theme("Sakkal Majalla", "Dubai")).unwrap();
    let sheet = sheet("").with_theme(THEME, scheme);

    let unit = resolve_with_run(
        "",
        "<w:rPr><w:rFonts w:cstheme=\"majorBidi\"/></w:rPr>",
        &sheet,
    );
    let (font, origin) = inherited(&unit.props.complex_font);
    assert_eq!(font, "Sakkal Majalla");
    assert_eq!(origin.property, "fontScheme/majorFont/cs@typeface");
}

#[test]
fn a_theme_reference_wins_over_the_name_cached_beside_it_and_falls_back_to_it() {
    let with_theme = sheet("").with_theme(
        THEME,
        FontScheme::parse(THEME, &theme("Sakkal Majalla", "Dubai")).unwrap(),
    );
    let unit = resolve_with_run(
        "",
        "<w:rPr><w:rFonts w:cs=\"Arial\" w:cstheme=\"minorBidi\"/></w:rPr>",
        &with_theme,
    );
    assert_eq!(*inherited(&unit.props.complex_font).0, "Dubai");

    let unit = resolve_with_run(
        "",
        "<w:rPr><w:rFonts w:cs=\"Arial\" w:cstheme=\"minorBidi\"/></w:rPr>",
        &sheet(""),
    );
    assert_eq!(unit.props.complex_font, Resolved::Explicit("Arial".into()));
}

#[test]
fn a_theme_slot_naming_no_typeface_resolves_to_nothing() {
    let scheme = FontScheme::parse(THEME, &theme("", "")).unwrap();
    let sheet = sheet(
        "<w:style w:type=\"paragraph\" w:default=\"1\" w:styleId=\"Normal\">\
           <w:rPr><w:rFonts w:cstheme=\"minorBidi\"/></w:rPr></w:style>",
    )
    .with_theme(THEME, scheme);
    assert!(resolve("", &sheet).props.complex_font.is_unset());
}

#[test]
fn a_theme_slot_name_is_never_mistaken_for_a_typeface() {
    let sheet = sheet("");
    let unit = resolve_with_run(
        "",
        "<w:rPr><w:rFonts w:cstheme=\"minorBidi\"/></w:rPr>",
        &sheet,
    );
    assert!(unit.props.complex_font.is_unset());
}
