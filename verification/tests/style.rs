use mirsam_ooxml::inherit::{FontScheme, ThemeFont, ThemeScript};
use mirsam_ooxml::style::{bullet_of, theme_reference, StyleSheet};
use mirsam_ooxml::text::{Alignment, Bullet, Direction, Origin, Properties, Resolved};

const STYLES: &str = "word/styles.xml";
const THEME: &str = "word/theme/theme1.xml";
const W: &str = r#" xmlns:w="http://schemas.openxmlformats.org/wordprocessingml/2006/main""#;
const A: &str = r#" xmlns:a="http://schemas.openxmlformats.org/drawingml/2006/main""#;

fn sheet(body: &str) -> StyleSheet {
    StyleSheet::parse(STYLES, &format!("<w:styles{W}>{body}</w:styles>")).expect("the stylesheet did not parse")
}

fn theme(major: &str, minor: &str) -> String {
    format!(
        "<a:theme{A}><a:themeElements><a:fontScheme name=\"Office\">\
         <a:majorFont><a:latin typeface=\"Calibri Light\"/><a:ea typeface=\"\"/>\
         <a:cs typeface=\"{major}\"/></a:majorFont>\
         <a:minorFont><a:latin typeface=\"Calibri\"/><a:ea typeface=\"\"/>\
         <a:cs typeface=\"{minor}\"/></a:minorFont>\
         </a:fontScheme></a:themeElements></a:theme>"
    )
}

fn origin(property: &str) -> Origin {
    Origin::new(STYLES, property.to_string())
}

#[test]
fn doc_defaults_answer_a_direct_resolve() {
    let sheet = sheet(
        "<w:docDefaults>\
           <w:pPrDefault><w:pPr><w:bidi/><w:jc w:val=\"right\"/></w:pPr></w:pPrDefault>\
           <w:rPrDefault><w:rPr><w:rFonts w:cs=\"Dubai\"/></w:rPr></w:rPrDefault>\
         </w:docDefaults>",
    );
    let mut props = Properties::default();
    sheet.resolve(None, None, &mut props);
    assert_eq!(props.direction, Resolved::Inherited(Direction::Rtl, origin("docDefaults/pPrDefault/pPr@bidi")));
    assert_eq!(props.alignment, Resolved::Inherited(Alignment::End, origin("docDefaults/pPrDefault/pPr@jc")));
    assert_eq!(
        props.complex_font,
        Resolved::Inherited("Dubai".to_string(), origin("docDefaults/rPrDefault/rPr/rFonts@cs"))
    );
}

#[test]
fn a_named_style_and_its_based_on_chain_come_before_the_defaults() {
    let sheet = sheet(
        "<w:docDefaults><w:pPrDefault><w:pPr><w:bidi w:val=\"0\"/><w:jc w:val=\"left\"/></w:pPr></w:pPrDefault></w:docDefaults>\
         <w:style w:type=\"paragraph\" w:styleId=\"Base\"><w:pPr><w:jc w:val=\"center\"/></w:pPr></w:style>\
         <w:style w:type=\"paragraph\" w:styleId=\"Arabic\"><w:basedOn w:val=\"Base\"/><w:pPr><w:bidi/></w:pPr></w:style>",
    );
    let mut props = Properties::default();
    sheet.resolve(Some("Arabic"), None, &mut props);
    assert_eq!(props.direction, Resolved::Inherited(Direction::Rtl, origin("style[Arabic]/pPr@bidi")));
    assert_eq!(props.alignment, Resolved::Inherited(Alignment::Center, origin("style[Base]/pPr@jc")));
}

#[test]
fn a_paragraph_naming_no_style_takes_the_default_paragraph_style() {
    let sheet = sheet(
        "<w:style w:type=\"paragraph\" w:default=\"1\" w:styleId=\"Normal\"><w:pPr><w:bidi/></w:pPr></w:style>\
         <w:style w:type=\"paragraph\" w:styleId=\"Plain\"><w:pPr><w:jc w:val=\"both\"/></w:pPr></w:style>",
    );
    let mut props = Properties::default();
    sheet.resolve(None, None, &mut props);
    assert_eq!(props.direction, Resolved::Inherited(Direction::Rtl, origin("style[Normal]/pPr@bidi")));

    // Naming a style is the whole answer: the default one is not also taken.
    let mut props = Properties::default();
    sheet.resolve(Some("Plain"), None, &mut props);
    assert_eq!(props.direction, Resolved::Unset);
    assert_eq!(props.alignment, Resolved::Inherited(Alignment::Justify, origin("style[Plain]/pPr@jc")));
}

#[test]
fn direct_formatting_wins_over_every_style() {
    let sheet = sheet(
        "<w:docDefaults><w:pPrDefault><w:pPr><w:bidi/></w:pPr></w:pPrDefault></w:docDefaults>",
    );
    let mut props = Properties::default();
    props.direction = Resolved::Explicit(Direction::Ltr);
    sheet.resolve(None, None, &mut props);
    assert_eq!(props.direction, Resolved::Explicit(Direction::Ltr));
}

#[test]
fn a_cycle_of_based_on_styles_is_walked_once_and_stopped() {
    let sheet = sheet(
        "<w:style w:styleId=\"A\"><w:basedOn w:val=\"B\"/></w:style>\
         <w:style w:styleId=\"B\"><w:basedOn w:val=\"A\"/><w:pPr><w:bidi/></w:pPr></w:style>",
    );
    let mut props = Properties::default();
    sheet.resolve(Some("A"), None, &mut props);
    assert_eq!(props.direction, Resolved::Inherited(Direction::Rtl, origin("style[B]/pPr@bidi")));
}

#[test]
fn a_theme_reference_wins_over_the_name_beside_it() {
    let sheet = sheet(
        "<w:docDefaults><w:rPrDefault><w:rPr><w:rFonts w:cstheme=\"minorBidi\" w:cs=\"Arial\"/></w:rPr></w:rPrDefault></w:docDefaults>",
    )
    .with_theme(THEME, FontScheme::parse(THEME, &theme("Times New Roman", "Dubai")).unwrap());
    let mut props = Properties::default();
    sheet.resolve(None, None, &mut props);
    assert_eq!(
        props.complex_font,
        Resolved::Inherited(
            "Dubai".to_string(),
            Origin::new(THEME, "fontScheme/minorFont/cs@typeface".to_string())
        )
    );
    assert_eq!(
        sheet.theme_font((ThemeFont::Major, ThemeScript::Complex)),
        Some((
            "Times New Roman".to_string(),
            Origin::new(THEME, "fontScheme/majorFont/cs@typeface".to_string())
        ))
    );
}

#[test]
fn without_a_theme_the_named_font_answers() {
    let sheet = sheet(
        "<w:docDefaults><w:rPrDefault><w:rPr><w:rFonts w:cstheme=\"minorBidi\" w:cs=\"Arial\"/></w:rPr></w:rPrDefault></w:docDefaults>",
    );
    let mut props = Properties::default();
    sheet.resolve(None, None, &mut props);
    assert_eq!(
        props.complex_font,
        Resolved::Inherited("Arial".to_string(), origin("docDefaults/rPrDefault/rPr/rFonts@cs"))
    );
}

#[test]
fn a_list_in_a_style_is_resolved_and_num_id_zero_suppresses_it() {
    let sheet = sheet(
        "<w:style w:styleId=\"List\"><w:pPr><w:numPr><w:ilvl w:val=\"0\"/><w:numId w:val=\"3\"/></w:numPr></w:pPr></w:style>\
         <w:style w:styleId=\"NoList\"><w:pPr><w:numPr><w:numId w:val=\"0\"/></w:numPr></w:pPr></w:style>",
    );
    let mut props = Properties::default();
    sheet.resolve(Some("List"), None, &mut props);
    assert_eq!(props.bullet, Bullet::Native);
    let mut props = Properties::default();
    sheet.resolve(Some("NoList"), None, &mut props);
    assert_eq!(props.bullet, Bullet::Suppressed);
    assert_eq!(bullet_of(" 0 "), Bullet::Suppressed);
    assert_eq!(bullet_of("7"), Bullet::Native);
}

#[test]
fn a_table_alignment_inside_a_style_is_not_a_paragraph_alignment() {
    let sheet = sheet(
        "<w:style w:type=\"table\" w:styleId=\"Grid\"><w:tblPr><w:jc w:val=\"center\"/></w:tblPr></w:style>",
    );
    let mut props = Properties::default();
    sheet.resolve(Some("Grid"), None, &mut props);
    assert_eq!(props.alignment, Resolved::Unset);
    assert!(sheet.is_empty());
}

#[test]
fn the_run_style_comes_first() {
    let sheet = sheet(
        "<w:style w:type=\"character\" w:styleId=\"Emph\"><w:rPr><w:rFonts w:cs=\"Dubai\"/></w:rPr></w:style>\
         <w:docDefaults><w:rPrDefault><w:rPr><w:rFonts w:cs=\"Arial\"/></w:rPr></w:rPrDefault></w:docDefaults>",
    );
    let mut props = Properties::default();
    sheet.resolve(None, Some("Emph"), &mut props);
    assert_eq!(
        props.complex_font,
        Resolved::Inherited("Dubai".to_string(), origin("style[Emph]/rPr/rFonts@cs"))
    );
}

#[test]
fn word_theme_references_name_a_slot() {
    assert_eq!(theme_reference("minorBidi"), Some((ThemeFont::Minor, ThemeScript::Complex)));
    assert_eq!(theme_reference("majorHAnsi"), Some((ThemeFont::Major, ThemeScript::Latin)));
    assert_eq!(theme_reference("Dubai"), None);
}
