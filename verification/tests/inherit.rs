use mirsam_ooxml::inherit::{
    level_of_attribute, level_of_element, FontScheme, PartStyles, Placeholder, StyleIndex,
    TextStyle, ThemeFont, ThemeScript, Typeface,
};
use mirsam_ooxml::text::{Alignment, Direction, Origin, Properties, Resolved};

const NS: &str = r#"xmlns:a="http://schemas.openxmlformats.org/drawingml/2006/main" xmlns:p="http://schemas.openxmlformats.org/presentationml/2006/main""#;

const SLIDE: &str = "ppt/slides/slide1.xml";
const LAYOUT: &str = "ppt/slideLayouts/slideLayout1.xml";
const MASTER: &str = "ppt/slideMasters/slideMaster1.xml";
const THEME: &str = "ppt/theme/theme1.xml";

fn shape(placeholder: &str, body: &str) -> String {
    format!(
        r#"<p:sp><p:nvSpPr><p:cNvPr id="2" name="Title 1"/><p:cNvSpPr/><p:nvPr>{placeholder}</p:nvPr></p:nvSpPr><p:txBody><a:bodyPr/>{body}</p:txBody></p:sp>"#
    )
}

fn layout(placeholder: &str, list_style: &str) -> String {
    format!(
        r#"<p:sldLayout {NS}><p:cSld><p:spTree>{}</p:spTree></p:cSld></p:sldLayout>"#,
        shape(placeholder, &format!("<a:lstStyle>{list_style}</a:lstStyle>"))
    )
}

fn master(text_styles: &str) -> String {
    format!(
        r#"<p:sldMaster {NS}><p:cSld><p:spTree/></p:cSld><p:txStyles>{text_styles}</p:txStyles></p:sldMaster>"#
    )
}

fn index(layout_xml: &str, master_xml: &str) -> StyleIndex {
    StyleIndex::from_parts(
        vec![
            (LAYOUT.to_string(), PartStyles::parse(LAYOUT, layout_xml).unwrap()),
            (MASTER.to_string(), PartStyles::parse(MASTER, master_xml).unwrap()),
        ],
        vec![(
            SLIDE.to_string(),
            vec![SLIDE.to_string(), LAYOUT.to_string(), MASTER.to_string()],
        )],
    )
}

const ARABIC_MASTER: &str = r#"<p:titleStyle><a:lvl1pPr rtl="1" algn="r"/></p:titleStyle><p:bodyStyle><a:lvl1pPr rtl="1" algn="r"/></p:bodyStyle><p:otherStyle><a:lvl1pPr rtl="1" algn="r"/></p:otherStyle>"#;

#[test]
fn a_list_level_element_names_its_zero_based_level() {
    assert_eq!(level_of_element("a:lvl1pPr"), Some(0));
    assert_eq!(level_of_element("a:lvl9pPr"), Some(8));
    assert_eq!(level_of_element("a:lvl0pPr"), None);
    assert_eq!(level_of_element("a:lvl10pPr"), None);
    assert_eq!(level_of_element("a:lvlpPr"), None);
    assert_eq!(level_of_element("a:pPr"), None);
}

#[test]
fn a_level_attribute_is_clamped_not_rejected() {
    assert_eq!(level_of_attribute("0"), 0);
    assert_eq!(level_of_attribute(" 2 "), 2);
    assert_eq!(level_of_attribute("12"), 8);
    assert_eq!(level_of_attribute("x"), 0);
    assert_eq!(level_of_attribute(""), 0);
}

#[test]
fn a_typeface_is_a_name_or_a_theme_reference() {
    assert_eq!(Typeface::parse("Dubai"), Some(Typeface::Named("Dubai".into())));
    assert_eq!(
        Typeface::parse("+mn-cs"),
        Some(Typeface::Theme(ThemeFont::Minor, ThemeScript::Complex))
    );
    assert_eq!(
        Typeface::parse("+mj-lt"),
        Some(Typeface::Theme(ThemeFont::Major, ThemeScript::Latin))
    );
    assert_eq!(Typeface::parse(""), None);
    assert_eq!(Typeface::parse("+xx-cs"), None);
    assert_eq!(Typeface::parse("+mn-zz"), None);
    assert_eq!(Typeface::parse("+mn"), None);
}

#[test]
fn the_font_scheme_is_read_only_from_its_own_region() {
    let theme = format!(
        r#"<a:theme {NS}><a:themeElements><a:fontScheme name="x"><a:majorFont><a:latin typeface="Calibri Light"/><a:ea typeface=""/><a:cs typeface="Times New Roman"/></a:majorFont><a:minorFont><a:latin typeface="Calibri"/><a:cs typeface="Dubai"/></a:minorFont></a:fontScheme></a:themeElements><a:objectDefaults><a:cs typeface="Wrong"/></a:objectDefaults></a:theme>"#
    );
    let scheme = FontScheme::parse(THEME, &theme).unwrap();
    assert_eq!(scheme.typeface(ThemeFont::Minor, ThemeScript::Complex), Some("Dubai"));
    assert_eq!(scheme.typeface(ThemeFont::Major, ThemeScript::Complex), Some("Times New Roman"));
    assert_eq!(scheme.typeface(ThemeFont::Major, ThemeScript::EastAsian), None);
    assert_eq!(scheme.typeface(ThemeFont::Minor, ThemeScript::EastAsian), None);
    assert_eq!(
        FontScheme::property(ThemeFont::Minor, ThemeScript::Complex),
        "fontScheme/minorFont/cs@typeface"
    );
    assert!(!scheme.is_empty());
}

#[test]
fn placeholders_match_on_index_and_text_style() {
    let body = Placeholder::new("body", Some(1));
    let obj = Placeholder::new("obj", Some(1));
    let title = Placeholder::new("title", None);
    let ctr = Placeholder::new("ctrTitle", Some(0));
    assert!(body.matches(&obj));
    assert!(title.matches(&ctr));
    assert!(!body.matches(&title));
    assert_eq!(body.text_style(), TextStyle::Body);
    assert_eq!(Placeholder::new("pic", None).text_style(), TextStyle::Other);
    assert_eq!(body.property(1), "ph[type=body,idx=1]/lstStyle/lvl2pPr");
    assert_eq!(title.property(0), "ph[type=title]/lstStyle/lvl1pPr");
    assert_eq!(TextStyle::Body.property(0), "bodyStyle/lvl1pPr");
    assert_eq!(TextStyle::from_element("p:notesStyle"), Some(TextStyle::Notes));
    assert_eq!(TextStyle::from_element("p:txStyles"), None);
}

#[test]
fn direction_set_only_on_the_master_is_inherited_and_cited() {
    let styles = index(
        &layout(r#"<p:ph type="body" idx="1"/>"#, ""),
        &master(ARABIC_MASTER),
    );
    let mut props = Properties::default();
    styles.resolve(SLIDE, Some(&Placeholder::new("body", Some(1))), 0, &mut props);
    assert_eq!(
        props.direction,
        Resolved::Inherited(
            Direction::Rtl,
            Origin::new(MASTER, "bodyStyle/lvl1pPr@rtl".to_string())
        )
    );
    assert_eq!(
        props.alignment,
        Resolved::Inherited(
            Alignment::Right,
            Origin::new(MASTER, "bodyStyle/lvl1pPr@algn".to_string())
        )
    );
}

#[test]
fn the_nearest_source_wins_and_a_stated_value_is_kept() {
    let styles = index(
        &layout(
            r#"<p:ph type="body" idx="1"/>"#,
            r#"<a:lvl1pPr algn="ctr"/>"#,
        ),
        &master(ARABIC_MASTER),
    );
    let mut props = Properties::default();
    props.direction = Resolved::Explicit(Direction::Ltr);
    styles.resolve(SLIDE, Some(&Placeholder::new("body", Some(1))), 0, &mut props);
    assert_eq!(props.direction, Resolved::Explicit(Direction::Ltr));
    assert_eq!(
        props.alignment,
        Resolved::Inherited(
            Alignment::Center,
            Origin::new(LAYOUT, "ph[type=body,idx=1]/lstStyle/lvl1pPr@algn".to_string())
        )
    );
}

#[test]
fn only_the_same_level_answers() {
    let styles = index(
        &layout(r#"<p:ph type="body" idx="1"/>"#, ""),
        &master(ARABIC_MASTER),
    );
    let mut props = Properties::default();
    styles.resolve(SLIDE, Some(&Placeholder::new("body", Some(1))), 2, &mut props);
    assert_eq!(props, Properties::default());
}

#[test]
fn a_shape_that_is_not_a_placeholder_takes_other_style() {
    let styles = index(
        &layout(r#"<p:ph type="body" idx="1"/>"#, ""),
        &master(r#"<p:bodyStyle><a:lvl1pPr rtl="1"/></p:bodyStyle><p:otherStyle><a:lvl1pPr rtl="0"/></p:otherStyle>"#),
    );
    let mut props = Properties::default();
    styles.resolve(SLIDE, None, 0, &mut props);
    assert_eq!(
        props.direction,
        Resolved::Inherited(
            Direction::Ltr,
            Origin::new(MASTER, "otherStyle/lvl1pPr@rtl".to_string())
        )
    );
}

#[test]
fn a_theme_reference_resolves_through_the_theme_and_names_it() {
    let theme = format!(
        r#"<a:theme {NS}><a:themeElements><a:fontScheme name="x"><a:majorFont><a:latin typeface="A"/></a:majorFont><a:minorFont><a:cs typeface="Dubai"/></a:minorFont></a:fontScheme></a:themeElements></a:theme>"#
    );
    let styles = index(
        &layout(r#"<p:ph type="body" idx="1"/>"#, ""),
        &master(r#"<p:bodyStyle><a:lvl1pPr><a:defRPr><a:cs typeface="+mn-cs"/></a:defRPr></a:lvl1pPr></p:bodyStyle>"#),
    )
    .with_theme(THEME, FontScheme::parse(THEME, &theme).unwrap(), vec![SLIDE.to_string()]);
    let mut props = Properties::default();
    styles.resolve(SLIDE, Some(&Placeholder::new("body", Some(1))), 0, &mut props);
    assert_eq!(
        props.complex_font,
        Resolved::Inherited(
            "Dubai".to_string(),
            Origin::new(THEME, "fontScheme/minorFont/cs@typeface".to_string())
        )
    );
    assert_eq!(
        styles.theme_font(SLIDE, &Typeface::Theme(ThemeFont::Minor, ThemeScript::Complex)),
        Some((
            "Dubai".to_string(),
            Origin::new(THEME, "fontScheme/minorFont/cs@typeface".to_string())
        ))
    );
    assert_eq!(
        styles.theme_font(SLIDE, &Typeface::Named("Dubai".into())),
        None
    );
}

#[test]
fn a_part_with_no_chain_is_left_alone() {
    let styles = index(&layout(r#"<p:ph type="body" idx="1"/>"#, ""), &master(ARABIC_MASTER));
    let mut props = Properties::default();
    styles.resolve("ppt/slides/slide9.xml", None, 0, &mut props);
    assert_eq!(props, Properties::default());
}

#[test]
fn a_notes_master_answers_with_its_one_style() {
    let notes = format!(
        r#"<p:notesMaster {NS}><p:notesStyle><a:lvl1pPr rtl="1"/></p:notesStyle></p:notesMaster>"#
    );
    let parsed = PartStyles::parse("ppt/notesMasters/notesMaster1.xml", &notes).unwrap();
    let (style, _) = parsed.named(TextStyle::Title).unwrap();
    assert_eq!(style, TextStyle::Notes);
}

#[test]
fn a_shape_without_a_list_style_gives_nothing() {
    let parsed = PartStyles::parse(LAYOUT, &layout(r#"<p:ph type="body" idx="1"/>"#, "")).unwrap();
    assert!(parsed.is_empty());
    assert!(PartStyles::parse(LAYOUT, "<a><b></a>").is_err());
}

#[test]
fn a_level_too_large_for_a_number_clamps_to_the_last_level() {
    assert_eq!(level_of_attribute("99999999999999999999"), 8);
    assert_eq!(level_of_attribute("1"), 1);
    assert_eq!(level_of_attribute(" 3 "), 3);
}
