use mirsam_ooxml::inherit::{text_parts, FontScheme, PartStyles, StyleIndex, ThemeFont, ThemeScript, Typeface};
use mirsam_ooxml::opc::{percent_decode, rels_part_for, resolve, source_part};
use mirsam_ooxml::rels::{PartRelationships, RelationshipGraph, Role, Target, OFFICE, PACKAGE_ROOT};

const NS: &str = "xmlns=\"http://schemas.openxmlformats.org/package/2006/relationships\"";

fn rels(entries: &str) -> String {
    format!("<?xml version=\"1.0\"?><Relationships {NS}>{entries}</Relationships>")
}

fn entry(id: &str, kind: &str, target: &str) -> String {
    format!("<Relationship Id=\"{id}\" Type=\"{OFFICE}{kind}\" Target=\"{target}\"/>")
}

fn graph_of(parts: &[(&str, String)]) -> RelationshipGraph {
    RelationshipGraph::from_parts(
        parts
            .iter()
            .map(|(name, xml)| PartRelationships::parse(name, xml).unwrap())
            .collect(),
    )
}

/// One slide, its layout, that layout's master, and the master's theme, plus
/// the package root pointing at a presentation.
fn deck() -> RelationshipGraph {
    graph_of(&[
        (
            "_rels/.rels",
            rels(&entry("rId1", "officeDocument", "ppt/presentation.xml")),
        ),
        (
            "ppt/_rels/presentation.xml.rels",
            rels(&format!(
                "{}{}",
                entry("rId1", "slideMaster", "slideMasters/slideMaster1.xml"),
                entry("rId2", "slide", "slides/slide1.xml"),
            )),
        ),
        (
            "ppt/slides/_rels/slide1.xml.rels",
            rels(&entry(
                "rId1",
                "slideLayout",
                "../slideLayouts/slideLayout1.xml",
            )),
        ),
        (
            "ppt/slideLayouts/_rels/slideLayout1.xml.rels",
            rels(&entry(
                "rId1",
                "slideMaster",
                "../slideMasters/slideMaster1.xml",
            )),
        ),
        (
            "ppt/slideMasters/_rels/slideMaster1.xml.rels",
            rels(&format!(
                "{}{}",
                entry("rId1", "slideLayout", "../slideLayouts/slideLayout1.xml"),
                entry("rId2", "theme", "../theme/theme1.xml"),
            )),
        ),
    ])
}

#[test]
fn a_rels_item_names_the_part_it_describes() {
    assert_eq!(
        source_part("ppt/slides/_rels/slide1.xml.rels"),
        "ppt/slides/slide1.xml"
    );
    assert_eq!(
        source_part("ppt/_rels/presentation.xml.rels"),
        "ppt/presentation.xml"
    );
    assert_eq!(source_part("_rels/.rels"), PACKAGE_ROOT);
}

#[test]
fn naming_a_rels_item_is_the_inverse_of_reading_one() {
    for part in [
        "ppt/slides/slide1.xml",
        "ppt/presentation.xml",
        "[Content_Types].xml",
    ] {
        assert_eq!(source_part(&rels_part_for(part)), part);
    }
}

#[test]
fn a_target_resolves_against_the_part_that_declared_it() {
    assert_eq!(
        resolve("ppt/slides", "../slideLayouts/slideLayout1.xml"),
        "ppt/slideLayouts/slideLayout1.xml"
    );
    assert_eq!(resolve("ppt", "slides/slide1.xml"), "ppt/slides/slide1.xml");
    assert_eq!(resolve("", "ppt/presentation.xml"), "ppt/presentation.xml");
    // Package-absolute, and a `.` segment that means nothing.
    assert_eq!(
        resolve("ppt/slides", "/ppt/theme/theme1.xml"),
        "ppt/theme/theme1.xml"
    );
    assert_eq!(
        resolve("ppt/slides", "./slide2.xml"),
        "ppt/slides/slide2.xml"
    );
}

#[test]
fn an_external_target_is_never_resolved_to_a_part() {
    let xml = rels(&format!(
        "<Relationship Id=\"rId1\" Type=\"{OFFICE}hyperlink\" \
         Target=\"https://example.com/a\" TargetMode=\"External\"/>"
    ));
    let parsed = PartRelationships::parse("ppt/slides/_rels/slide1.xml.rels", &xml).unwrap();
    let link = parsed.by_id("rId1").unwrap();
    assert_eq!(link.part(), None);
    assert_eq!(
        link.target(),
        &Target::External("https://example.com/a".into())
    );
}

#[test]
fn a_type_outside_the_standard_namespace_has_no_kind() {
    let xml = rels(
        "<Relationship Id=\"rId1\" \
         Type=\"http://schemas.microsoft.com/office/2007/relationships/slideLayout\" \
         Target=\"../slideLayouts/slideLayout1.xml\"/>",
    );
    let parsed = PartRelationships::parse("ppt/slides/_rels/slide1.xml.rels", &xml).unwrap();
    let item = parsed.by_id("rId1").unwrap();
    assert_eq!(item.kind(), None);
    assert!(!item.is("slideLayout"));
    assert_eq!(parsed.first_part_of_kind("slideLayout"), None);
}

#[test]
fn a_parts_role_comes_from_the_relationship_that_reaches_it() {
    let graph = deck();
    assert_eq!(graph.role_of("ppt/presentation.xml"), Role::OfficeDocument);
    assert_eq!(graph.role_of("ppt/slides/slide1.xml"), Role::Slide);
    assert_eq!(
        graph.role_of("ppt/slideLayouts/slideLayout1.xml"),
        Role::SlideLayout
    );
    assert_eq!(
        graph.role_of("ppt/slideMasters/slideMaster1.xml"),
        Role::SlideMaster
    );
    assert_eq!(graph.role_of("ppt/theme/theme1.xml"), Role::Theme);
    // Nothing points at it, so the graph claims nothing about it.
    assert_eq!(graph.role_of("ppt/media/image1.png"), Role::Other);
}

#[test]
fn a_slide_inherits_from_its_layout_then_master_then_theme() {
    let graph = deck();
    assert_eq!(
        graph.inheritance_chain("ppt/slides/slide1.xml"),
        [
            "ppt/slides/slide1.xml",
            "ppt/slideLayouts/slideLayout1.xml",
            "ppt/slideMasters/slideMaster1.xml",
            "ppt/theme/theme1.xml",
        ]
    );
    assert_eq!(
        graph.layout_of("ppt/slides/slide1.xml").as_deref(),
        Some("ppt/slideLayouts/slideLayout1.xml")
    );
    assert_eq!(
        graph.master_of("ppt/slides/slide1.xml").as_deref(),
        Some("ppt/slideMasters/slideMaster1.xml")
    );
    assert_eq!(
        graph.theme_of("ppt/slides/slide1.xml").as_deref(),
        Some("ppt/theme/theme1.xml")
    );
}

#[test]
fn a_master_walks_up_to_its_theme_and_never_down_to_a_layout() {
    // The master lists its layout before its theme, so a walk that followed
    // the first relationship rather than the role would descend.
    let graph = deck();
    assert_eq!(
        graph.ancestors("ppt/slideMasters/slideMaster1.xml"),
        ["ppt/theme/theme1.xml"]
    );
}

#[test]
fn the_presentation_is_reached_from_the_package_root() {
    assert_eq!(deck().office_document(), Some("ppt/presentation.xml"));
}

#[test]
fn a_part_outside_the_chain_inherits_nothing() {
    let graph = deck();
    assert!(graph.ancestors("ppt/media/image1.png").is_empty());
    assert_eq!(
        graph.inheritance_chain("ppt/media/image1.png"),
        ["ppt/media/image1.png"]
    );
}

#[test]
fn a_cycle_in_the_relationships_terminates_the_walk() {
    // Two layouts naming each other as master: malformed, and the kind of
    // thing to survive rather than hang on.
    let graph = graph_of(&[
        (
            "_rels/.rels",
            rels(&entry("rId1", "officeDocument", "ppt/presentation.xml")),
        ),
        (
            "ppt/_rels/presentation.xml.rels",
            rels(&entry("rId1", "slideLayout", "a.xml")),
        ),
        (
            "ppt/_rels/a.xml.rels",
            rels(&entry("rId1", "slideMaster", "b.xml")),
        ),
        (
            "ppt/_rels/b.xml.rels",
            rels(&entry("rId1", "theme", "a.xml")),
        ),
    ]);
    // `b.xml` names `a.xml` as its theme; the walk stops at the repeat
    // rather than emitting it a second time.
    assert_eq!(graph.ancestors("ppt/a.xml"), ["ppt/b.xml"]);
}

#[test]
fn a_relationship_missing_an_attribute_is_skipped_not_fatal() {
    let xml = rels(&format!(
        "<Relationship Id=\"rId1\" Type=\"{OFFICE}slideLayout\"/>{}",
        entry("rId2", "theme", "../theme/theme1.xml")
    ));
    let parsed = PartRelationships::parse("ppt/slides/_rels/slide1.xml.rels", &xml).unwrap();
    assert_eq!(parsed.iter().count(), 1);
    assert_eq!(
        parsed.first_part_of_kind("theme"),
        Some("ppt/theme/theme1.xml")
    );
}

#[test]
fn a_target_keeps_the_encoding_the_package_stores() {
    let xml = rels(&entry("rId1", "image", "../media/my%20image.png"));
    let mut parsed = PartRelationships::parse("ppt/slides/_rels/slide1.xml.rels", &xml).unwrap();

    // The package stores the encoded name.
    parsed.realign(&["ppt/media/my%20image.png"]);
    assert_eq!(
        parsed.first_part_of_kind("image"),
        Some("ppt/media/my%20image.png")
    );

    // A package that stores the decoded name gets the decoded name.
    let mut parsed = PartRelationships::parse("ppt/slides/_rels/slide1.xml.rels", &xml).unwrap();
    parsed.realign(&["ppt/media/my image.png"]);
    assert_eq!(
        parsed.first_part_of_kind("image"),
        Some("ppt/media/my image.png")
    );
}

#[test]
fn a_dangling_target_keeps_the_name_it_asked_for() {
    let xml = rels(&entry("rId1", "image", "../media/gone.png"));
    let mut parsed = PartRelationships::parse("ppt/slides/_rels/slide1.xml.rels", &xml).unwrap();
    parsed.realign(&["ppt/media/other.png"]);
    assert_eq!(
        parsed.first_part_of_kind("image"),
        Some("ppt/media/gone.png")
    );
}

// ---------------------------------------------------------------- beyond the originals

#[test]
fn the_source_of_a_parsed_item_is_the_part_it_describes() {
    let parsed =
        PartRelationships::parse("ppt/slides/_rels/slide1.xml.rels", &rels("")).unwrap();
    assert_eq!(parsed.source(), "ppt/slides/slide1.xml");
    assert_eq!(parsed.iter().count(), 0);
}

#[test]
fn a_malformed_rels_item_is_a_format_error() {
    let result = PartRelationships::parse("ppt/_rels/x.xml.rels", "<Relationships><a></b></Relationships>");
    assert!(matches!(result, Err(mirsam_ooxml::error::Error::Format(_))));
}

#[test]
fn a_relationship_reports_its_id_type_and_kind() {
    let parsed = PartRelationships::parse(
        "ppt/slides/_rels/slide1.xml.rels",
        &rels(&entry("rId7", "slideLayout", "../slideLayouts/slideLayout2.xml")),
    )
    .unwrap();
    let item = parsed.by_id("rId7").unwrap();
    assert_eq!(item.id(), "rId7");
    assert_eq!(item.relationship_type(), format!("{OFFICE}slideLayout"));
    assert_eq!(item.kind(), Some("slideLayout"));
    assert!(item.is("slideLayout"));
    assert!(!item.is("slide"));
    assert_eq!(item.part(), Some("ppt/slideLayouts/slideLayout2.xml"));
    assert!(parsed.by_id("rId8").is_none());
}

#[test]
fn of_kind_lists_every_relationship_of_that_kind_in_order() {
    let parsed = PartRelationships::parse(
        "ppt/slideMasters/_rels/slideMaster1.xml.rels",
        &rels(&format!(
            "{}{}{}",
            entry("rId1", "slideLayout", "../slideLayouts/slideLayout1.xml"),
            entry("rId2", "theme", "../theme/theme1.xml"),
            entry("rId3", "slideLayout", "../slideLayouts/slideLayout2.xml"),
        )),
    )
    .unwrap();
    let layouts: Vec<&str> = parsed.of_kind("slideLayout").into_iter().map(|r| r.id()).collect();
    assert_eq!(layouts, ["rId1", "rId3"]);
}

#[test]
fn parts_with_a_role_come_in_name_order() {
    let graph = graph_of(&[(
        "ppt/_rels/presentation.xml.rels",
        rels(&format!(
            "{}{}{}",
            entry("rId1", "slide", "slides/slide2.xml"),
            entry("rId2", "slide", "slides/slide1.xml"),
            entry("rId3", "slide", "slides/slide2.xml"),
        )),
    )]);
    assert_eq!(
        graph.parts_with_role(Role::Slide),
        ["ppt/slides/slide1.xml", "ppt/slides/slide2.xml"]
    );
    assert!(graph.parts_with_role(Role::Other).is_empty());
    assert!(graph.parts_with_role(Role::Theme).is_empty());
}

#[test]
fn a_part_reached_two_ways_takes_the_earlier_role() {
    let graph = graph_of(&[(
        "ppt/_rels/presentation.xml.rels",
        rels(&format!(
            "{}{}",
            entry("rId1", "theme", "x.xml"),
            entry("rId2", "slide", "x.xml"),
        )),
    )]);
    assert_eq!(graph.role_of("ppt/x.xml"), Role::Slide);
}

#[test]
fn a_later_rels_item_for_the_same_part_replaces_the_earlier() {
    let graph = graph_of(&[
        (
            "ppt/_rels/presentation.xml.rels",
            rels(&entry("rId1", "slide", "slides/old.xml")),
        ),
        (
            "ppt/_rels/presentation.xml.rels",
            rels(&entry("rId1", "slide", "slides/new.xml")),
        ),
    ]);
    assert_eq!(
        graph.target_of("ppt/presentation.xml", "rId1"),
        Some("ppt/slides/new.xml")
    );
    assert_eq!(graph.role_of("ppt/slides/old.xml"), Role::Other);
    assert!(graph.of("ppt/nothing.xml").is_none());
}

#[test]
fn each_role_inherits_from_its_own_kind() {
    assert_eq!(Role::Slide.inherits_from(), Some("slideLayout"));
    assert_eq!(Role::SlideLayout.inherits_from(), Some("slideMaster"));
    assert_eq!(Role::HandoutMaster.inherits_from(), Some("slideMaster"));
    assert_eq!(Role::NotesSlide.inherits_from(), Some("notesMaster"));
    assert_eq!(Role::SlideMaster.inherits_from(), Some("theme"));
    assert_eq!(Role::NotesMaster.inherits_from(), Some("theme"));
    assert_eq!(Role::Theme.inherits_from(), None);
    assert_eq!(Role::OfficeDocument.inherits_from(), None);
    assert_eq!(Role::from_kind("notesSlide"), Role::NotesSlide);
    assert_eq!(Role::from_kind("image"), Role::Other);
    assert_eq!(Role::default(), Role::Other);
}

#[test]
fn a_notes_slide_finds_its_notes_master() {
    let graph = graph_of(&[
        (
            "ppt/_rels/presentation.xml.rels",
            rels(&entry("rId1", "notesSlide", "notesSlides/notesSlide1.xml")),
        ),
        (
            "ppt/notesSlides/_rels/notesSlide1.xml.rels",
            rels(&entry("rId1", "notesMaster", "../notesMasters/notesMaster1.xml")),
        ),
    ]);
    assert_eq!(
        graph.master_of("ppt/notesSlides/notesSlide1.xml").as_deref(),
        Some("ppt/notesMasters/notesMaster1.xml")
    );
    assert_eq!(graph.layout_of("ppt/notesSlides/notesSlide1.xml"), None);
}

#[test]
fn percent_decoding_turns_escapes_into_bytes() {
    assert_eq!(percent_decode("my%20image.png"), "my image.png");
    assert_eq!(percent_decode("100%"), "100%");
    assert_eq!(percent_decode("%zz"), "%zz");
}

#[test]
fn an_escape_is_a_percent_sign_and_two_hex_digits_only() {
    assert_eq!(percent_decode("%+1"), "%+1");
    assert_eq!(percent_decode("%a\u{e9}"), "%a\u{e9}");
    assert_eq!(percent_decode("%d8%a7"), "\u{627}");
}

#[test]
fn a_role_does_not_depend_on_the_order_the_rels_items_are_given_in() {
    let items = [
        ("ppt/_rels/presentation.xml.rels", rels(&entry("rId1", "slideMaster", "slideMasters/slideMaster1.xml"))),
        ("ppt/slideLayouts/_rels/slideLayout1.xml.rels", rels(&entry("rId1", "slideMaster", "../slideMasters/slideMaster1.xml"))),
        ("ppt/slides/_rels/slide1.xml.rels", rels(&entry("rId1", "theme", "../slideMasters/slideMaster1.xml"))),
    ];
    let forward: Vec<(&str, String)> = items.iter().map(|(n, x)| (*n, x.clone())).collect();
    let backward: Vec<(&str, String)> = items.iter().rev().map(|(n, x)| (*n, x.clone())).collect();
    let a = graph_of(&forward);
    let b = graph_of(&backward);
    assert_eq!(a.role_of("ppt/slideMasters/slideMaster1.xml"), Role::SlideMaster);
    assert_eq!(b.role_of("ppt/slideMasters/slideMaster1.xml"), Role::SlideMaster);
}

#[test]
fn a_resolved_name_holds_no_leading_slash_and_no_dot_segments() {
    assert_eq!(resolve("ppt/slides", "../../../media/./a.png"), "media/a.png");
    assert_eq!(resolve("ppt/slides", "/ppt//media/../a.png"), "ppt/a.png");
    assert_eq!(resolve("anything", "/x.xml"), resolve("", "/x.xml"));
}

#[test]
fn only_the_parts_a_slide_inherits_from_carry_text() {
    let names: Vec<String> = [
        "ppt/presentation.xml",
        "ppt/slides/slide1.xml",
        "ppt/slideLayouts/slideLayout1.xml",
        "ppt/slideMasters/slideMaster1.xml",
        "ppt/theme/theme1.xml",
        "docProps/core.xml",
    ]
    .iter()
    .map(|s| s.to_string())
    .collect();
    assert_eq!(
        text_parts(&deck(), &names),
        vec![
            "ppt/slides/slide1.xml".to_string(),
            "ppt/slideLayouts/slideLayout1.xml".to_string(),
            "ppt/slideMasters/slideMaster1.xml".to_string(),
        ]
    );
}

#[test]
fn an_index_links_each_part_to_its_chain_and_its_theme() {
    let ns = r#"xmlns:a="http://schemas.openxmlformats.org/drawingml/2006/main" xmlns:p="http://schemas.openxmlformats.org/presentationml/2006/main""#;
    let master = format!(
        r#"<p:sldMaster {ns}><p:cSld><p:spTree/></p:cSld><p:txStyles><p:bodyStyle><a:lvl1pPr rtl="1"/></p:bodyStyle></p:txStyles></p:sldMaster>"#
    );
    let theme = format!(
        r#"<a:theme {ns}><a:themeElements><a:fontScheme name="x"><a:majorFont><a:latin typeface="A"/></a:majorFont><a:minorFont><a:cs typeface="Dubai"/></a:minorFont></a:fontScheme></a:themeElements></a:theme>"#
    );
    let slide = "ppt/slides/slide1.xml";
    let master_part = "ppt/slideMasters/slideMaster1.xml";
    let theme_part = "ppt/theme/theme1.xml";
    let index = StyleIndex::index_from(
        &deck(),
        vec![
            (slide.to_string(), PartStyles::parse(slide, &format!(r#"<p:sld {ns}><p:cSld><p:spTree/></p:cSld></p:sld>"#)).unwrap()),
            (master_part.to_string(), PartStyles::parse(master_part, &master).unwrap()),
        ],
        vec![(theme_part.to_string(), FontScheme::parse(theme_part, &theme).unwrap())],
    );
    assert_eq!(
        index.theme_font(slide, &Typeface::Theme(ThemeFont::Minor, ThemeScript::Complex)).map(|(name, _)| name),
        Some("Dubai".to_string())
    );
}
