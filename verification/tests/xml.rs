use mirsam_ooxml::chart::scan;
use mirsam_ooxml::error::Error;
use mirsam_ooxml::xml::{read_events, read_events_lenient, Kind};

#[test]
fn a_part_the_parser_rejects_is_named_in_the_error() {
    match read_events("word/document.xml", "<a></b>") {
        Err(Error::Format(m)) => assert!(m.starts_with("word/document.xml: "), "{m}"),
        _ => panic!("a mismatched end tag must be refused"),
    }
}

#[test]
fn every_event_of_a_wellformed_part_is_read() {
    let events = read_events("x.xml", "<a><b/>hi</a>").ok().unwrap();
    let kinds: Vec<Kind> = events.iter().map(|t| t.kind).collect();
    assert_eq!(kinds, vec![Kind::Start, Kind::Empty, Kind::Text, Kind::End]);
    assert_eq!(events[2].text, "hi");
}

#[test]
fn the_lenient_reader_keeps_what_precedes_the_first_error() {
    let events = read_events_lenient("<a><b/></c>");
    assert_eq!(events.len(), 2);
    assert_eq!(events[0].kind, Kind::Start);
    assert_eq!(events[1].kind, Kind::Empty);
}

#[test]
fn a_part_that_is_not_a_chart_scans_to_nothing() {
    let units = scan("ppt/slides/slide1.xml", "<p:sld><a:t>x</a:t></p:sld>").ok().unwrap();
    assert!(units.is_empty());
}

#[test]
fn a_chart_the_parser_rejects_fails_with_its_part() {
    match scan("ppt/charts/chart1.xml", "<c:chartSpace></c:plotArea>") {
        Err(Error::Format(m)) => assert!(m.starts_with("ppt/charts/chart1.xml: "), "{m}"),
        _ => panic!("a rejected chart must fail"),
    }
}

#[test]
fn line_ends_in_text_are_read_as_line_feeds() {
    assert_eq!(
        mirsam_ooxml::xml::decode_text("a\r\nb\rc\n").iter().collect::<String>(),
        "a\nb\nc\n"
    );
}
