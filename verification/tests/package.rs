use mirsam_ooxml::package::plan_rewrite;

fn names(v: &[&str]) -> Vec<String> {
    v.iter().map(|s| s.to_string()).collect()
}

#[test]
fn only_the_edited_entries_are_written_anew() {
    let entries = names(&["[Content_Types].xml", "ppt/slides/slide1.xml", "ppt/media/image1.png"]);
    let edits = names(&["ppt/slides/slide1.xml"]);
    let (replaced, applied) = plan_rewrite(&entries, &edits).unwrap();
    assert_eq!(replaced, [false, true, false]);
    assert_eq!(applied, 1);
}

#[test]
fn an_edit_naming_a_missing_part_refuses_the_rewrite() {
    let entries = names(&["[Content_Types].xml", "ppt/slides/slide1.xml"]);
    let edits = names(&["ppt/slides/slide1.xml", "ppt/slides/slide9.xml"]);
    assert_eq!(
        plan_rewrite(&entries, &edits),
        Err("ppt/slides/slide9.xml".to_string())
    );
}

#[test]
fn no_edits_copies_everything_raw() {
    let entries = names(&["a.xml", "b.xml"]);
    assert_eq!(plan_rewrite(&entries, &[]), Ok((vec![false, false], 0)));
}
