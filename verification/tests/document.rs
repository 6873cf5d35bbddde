use timemd::document::Document;

const DAY: &str = "---\ndate: 2026-08-01\n---\n\n# 2026-08-01\n\n## Sessions\n\n- 09:00-09:25 (25m) [[timemd]] file store\n\n## Notes\n\nFree-form prose.\n";

#[test]
fn round_trips_a_canonical_document_byte_for_byte() {
    let document = Document::parse(DAY).expect("parses");
    assert_eq!(document.render(), DAY);
}

#[test]
fn reads_frontmatter_and_sections() {
    let document = Document::parse(DAY).expect("parses");
    assert_eq!(document.front_text_value("date"), Some("2026-08-01".to_owned()));
    assert_eq!(document.section("Sessions").map(|section| section.content().len()), Some(1));
    assert!(document.section("Notes").is_some());
    assert!(document.section("Nope").is_none());
}

#[test]
fn preserves_unknown_sections_and_keys_across_a_write() {
    let source = "---\ndate: 2026-08-01\nmood: focused\n---\n\n## Sessions\n\n- 09:00-09:25 (25m) [[timemd]] old\n\n## Retrospective\n\nAgent-authored prose\nover several lines.\n";
    let mut document = Document::parse(source).expect("parses");
    document.upsert_section("Sessions", vec!["- 10:00-10:25 (25m) [[timemd]] new".to_owned()], &[]);

    let rendered = document.render();
    assert!(rendered.contains("mood: focused"), "{rendered}");
    assert!(
        rendered.contains("## Retrospective\n\nAgent-authored prose\nover several lines.\n"),
        "{rendered}"
    );
    assert!(rendered.contains("- 10:00-10:25 (25m) [[timemd]] new"));
    assert!(!rendered.contains("old"));
}

#[test]
fn inserts_new_sections_in_canonical_order() {
    let source = "---\ndate: 2026-08-01\n---\n\n## Sessions\n\n- 09:00-09:25 (25m) work\n";
    let mut document = Document::parse(source).expect("parses");
    document.upsert_section("Schedule", vec!["- 16:00-17:00 talk".to_owned()], &[]);
    document.upsert_section("Notes", vec!["hi".to_owned()], &["Sessions", "Schedule"]);

    let rendered = document.render();
    let schedule = rendered.find("## Schedule").expect("schedule present");
    let sessions = rendered.find("## Sessions").expect("sessions present");
    let notes = rendered.find("## Notes").expect("notes present");
    assert!(schedule < sessions, "{rendered}");
    assert!(sessions < notes, "{rendered}");
}

#[test]
fn empty_content_removes_the_section() {
    let mut document = Document::parse(DAY).expect("parses");
    document.upsert_section("Sessions", Vec::new(), &[]);
    let rendered = document.render();
    assert!(!rendered.contains("## Sessions"), "{rendered}");
    assert!(rendered.contains("## Notes"), "{rendered}");
}

#[test]
fn handles_a_document_without_frontmatter() {
    let source = "# Just prose\n\n## Notes\n\nhello\n";
    let document = Document::parse(source).expect("parses");
    assert_eq!(document.render(), source);
}

#[test]
fn treats_an_unterminated_fence_as_prose() {
    let source = "---\ndate: 2026-08-01\n\n# no closing fence\n";
    let document = Document::parse(source).expect("parses");
    assert_eq!(document.render(), source);
    assert_eq!(document.front_text_value("date"), None);
}

#[test]
fn preserves_an_empty_frontmatter_block() {
    let source = "---\n---\n\n## Notes\n\nhi\n";
    let document = Document::parse(source).expect("parses");
    assert_eq!(document.render(), source);
}

#[test]
fn setting_a_key_leaves_the_others_alone() {
    let mut document = Document::parse(DAY).expect("parses");
    document.set_front_text("timezone", "Europe/Berlin");
    let rendered = document.render();
    assert!(rendered.contains("date: 2026-08-01"), "{rendered}");
    assert!(rendered.contains("timezone: Europe/Berlin"), "{rendered}");
}

#[test]
fn rejects_malformed_yaml_frontmatter() {
    assert!(Document::parse("---\nkey: [unclosed\n---\n\nbody\n").is_err());
}

#[test]
fn section_content_skips_blank_lines_and_numbers_from_one() {
    let document = Document::parse("## Sessions\n\n- a\n\n- b\n").expect("parses");
    let section = document.section("Sessions").expect("present");
    let collected = section.content();
    assert_eq!(collected, vec![(2, "- a".to_owned()), (4, "- b".to_owned())]);
}

