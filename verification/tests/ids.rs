use timemd::error::ParseErrorKind;
use timemd::ids::{BlockId, ProjectSlug, TodoId};

const MAX_LEN: usize = 64;

#[test]
fn accepts_lowercase_alphanumeric_and_dashes() {
    assert!(ProjectSlug::new("timemd").is_ok());
    assert!(ProjectSlug::new("side-project-2").is_ok());
    assert!(ProjectSlug::new("a").is_ok());
}

#[test]
fn rejects_uppercase_spaces_and_dots() {
    for candidate in ["TimeMD", "two words", "with.dot", "with_underscore"] {
        assert!(ProjectSlug::new(candidate).is_err(), "{candidate:?} should be rejected");
    }
}

#[test]
fn rejects_path_traversal() {
    for candidate in ["..", "../etc", "/etc/passwd", "a/b"] {
        assert!(ProjectSlug::new(candidate).is_err(), "{candidate:?} should be rejected");
    }
}

#[test]
fn rejects_empty_edge_dashes_and_overlong() {
    assert!(ProjectSlug::new("").is_err());
    assert!(ProjectSlug::new("-leading").is_err());
    assert!(ProjectSlug::new("trailing-").is_err());
    assert!(ProjectSlug::new(&"x".repeat(MAX_LEN + 1)).is_err());
    assert!(ProjectSlug::new(&"x".repeat(MAX_LEN)).is_ok());
}

#[test]
fn derives_slug_from_display_name() {
    assert_eq!(
        ProjectSlug::from_name("Deep Work!").map(|slug| slug.as_str().to_owned()),
        Some("deep-work".to_owned())
    );
    assert_eq!(
        ProjectSlug::from_name("  Réview  2026 ").map(|slug| slug.as_str().to_owned()),
        Some("r-view-2026".to_owned())
    );
}

#[test]
fn derives_nothing_from_an_unusable_name() {
    assert_eq!(ProjectSlug::from_name("!!!"), None);
    assert_eq!(ProjectSlug::from_name(""), None);
}

#[test]
fn round_trips_through_string() {
    let slug = ProjectSlug::new("timemd").expect("valid");
    assert_eq!(slug.as_str().to_string(), "timemd");
    assert_eq!(slug.as_str(), "timemd");
}

#[test]
fn block_ids_share_the_rule() {
    assert!(BlockId::new("deep-work").is_ok());
    assert!(BlockId::new("Deep Work").is_err());
}

#[test]
fn a_refused_slug_reports_what_it_was_given() {
    assert_eq!(
        ProjectSlug::new("Bad Slug"),
        Err(ParseErrorKind::InvalidSlug { found: "Bad Slug".to_owned() })
    );
}

#[test]
fn todo_ids_keep_case_and_underscores() {
    assert!(TodoId::new("dcf64c").is_ok());
    assert!(TodoId::new("Mixed_Case-1").is_ok());
    assert_eq!(
        TodoId::new("has space"),
        Err(ParseErrorKind::InvalidTodoId { found: "has space".to_owned() })
    );
    assert!(TodoId::new("").is_err());
}

#[test]
fn a_long_name_is_cut_before_its_dashes_are_trimmed() {
    let name = format!("{}!tail", "a".repeat(63));
    assert_eq!(
        ProjectSlug::from_name(&name).map(|slug| slug.as_str().to_owned()),
        Some("a".repeat(63))
    );
}
