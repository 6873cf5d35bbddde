use timemd::clock::TimeOfDay;
use timemd::grammar::{
    date, format_date, format_time, format_wikilink, list_item, reminder_suffix,
    skip_duration_group, span, split_token, take_backtick_id, time, time_range, wikilink,
};
use timemd::ids::ProjectSlug;
use timemd::minutes::Minutes;

fn at(hours: u32, minutes: u32) -> TimeOfDay {
    TimeOfDay::from_hms(hours, minutes, 0).expect("valid time")
}

#[test]
fn strips_either_bullet_style() {
    assert_eq!(list_item("- content"), Ok("content".to_owned()));
    assert_eq!(list_item("  * content  "), Ok("content".to_owned()));
    assert!(list_item("content").is_err());
    assert!(list_item("-no space").is_err());
}

#[test]
fn parses_zero_padded_times_only() {
    assert_eq!(time("09:00"), Ok(at(9, 0)));
    assert_eq!(time("23:59"), Ok(at(23, 59)));
    for candidate in ["9:00", "09:0", "24:00", "09:60", "0900", "ab:cd", ""] {
        assert!(time(candidate).is_err(), "{candidate:?} should be rejected");
    }
}

#[test]
fn consumes_a_time_range_and_returns_the_rest() {
    let ((start, end), rest) = time_range("09:00-09:25 (25m) [[timemd]] note").expect("parses");
    assert_eq!((start, end), (at(9, 0), at(9, 25)));
    assert_eq!(rest, "(25m) [[timemd]] note");
}

#[test]
fn spans_forward_and_across_midnight() {
    assert_eq!(span(at(9, 0), at(9, 25)), Minutes::new(25));
    assert_eq!(span(at(23, 50), at(0, 20)), Minutes::new(30));
    assert_eq!(span(at(9, 0), at(9, 0)), Minutes::new(0));
}

#[test]
fn skips_a_real_duration_group_but_keeps_a_parenthesised_note() {
    assert_eq!(skip_duration_group("(25m) rest"), "rest");
    assert_eq!(skip_duration_group("(1h30m) rest"), "rest");
    assert_eq!(skip_duration_group("(draft) rewrite"), "(draft) rewrite");
    assert_eq!(skip_duration_group("(unclosed rest"), "(unclosed rest");
    assert_eq!(skip_duration_group("no group"), "no group");
}

#[test]
fn consumes_a_wikilink_when_the_slug_is_valid() {
    let (project, rest) = wikilink("[[timemd]] file store");
    assert_eq!(project.map(|slug| slug.as_str().to_string()), Some("timemd".to_owned()));
    assert_eq!(rest, "file store");
}

#[test]
fn leaves_an_invalid_or_absent_wikilink_as_note_text() {
    assert_eq!(wikilink("[[Not A Slug]] rest"), (None, "[[Not A Slug]] rest".to_owned()));
    assert_eq!(wikilink("[[unclosed rest"), (None, "[[unclosed rest".to_owned()));
    assert_eq!(wikilink("plain note"), (None, "plain note".to_owned()));
}

#[test]
fn consumes_a_trailing_reminder_lead() {
    assert_eq!(
        reminder_suffix("Deep work !5m"),
        (Some(Minutes::new(5)), "Deep work".to_owned())
    );
    assert_eq!(reminder_suffix("!15m"), (Some(Minutes::new(15)), "".to_owned()));
    assert_eq!(reminder_suffix("Deep work"), (None, "Deep work".to_owned()));
    assert_eq!(reminder_suffix("Deep work !soon"), (None, "Deep work !soon".to_owned()));
}

#[test]
fn splits_off_the_first_token() {
    assert_eq!(split_token("  mon-fri 09:00"), ("mon-fri".to_owned(), "09:00".to_owned()));
    assert_eq!(split_token("alone"), ("alone".to_owned(), "".to_owned()));
}

#[test]
fn a_range_without_a_dash_or_with_a_bad_end_is_refused() {
    assert!(matches!(
        time_range("0900 note"),
        Err(timemd::error::ParseErrorKind::MissingTimeRange { .. })
    ));
    assert_eq!(
        time_range("09:00-25:00 note"),
        Err(timemd::error::ParseErrorKind::InvalidTime { found: "25:00".to_owned() })
    );
}

#[test]
fn formats_times_and_wikilinks() {
    assert_eq!(format_time(at(9, 5)), "09:05");
    let slug = ProjectSlug::new("timemd").expect("valid");
    assert_eq!(format_wikilink(Some(&slug)), "[[timemd]] ");
    assert_eq!(format_wikilink(None), "");
}

#[test]
fn reads_a_backtick_quoted_id() {
    let (id, rest) = take_backtick_id("`deep-work` mon-fri").expect("parses");
    assert_eq!(id.as_str(), "deep-work");
    assert_eq!(rest, "mon-fri");
    assert!(take_backtick_id("`Bad Id` mon").is_err());
    assert!(take_backtick_id("`unclosed mon").is_err());
    assert!(take_backtick_id("no id").is_err());
}

#[test]
fn dates_round_trip_through_text() {
    let parsed = date("2026-08-01").expect("valid date");
    assert_eq!(format_date(parsed), "2026-08-01");
    assert!(date("2026-02-30").is_err());
    assert!(date("2026-8-1").is_err());
    assert!(date("2024-02-29").is_ok());
}
