use timemd::active::SessionKind;

#[test]
fn only_focus_blocks_are_loggable() {
    assert!(SessionKind::Focus.is_focus());
    assert!(!SessionKind::ShortBreak.is_focus());
    assert!(!SessionKind::LongBreak.is_focus());
}

#[test]
fn kinds_round_trip_through_their_words() {
    for kind in [SessionKind::Focus, SessionKind::ShortBreak, SessionKind::LongBreak] {
        assert_eq!(SessionKind::parse(&kind.render()).ok(), Some(kind));
    }
    assert_eq!(SessionKind::ShortBreak.render(), "short_break");
    assert!(SessionKind::parse("nap").is_err());
}

use timemd::active::ActiveSession;
use timemd::clock::{CalendarDate, Moment, TimeOfDay};
use timemd::ids::ProjectSlug;
use timemd::minutes::Minutes;

const IDLE: &str = "---\n---\n\n# Active session\n\nNothing running.\n";

fn moment(hours: u32, minutes: u32) -> Moment {
    Moment::new(
        CalendarDate::from_ymd(2026, 8, 1).expect("valid date"),
        TimeOfDay::from_hms(hours, minutes, 0).expect("valid time"),
    )
}

fn running() -> ActiveSession {
    ActiveSession::new(
        moment(9, 0),
        SessionKind::Focus,
        Minutes::new(25),
        Some(ProjectSlug::new("timemd").expect("valid slug")),
        "file store layer",
    )
}

#[test]
fn an_idle_file_parses_as_nothing_running() {
    assert_eq!(ActiveSession::parse(IDLE).expect("parses"), None);
    assert_eq!(ActiveSession::parse("").expect("parses"), None);
    assert_eq!(ActiveSession::parse("---\nkind: focus\n---\n").expect("parses"), None);
}

#[test]
fn active_round_trips_through_render_and_parse() {
    let session = running();
    let reparsed = ActiveSession::parse(&session.render()).expect("parses");
    assert_eq!(reparsed, Some(session));
}

#[test]
fn renders_a_readable_file() {
    assert_eq!(
        running().render(),
        "---\nstarted: 2026-08-01T09:00:00\nkind: focus\nduration: 25m\nproject: timemd\nnote: file store layer\n---\n\n# Active session\n"
    );
}

#[test]
fn omits_absent_project_and_note() {
    let session = ActiveSession::new(moment(9, 0), SessionKind::ShortBreak, Minutes::new(5), None, "");
    let rendered = session.render();
    assert!(!rendered.contains("project:"), "{rendered}");
    assert!(!rendered.contains("note:"), "{rendered}");
    assert_eq!(ActiveSession::parse(&rendered).expect("parses"), Some(session));
}

#[test]
fn tracks_elapsed_and_remaining() {
    let session = running();
    assert_eq!(session.elapsed(moment(9, 10)), Minutes::new(10));
    assert_eq!(session.remaining(moment(9, 10)), Minutes::new(15));
    assert_eq!(session.ends_at(), Some(moment(9, 25)));
    assert!(!session.is_due(moment(9, 24)));
    assert!(session.is_due(moment(9, 25)));
}

#[test]
fn clamps_when_the_clock_moves_backwards_or_overruns() {
    let session = running();
    assert_eq!(session.elapsed(moment(8, 0)), Minutes::new(0));
    assert_eq!(session.remaining(moment(8, 0)), Minutes::new(25));
    assert_eq!(session.remaining(moment(23, 0)), Minutes::new(0));
}

#[test]
fn a_finished_focus_block_becomes_a_session() {
    let session = running().to_session(moment(9, 25)).expect("logs");
    assert_eq!(session.duration(), Minutes::new(25));
    assert_eq!(session.note, "file store layer");
    assert_eq!(session.project.as_ref().map(ProjectSlug::as_str), Some("timemd"));
}

#[test]
fn breaks_and_zero_length_blocks_are_never_logged() {
    let rest = ActiveSession::new(moment(9, 0), SessionKind::ShortBreak, Minutes::new(5), None, "");
    assert_eq!(rest.to_session(moment(9, 5)), None);
    assert_eq!(running().to_session(moment(9, 0)), None);
}
